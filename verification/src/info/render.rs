//! Laying out a manual as text. Each part of a manual is written into a string; what is
//! written is stated by a spec function of the part's model, the indentation and the width.
use vstd::prelude::*;

use crate::RenderOptions;
use crate::info::{
    Heading, Id, IndexEntry, Menu, MenuComment, MenuEntry, MenuItem, Node, NonsplitInfoFile,
    Paragraph, Printindex, SpecBlock, Verbatim,
    SpecHeading, SpecId, SpecIndexEntry, SpecMenuComment, SpecMenuEntry, SpecMenuItem, SpecNode,
    TableEntry, TextBlock, TextBlockContent, block_view, blocks_view,
};
use crate::text::{
    chars_of, count_graphemes, grapheme_count, is_whitespace, push_char, repeat_char, string_of,
    whitespace,
};

verus! {

broadcast use vstd::string::group_string_axioms;

/// `n` spaces.
pub open spec fn spaces(n: nat) -> Seq<char> {
    Seq::new(n, |_i: int| ' ')
}

/// Writes `d` after the indentation of `opt`.
pub fn write_indented(into: &mut String, d: &str, opt: RenderOptions)
    ensures
        final(into)@ == old(into)@ + spaces(opt.spec_indent() as nat) + d@,
{
    let pad = repeat_char(' ', opt.indent());
    into.append(pad.as_str());
    into.append(d);
}

/// Writes `d` after the indentation of `opt`, then a newline.
pub fn writeln_indented(into: &mut String, d: &str, opt: RenderOptions)
    ensures
        final(into)@ == old(into)@ + spaces(opt.spec_indent() as nat) + d@ + seq!['\n'],
{
    write_indented(into, d, opt);
    push_char(into, '\n');
}

/// The styles that rendering gives to text.
#[derive(Debug, Clone, Copy, PartialEq, Eq, Structural)]
pub enum Paint {
    BoldRed,
    Bold,
    Underline,
    BoldBlue,
    BrightRed,
    Green,
    Cyan,
}

/// The SGR parameters of a style: modifiers first, then the foreground color.
pub open spec fn sgr_codes(p: Paint) -> Seq<char> {
    match p {
        Paint::BoldRed => "1;31"@,
        Paint::Bold => "1"@,
        Paint::Underline => "4"@,
        Paint::BoldBlue => "1;34"@,
        Paint::BrightRed => "91"@,
        Paint::Green => "32"@,
        Paint::Cyan => "36"@,
    }
}

/// `text` between the escape sequence that sets style `p` and the one that resets all styles.
pub open spec fn painted(text: Seq<char>, p: Paint) -> Seq<char> {
    "\u{1b}["@ + sgr_codes(p) + "m"@ + text + "\u{1b}[0m"@
}

/// glyphs' `style(text)` with the modifiers and foreground color of `p`, displayed. As its
/// source shows, that is `CSI`, the codes of the modifiers then of the color joined by `;`,
/// `m`, the text, and `RESET`.
#[verifier::external_body]
fn paint(text: &str, p: Paint) -> (r: String)
    ensures
        r@ == painted(text@, p),
{
    match p {
        Paint::BoldRed => glyphs::style(text).fg(glyphs::Color::Red).bold().to_string(),
        Paint::Bold => glyphs::style(text).bold().to_string(),
        Paint::Underline => glyphs::style(text).underline().to_string(),
        Paint::BoldBlue => glyphs::style(text).bold().fg(glyphs::Color::Blue).to_string(),
        Paint::BrightRed => glyphs::style(text).fg(glyphs::Color::BrightRed).to_string(),
        Paint::Green => glyphs::style(text).fg(glyphs::Color::Green).to_string(),
        Paint::Cyan => glyphs::style(text).fg(glyphs::Color::Cyan).to_string(),
    }
}

/// How many characters of `s` are shown once its ANSI escape sequences are taken out, as
/// glyphs counts them.
pub uninterp spec fn visible_len_of(s: Seq<char>) -> nat;

/// glyphs' `visible_len`: the number of characters of `s` outside ANSI escape sequences. The
/// contract names that number and says nothing more of it.
#[verifier::external_body]
fn visible_len(s: &str) -> (r: usize)
    ensures
        r as nat == visible_len_of(s@),
{
    glyphs::visible_len(s)
}

/// The decimal digit of `d`.
pub open spec fn digit_char(d: nat) -> char {
    ((48 + d) as u8) as char
}

/// The decimal representation of `n`.
pub open spec fn decimal_digits(n: nat) -> Seq<char>
    decreases n,
{
    if n < 10 {
        seq![digit_char(n)]
    } else {
        decimal_digits(n / 10).push(digit_char(n % 10))
    }
}

/// Writes the decimal representation of `n`.
pub fn push_decimal(into: &mut String, n: usize)
    ensures
        final(into)@ == old(into)@ + decimal_digits(n as nat),
    decreases n,
{
    if n >= 10 {
        push_decimal(into, n / 10);
    }
    let d = (n % 10) as u8;
    push_char(into, (48u8 + d) as char);
    proof {
        if n < 10 {
            assert(n % 10 == n);
        }
    }
}

/// Where each node begins: its id and its line number, in the order the nodes were met.
pub type NodeLines = Vec<(Id, usize)>;

/// The line of the last entry for `id`.
pub open spec fn lookup_line(m: Seq<(SpecId, usize)>, id: SpecId) -> Option<usize>
    decreases m.len(),
{
    if m.len() == 0 {
        None
    } else if m.last().0 == id {
        Some(m.last().1)
    } else {
        lookup_line(m.drop_last(), id)
    }
}

fn same_name(a: &Option<String>, b: &Option<String>) -> (r: bool)
    ensures
        r == (a.deep_view() == b.deep_view()),
{
    match (a, b) {
        (Some(x), Some(y)) => *x == *y,
        (None, None) => true,
        _ => false,
    }
}

/// Whether two ids are the same.
pub fn same_id(a: &Id, b: &Id) -> (r: bool)
    ensures
        r == (a.deep_view() == b.deep_view()),
{
    same_name(&a.infofile, &b.infofile) && same_name(&a.nodename, &b.nodename)
}

/// The line where the node `id` begins, if it is known.
pub fn lookup(map: &NodeLines, id: &Id) -> (r: Option<usize>)
    ensures
        r == lookup_line(map.deep_view(), id.deep_view()),
{
    let mut e = map.len();
    assert(map.deep_view().take(e as int) =~= map.deep_view());
    while e > 0
        invariant
            e <= map@.len(),
            lookup_line(map.deep_view(), id.deep_view()) == lookup_line(map.deep_view().take(e as int), id.deep_view()),
        decreases e,
    {
        assert(map.deep_view().take(e as int).last() == map@[e - 1].deep_view());
        if same_id(&map[e - 1].0, id) {
            return Some(map[e - 1].1);
        }
        assert(map.deep_view().take(e as int).drop_last() =~= map.deep_view().take(e - 1));
        e = e - 1;
    }
    None
}

/// How a reference to a node is shown: the line where it begins, as `NG`, or `??????` when
/// that is not known.
pub open spec fn node_ref(m: Seq<(SpecId, usize)>, id: SpecId) -> Seq<char> {
    match lookup_line(m, id) {
        Some(line) => decimal_digits(line as nat) + "G"@,
        None => "??????"@,
    }
}

/// Writes how a reference to the node `id` is shown.
pub fn write_node_ref(into: &mut String, map: &NodeLines, id: &Id)
    ensures
        final(into)@ == old(into)@ + node_ref(map.deep_view(), id.deep_view()),
{
    match lookup(map, id) {
        Some(line) => {
            push_decimal(into, line);
            into.append("G");
        },
        None => {
            into.append("??????");
        },
    }
}


/// Where the word of `x` that goes on at `i` ends.
pub open spec fn word_end(x: Seq<char>, i: int) -> int
    decreases x.len() - i,
{
    if i < 0 || i >= x.len() || is_whitespace(x[i]) {
        i
    } else {
        word_end(x, i + 1)
    }
}

/// The words of `x` from `i` on (`str::split_whitespace`: maximal runs of characters that
/// are not white space), added to `acc`.
pub open spec fn words_from(x: Seq<char>, i: int, acc: Seq<Seq<char>>) -> Seq<Seq<char>>
    decreases x.len() - i,
{
    if i < 0 || i >= x.len() {
        acc
    } else if is_whitespace(x[i]) {
        words_from(x, i + 1, acc)
    } else if word_end(x, i) <= i || word_end(x, i) > x.len() {
        acc
    } else {
        words_from(x, word_end(x, i), acc.push(x.subrange(i, word_end(x, i))))
    }
}

/// The words of each line, one line after the other, added to `acc`.
pub open spec fn words_of_lines(lines: Seq<Seq<char>>, acc: Seq<Seq<char>>) -> Seq<Seq<char>>
    decreases lines.len(),
{
    if lines.len() == 0 {
        acc
    } else {
        words_of_lines(lines.drop_first(), words_from(lines[0], 0, acc))
    }
}

proof fn lemma_word_end(x: Seq<char>, i: int)
    requires
        0 <= i <= x.len(),
    ensures
        i <= word_end(x, i) <= x.len(),
        0 <= i < x.len() && !is_whitespace(x[i]) ==> word_end(x, i) > i,
    decreases x.len() - i,
{
    if i < x.len() && !is_whitespace(x[i]) {
        lemma_word_end(x, i + 1);
    }
}

fn add_words(line: &str, acc: &mut Vec<String>)
    ensures
        final(acc).deep_view() == words_from(line@, 0, old(acc).deep_view()),
{
    let x = chars_of(line);
    let n = x.len();
    let mut i: usize = 0;
    let ghost a0 = acc.deep_view();
    while i < n
        invariant
            n == x@.len(),
            i <= n,
            words_from(x@, 0, a0) == words_from(x@, i as int, acc.deep_view()),
        decreases n - i,
    {
        if whitespace(x[i]) {
            i = i + 1;
        } else {
            let mut e = i;
            while e < n && !whitespace(x[e])
                invariant
                    n == x@.len(),
                    i <= e <= n,
                    word_end(x@, i as int) == word_end(x@, e as int),
                decreases n - e,
            {
                e = e + 1;
            }
            proof {
                lemma_word_end(x@, i as int);
            }
            let w = string_of(x.as_slice(), i, e);
            let ghost old_a = acc.deep_view();
            acc.push(w);
            assert(acc.deep_view() =~= old_a.push(x@.subrange(i as int, e as int)));
            i = e;
        }
    }
}

/// The words of the lines, one line after the other.
pub fn lines_into_words(lines: &Vec<String>) -> (r: Vec<String>)
    ensures
        r.deep_view() == words_of_lines(lines.deep_view(), Seq::empty()),
{
    let mut r: Vec<String> = Vec::new();
    assert(r.deep_view() =~= Seq::<Seq<char>>::empty());
    let mut k: usize = 0;
    assert(lines.deep_view().skip(0) =~= lines.deep_view());
    while k < lines.len()
        invariant
            k <= lines@.len(),
            words_of_lines(lines.deep_view(), Seq::empty()) == words_of_lines(
                lines.deep_view().skip(k as int),
                r.deep_view(),
            ),
        decreases lines@.len() - k,
    {
        add_words(lines[k].as_str(), &mut r);
        assert(lines.deep_view().skip(k as int).drop_first() =~= lines.deep_view().skip(k + 1));
        k = k + 1;
    }
    r
}

/// How many columns a word takes: its grapheme clusters.
pub open spec fn width(w: Seq<char>) -> nat {
    grapheme_count(w)
}

/// Where the line that starts at word `i` ends: its first word always goes on it, each
/// following word while the line, with one space between words, stays within `max` columns.
/// `None` where the sum overflows.
pub open spec fn line_end_from(ws: Seq<Seq<char>>, i: int, len_sum: nat, max: nat) -> Option<int>
    decreases ws.len() - i,
{
    if i < 0 || i >= ws.len() {
        Some(i)
    } else if len_sum == 0 {
        line_end_from(ws, i + 1, width(ws[i]), max)
    } else if len_sum + width(ws[i]) + 1 > usize::MAX {
        None
    } else if len_sum + width(ws[i]) + 1 <= max {
        line_end_from(ws, i + 1, len_sum + width(ws[i]) + 1, max)
    } else {
        Some(i)
    }
}

/// Words separated by single spaces.
pub open spec fn join_words(ws: Seq<Seq<char>>) -> Seq<char>
    decreases ws.len(),
{
    if ws.len() == 0 {
        Seq::empty()
    } else if ws.len() == 1 {
        ws[0]
    } else {
        join_words(ws.drop_last()) + seq![' '] + ws.last()
    }
}

/// The sum of the widths of the words.
pub open spec fn total_width(ws: Seq<Seq<char>>) -> nat
    decreases ws.len(),
{
    if ws.len() == 0 {
        0
    } else {
        total_width(ws.drop_last()) + width(ws.last())
    }
}

/// The first `k` words, each after its gap: `q` spaces, and one more in the first `r` gaps.
pub open spec fn padded_prefix(ws: Seq<Seq<char>>, k: int, q: nat, r: nat) -> Seq<char>
    decreases k,
{
    if k <= 1 {
        ws[0]
    } else {
        padded_prefix(ws, k - 1, q, r) + (if k - 1 <= r {
            seq![' ']
        } else {
            Seq::empty()
        }) + spaces(q) + ws[k - 1]
    }
}

/// The words stretched to exactly `max` columns, the spaces spread over the gaps, the first
/// gaps taking one more. `None` where the words do not fit.
pub open spec fn padded_line(ws: Seq<Seq<char>>, max: nat) -> Option<Seq<char>> {
    if ws.len() == 0 {
        None
    } else if ws.len() == 1 {
        Some(ws[0])
    } else if total_width(ws) + (ws.len() - 1) > max {
        None
    } else {
        let spare = (max - total_width(ws)) as nat;
        let gaps = (ws.len() - 1) as nat;
        Some(padded_prefix(ws, ws.len() as int, spare / gaps, spare % gaps))
    }
}

/// The line that starts at word `i` and where the next one starts. Lines that are not the
/// last one are stretched to the full width when `full` holds.
pub open spec fn next_line(ws: Seq<Seq<char>>, i: int, max: nat, full: bool) -> Option<(Seq<char>, int)> {
    match line_end_from(ws, i, 0, max) {
        None => None,
        Some(e) => if e < ws.len() && full {
            match padded_line(ws.subrange(i, e), max) {
                Some(t) => Some((t, e)),
                None => None,
            }
        } else {
            Some((join_words(ws.subrange(i, e)), e))
        },
    }
}

/// The lines that the words from `i` on flow into, added to `acc`.
pub open spec fn flow_from(ws: Seq<Seq<char>>, i: int, max: nat, full: bool, acc: Seq<Seq<char>>) -> Option<Seq<Seq<char>>>
    decreases ws.len() - i,
{
    if i < 0 || i >= ws.len() {
        Some(acc)
    } else {
        match next_line(ws, i, max, full) {
            None => None,
            Some((t, e)) => if i < e <= ws.len() {
                flow_from(ws, e, max, full, acc.push(t))
            } else {
                None
            },
        }
    }
}

/// The width of each word.
pub open spec fn widths_of(ws: Seq<Seq<char>>) -> Seq<nat> {
    Seq::new(ws.len(), |k: int| width(ws[k]))
}

/// Machine widths as numbers.
pub open spec fn as_nats(v: Seq<usize>) -> Seq<nat> {
    Seq::new(v.len(), |k: int| v[k] as nat)
}

/// `line_end_from` for words of widths `wd`.
pub open spec fn line_end_w(wd: Seq<nat>, i: int, len_sum: nat, max: nat) -> Option<int>
    decreases wd.len() - i,
{
    if i < 0 || i >= wd.len() {
        Some(i)
    } else if len_sum == 0 {
        line_end_w(wd, i + 1, wd[i], max)
    } else if len_sum + wd[i] + 1 > usize::MAX {
        None
    } else if len_sum + wd[i] + 1 <= max {
        line_end_w(wd, i + 1, len_sum + wd[i] + 1, max)
    } else {
        Some(i)
    }
}

/// The widths `wd` added up.
pub open spec fn total_w(wd: Seq<nat>) -> nat
    decreases wd.len(),
{
    if wd.len() == 0 {
        0
    } else {
        total_w(wd.drop_last()) + wd.last()
    }
}

/// `padded_line` for words of widths `wd`.
pub open spec fn padded_w(ws: Seq<Seq<char>>, wd: Seq<nat>, max: nat) -> Option<Seq<char>> {
    if ws.len() == 0 {
        None
    } else if ws.len() == 1 {
        Some(ws[0])
    } else if total_w(wd) + (ws.len() - 1) > max {
        None
    } else {
        let spare = (max - total_w(wd)) as nat;
        let gaps = (ws.len() - 1) as nat;
        Some(padded_prefix(ws, ws.len() as int, spare / gaps, spare % gaps))
    }
}

proof fn lemma_line_end_widths(ws: Seq<Seq<char>>, i: int, len_sum: nat, max: nat)
    requires
        0 <= i <= ws.len(),
    ensures
        line_end_from(ws, i, len_sum, max) == line_end_w(widths_of(ws), i, len_sum, max),
    decreases ws.len() - i,
{
    if i < ws.len() {
        assert(widths_of(ws)[i] == width(ws[i]));
        lemma_line_end_widths(ws, i + 1, width(ws[i]), max);
        lemma_line_end_widths(ws, i + 1, len_sum + width(ws[i]) + 1, max);
    }
}

proof fn lemma_total_widths(ws: Seq<Seq<char>>)
    ensures
        total_width(ws) == total_w(widths_of(ws)),
    decreases ws.len(),
{
    if ws.len() > 0 {
        lemma_total_widths(ws.drop_last());
        assert(widths_of(ws).drop_last() =~= widths_of(ws.drop_last()));
    }
}

proof fn lemma_padded_widths(ws: Seq<Seq<char>>, max: nat)
    ensures
        padded_line(ws, max) == padded_w(ws, widths_of(ws), max),
{
    lemma_total_widths(ws);
}

/// Where the line that starts at word `start` ends, for words of the given widths: its first
/// word always goes on it, each following word while the line, with one space between words,
/// stays within `max` columns. Nothing where the sum would not fit in a `usize`.
pub fn line_end(widths: &Vec<usize>, start: usize, max: usize) -> (r: Option<usize>)
    requires
        start < widths@.len(),
    ensures
        match line_end_w(as_nats(widths@), start as int, 0, max as nat) {
            Some(e) => r matches Some(x) && x == e,
            None => r is None,
        },
        r matches Some(e) ==> start < e <= widths@.len(),
{
    let ghost wd = as_nats(widths@);
    let n = widths.len();
    let mut len_sum: usize = widths[start];
    let mut i = start + 1;
    assert(line_end_w(wd, start as int, 0, max as nat) == line_end_w(wd, i as int, len_sum as nat, max as nat));
    while i < n
        invariant
            n == widths@.len(),
            wd == as_nats(widths@),
            start < i <= n,
            line_end_w(wd, start as int, 0, max as nat) == line_end_w(wd, i as int, len_sum as nat, max as nat),
        decreases n - i,
    {
        let w = widths[i];
        if len_sum == 0 {
            len_sum = w;
        } else {
            let with_word = len_sum as u128 + w as u128 + 1;
            if with_word > usize::MAX as u128 {
                return None;
            } else if with_word <= max as u128 {
                len_sum = with_word as usize;
            } else {
                return Some(i);
            }
        }
        i = i + 1;
    }
    Some(i)
}

/// The words stretched to exactly `max` columns, for words of the given widths: the spaces
/// spread over the gaps, the first gaps taking one more. Nothing where the words do not fit.
pub fn stretch(words: &Vec<String>, widths: &Vec<usize>, max: usize) -> (r: Option<String>)
    requires
        widths@.len() == words@.len(),
    ensures
        match padded_w(words.deep_view(), as_nats(widths@), max as nat) {
            Some(t) => r matches Some(x) && x@ == t,
            None => r is None,
        },
{
    let ghost ws = words.deep_view();
    let ghost wd = as_nats(widths@);
    let n = words.len();
    if n == 0 {
        return None;
    }
    if n == 1 {
        return Some(words[0].clone());
    }
    let mut total: usize = 0;
    let mut k: usize = 0;
    while k < n
        invariant
            n == words@.len(),
            n == widths@.len(),
            n > 1,
            k <= n,
            wd == as_nats(widths@),
            total == total_w(wd.take(k as int)),
            total <= max,
        decreases n - k,
    {
        proof {
            assert(wd.take(k + 1).drop_last() =~= wd.take(k as int));
        }
        let w = widths[k];
        if w > max - total {
            proof {
                lemma_total_w_prefix(wd, k + 1);
            }
            return None;
        }
        total = total + w;
        k = k + 1;
    }
    assert(wd.take(n as int) =~= wd);
    if n - 1 > max - total {
        return None;
    }
    let gaps = n - 1;
    let total_spaces = max - total;
    let spaces_in_every_gap = repeat_char(' ', total_spaces / gaps);
    let mut remaining = total_spaces % gaps;
    let mut res = words[0].clone();
    let mut j: usize = 1;
    while j < n
        invariant
            n == words@.len(),
            1 <= j <= n,
            ws == words.deep_view(),
            gaps == n - 1,
            gaps > 0,
            spaces_in_every_gap@ == spaces((total_spaces / gaps) as nat),
            remaining + (j - 1) == total_spaces % gaps || (remaining == 0 && j - 1 >= total_spaces % gaps),
            res@ == padded_prefix(ws, j as int, (total_spaces / gaps) as nat, (total_spaces % gaps) as nat),
        decreases n - j,
    {
        if remaining > 0 {
            remaining = remaining - 1;
            push_char(&mut res, ' ');
        }
        res.append(spaces_in_every_gap.as_str());
        res.append(words[j].as_str());
        j = j + 1;
    }
    Some(res)
}

proof fn lemma_total_w_prefix(wd: Seq<nat>, k: int)
    requires
        0 <= k <= wd.len(),
    ensures
        total_w(wd.take(k)) <= total_w(wd),
    decreases wd.len() - k,
{
    if k < wd.len() {
        lemma_total_w_prefix(wd, k + 1);
        assert(wd.take(k + 1).drop_last() =~= wd.take(k));
    } else {
        assert(wd.take(k) =~= wd);
    }
}

/// Words laid out into lines of at most `max_width` columns, one after the other.
pub struct FlowingLines {
    words: Vec<String>,
    widths: Vec<usize>,
    next: usize,
    max_width: usize,
    use_full_width: bool,
}

impl FlowingLines {
    pub closed spec fn words_view(&self) -> Seq<Seq<char>> {
        self.words.deep_view()
    }

    pub closed spec fn position(&self) -> int {
        self.next as int
    }

    pub closed spec fn spec_max_width(&self) -> nat {
        self.max_width as nat
    }

    pub closed spec fn spec_use_full_width(&self) -> bool {
        self.use_full_width
    }

    /// The position is within the words, and the width of each word is at hand.
    pub closed spec fn wf(&self) -> bool {
        &&& self.next <= self.words@.len()
        &&& self.widths@.len() == self.words@.len()
        &&& as_nats(self.widths@) == widths_of(self.words.deep_view())
    }

    /// The words, laid out from the first one on.
    pub fn new(words: Vec<String>, max_width: usize, use_full_width: bool) -> (r: Self)
        ensures
            r.wf(),
            r.words_view() == words.deep_view(),
            r.position() == 0,
            r.spec_max_width() == max_width,
            r.spec_use_full_width() == use_full_width,
    {
        let ghost ws = words.deep_view();
        let mut widths: Vec<usize> = Vec::new();
        let mut k: usize = 0;
        while k < words.len()
            invariant
                k <= words@.len(),
                ws == words.deep_view(),
                widths@.len() == k,
                forall|j: int| 0 <= j < k ==> widths@[j] as nat == width(ws[j]),
            decreases words@.len() - k,
        {
            let w = count_graphemes(words[k].as_str());
            widths.push(w);
            k = k + 1;
        }
        assert(as_nats(widths@) =~= widths_of(ws));
        FlowingLines { words, widths, next: 0, max_width, use_full_width }
    }

    /// The words for the next line, if any word is left; `Err` where the widths of the words
    /// add up past the largest `usize`.
    fn words_for_next_line(&mut self) -> (r: Result<Option<Vec<String>>, ()>)
        requires
            old(self).wf(),
        ensures
            final(self).wf(),
            final(self).words == old(self).words,
            final(self).widths == old(self).widths,
            final(self).max_width == old(self).max_width,
            final(self).use_full_width == old(self).use_full_width,
            old(self).next >= old(self).words@.len() ==> r == Ok::<Option<Vec<String>>, ()>(None)
                && final(self).next == old(self).next,
            old(self).next < old(self).words@.len() ==> match line_end_from(
                old(self).words.deep_view(),
                old(self).next as int,
                0,
                old(self).max_width as nat,
            ) {
                None => r is Err,
                Some(e) => r matches Ok(Some(v)) && e == final(self).next && old(self).next < final(self).next
                    && v.deep_view() == old(self).words.deep_view().subrange(old(self).next as int, e),
            },
    {
        let n = self.words.len();
        if self.next >= n {
            return Ok(None);
        }
        let start = self.next;
        let ghost ws = self.words.deep_view();
        proof {
            lemma_line_end_widths(ws, start as int, 0, self.max_width as nat);
        }
        let e = match line_end(&self.widths, start, self.max_width) {
            Some(e) => e,
            None => return Err(()),
        };
        let mut taken: Vec<String> = Vec::new();
        let mut i = start;
        assert(taken.deep_view() =~= ws.subrange(start as int, start as int));
        while i < e
            invariant
                n == self.words@.len(),
                ws == self.words.deep_view(),
                start <= i <= e <= n,
                taken.deep_view() == ws.subrange(start as int, i as int),
            decreases e - i,
        {
            let ghost old_t = taken.deep_view();
            let w = self.words[i].clone();
            assert(w@ == ws[i as int]);
            taken.push(w);
            assert(taken.deep_view() =~= old_t.push(w@));
            assert(old_t.push(w@) =~= ws.subrange(start as int, i + 1));
            i = i + 1;
        }
        self.next = e;
        Ok(Some(taken))
    }

    /// The words with single spaces between them.
    fn joined(words: &Vec<String>) -> (r: String)
        ensures
            r@ == join_words(words.deep_view()),
    {
        let mut r = String::new();
        let mut k: usize = 0;
        while k < words.len()
            invariant
                k <= words@.len(),
                r@ == join_words(words.deep_view().take(k as int)),
            decreases words@.len() - k,
        {
            if k > 0 {
                push_char(&mut r, ' ');
            }
            r.append(words[k].as_str());
            proof {
                let t = words.deep_view().take(k + 1);
                assert(t.drop_last() =~= words.deep_view().take(k as int));
                if k == 0 {
                    assert(words.deep_view().take(0) =~= Seq::<Seq<char>>::empty());
                }
            }
            k = k + 1;
        }
        assert(words.deep_view().take(words@.len() as int) =~= words.deep_view());
        r
    }

    /// The next line, if any word is left; `Err` where the words do not fit.
    pub fn try_next(&mut self) -> (r: Result<Option<String>, ()>)
        requires
            old(self).wf(),
        ensures
            final(self).wf(),
            final(self).words_view() == old(self).words_view(),
            final(self).spec_max_width() == old(self).spec_max_width(),
            final(self).spec_use_full_width() == old(self).spec_use_full_width(),
            old(self).position() >= old(self).words_view().len() ==> r == Ok::<Option<String>, ()>(None)
                && final(self).position() == old(self).position(),
            old(self).position() < old(self).words_view().len() ==> match next_line(
                old(self).words_view(),
                old(self).position(),
                old(self).spec_max_width(),
                old(self).spec_use_full_width(),
            ) {
                None => r is Err,
                Some((t, e)) => r matches Ok(Some(line)) && line@ == t && final(self).position() == e
                    && old(self).position() < e,
            },
    {
        let start = self.next;
        let words = match self.words_for_next_line() {
            Ok(Some(w)) => w,
            Ok(None) => return Ok(None),
            Err(_) => return Err(()),
        };
        if self.next < self.words.len() && self.use_full_width {
            let ghost ws = self.words.deep_view();
            let e = self.next;
            let mut line_widths: Vec<usize> = Vec::new();
            let mut k = start;
            while k < e
                invariant
                    start <= k <= e <= self.widths@.len(),
                    line_widths@ == self.widths@.subrange(start as int, k as int),
                decreases e - k,
            {
                line_widths.push(self.widths[k]);
                assert(line_widths@ =~= self.widths@.subrange(start as int, k + 1));
                k = k + 1;
            }
            proof {
                let lw = ws.subrange(start as int, e as int);
                assert(words.deep_view() == lw);
                assert(as_nats(line_widths@) =~= widths_of(lw)) by {
                    assert forall|j: int| 0 <= j < lw.len() implies as_nats(line_widths@)[j] == widths_of(lw)[j] by {
                        assert(as_nats(self.widths@)[start + j] == widths_of(ws)[start + j]);
                    }
                }
                lemma_padded_widths(lw, self.max_width as nat);
            }
            match stretch(&words, &line_widths, self.max_width) {
                Some(line) => Ok(Some(line)),
                None => Err(()),
            }
        } else {
            Ok(Some(Self::joined(&words)))
        }
    }

    /// The next line, if any word is left.
    pub fn next(&mut self) -> (r: Option<String>)
        requires
            old(self).wf(),
            old(self).position() < old(self).words_view().len() ==> next_line(
                old(self).words_view(),
                old(self).position(),
                old(self).spec_max_width(),
                old(self).spec_use_full_width(),
            ) is Some,
        ensures
            final(self).wf(),
            final(self).words_view() == old(self).words_view(),
            final(self).spec_max_width() == old(self).spec_max_width(),
            final(self).spec_use_full_width() == old(self).spec_use_full_width(),
            old(self).position() >= old(self).words_view().len() ==> r is None && final(self).position()
                == old(self).position(),
            old(self).position() < old(self).words_view().len() ==> (r matches Some(line) && next_line(
                old(self).words_view(),
                old(self).position(),
                old(self).spec_max_width(),
                old(self).spec_use_full_width(),
            ) == Some((line@, final(self).position())) && old(self).position() < final(self).position()),
    {
        match self.try_next() {
            Ok(line) => line,
            Err(_) => None,
        }
    }
}

/// The lines that `words` flow into: at most `max_width` columns each where the words allow,
/// stretched to exactly `max_width` columns but for the last one when `use_full_width` holds;
/// nothing where they do not fit (a width that overflows, or a stretched line that would not
/// fit its words).
pub fn flowing_lines(words: Vec<String>, max_width: usize, use_full_width: bool) -> (r: Option<Vec<String>>)
    ensures
        match flow_from(words.deep_view(), 0, max_width as nat, use_full_width, Seq::empty()) {
            Some(ls) => r matches Some(v) && v.deep_view() == ls,
            None => r is None,
        },
{
    let ghost ws = words.deep_view();
    let mut fl = FlowingLines::new(words, max_width, use_full_width);
    let mut r: Vec<String> = Vec::new();
    assert(r.deep_view() =~= Seq::<Seq<char>>::empty());
    loop
        invariant
            fl.wf(),
            ws == words.deep_view(),
            fl.words.deep_view() == ws,
            fl.max_width == max_width,
            fl.use_full_width == use_full_width,
            flow_from(ws, 0, max_width as nat, use_full_width, Seq::empty()) == flow_from(
                ws,
                fl.next as int,
                max_width as nat,
                use_full_width,
                r.deep_view(),
            ),
        decreases ws.len() - fl.next,
    {
        let ghost before = fl.next;
        match fl.try_next() {
            Ok(Some(line)) => {
                let ghost old_r = r.deep_view();
                r.push(line);
                assert(r.deep_view() =~= old_r.push(line@));
            },
            Ok(None) => {
                assert(before >= ws.len());
                return Some(r);
            },
            Err(_) => {
                return None;
            },
        }
    }
}

// ---------------------------------------------------------------------------------------------
// What each part of a manual renders to. `ind` and `width` are the indentation and the width
// of the layout; `None` stands for a layout that cannot be narrowed as far as the part needs,
// or words that do not fit, where rendering stops without a result.
// ---------------------------------------------------------------------------------------------

/// The layout `k` columns further in and as much narrower.
pub open spec fn indent_by(ind: nat, width: nat, k: nat) -> Option<(nat, nat)> {
    if ind + k <= usize::MAX && k <= width {
        Some(((ind + k) as nat, (width - k) as nat))
    } else {
        None
    }
}

/// `d` on a line of its own after `ind` spaces.
pub open spec fn ln(ind: nat, d: Seq<char>) -> Seq<char> {
    spaces(ind) + d + seq!['\n']
}

/// Each line on a line of its own after `ind` spaces.
pub open spec fn lines_out(ind: nat, ls: Seq<Seq<char>>) -> Seq<char>
    decreases ls.len(),
{
    if ls.len() == 0 {
        Seq::empty()
    } else {
        lines_out(ind, ls.drop_last()) + ln(ind, ls.last())
    }
}

/// Each line in style `p` on a line of its own after `ind` spaces.
pub open spec fn painted_lines_out(ind: nat, ls: Seq<Seq<char>>, p: Paint) -> Seq<char>
    decreases ls.len(),
{
    if ls.len() == 0 {
        Seq::empty()
    } else {
        painted_lines_out(ind, ls.drop_last(), p) + ln(ind, painted(ls.last(), p))
    }
}

/// `n` newlines.
pub open spec fn newlines(n: nat) -> Seq<char> {
    Seq::new(n, |_i: int| '\n')
}

pub open spec fn cat(a: Option<Seq<char>>, b: Option<Seq<char>>) -> Option<Seq<char>> {
    match (a, b) {
        (Some(x), Some(y)) => Some(x + y),
        _ => None,
    }
}

/// A paragraph: its words flowed into lines of the full width, then an empty line.
pub open spec fn render_paragraph(lines: Seq<Seq<char>>, ind: nat, width: nat) -> Option<Seq<char>> {
    match flow_from(words_of_lines(lines, Seq::empty()), 0, width, true, Seq::empty()) {
        Some(fl) => Some(lines_out(ind, fl) + seq!['\n']),
        None => None,
    }
}

/// Lines in style `p`, `k` columns further in, then an empty line.
pub open spec fn render_styled_lines(lines: Seq<Seq<char>>, ind: nat, width: nat, k: nat, p: Paint) -> Option<Seq<char>> {
    match indent_by(ind, width, k) {
        Some((i, _)) => Some(painted_lines_out(i, lines, p) + seq!['\n']),
        None => None,
    }
}

/// A heading: its text in bold red, not indented.
pub open spec fn render_heading(h: SpecHeading) -> Seq<char> {
    painted(h.text, Paint::BoldRed) + seq!['\n']
}

/// How an index entry shows its node.
pub open spec fn index_id(node: SpecId, m: Seq<(SpecId, usize)>) -> Seq<char> {
    match node.nodename {
        Some(n) => n + " ("@ + node_ref(m, node) + ")"@,
        None => "("@ + painted(node_ref(m, node), Paint::BoldBlue) + ")"@,
    }
}

/// The entries of an index, each on a line of its own.
pub open spec fn index_entries_out(es: Seq<SpecIndexEntry>, ind: nat, m: Seq<(SpecId, usize)>) -> Seq<char>
    decreases es.len(),
{
    if es.len() == 0 {
        Seq::empty()
    } else {
        index_entries_out(es.drop_last(), ind, m) + ln(
            ind,
            painted(es.last().text, Paint::Underline) + ": "@ + index_id(es.last().node, m),
        )
    }
}

/// An index: a bold title, the entries two columns further in, an empty line.
pub open spec fn render_index(es: Seq<SpecIndexEntry>, ind: nat, width: nat, m: Seq<(SpecId, usize)>) -> Option<Seq<char>> {
    match indent_by(ind, width, 2) {
        Some((i2, _)) => Some(
            ln(ind, painted("* Index:\n"@, Paint::Bold)) + index_entries_out(es, i2, m) + seq!['\n'],
        ),
        None => None,
    }
}

/// How a menu entry shows its node: the label (or else the node name) and where the node
/// begins.
pub open spec fn entry_id(e: SpecMenuEntry, m: Seq<(SpecId, usize)>) -> Seq<char> {
    let label = match e.label {
        Some(l) => Some(l),
        None => e.id.nodename,
    };
    match label {
        Some(l) => l + " ("@ + painted(node_ref(m, e.id), Paint::BoldBlue) + ")"@,
        None => "("@ + painted(node_ref(m, e.id), Paint::BoldBlue) + ")"@,
    }
}

/// How wide each item of a menu shows its id: an entry as wide as glyphs finds its id once
/// the escape sequences are taken out, a comment not at all.
pub open spec fn id_widths(items: Seq<SpecMenuItem>, m: Seq<(SpecId, usize)>) -> Seq<nat> {
    Seq::new(
        items.len(),
        |k: int|
            match items[k] {
                SpecMenuItem::Entry(e) => visible_len_of(entry_id(e, m)),
                SpecMenuItem::Comment(_) => 0,
            },
    )
}

/// The widest id among the entries of a menu, each item shown `idw` wide.
pub open spec fn longest_entry_id(items: Seq<SpecMenuItem>, idw: Seq<nat>) -> nat
    decreases items.len(),
{
    if items.len() == 0 {
        0
    } else {
        let rest = longest_entry_id(items.drop_last(), idw.drop_last());
        match items.last() {
            SpecMenuItem::Entry(_) => if idw.last() > rest {
                idw.last()
            } else {
                rest
            },
            SpecMenuItem::Comment(_) => rest,
        }
    }
}

/// A menu entry whose id shows `id_width` wide: its id padded to `longest` columns, then its
/// description flowed into the description column.
pub open spec fn render_menu_entry(
    e: SpecMenuEntry,
    m: Seq<(SpecId, usize)>,
    longest: nat,
    id_width: nat,
    id_ind: nat,
    descr_ind: nat,
    descr_width: nat,
) -> Option<Seq<char>> {
    let head = spaces(id_ind) + entry_id(e, m) + spaces((longest - id_width) as nat) + "  "@;
    match flow_from(words_of_lines(e.description, Seq::empty()), 0, descr_width, false, Seq::empty()) {
        None => None,
        Some(fl) => Some(head + (if fl.len() == 0 {
            seq!['\n']
        } else {
            fl[0] + seq!['\n'] + lines_out(descr_ind, fl.skip(1))
        }) + newlines(e.trailing_newlines)),
    }
}

/// A menu comment: its words flowed into the width of the menu, two columns further in.
pub open spec fn render_menu_comment(c: SpecMenuComment, id_ind: nat, width: nat) -> Option<Seq<char>> {
    match flow_from(words_of_lines(c.lines, Seq::empty()), 0, width, false, Seq::empty()) {
        None => None,
        Some(fl) => Some(lines_out(id_ind, fl) + newlines(c.trailing_newlines)),
    }
}

/// The items of a menu, each shown `idw` wide, one after the other.
pub open spec fn menu_items_out(
    items: Seq<SpecMenuItem>,
    idw: Seq<nat>,
    m: Seq<(SpecId, usize)>,
    longest: nat,
    width: nat,
    id_ind: nat,
    descr_ind: nat,
    descr_width: nat,
) -> Option<Seq<char>>
    decreases items.len(),
{
    if items.len() == 0 {
        Some(Seq::empty())
    } else {
        cat(
            menu_items_out(items.drop_last(), idw.drop_last(), m, longest, width, id_ind, descr_ind, descr_width),
            match items.last() {
                SpecMenuItem::Entry(e) => render_menu_entry(e, m, longest, idw.last(), id_ind, descr_ind, descr_width),
                SpecMenuItem::Comment(c) => render_menu_comment(c, id_ind, width),
            },
        )
    }
}

/// A menu whose items show their ids `idw` wide: a bold title, the items two columns further
/// in, an empty line.
pub open spec fn render_menu_w(
    items: Seq<SpecMenuItem>,
    idw: Seq<nat>,
    ind: nat,
    width: nat,
    m: Seq<(SpecId, usize)>,
) -> Option<Seq<char>> {
    let longest = longest_entry_id(items, idw);
    match indent_by(ind, width, 2) {
        None => None,
        Some((i2, w2)) => if longest + 2 > usize::MAX {
            None
        } else {
            match indent_by(i2, w2, longest + 2) {
                None => None,
                Some((i3, w3)) => cat(
                    Some(ln(ind, painted("* Menu:"@, Paint::Bold))),
                    cat(menu_items_out(items, idw, m, longest, width, i2, i3, w3), Some(seq!['\n'])),
                ),
            }
        },
    }
}

/// A menu.
pub open spec fn render_menu(items: Seq<SpecMenuItem>, ind: nat, width: nat, m: Seq<(SpecId, usize)>) -> Option<Seq<char>> {
    render_menu_w(items, id_widths(items, m), ind, width, m)
}

/// A text block.
pub open spec fn render_block(b: SpecBlock, ind: nat, width: nat, m: Seq<(SpecId, usize)>) -> Option<Seq<char>>
    decreases b, 0int,
{
    match b {
        SpecBlock::Paragraph(lines) => render_paragraph(lines, ind, width),
        SpecBlock::Menu(items) => render_menu(items, ind, width, m),
        SpecBlock::Printindex(es) => render_index(es, ind, width, m),
        SpecBlock::Heading(h) => Some(render_heading(h)),
        SpecBlock::Verbatim(lines) => render_styled_lines(lines, ind, width, 5, Paint::Green),
        SpecBlock::TableEntry(title, description) => {
            let head = ln(ind, painted(title, Paint::Cyan));
            if description.len() == 0 {
                Some(head + seq!['\n'])
            } else {
                match indent_by(ind, width, 5) {
                    None => None,
                    Some((i5, w5)) => cat(Some(head), render_blocks(description, i5, w5, m)),
                }
            }
        },
        SpecBlock::BunchOfUnknownLines(lines) => render_styled_lines(lines, ind, width, 3, Paint::BrightRed),
    }
}

/// Text blocks, one after the other.
pub open spec fn render_blocks(bs: Seq<SpecBlock>, ind: nat, width: nat, m: Seq<(SpecId, usize)>) -> Option<Seq<char>>
    decreases bs, 1int,
{
    if bs.len() == 0 {
        Some(Seq::empty())
    } else {
        cat(render_blocks(bs.subrange(0, bs.len() - 1), ind, width, m), render_block(bs[bs.len() - 1], ind, width, m))
    }
}

/// A node: its text blocks, seven columns further in.
pub open spec fn render_node(n: SpecNode, ind: nat, width: nat, m: Seq<(SpecId, usize)>) -> Option<Seq<char>> {
    match indent_by(ind, width, 7) {
        None => None,
        Some((i7, w7)) => render_blocks(n.general_text, i7, w7, m),
    }
}


fn write_lines(into: &mut String, lines: &Vec<String>, from: usize, o: RenderOptions)
    requires
        from <= lines@.len(),
    ensures
        final(into)@ == old(into)@ + lines_out(o.spec_indent() as nat, lines.deep_view().skip(from as int)),
{
    let ghost start = into@;
    let ghost ls = lines.deep_view().skip(from as int);
    let mut k = from;
    assert(ls.take(0) =~= Seq::<Seq<char>>::empty());
    while k < lines.len()
        invariant
            from <= k <= lines@.len(),
            ls == lines.deep_view().skip(from as int),
            into@ == start + lines_out(o.spec_indent() as nat, ls.take(k - from)),
        decreases lines@.len() - k,
    {
        writeln_indented(into, lines[k].as_str(), o);
        assert(ls.take(k + 1 - from).drop_last() =~= ls.take(k - from));
        k = k + 1;
    }
    assert(ls.take(k - from) =~= ls);
}

fn write_painted_lines(into: &mut String, lines: &Vec<String>, o: RenderOptions, p: Paint)
    ensures
        final(into)@ == old(into)@ + painted_lines_out(o.spec_indent() as nat, lines.deep_view(), p),
{
    let ghost start = into@;
    let ghost ls = lines.deep_view();
    let mut k: usize = 0;
    assert(ls.take(0) =~= Seq::<Seq<char>>::empty());
    while k < lines.len()
        invariant
            k <= lines@.len(),
            ls == lines.deep_view(),
            into@ == start + painted_lines_out(o.spec_indent() as nat, ls.take(k as int), p),
        decreases lines@.len() - k,
    {
        let styled = paint(lines[k].as_str(), p);
        writeln_indented(into, styled.as_str(), o);
        assert(ls.take(k + 1).drop_last() =~= ls.take(k as int));
        k = k + 1;
    }
    assert(ls.take(k as int) =~= ls);
}

impl Paragraph {
    /// Writes the paragraph; `false` where its words do not fit.
    pub fn render(&self, into: &mut String, opt: RenderOptions) -> (ok: bool)
        ensures
            ok == render_paragraph(self.lines.deep_view(), opt.spec_indent() as nat, opt.spec_max_width() as nat) is Some,
            ok ==> Some(final(into)@) == cat(
                Some(old(into)@),
                render_paragraph(self.lines.deep_view(), opt.spec_indent() as nat, opt.spec_max_width() as nat),
            ),
    {
        let words = lines_into_words(&self.lines);
        let fl = match flowing_lines(words, opt.max_width(), true) {
            Some(fl) => fl,
            None => return false,
        };
        write_lines(into, &fl, 0, opt);
        assert(fl.deep_view().skip(0) =~= fl.deep_view());
        push_char(into, '\n');
        true
    }
}

impl Verbatim {
    /// Writes the verbatim lines, five columns further in; `false` where the layout is too
    /// narrow for that.
    pub fn render(&self, into: &mut String, opt: RenderOptions) -> (ok: bool)
        ensures
            ok == render_styled_lines(self.lines.deep_view(), opt.spec_indent() as nat, opt.spec_max_width() as nat, 5, Paint::Green) is Some,
            ok ==> Some(final(into)@) == cat(
                Some(old(into)@),
                render_styled_lines(self.lines.deep_view(), opt.spec_indent() as nat, opt.spec_max_width() as nat, 5, Paint::Green),
            ),
    {
        let o5 = match opt.checked_indented(5) {
            Some(o) => o,
            None => return false,
        };
        write_painted_lines(into, &self.lines, o5, Paint::Green);
        push_char(into, '\n');
        true
    }
}

fn render_unknown_lines(lines: &Vec<String>, into: &mut String, opt: RenderOptions) -> (ok: bool)
    ensures
        ok == render_styled_lines(lines.deep_view(), opt.spec_indent() as nat, opt.spec_max_width() as nat, 3, Paint::BrightRed) is Some,
        ok ==> Some(final(into)@) == cat(
            Some(old(into)@),
            render_styled_lines(lines.deep_view(), opt.spec_indent() as nat, opt.spec_max_width() as nat, 3, Paint::BrightRed),
        ),
{
    let o3 = match opt.checked_indented(3) {
        Some(o) => o,
        None => return false,
    };
    write_painted_lines(into, lines, o3, Paint::BrightRed);
    push_char(into, '\n');
    true
}

impl Heading {
    /// Writes the heading.
    pub fn render(&self, into: &mut String)
        ensures
            final(into)@ == old(into)@ + render_heading(self.deep_view()),
    {
        let styled = paint(self.text.as_str(), Paint::BoldRed);
        into.append(styled.as_str());
        push_char(into, '\n');
    }
}

/// Writes how an index entry shows its node.
fn write_index_id(into: &mut String, node: &Id, node_lines: &NodeLines)
    ensures
        final(into)@ == old(into)@ + index_id(node.deep_view(), node_lines.deep_view()),
{
    match &node.nodename {
        Some(nodename) => {
            into.append(nodename.as_str());
            into.append(" (");
            write_node_ref(into, node_lines, node);
            into.append(")");
        },
        None => {
            let mut r = String::new();
            write_node_ref(&mut r, node_lines, node);
            let styled = paint(r.as_str(), Paint::BoldBlue);
            into.append("(");
            into.append(styled.as_str());
            into.append(")");
        },
    }
}

impl Printindex {
    /// Writes the index; `false` where the layout is too narrow for its entries.
    pub fn render(&self, into: &mut String, opt: RenderOptions, node_lines: &NodeLines) -> (ok: bool)
        ensures
            ok == render_index(self.entries.deep_view(), opt.spec_indent() as nat, opt.spec_max_width() as nat, node_lines.deep_view()) is Some,
            ok ==> Some(final(into)@) == cat(
                Some(old(into)@),
                render_index(self.entries.deep_view(), opt.spec_indent() as nat, opt.spec_max_width() as nat, node_lines.deep_view()),
            ),
    {
        let o2 = match opt.checked_indented(2) {
            Some(o) => o,
            None => return false,
        };
        let title = paint("* Index:\n", Paint::Bold);
        writeln_indented(into, title.as_str(), opt);
        let ghost start = into@;
        let ghost es = self.entries.deep_view();
        let ghost m = node_lines.deep_view();
        let mut k: usize = 0;
        assert(es.take(0) =~= Seq::<SpecIndexEntry>::empty());
        while k < self.entries.len()
            invariant
                k <= self.entries@.len(),
                es == self.entries.deep_view(),
                m == node_lines.deep_view(),
                into@ == start + index_entries_out(es.take(k as int), o2.spec_indent() as nat, m),
            decreases self.entries@.len() - k,
        {
            let e = &self.entries[k];
            let mut line = paint(e.text.as_str(), Paint::Underline);
            line.append(": ");
            write_index_id(&mut line, &e.node, node_lines);
            writeln_indented(into, line.as_str(), o2);
            assert(es.take(k + 1).drop_last() =~= es.take(k as int));
            k = k + 1;
        }
        assert(es.take(k as int) =~= es);
        push_char(into, '\n');
        true
    }
}


/// How a menu entry shows its node.
fn render_entry_id(entry: &MenuEntry, map: &NodeLines) -> (r: String)
    ensures
        r@ == entry_id(entry.deep_view(), map.deep_view()),
{
    let mut loc = String::new();
    write_node_ref(&mut loc, map, &entry.id);
    let styled = paint(loc.as_str(), Paint::BoldBlue);
    let label = match &entry.label {
        Some(l) => Some(l),
        None => match &entry.id.nodename {
            Some(n) => Some(n),
            None => None,
        },
    };
    let mut r = String::new();
    match label {
        Some(l) => {
            r.append(l.as_str());
            r.append(" (");
        },
        None => {
            r.append("(");
        },
    }
    r.append(styled.as_str());
    r.append(")");
    proof {
        reveal_strlit(" (");
        reveal_strlit("(");
    }
    r
}

fn write_newlines(into: &mut String, n: usize)
    ensures
        final(into)@ == old(into)@ + newlines(n as nat),
{
    let s = repeat_char('\n', n);
    into.append(s.as_str());
}

impl Menu {
    /// Writes the menu; `false` where the layout is too narrow for it or its words do not fit.
    pub fn render(&self, into: &mut String, opt: RenderOptions, node_lines: &NodeLines) -> (ok: bool)
        ensures
            ok == render_menu(self.items.deep_view(), opt.spec_indent() as nat, opt.spec_max_width() as nat, node_lines.deep_view()) is Some,
            ok ==> Some(final(into)@) == cat(
                Some(old(into)@),
                render_menu(self.items.deep_view(), opt.spec_indent() as nat, opt.spec_max_width() as nat, node_lines.deep_view()),
            ),
    {
        let ghost items = self.items.deep_view();
        let ghost m = node_lines.deep_view();
        let mut widths: Vec<usize> = Vec::new();
        let mut k: usize = 0;
        while k < self.items.len()
            invariant
                k <= self.items@.len(),
                items == self.items.deep_view(),
                m == node_lines.deep_view(),
                widths@.len() == k,
                forall|j: int| 0 <= j < k ==> widths@[j] as nat == #[trigger] id_widths(items, m)[j],
            decreases self.items@.len() - k,
        {
            let w = match &self.items[k] {
                MenuItem::Entry(entry) => visible_len(render_entry_id(entry, node_lines).as_str()),
                MenuItem::Comment(_) => 0,
            };
            widths.push(w);
            k = k + 1;
        }
        assert(as_nats(widths@) =~= id_widths(items, m));
        self.render_with_id_widths(into, opt, node_lines, &widths)
    }

    /// Writes the menu, each item showing its id as wide as `id_widths` says; `false` where
    /// the layout is too narrow for it or its words do not fit.
    pub fn render_with_id_widths(&self, into: &mut String, opt: RenderOptions, node_lines: &NodeLines, id_widths: &Vec<usize>) -> (ok: bool)
        requires
            id_widths@.len() == self.items@.len(),
        ensures
            ok == render_menu_w(self.items.deep_view(), as_nats(id_widths@), opt.spec_indent() as nat,
                opt.spec_max_width() as nat, node_lines.deep_view()) is Some,
            ok ==> Some(final(into)@) == cat(
                Some(old(into)@),
                render_menu_w(self.items.deep_view(), as_nats(id_widths@), opt.spec_indent() as nat,
                    opt.spec_max_width() as nat, node_lines.deep_view()),
            ),
    {
        let ghost items = self.items.deep_view();
        let ghost idw = as_nats(id_widths@);
        let ghost m = node_lines.deep_view();
        let mut longest: usize = 0;
        let mut k: usize = 0;
        assert(items.take(0) =~= Seq::<SpecMenuItem>::empty());
        while k < self.items.len()
            invariant
                k <= self.items@.len(),
                id_widths@.len() == self.items@.len(),
                items == self.items.deep_view(),
                idw == as_nats(id_widths@),
                longest as nat == longest_entry_id(items.take(k as int), idw.take(k as int)),
            decreases self.items@.len() - k,
        {
            assert(items.take(k + 1).drop_last() =~= items.take(k as int));
            assert(idw.take(k + 1).drop_last() =~= idw.take(k as int));
            match &self.items[k] {
                MenuItem::Entry(_) => {
                    if id_widths[k] > longest {
                        longest = id_widths[k];
                    }
                },
                MenuItem::Comment(_) => {},
            }
            k = k + 1;
        }
        assert(items.take(k as int) =~= items);
        assert(idw.take(k as int) =~= idw);
        let id_opt = match opt.checked_indented(2) {
            Some(o) => o,
            None => return false,
        };
        if longest > usize::MAX - 2 {
            return false;
        }
        let descr_opt = match id_opt.checked_indented(longest + 2) {
            Some(o) => o,
            None => return false,
        };
        let title = paint("* Menu:", Paint::Bold);
        writeln_indented(into, title.as_str(), opt);
        let ghost start = into@;
        let ghost ind = opt.spec_indent() as nat;
        let ghost width = opt.spec_max_width() as nat;
        let ghost di = descr_opt.spec_indent() as nat;
        let ghost dw = descr_opt.spec_max_width() as nat;
        let ghost ii = id_opt.spec_indent() as nat;
        let mut k: usize = 0;
        assert(items.take(0) =~= Seq::<SpecMenuItem>::empty());
        while k < self.items.len()
            invariant
                k <= self.items@.len(),
                id_widths@.len() == self.items@.len(),
                items == self.items.deep_view(),
                idw == as_nats(id_widths@),
                m == node_lines.deep_view(),
                ind == opt.spec_indent(),
                width == opt.spec_max_width(),
                ii == id_opt.spec_indent(),
                di == descr_opt.spec_indent(),
                dw == descr_opt.spec_max_width(),
                longest as nat == longest_entry_id(items, idw),
                render_menu_w(items, idw, ind, width, m) == cat(
                    Some(ln(ind, painted("* Menu:"@, Paint::Bold))),
                    cat(menu_items_out(items, idw, m, longest as nat, width, ii, di, dw), Some(seq!['\n'])),
                ),
                Some(into@) == cat(Some(start), menu_items_out(items.take(k as int), idw.take(k as int), m,
                    longest as nat, width, ii, di, dw)),
            decreases self.items@.len() - k,
        {
            proof {
                assert(items.take(k + 1).drop_last() =~= items.take(k as int));
                assert(idw.take(k + 1).drop_last() =~= idw.take(k as int));
            }
            let ok = match &self.items[k] {
                MenuItem::Entry(entry) => {
                    proof {
                        assert(items[k as int] == SpecMenuItem::Entry(entry.deep_view()));
                        lemma_longest(items, idw, k as int);
                    }
                    render_entry(entry, into, node_lines, longest, id_widths[k], id_opt, descr_opt)
                },
                MenuItem::Comment(comment) => {
                    proof {
                        assert(items[k as int] == SpecMenuItem::Comment(comment.deep_view()));
                    }
                    render_comment(comment, into, opt, id_opt)
                },
            };
            if !ok {
                proof {
                    assert(items.take(k + 1).last() == items[k as int]);
                    assert(menu_items_out(items.take(k + 1), idw.take(k + 1), m, longest as nat, width, ii, di, dw) is None);
                    if menu_items_out(items, idw, m, longest as nat, width, ii, di, dw) is Some {
                        lemma_menu_items_prefix(items, idw, k as int + 1, m, longest as nat, width, ii, di, dw);
                    }
                }
                return false;
            }
            k = k + 1;
        }
        assert(items.take(k as int) =~= items);
        assert(idw.take(k as int) =~= idw);
        push_char(into, '\n');
        true
    }
}

proof fn lemma_menu_items_prefix(
    items: Seq<SpecMenuItem>,
    idw: Seq<nat>,
    k: int,
    m: Seq<(SpecId, usize)>,
    longest: nat,
    width: nat,
    id_ind: nat,
    descr_ind: nat,
    descr_width: nat,
)
    requires
        0 <= k <= items.len(),
        idw.len() == items.len(),
        menu_items_out(items, idw, m, longest, width, id_ind, descr_ind, descr_width) is Some,
    ensures
        menu_items_out(items.take(k), idw.take(k), m, longest, width, id_ind, descr_ind, descr_width) is Some,
    decreases items.len() - k,
{
    if k < items.len() {
        lemma_menu_items_prefix(items, idw, k + 1, m, longest, width, id_ind, descr_ind, descr_width);
        assert(items.take(k + 1).drop_last() =~= items.take(k));
        assert(idw.take(k + 1).drop_last() =~= idw.take(k));
    } else {
        assert(items.take(k) =~= items);
        assert(idw.take(k) =~= idw);
    }
}

proof fn lemma_longest(items: Seq<SpecMenuItem>, idw: Seq<nat>, i: int)
    requires
        0 <= i < items.len(),
        idw.len() == items.len(),
        items[i] is Entry,
    ensures
        idw[i] <= longest_entry_id(items, idw),
    decreases items.len(),
{
    if i < items.len() - 1 {
        lemma_longest(items.drop_last(), idw.drop_last(), i);
    }
}

fn render_entry(
    entry: &MenuEntry,
    into: &mut String,
    node_lines: &NodeLines,
    longest: usize,
    id_width: usize,
    id_opt: RenderOptions,
    descr_opt: RenderOptions,
) -> (ok: bool)
    requires
        id_width <= longest,
    ensures
        ok == render_menu_entry(entry.deep_view(), node_lines.deep_view(), longest as nat, id_width as nat,
            id_opt.spec_indent() as nat, descr_opt.spec_indent() as nat, descr_opt.spec_max_width() as nat) is Some,
        ok ==> Some(final(into)@) == cat(
            Some(old(into)@),
            render_menu_entry(entry.deep_view(), node_lines.deep_view(), longest as nat, id_width as nat,
                id_opt.spec_indent() as nat, descr_opt.spec_indent() as nat, descr_opt.spec_max_width() as nat),
        ),
{
    let id = render_entry_id(entry, node_lines);
    let pad = longest - id_width;
    let mut head = id;
    let sp = repeat_char(' ', pad);
    head.append(sp.as_str());
    head.append("  ");
    let words = lines_into_words(&entry.description);
    let fl = match flowing_lines(words, descr_opt.max_width(), false) {
        Some(fl) => fl,
        None => return false,
    };
    write_indented(into, head.as_str(), id_opt);
    if fl.len() == 0 {
        push_char(into, '\n');
    } else {
        into.append(fl[0].as_str());
        push_char(into, '\n');
        write_lines(into, &fl, 1, descr_opt);
    }
    write_newlines(into, entry.trailing_newlines);
    proof {
        reveal_strlit("  ");
    }
    true
}

fn render_comment(comment: &MenuComment, into: &mut String, opt: RenderOptions, id_opt: RenderOptions) -> (ok: bool)
    ensures
        ok == render_menu_comment(comment.deep_view(), id_opt.spec_indent() as nat, opt.spec_max_width() as nat) is Some,
        ok ==> Some(final(into)@) == cat(
            Some(old(into)@),
            render_menu_comment(comment.deep_view(), id_opt.spec_indent() as nat, opt.spec_max_width() as nat),
        ),
{
    let words = lines_into_words(&comment.lines);
    let fl = match flowing_lines(words, opt.max_width(), false) {
        Some(fl) => fl,
        None => return false,
    };
    write_lines(into, &fl, 0, id_opt);
    assert(fl.deep_view().skip(0) =~= fl.deep_view());
    write_newlines(into, comment.trailing_newlines);
    true
}


proof fn lemma_render_blocks_prefix(bs: Seq<SpecBlock>, k: int, ind: nat, width: nat, m: Seq<(SpecId, usize)>)
    requires
        0 <= k <= bs.len(),
        render_blocks(bs, ind, width, m) is Some,
    ensures
        render_blocks(bs.take(k), ind, width, m) is Some,
        k < bs.len() ==> render_block(bs[k], ind, width, m) is Some,
    decreases bs.len() - k,
{
    if k < bs.len() {
        lemma_render_blocks_prefix(bs, k + 1, ind, width, m);
        assert(bs.take(k + 1).subrange(0, k) =~= bs.take(k));
    } else {
        assert(bs.take(k) =~= bs);
    }
}

/// Writes a text block; `false` where the layout is too narrow for it or its words do not fit.
pub fn render_text_block(b: &TextBlock, into: &mut String, opt: RenderOptions, node_lines: &NodeLines) -> (ok: bool)
    ensures
        ok == render_block(block_view(*b), opt.spec_indent() as nat, opt.spec_max_width() as nat, node_lines.deep_view()) is Some,
        ok ==> Some(final(into)@) == cat(
            Some(old(into)@),
            render_block(block_view(*b), opt.spec_indent() as nat, opt.spec_max_width() as nat, node_lines.deep_view()),
        ),
    decreases *b, 0int,
{
    match &b.content {
        TextBlockContent::Paragraph(paragraph) => paragraph.render(into, opt),
        TextBlockContent::Menu(menu) => menu.render(into, opt, node_lines),
        TextBlockContent::Printindex(printindex) => printindex.render(into, opt, node_lines),
        TextBlockContent::Heading(heading) => {
            heading.render(into);
            true
        },
        TextBlockContent::Verbatim(verbatim) => verbatim.render(into, opt),
        TextBlockContent::TableEntry(entry) => {
            assert(decreases_to!(*b => *entry));
            entry.render(into, opt, node_lines)
        },
        TextBlockContent::BunchOfUnknownLines(lines) => render_unknown_lines(lines, into, opt),
    }
}

impl TableEntry {
    /// Writes the title, then the description five columns further in; `false` where the
    /// layout is too narrow for the description or one of its blocks cannot be written.
    pub fn render(&self, into: &mut String, opt: RenderOptions, node_lines: &NodeLines) -> (ok: bool)
        ensures
            ok == render_block(
                SpecBlock::TableEntry(self.title@, blocks_view(self.description@)),
                opt.spec_indent() as nat,
                opt.spec_max_width() as nat,
                node_lines.deep_view(),
            ) is Some,
            ok ==> Some(final(into)@) == cat(
                Some(old(into)@),
                render_block(
                    SpecBlock::TableEntry(self.title@, blocks_view(self.description@)),
                    opt.spec_indent() as nat,
                    opt.spec_max_width() as nat,
                    node_lines.deep_view(),
                ),
            ),
        decreases *self, 0int,
    {
        proof {
            crate::info::lemma_blocks_view_len(self.description@);
        }
        let title = paint(self.title.as_str(), Paint::Cyan);
        if self.description.len() == 0 {
            writeln_indented(into, title.as_str(), opt);
            push_char(into, '\n');
            true
        } else {
            let o5 = match opt.checked_indented(5) {
                Some(o) => o,
                None => return false,
            };
            writeln_indented(into, title.as_str(), opt);
            assert(decreases_to!(*self => self.description@));
            render_text_blocks(&self.description, into, o5, node_lines)
        }
    }
}

/// Writes text blocks, one after the other; `false` where one of them cannot be written.
pub fn render_text_blocks(bs: &Vec<TextBlock>, into: &mut String, opt: RenderOptions, node_lines: &NodeLines) -> (ok: bool)
    ensures
        ok == render_blocks(blocks_view(bs@), opt.spec_indent() as nat, opt.spec_max_width() as nat, node_lines.deep_view()) is Some,
        ok ==> Some(final(into)@) == cat(
            Some(old(into)@),
            render_blocks(blocks_view(bs@), opt.spec_indent() as nat, opt.spec_max_width() as nat, node_lines.deep_view()),
        ),
    decreases bs@, 1int,
{
    let ghost sv = blocks_view(bs@);
    let ghost ind = opt.spec_indent() as nat;
    let ghost width = opt.spec_max_width() as nat;
    let ghost m = node_lines.deep_view();
    let ghost start = into@;
    proof {
        crate::info::lemma_blocks_view_len(bs@);
    }
    let mut k: usize = 0;
    assert(sv.take(0) =~= Seq::<SpecBlock>::empty());
    while k < bs.len()
        invariant
            k <= bs@.len(),
            sv == blocks_view(bs@),
            sv.len() == bs@.len(),
            forall|i: int| 0 <= i < bs@.len() ==> sv[i] == block_view(#[trigger] bs@[i]),
            ind == opt.spec_indent(),
            width == opt.spec_max_width(),
            m == node_lines.deep_view(),
            Some(into@) == cat(Some(start), render_blocks(sv.take(k as int), ind, width, m)),
        decreases bs@.len() - k,
    {
        proof {
            assert(sv.take(k + 1).subrange(0, k as int) =~= sv.take(k as int));
        }
        let ok = render_text_block(&bs[k], into, opt, node_lines);
        if !ok {
            proof {
                if render_blocks(sv, ind, width, m) is Some {
                    lemma_render_blocks_prefix(sv, k as int, ind, width, m);
                }
            }
            return false;
        }
        k = k + 1;
    }
    assert(sv.take(k as int) =~= sv);
    true
}

impl Node {
    /// Writes the node: its text blocks, seven columns further in; `false` where one of them
    /// cannot be written.
    pub fn render(&self, into: &mut String, opt: RenderOptions, node_lines: &NodeLines) -> (ok: bool)
        ensures
            ok == render_node(self.deep_view(), opt.spec_indent() as nat, opt.spec_max_width() as nat, node_lines.deep_view()) is Some,
            ok ==> Some(final(into)@) == cat(
                Some(old(into)@),
                render_node(self.deep_view(), opt.spec_indent() as nat, opt.spec_max_width() as nat, node_lines.deep_view()),
            ),
    {
        let o7 = match opt.checked_indented(7) {
            Some(o) => o,
            None => return false,
        };
        render_text_blocks(&self.general_text, into, o7, node_lines)
    }
}


/// The number of newlines in `x`.
pub open spec fn count_newlines(x: Seq<char>) -> nat
    decreases x.len(),
{
    if x.len() == 0 {
        0
    } else {
        count_newlines(x.drop_last()) + if x.last() == '\n' {
            1nat
        } else {
            0nat
        }
    }
}

/// Where each node from `k` on begins, when it is rendered after `count` lines and no node
/// position is known yet, added to `acc`. `None` where a line count overflows.
pub open spec fn resolve_from(
    nodes: Seq<SpecNode>,
    k: int,
    ind: nat,
    width: nat,
    count: nat,
    acc: Seq<(SpecId, usize)>,
) -> Option<Seq<(SpecId, usize)>>
    decreases nodes.len() - k,
{
    if k < 0 || k >= nodes.len() {
        Some(acc)
    } else if count + 1 > usize::MAX {
        None
    } else {
        match render_node(nodes[k], ind, width, Seq::empty()) {
            None => None,
            Some(out) => if count + count_newlines(out) > usize::MAX {
                None
            } else {
                resolve_from(
                    nodes,
                    k + 1,
                    ind,
                    width,
                    count + count_newlines(out),
                    acc.push((nodes[k].node, (count + 1) as usize)),
                )
            },
        }
    }
}

/// Where each node begins: the number of the line of the rendered manual that its text starts
/// on (the first line is 1).
pub open spec fn node_begin_lines(nodes: Seq<SpecNode>, ind: nat, width: nat) -> Option<Seq<(SpecId, usize)>> {
    resolve_from(nodes, 0, ind, width, 0, Seq::empty())
}

/// The nodes, one after the other.
pub open spec fn render_nodes_out(nodes: Seq<SpecNode>, ind: nat, width: nat, m: Seq<(SpecId, usize)>) -> Option<Seq<char>>
    decreases nodes.len(),
{
    if nodes.len() == 0 {
        Some(Seq::empty())
    } else {
        cat(render_nodes_out(nodes.drop_last(), ind, width, m), render_node(nodes.last(), ind, width, m))
    }
}

/// A whole manual: its nodes, each reference showing the line where its node begins.
pub open spec fn render_file(nodes: Seq<SpecNode>, ind: nat, width: nat) -> Option<Seq<char>> {
    match node_begin_lines(nodes, ind, width) {
        Some(m) => render_nodes_out(nodes, ind, width, m),
        None => None,
    }
}

/// Counts the newlines of what is written into it.
pub struct CountNewlines {
    count: usize,
}

impl CountNewlines {
    pub closed spec fn spec_count(&self) -> nat {
        self.count as nat
    }

    /// Nothing counted yet.
    pub fn new() -> (r: Self)
        ensures
            r.spec_count() == 0,
    {
        CountNewlines { count: 0 }
    }

    /// The newlines counted so far.
    pub fn count(&self) -> (r: usize)
        ensures
            r == self.spec_count(),
    {
        self.count
    }

    /// Counts the newlines of `buf`; `false`, with the count unchanged, where the count would
    /// not fit in a `usize`.
    pub fn write(&mut self, buf: &str) -> (ok: bool)
        ensures
            ok == (old(self).spec_count() + count_newlines(buf@) <= usize::MAX),
            ok ==> final(self).spec_count() == old(self).spec_count() + count_newlines(buf@),
            !ok ==> final(self).spec_count() == old(self).spec_count(),
    {
        let x = chars_of(buf);
        let mut c: usize = 0;
        let mut i: usize = 0;
        assert(x@.take(0) =~= Seq::<char>::empty());
        while i < x.len()
            invariant
                i <= x@.len(),
                c <= i,
                x@ == buf@,
                c as nat == count_newlines(x@.take(i as int)),
            decreases x@.len() - i,
        {
            assert(x@.take(i + 1).drop_last() =~= x@.take(i as int));
            if x[i] == '\n' {
                c = c + 1;
            }
            i = i + 1;
        }
        assert(x@.take(i as int) =~= x@);
        if c > usize::MAX - self.count {
            return false;
        }
        self.count = self.count + c;
        true
    }
}

fn clone_name(n: &Option<String>) -> (r: Option<String>)
    ensures
        r.deep_view() == n.deep_view(),
{
    match n {
        Some(s) => Some(s.clone()),
        None => None,
    }
}

/// A copy of the id.
pub fn clone_id(id: &Id) -> (r: Id)
    ensures
        r.deep_view() == id.deep_view(),
{
    Id { infofile: clone_name(&id.infofile), nodename: clone_name(&id.nodename) }
}

proof fn lemma_render_nodes_prefix(nodes: Seq<SpecNode>, k: int, ind: nat, width: nat, m: Seq<(SpecId, usize)>)
    requires
        0 <= k <= nodes.len(),
        render_nodes_out(nodes, ind, width, m) is Some,
    ensures
        render_nodes_out(nodes.take(k), ind, width, m) is Some,
        k < nodes.len() ==> render_node(nodes[k], ind, width, m) is Some,
    decreases nodes.len() - k,
{
    if k < nodes.len() {
        lemma_render_nodes_prefix(nodes, k + 1, ind, width, m);
        assert(nodes.take(k + 1).drop_last() =~= nodes.take(k));
    } else {
        assert(nodes.take(k) =~= nodes);
    }
}

/// Why a manual could not be rendered: a part of it needs more columns than the layout has
/// left, or a width or a line count does not fit in a `usize`.
#[derive(Debug, Clone, Copy, PartialEq, Eq, Structural)]
pub enum RenderError {
    DoesNotFit,
}

impl NonsplitInfoFile {
    /// Writes the nodes, one after the other.
    pub fn render_nodes(&self, into: &mut String, opt: RenderOptions, node_lines: &NodeLines) -> (r: Result<(), RenderError>)
        ensures
            r is Ok == render_nodes_out(self.nodes.deep_view(), opt.spec_indent() as nat, opt.spec_max_width() as nat, node_lines.deep_view()) is Some,
            r is Ok ==> Some(final(into)@) == cat(
                Some(old(into)@),
                render_nodes_out(self.nodes.deep_view(), opt.spec_indent() as nat, opt.spec_max_width() as nat, node_lines.deep_view()),
            ),
    {
        let ghost nv = self.nodes.deep_view();
        let ghost ind = opt.spec_indent() as nat;
        let ghost width = opt.spec_max_width() as nat;
        let ghost m = node_lines.deep_view();
        let ghost start = into@;
        let mut k: usize = 0;
        assert(nv.take(0) =~= Seq::<SpecNode>::empty());
        while k < self.nodes.len()
            invariant
                k <= self.nodes@.len(),
                nv == self.nodes.deep_view(),
                ind == opt.spec_indent(),
                width == opt.spec_max_width(),
                m == node_lines.deep_view(),
                Some(into@) == cat(Some(start), render_nodes_out(nv.take(k as int), ind, width, m)),
            decreases self.nodes@.len() - k,
        {
            proof {
                assert(nv.take(k + 1).drop_last() =~= nv.take(k as int));
            }
            if !self.nodes[k].render(into, opt, node_lines) {
                proof {
                    if render_nodes_out(nv, ind, width, m) is Some {
                        lemma_render_nodes_prefix(nv, k as int, ind, width, m);
                    }
                }
                return Err(RenderError::DoesNotFit);
            }
            k = k + 1;
        }
        assert(nv.take(k as int) =~= nv);
        Ok(())
    }

    /// Where each node begins once the manual is rendered with `opt`.
    pub fn resolve_node_begin_lines(&self, opt: RenderOptions) -> (r: Result<NodeLines, RenderError>)
        ensures
            match node_begin_lines(self.nodes.deep_view(), opt.spec_indent() as nat, opt.spec_max_width() as nat) {
                Some(m) => r matches Ok(v) && v.deep_view() == m,
                None => r is Err,
            },
    {
        let ghost nv = self.nodes.deep_view();
        let ghost ind = opt.spec_indent() as nat;
        let ghost width = opt.spec_max_width() as nat;
        let mut map: NodeLines = Vec::new();
        let fake: NodeLines = Vec::new();
        assert(fake.deep_view() =~= Seq::<(SpecId, usize)>::empty());
        assert(map.deep_view() =~= Seq::<(SpecId, usize)>::empty());
        let mut w = CountNewlines::new();
        let mut k: usize = 0;
        while k < self.nodes.len()
            invariant
                k <= self.nodes@.len(),
                nv == self.nodes.deep_view(),
                ind == opt.spec_indent(),
                width == opt.spec_max_width(),
                fake.deep_view() == Seq::<(SpecId, usize)>::empty(),
                node_begin_lines(nv, ind, width) == resolve_from(nv, k as int, ind, width, w.spec_count(), map.deep_view()),
            decreases self.nodes@.len() - k,
        {
            let count = w.count();
            if count == usize::MAX {
                return Err(RenderError::DoesNotFit);
            }
            let id = clone_id(&self.nodes[k].node);
            let ghost old_map = map.deep_view();
            map.push((id, count + 1));
            assert(map.deep_view() =~= old_map.push((nv[k as int].node, (count + 1) as usize)));
            let mut out = String::new();
            if !self.nodes[k].render(&mut out, opt, &fake) {
                return Err(RenderError::DoesNotFit);
            }
            assert(Seq::<char>::empty() + out@ =~= out@);
            if !w.write(out.as_str()) {
                return Err(RenderError::DoesNotFit);
            }
            k = k + 1;
        }
        Ok(map)
    }

    /// Writes the whole manual.
    pub fn render(&self, into: &mut String, opt: RenderOptions) -> (r: Result<(), RenderError>)
        ensures
            r is Ok == render_file(self.nodes.deep_view(), opt.spec_indent() as nat, opt.spec_max_width() as nat) is Some,
            r is Ok ==> Some(final(into)@) == cat(
                Some(old(into)@),
                render_file(self.nodes.deep_view(), opt.spec_indent() as nat, opt.spec_max_width() as nat),
            ),
    {
        let node_lines = self.resolve_node_begin_lines(opt)?;
        self.render_nodes(into, opt, &node_lines)
    }

    /// The file name that the first node gives, or nothing when there is no node.
    pub fn title(&self) -> (r: &str)
        ensures
            r@ == if self.nodes@.len() > 0 {
                self.nodes@[0].file@
            } else {
                Seq::<char>::empty()
            },
    {
        if self.nodes.len() > 0 {
            self.nodes[0].file.as_str()
        } else {
            proof {
                reveal_strlit("");
            }
            ""
        }
    }
}


// ---------------------------------------------------------------------------------------------
// Laws
// ---------------------------------------------------------------------------------------------

/// Indenting by `a` and then by `b` is indenting by `a + b`; where indenting by `a` is not
/// possible, neither is indenting by `a + b`.
pub proof fn law_indent_compose(ind: nat, width: nat, a: nat, b: nat)
    ensures
        match indent_by(ind, width, a) {
            Some((i1, w1)) => indent_by(i1, w1, b) == indent_by(ind, width, a + b),
            None => indent_by(ind, width, a + b) is None,
        },
{
}

/// The line last recorded for a node is the line that a lookup gives, and recording a node
/// leaves what a lookup gives for every other node as it was.
pub proof fn law_lookup_after_record(m: Seq<(SpecId, usize)>, id: SpecId, line: usize, other: SpecId)
    ensures
        lookup_line(m.push((id, line)), id) == Some(line),
        other != id ==> lookup_line(m.push((id, line)), other) == lookup_line(m, other),
{
    assert(m.push((id, line)).drop_last() =~= m);
}

pub proof fn lemma_count_newlines_add(a: Seq<char>, b: Seq<char>)
    ensures
        count_newlines(a + b) == count_newlines(a) + count_newlines(b),
    decreases b.len(),
{
    if b.len() == 0 {
        assert(a + b =~= a);
    } else {
        lemma_count_newlines_add(a, b.drop_last());
        assert((a + b).drop_last() =~= a + b.drop_last());
    }
}

/// The lines that the nodes before the `k`-th render to, when no node position is known.
pub open spec fn lines_before(nodes: Seq<SpecNode>, k: int, ind: nat, width: nat) -> Option<nat> {
    match render_nodes_out(nodes.take(k), ind, width, Seq::empty()) {
        Some(out) => Some(count_newlines(out)),
        None => None,
    }
}

proof fn lemma_resolve_shape(
    nodes: Seq<SpecNode>,
    j: int,
    ind: nat,
    width: nat,
    count: nat,
    acc: Seq<(SpecId, usize)>,
)
    requires
        0 <= j <= nodes.len(),
        lines_before(nodes, j, ind, width) == Some(count),
        resolve_from(nodes, j, ind, width, count, acc) is Some,
    ensures
        ({
            let m = resolve_from(nodes, j, ind, width, count, acc).unwrap();
            &&& m.len() == acc.len() + (nodes.len() - j)
            &&& forall|i: int| 0 <= i < acc.len() ==> m[i] == acc[i]
            &&& forall|i: int|
                j <= i < nodes.len() ==> lines_before(nodes, i, ind, width) is Some && m[acc.len() + i - j]
                    == (nodes[i].node, (1 + lines_before(nodes, i, ind, width).unwrap()) as usize)
                    && 1 + lines_before(nodes, i, ind, width).unwrap() <= usize::MAX
        }),
    decreases nodes.len() - j,
{
    if j < nodes.len() {
        let out = render_node(nodes[j], ind, width, Seq::empty()).unwrap();
        let prev = render_nodes_out(nodes.take(j), ind, width, Seq::empty()).unwrap();
        assert(nodes.take(j + 1).drop_last() =~= nodes.take(j));
        assert(render_nodes_out(nodes.take(j + 1), ind, width, Seq::empty()) == Some(prev + out));
        lemma_count_newlines_add(prev, out);
        let acc2 = acc.push((nodes[j].node, (count + 1) as usize));
        lemma_resolve_shape(nodes, j + 1, ind, width, count + count_newlines(out), acc2);
    }
}

proof fn lemma_lookup_last(m: Seq<(SpecId, usize)>, k: int)
    requires
        0 <= k < m.len(),
        forall|i: int| k < i < m.len() ==> m[i].0 != m[k].0,
    ensures
        lookup_line(m, m[k].0) == Some(m[k].1),
    decreases m.len(),
{
    if k < m.len() - 1 {
        assert(m.last().0 != m[k].0);
        lemma_lookup_last(m.drop_last(), k);
    }
}

/// Where a node begins: the line after all the lines that the nodes before it render to (with
/// no node position known), provided no later node has the same id.
pub proof fn law_node_begin_line(nodes: Seq<SpecNode>, ind: nat, width: nat, k: int)
    requires
        0 <= k < nodes.len(),
        node_begin_lines(nodes, ind, width) is Some,
        forall|i: int| k < i < nodes.len() ==> nodes[i].node != nodes[k].node,
    ensures
        lines_before(nodes, k, ind, width) is Some,
        lookup_line(node_begin_lines(nodes, ind, width).unwrap(), nodes[k].node) == Some(
            (1 + lines_before(nodes, k, ind, width).unwrap()) as usize,
        ),
{
    assert(nodes.take(0) =~= Seq::<SpecNode>::empty());
    assert(lines_before(nodes, 0, ind, width) == Some(0nat));
    lemma_resolve_shape(nodes, 0, ind, width, 0, Seq::empty());
    let m = node_begin_lines(nodes, ind, width).unwrap();
    assert forall|i: int| k < i < m.len() implies m[i].0 != m[k].0 by {
        assert(m[i] == (nodes[i].node, (1 + lines_before(nodes, i, ind, width).unwrap()) as usize));
    }
    lemma_lookup_last(m, k);
}


proof fn lemma_lines_before_step(nodes: Seq<SpecNode>, j: int, ind: nat, width: nat)
    requires
        0 <= j < nodes.len(),
        lines_before(nodes, j + 1, ind, width) is Some,
    ensures
        lines_before(nodes, j, ind, width) is Some,
        lines_before(nodes, j, ind, width).unwrap() <= lines_before(nodes, j + 1, ind, width).unwrap(),
{
    assert(nodes.take(j + 1).drop_last() =~= nodes.take(j));
    let prev = render_nodes_out(nodes.take(j), ind, width, Seq::empty()).unwrap();
    let out = render_node(nodes[j], ind, width, Seq::empty()).unwrap();
    lemma_count_newlines_add(prev, out);
}

proof fn lemma_lines_before_mono(nodes: Seq<SpecNode>, i: int, j: int, ind: nat, width: nat)
    requires
        0 <= i <= j <= nodes.len(),
        lines_before(nodes, j, ind, width) is Some,
    ensures
        lines_before(nodes, i, ind, width) is Some,
        lines_before(nodes, i, ind, width).unwrap() <= lines_before(nodes, j, ind, width).unwrap(),
    decreases j - i,
{
    if i < j {
        lemma_lines_before_step(nodes, j - 1, ind, width);
        lemma_lines_before_mono(nodes, i, j - 1, ind, width);
    }
}

/// Where the nodes begin: one entry per node, in the order of the file; node `i` begins on the
/// line after all the lines that the nodes before it render to (with no node position known),
/// so the first node begins on line 1 and no node begins before an earlier one.
pub proof fn law_node_begin_lines(nodes: Seq<SpecNode>, ind: nat, width: nat)
    requires
        node_begin_lines(nodes, ind, width) is Some,
    ensures
        ({
            let m = node_begin_lines(nodes, ind, width).unwrap();
            &&& m.len() == nodes.len()
            &&& forall|i: int|
                0 <= i < nodes.len() ==> lines_before(nodes, i, ind, width) is Some && #[trigger] m[i] == (
                    nodes[i].node,
                    (1 + lines_before(nodes, i, ind, width).unwrap()) as usize,
                ) && 1 + lines_before(nodes, i, ind, width).unwrap() <= usize::MAX
            &&& nodes.len() > 0 ==> m[0].1 == 1
            &&& forall|i: int, j: int| 0 <= i < j < nodes.len() ==> #[trigger] m[i].1 <= #[trigger] m[j].1
        }),
{
    assert(nodes.take(0) =~= Seq::<SpecNode>::empty());
    assert(lines_before(nodes, 0, ind, width) == Some(0nat));
    lemma_resolve_shape(nodes, 0, ind, width, 0, Seq::empty());
    let m = node_begin_lines(nodes, ind, width).unwrap();
    assert forall|i: int, j: int| 0 <= i < j < nodes.len() implies #[trigger] m[i].1 <= #[trigger] m[j].1 by {
        assert(m[i] == (nodes[i].node, (1 + lines_before(nodes, i, ind, width).unwrap()) as usize));
        assert(m[j] == (nodes[j].node, (1 + lines_before(nodes, j, ind, width).unwrap()) as usize));
        lemma_lines_before_mono(nodes, i, j, ind, width);
    }
    if nodes.len() > 0 {
        assert(m[0] == (nodes[0].node, (1 + lines_before(nodes, 0, ind, width).unwrap()) as usize));
    }
}

proof fn lemma_lookup_absent(m: Seq<(SpecId, usize)>, id: SpecId)
    requires
        forall|i: int| 0 <= i < m.len() ==> #[trigger] m[i].0 != id,
    ensures
        lookup_line(m, id) is None,
    decreases m.len(),
{
    if m.len() > 0 {
        assert(m[m.len() - 1].0 != id);
        lemma_lookup_absent(m.drop_last(), id);
    }
}

/// Looking up a node in where the nodes begin: a node that no later node shares its id with is
/// found on the line after all the lines the nodes before it render to; an id that no node has is
/// not found.
pub proof fn law_node_line_lookup(nodes: Seq<SpecNode>, ind: nat, width: nat, id: SpecId)
    requires
        node_begin_lines(nodes, ind, width) is Some,
    ensures
        (forall|i: int| 0 <= i < nodes.len() ==> #[trigger] nodes[i].node != id) ==> lookup_line(
            node_begin_lines(nodes, ind, width).unwrap(),
            id,
        ) is None,
        forall|k: int|
            0 <= k < nodes.len() && #[trigger] nodes[k].node == id && (forall|i: int|
                k < i < nodes.len() ==> nodes[i].node != id) ==> lines_before(nodes, k, ind, width) is Some
                && lookup_line(node_begin_lines(nodes, ind, width).unwrap(), id) == Some(
                (1 + lines_before(nodes, k, ind, width).unwrap()) as usize,
            ),
{
    law_node_begin_lines(nodes, ind, width);
    let m = node_begin_lines(nodes, ind, width).unwrap();
    if forall|i: int| 0 <= i < nodes.len() ==> #[trigger] nodes[i].node != id {
        assert forall|i: int| 0 <= i < m.len() implies #[trigger] m[i].0 != id by {
            assert(m[i].0 == nodes[i].node);
        }
        lemma_lookup_absent(m, id);
    }
    assert forall|k: int|
        0 <= k < nodes.len() && #[trigger] nodes[k].node == id && (forall|i: int|
            k < i < nodes.len() ==> nodes[i].node != id) implies lines_before(nodes, k, ind, width) is Some
            && lookup_line(m, id) == Some((1 + lines_before(nodes, k, ind, width).unwrap()) as usize) by {
        law_node_begin_line(nodes, ind, width, k);
    }
}

proof fn lemma_total_width_step(ws: Seq<Seq<char>>, i: int, j: int)
    requires
        0 <= i <= j < ws.len(),
    ensures
        total_width(ws.subrange(i, j + 1)) == total_width(ws.subrange(i, j)) + width(ws[j]),
{
    assert(ws.subrange(i, j + 1).drop_last() =~= ws.subrange(i, j));
}

proof fn lemma_line_fill(ws: Seq<Seq<char>>, i: int, j: int, max: nat)
    requires
        0 <= i < j <= ws.len(),
        forall|k: int| 0 <= k < ws.len() ==> width(#[trigger] ws[k]) >= 1,
        j - i == 1 || total_width(ws.subrange(i, j)) + (j - i - 1) <= max,
        line_end_from(ws, j, (total_width(ws.subrange(i, j)) + (j - i - 1)) as nat, max) is Some,
    ensures
        ({
            let e = line_end_from(ws, j, (total_width(ws.subrange(i, j)) + (j - i - 1)) as nat, max).unwrap();
            &&& j <= e <= ws.len()
            &&& e - i == 1 || total_width(ws.subrange(i, e)) + (e - i - 1) <= max
            &&& e < ws.len() ==> total_width(ws.subrange(i, e)) + (e - i - 1) + width(ws[e]) + 1 > max
        }),
    decreases ws.len() - j,
{
    let s = (total_width(ws.subrange(i, j)) + (j - i - 1)) as nat;
    if j < ws.len() {
        lemma_total_width_step(ws, i, j);
        assert(width(ws[i]) >= 1);
        if i + 1 == j {
            assert(ws.subrange(i, j).drop_last() =~= ws.subrange(i, i));
            assert(total_width(ws.subrange(i, i)) == 0) by {
                assert(ws.subrange(i, i) =~= Seq::<Seq<char>>::empty());
            }
        }
        assert(s > 0) by {
            assert(total_width(ws.subrange(i, j)) >= width(ws[j - 1])) by {
                lemma_total_width_step(ws, i, j - 1);
            }
            assert(width(ws[j - 1]) >= 1);
        }
        if s + width(ws[j]) + 1 <= max {
            lemma_line_fill(ws, i, j + 1, max);
        }
    }
}

/// The lines are filled greedily: a line is its first word and as many of the following words
/// as fit with one space between them, and the next word would not have fit. (Each word is
/// taken to be at least one column wide, as any nonempty word is.)
pub proof fn law_line_fill(ws: Seq<Seq<char>>, i: int, max: nat)
    requires
        0 <= i < ws.len(),
        forall|k: int| 0 <= k < ws.len() ==> width(#[trigger] ws[k]) >= 1,
        line_end_from(ws, i, 0, max) is Some,
    ensures
        ({
            let e = line_end_from(ws, i, 0, max).unwrap();
            &&& i < e <= ws.len()
            &&& e - i == 1 || total_width(ws.subrange(i, e)) + (e - i - 1) <= max
            &&& e < ws.len() ==> total_width(ws.subrange(i, e)) + (e - i - 1) + width(ws[e]) + 1 > max
        }),
{
    assert(ws.subrange(i, i + 1).drop_last() =~= ws.subrange(i, i));
    assert(ws.subrange(i, i) =~= Seq::<Seq<char>>::empty());
    assert(total_width(ws.subrange(i, i)) == 0);
    assert(ws.subrange(i, i + 1).last() == ws[i]);
    assert(total_width(ws.subrange(i, i + 1)) == width(ws[i]));
    assert(line_end_from(ws, i, 0, max) == line_end_from(ws, i + 1, width(ws[i]), max));
    lemma_line_fill(ws, i, i + 1, max);
}


/// The width of gap `k` (the first gap is 1) when each gap takes `q` spaces and the first `r`
/// gaps one more.
pub open spec fn gap_width(k: int, q: nat, r: nat) -> nat {
    q + if k <= r {
        1nat
    } else {
        0nat
    }
}

/// The widths of the first `k` gaps, added up.
pub open spec fn gaps_width(k: int, q: nat, r: nat) -> nat
    decreases k,
{
    if k <= 0 {
        0
    } else {
        gaps_width(k - 1, q, r) + gap_width(k, q, r)
    }
}

proof fn lemma_gaps_width(k: int, q: nat, r: nat)
    requires
        0 <= k,
    ensures
        gaps_width(k, q, r) == k * q + if k <= r {
            k
        } else {
            r as int
        },
    decreases k,
{
    if k > 0 {
        lemma_gaps_width(k - 1, q, r);
        assert((k - 1) * q + q == k * q) by (nonlinear_arith);
    } else {
        assert(0 * q == 0);
    }
}

/// A stretched line takes exactly the full width: each word comes after its gap, the widths of
/// the words and of the gaps add up to `max`, and no gap is narrower than a later one or more
/// than one space wider.
pub proof fn law_stretch_fills_width(ws: Seq<Seq<char>>, max: nat)
    requires
        ws.len() >= 2,
        padded_line(ws, max) is Some,
    ensures
        ({
            let g = (ws.len() - 1) as nat;
            let spare = (max - total_width(ws)) as nat;
            let q = spare / g;
            let r = spare % g;
            &&& padded_line(ws, max) == Some(padded_prefix(ws, ws.len() as int, q, r))
            &&& forall|k: int| 2 <= k <= ws.len() ==> #[trigger] padded_prefix(ws, k, q, r) == padded_prefix(ws, k - 1, q, r)
                + spaces(gap_width(k - 1, q, r)) + ws[k - 1]
            &&& total_width(ws) + gaps_width(g as int, q, r) == max
            &&& forall|j: int, k: int| 1 <= j < k <= g ==> gap_width(k, q, r) <= #[trigger] gap_width(j, q, r)
                <= #[trigger] gap_width(k, q, r) + 1
        }),
{
    let g = (ws.len() - 1) as nat;
    let spare = (max - total_width(ws)) as nat;
    let q = spare / g;
    let r = spare % g;
    assert forall|k: int| 2 <= k <= ws.len() implies #[trigger] padded_prefix(ws, k, q, r) == padded_prefix(ws, k - 1, q, r)
        + spaces(gap_width(k - 1, q, r)) + ws[k - 1] by {
        if k - 1 <= r {
            assert(seq![' '] + spaces(q) =~= spaces(q + 1));
        } else {
            assert(Seq::<char>::empty() + spaces(q) =~= spaces(q));
        }
    }
    lemma_gaps_width(g as int, q, r);
    assert(r < g);
    assert(spare == g * q + r) by (nonlinear_arith)
        requires
            g > 0,
            q == spare / g,
            r == spare % g,
    ;
}


/// A word: nonempty, without white space.
pub open spec fn is_word(w: Seq<char>) -> bool {
    w.len() > 0 && forall|k: int| 0 <= k < w.len() ==> !is_whitespace(#[trigger] w[k])
}

/// Nothing runs on from the end of `x` into `y`.
pub open spec fn separated(x: Seq<char>, y: Seq<char>) -> bool {
    x.len() == 0 || y.len() == 0 || is_whitespace(x.last()) || is_whitespace(y[0])
}

proof fn lemma_word_end_shift(x: Seq<char>, y: Seq<char>, j: int)
    requires
        0 <= j <= y.len(),
    ensures
        word_end(x + y, x.len() + j) == x.len() + word_end(y, j),
    decreases y.len() - j,
{
    if j < y.len() && !is_whitespace(y[j]) {
        assert((x + y)[x.len() + j] == y[j]);
        lemma_word_end_shift(x, y, j + 1);
    } else if j < y.len() {
        assert((x + y)[x.len() + j] == y[j]);
    }
}

proof fn lemma_words_shift(x: Seq<char>, y: Seq<char>, j: int, acc: Seq<Seq<char>>)
    requires
        0 <= j <= y.len(),
    ensures
        words_from(x + y, x.len() + j, acc) == words_from(y, j, acc),
    decreases y.len() - j,
{
    if j < y.len() {
        assert((x + y)[x.len() + j] == y[j]);
        if is_whitespace(y[j]) {
            lemma_words_shift(x, y, j + 1, acc);
        } else {
            lemma_word_end_shift(x, y, j);
            lemma_word_end(y, j);
            let e = word_end(y, j);
            assert((x + y).subrange(x.len() + j, x.len() + e) =~= y.subrange(j, e));
            lemma_words_shift(x, y, e, acc.push(y.subrange(j, e)));
        }
    }
}

proof fn lemma_word_end_prefix(x: Seq<char>, y: Seq<char>, i: int)
    requires
        0 <= i <= x.len(),
        separated(x, y),
        i == x.len() ==> i > 0 && !is_whitespace(x[i - 1]),
    ensures
        word_end(x + y, i) == word_end(x, i),
    decreases x.len() - i,
{
    if i < x.len() {
        assert((x + y)[i] == x[i]);
        if !is_whitespace(x[i]) {
            lemma_word_end_prefix(x, y, i + 1);
        }
    } else {
        if y.len() > 0 {
            assert((x + y)[x.len() as int] == y[0]);
        }
    }
}

proof fn lemma_words_concat(x: Seq<char>, y: Seq<char>, i: int, acc: Seq<Seq<char>>)
    requires
        0 <= i <= x.len(),
        separated(x, y),
    ensures
        words_from(x + y, i, acc) == words_from(y, 0, words_from(x, i, acc)),
    decreases x.len() - i,
{
    if i == x.len() {
        lemma_words_shift(x, y, 0, acc);
    } else {
        assert((x + y)[i] == x[i]);
        if is_whitespace(x[i]) {
            lemma_words_concat(x, y, i + 1, acc);
        } else {
            lemma_word_end_prefix(x, y, i);
            lemma_word_end(x, i);
            let e = word_end(x, i);
            assert((x + y).subrange(i, e) =~= x.subrange(i, e));
            lemma_words_concat(x, y, e, acc.push(x.subrange(i, e)));
        }
    }
}

proof fn lemma_word_end_word(w: Seq<char>, j: int)
    requires
        is_word(w),
        0 <= j <= w.len(),
    ensures
        word_end(w, j) == w.len(),
    decreases w.len() - j,
{
    if j < w.len() {
        lemma_word_end_word(w, j + 1);
    }
}

proof fn lemma_single_word(w: Seq<char>, acc: Seq<Seq<char>>)
    requires
        is_word(w),
    ensures
        words_from(w, 0, acc) == acc.push(w),
{
    lemma_word_end_word(w, 0);
    assert(!is_whitespace(w[0]));
    assert(w.subrange(0, w.len() as int) =~= w);
    assert(words_from(w, w.len() as int, acc.push(w)) == acc.push(w));
}

/// Words joined by single spaces split back into the same words.
pub proof fn law_join_words(ws: Seq<Seq<char>>, acc: Seq<Seq<char>>)
    requires
        forall|k: int| 0 <= k < ws.len() ==> is_word(#[trigger] ws[k]),
    ensures
        words_from(join_words(ws), 0, acc) == acc + ws,
    decreases ws.len(),
{
    if ws.len() == 0 {
        assert(acc + ws =~= acc);
    } else if ws.len() == 1 {
        assert(is_word(ws[0]));
        lemma_single_word(ws[0], acc);
        assert(acc + ws =~= acc.push(ws[0]));
    } else {
        let front = ws.drop_last();
        let w = ws.last();
        assert(is_word(ws[ws.len() - 1]));
        law_join_words(front, acc);
        let j = join_words(front);
        let y = seq![' '] + w;
        assert(join_words(ws) =~= j + y);
        assert(is_whitespace(y[0]));
        lemma_words_concat(j, y, 0, acc);
        let a2 = acc + front;
        lemma_words_shift(seq![' '], w, 0, a2);
        assert(seq![' '] + w == y);
        assert(words_from(y, 0, a2) == words_from(y, 1, a2));
        lemma_single_word(w, a2);
        assert(a2.push(w) =~= acc + ws);
    }
}

proof fn lemma_skip_white(x: Seq<char>, i: int, j: int, acc: Seq<Seq<char>>)
    requires
        0 <= i <= j <= x.len(),
        forall|k: int| i <= k < j ==> is_whitespace(#[trigger] x[k]),
    ensures
        words_from(x, i, acc) == words_from(x, j, acc),
    decreases j - i,
{
    if i < j {
        lemma_skip_white(x, i + 1, j, acc);
    }
}

proof fn lemma_padded_words(ws: Seq<Seq<char>>, k: int, q: nat, r: nat, acc: Seq<Seq<char>>)
    requires
        1 <= k <= ws.len(),
        forall|j: int| 0 <= j < ws.len() ==> is_word(#[trigger] ws[j]),
        q >= 1,
    ensures
        words_from(padded_prefix(ws, k, q, r), 0, acc) == acc + ws.take(k),
    decreases k,
{
    if k == 1 {
        assert(is_word(ws[0]));
        lemma_single_word(ws[0], acc);
        assert(acc + ws.take(1) =~= acc.push(ws[0]));
    } else {
        lemma_padded_words(ws, k - 1, q, r, acc);
        let x = padded_prefix(ws, k - 1, q, r);
        let g = (if k - 1 <= r {
            seq![' ']
        } else {
            Seq::empty()
        }) + spaces(q);
        let w = ws[k - 1];
        assert(is_word(w));
        let y = g + w;
        assert(padded_prefix(ws, k, q, r) =~= x + y);
        assert(g.len() >= 1);
        assert(y[0] == ' ');
        assert(is_whitespace(y[0]));
        lemma_words_concat(x, y, 0, acc);
        let a2 = acc + ws.take(k - 1);
        assert forall|j: int| 0 <= j < g.len() implies is_whitespace(#[trigger] y[j]) by {
            assert(y[j] == ' ');
        }
        lemma_skip_white(y, 0, g.len() as int, a2);
        lemma_words_shift(g, w, 0, a2);
        lemma_single_word(w, a2);
        assert(a2.push(w) =~= acc + ws.take(k));
    }
}

proof fn lemma_line_words(ws: Seq<Seq<char>>, i: int, max: nat, full: bool, a: Seq<Seq<char>>)
    requires
        0 <= i < ws.len(),
        forall|k: int| 0 <= k < ws.len() ==> is_word(#[trigger] ws[k]),
        next_line(ws, i, max, full) is Some,
    ensures
        ({
            let (t, e) = next_line(ws, i, max, full).unwrap();
            i < e <= ws.len() ==> words_from(t, 0, a) == a + ws.subrange(i, e)
        }),
{
    let (t, e) = next_line(ws, i, max, full).unwrap();
    if i < e <= ws.len() {
        let sub = ws.subrange(i, e);
        assert forall|k: int| 0 <= k < sub.len() implies is_word(#[trigger] sub[k]) by {
            assert(sub[k] == ws[i + k]);
        }
        if e < ws.len() && full {
            if sub.len() == 1 {
                lemma_single_word(sub[0], a);
                assert(a + sub =~= a.push(sub[0]));
            } else {
                let g = (sub.len() - 1) as nat;
                let spare = (max - total_width(sub)) as nat;
                assert(spare >= g);
                assert(spare / g >= 1) by (nonlinear_arith)
                    requires
                        spare >= g,
                        g > 0,
                ;
                lemma_padded_words(sub, sub.len() as int, spare / g, spare % g, a);
                assert(sub.take(sub.len() as int) =~= sub);
            }
        } else {
            law_join_words(sub, a);
        }
    }
}

proof fn lemma_flow_words(ws: Seq<Seq<char>>, i: int, max: nat, full: bool, acc: Seq<Seq<char>>, a: Seq<Seq<char>>)
    requires
        0 <= i <= ws.len(),
        forall|k: int| 0 <= k < ws.len() ==> is_word(#[trigger] ws[k]),
        flow_from(ws, i, max, full, acc) is Some,
    ensures
        ({
            let lines = flow_from(ws, i, max, full, acc).unwrap();
            &&& lines.len() >= acc.len()
            &&& lines.take(acc.len() as int) == acc
            &&& words_of_lines(lines.skip(acc.len() as int), a) == a + ws.skip(i)
        }),
    decreases ws.len() - i,
{
    if i >= ws.len() {
        assert(acc.skip(acc.len() as int) =~= Seq::<Seq<char>>::empty());
        assert(acc.take(acc.len() as int) =~= acc);
        assert(a + ws.skip(i) =~= a);
    } else {
        let (t, e) = next_line(ws, i, max, full).unwrap();
        lemma_line_words(ws, i, max, full, a);
        lemma_flow_words(ws, e, max, full, acc.push(t), a + ws.subrange(i, e));
        let lines = flow_from(ws, i, max, full, acc).unwrap();
        assert(lines.take(acc.len() as int + 1) == acc.push(t));
        assert(lines.take(acc.len() as int) =~= acc.push(t).take(acc.len() as int));
        assert(acc.push(t).take(acc.len() as int) =~= acc);
        let rest = lines.skip(acc.len() as int);
        assert(lines[acc.len() as int] == lines.take(acc.len() as int + 1)[acc.len() as int]);
        assert(acc.push(t)[acc.len() as int] == t);
        assert(rest[0] == t);
        assert(rest.drop_first() =~= lines.skip(acc.len() as int + 1));
        assert(words_of_lines(rest, a) == words_of_lines(rest.drop_first(), words_from(rest[0], 0, a)));
        assert(a + ws.subrange(i, e) + ws.skip(e) =~= a + ws.skip(i));
    }
}

/// Flowing words into lines keeps them: the words of the lines are the words, in order, none
/// lost or changed, whether the lines are stretched to the full width or not.
pub proof fn law_flow_keeps_words(ws: Seq<Seq<char>>, max: nat, full: bool)
    requires
        forall|k: int| 0 <= k < ws.len() ==> is_word(#[trigger] ws[k]),
        flow_from(ws, 0, max, full, Seq::empty()) is Some,
    ensures
        words_of_lines(flow_from(ws, 0, max, full, Seq::empty()).unwrap(), Seq::empty()) == ws,
{
    lemma_flow_words(ws, 0, max, full, Seq::empty(), Seq::empty());
    let lines = flow_from(ws, 0, max, full, Seq::empty()).unwrap();
    assert(lines.skip(0) =~= lines);
    assert(Seq::<Seq<char>>::empty() + ws.skip(0) =~= ws);
}

proof fn lemma_word_end_chars(x: Seq<char>, i: int)
    requires
        0 <= i <= x.len(),
    ensures
        forall|k: int| i <= k < word_end(x, i) ==> !is_whitespace(#[trigger] x[k]),
    decreases x.len() - i,
{
    if i < x.len() && !is_whitespace(x[i]) {
        lemma_word_end_chars(x, i + 1);
    }
}

proof fn lemma_words_from_words(x: Seq<char>, i: int, acc: Seq<Seq<char>>)
    requires
        0 <= i <= x.len(),
        forall|k: int| 0 <= k < acc.len() ==> is_word(#[trigger] acc[k]),
    ensures
        forall|k: int| 0 <= k < words_from(x, i, acc).len() ==> is_word(#[trigger] words_from(x, i, acc)[k]),
    decreases x.len() - i,
{
    if i < x.len() {
        if is_whitespace(x[i]) {
            lemma_words_from_words(x, i + 1, acc);
            assert(words_from(x, i, acc) == words_from(x, i + 1, acc));
        } else {
            lemma_word_end(x, i);
            lemma_word_end_chars(x, i);
            let e = word_end(x, i);
            let w = x.subrange(i, e);
            assert forall|k: int| 0 <= k < w.len() implies !is_whitespace(#[trigger] w[k]) by {
                assert(w[k] == x[i + k]);
            }
            assert(is_word(w));
            assert forall|k: int| 0 <= k < acc.push(w).len() implies is_word(#[trigger] acc.push(w)[k]) by {
                if k < acc.len() {
                    assert(acc.push(w)[k] == acc[k]);
                }
            }
            lemma_words_from_words(x, e, acc.push(w));
            assert(words_from(x, i, acc) == words_from(x, e, acc.push(w)));
        }
    }
}

proof fn lemma_lines_words(lines: Seq<Seq<char>>, acc: Seq<Seq<char>>)
    requires
        forall|k: int| 0 <= k < acc.len() ==> is_word(#[trigger] acc[k]),
    ensures
        forall|k: int| 0 <= k < words_of_lines(lines, acc).len() ==> is_word(#[trigger] words_of_lines(lines, acc)[k]),
    decreases lines.len(),
{
    if lines.len() > 0 {
        lemma_words_from_words(lines[0], 0, acc);
        lemma_lines_words(lines.drop_first(), words_from(lines[0], 0, acc));
        assert(words_of_lines(lines, acc) == words_of_lines(lines.drop_first(), words_from(lines[0], 0, acc)));
    }
}

/// A rendered paragraph holds the words of its source lines, in order, none lost or changed:
/// the lines it is laid out in split back into the same words.
pub proof fn law_paragraph_keeps_words(lines: Seq<Seq<char>>, width: nat)
    requires
        flow_from(words_of_lines(lines, Seq::empty()), 0, width, true, Seq::empty()) is Some,
    ensures
        words_of_lines(
            flow_from(words_of_lines(lines, Seq::empty()), 0, width, true, Seq::empty()).unwrap(),
            Seq::empty(),
        ) == words_of_lines(lines, Seq::empty()),
{
    lemma_lines_words(lines, Seq::empty());
    law_flow_keeps_words(words_of_lines(lines, Seq::empty()), width, true);
}

/// Where each line starts when the words from `i` on flow into lines of `max` columns.
pub open spec fn line_starts(ws: Seq<Seq<char>>, i: int, max: nat) -> Seq<int>
    decreases ws.len() - i,
{
    if i < 0 || i >= ws.len() {
        Seq::empty()
    } else {
        match line_end_from(ws, i, 0, max) {
            Some(e) => if i < e <= ws.len() {
                seq![i] + line_starts(ws, e, max)
            } else {
                Seq::empty()
            },
            None => Seq::empty(),
        }
    }
}

/// Where line `k` stops: where the next one starts, or after the last word.
pub open spec fn line_stop(st: Seq<int>, k: int, n: int) -> int {
    if k + 1 < st.len() {
        st[k + 1]
    } else {
        n
    }
}

proof fn lemma_flow_structure(ws: Seq<Seq<char>>, i: int, max: nat, full: bool, acc: Seq<Seq<char>>)
    requires
        0 <= i <= ws.len(),
        flow_from(ws, i, max, full, acc) is Some,
    ensures
        ({
            let lines = flow_from(ws, i, max, full, acc).unwrap();
            let st = line_starts(ws, i, max);
            &&& lines.len() == acc.len() + st.len()
            &&& st.len() <= ws.len() - i
            &&& (st.len() == 0 <==> i >= ws.len())
            &&& st.len() > 0 ==> st[0] == i
            &&& lines.take(acc.len() as int) == acc
            &&& forall|k: int|
                0 <= k < st.len() ==> i <= #[trigger] st[k] < line_stop(st, k, ws.len() as int) <= ws.len()
                    && next_line(ws, st[k], max, full) == Some(
                    (lines[acc.len() + k], line_stop(st, k, ws.len() as int)),
                )
        }),
    decreases ws.len() - i,
{
    if i >= ws.len() {
        assert(acc.take(acc.len() as int) =~= acc);
    } else {
        let (t, e) = next_line(ws, i, max, full).unwrap();
        lemma_flow_structure(ws, e, max, full, acc.push(t));
        let lines = flow_from(ws, i, max, full, acc).unwrap();
        let st = line_starts(ws, i, max);
        let st2 = line_starts(ws, e, max);
        assert(st =~= seq![i] + st2);
        assert(lines.take(acc.len() as int) =~= acc.push(t).take(acc.len() as int));
        assert(acc.push(t).take(acc.len() as int) =~= acc);
        assert(lines[acc.len() as int] == lines.take(acc.len() as int + 1)[acc.len() as int]);
        assert forall|k: int|
            0 <= k < st.len() implies i <= #[trigger] st[k] < line_stop(st, k, ws.len() as int) <= ws.len()
                && next_line(ws, st[k], max, full) == Some(
                (lines[acc.len() + k], line_stop(st, k, ws.len() as int)),
            ) by {
            if k == 0 {
                assert(acc.push(t)[acc.len() as int] == t);
            } else {
                assert(st[k] == st2[k - 1]);
                assert(line_stop(st, k, ws.len() as int) == line_stop(st2, k - 1, ws.len() as int));
                assert(acc.len() + k == acc.push(t).len() + (k - 1));
            }
        }
    }
}

/// The lines that words flow into (each word at least one column wide): their words are the
/// words, in order; there are no more lines than words; and each line, from its start to where
/// the next one starts, holds its words joined by single spaces (stretched to the full width but
/// for the last line when `full` holds), fits in `max` columns unless it is a single word,
/// would not have fit the next word, and when stretched takes exactly `max` columns.
pub proof fn law_flowing_lines(ws: Seq<Seq<char>>, max: nat, full: bool)
    requires
        forall|k: int| 0 <= k < ws.len() ==> is_word(#[trigger] ws[k]),
        forall|k: int| 0 <= k < ws.len() ==> width(#[trigger] ws[k]) >= 1,
        flow_from(ws, 0, max, full, Seq::empty()) is Some,
    ensures
        ({
            let lines = flow_from(ws, 0, max, full, Seq::empty()).unwrap();
            let st = line_starts(ws, 0, max);
            &&& words_of_lines(lines, Seq::empty()) == ws
            &&& lines.len() == st.len()
            &&& lines.len() <= ws.len()
            &&& forall|k: int|
                0 <= k < st.len() ==> ({
                    let a = #[trigger] st[k];
                    let b = line_stop(st, k, ws.len() as int);
                    let sub = ws.subrange(a, b);
                    let g = (b - a - 1) as nat;
                    let spare = (max - total_width(sub)) as nat;
                    &&& 0 <= a < b <= ws.len()
                    &&& lines[k] == if full && b < ws.len() {
                        padded_line(sub, max).unwrap()
                    } else {
                        join_words(sub)
                    }
                    &&& b - a == 1 || total_width(sub) + (b - a - 1) <= max
                    &&& b < ws.len() ==> total_width(sub) + (b - a - 1) + width(ws[b]) + 1 > max
                    &&& full && b < ws.len() && b - a >= 2 ==> total_width(sub) + gaps_width(g as int, spare / g, spare % g)
                        == max
                })
        }),
{
    law_flow_keeps_words(ws, max, full);
    lemma_flow_structure(ws, 0, max, full, Seq::empty());
    let lines = flow_from(ws, 0, max, full, Seq::empty()).unwrap();
    let st = line_starts(ws, 0, max);
    assert forall|k: int| 0 <= k < st.len() implies ({
        let a = #[trigger] st[k];
        let b = line_stop(st, k, ws.len() as int);
        let sub = ws.subrange(a, b);
        let g = (b - a - 1) as nat;
        let spare = (max - total_width(sub)) as nat;
        &&& 0 <= a < b <= ws.len()
        &&& lines[k] == if full && b < ws.len() {
            padded_line(sub, max).unwrap()
        } else {
            join_words(sub)
        }
        &&& b - a == 1 || total_width(sub) + (b - a - 1) <= max
        &&& b < ws.len() ==> total_width(sub) + (b - a - 1) + width(ws[b]) + 1 > max
        &&& full && b < ws.len() && b - a >= 2 ==> total_width(sub) + gaps_width(g as int, spare / g, spare % g) == max
    }) by {
        let a = st[k];
        let b = line_stop(st, k, ws.len() as int);
        let sub = ws.subrange(a, b);
        assert(next_line(ws, a, max, full) == Some((lines[k], b)));
        law_line_fill(ws, a, max);
        if full && b < ws.len() && b - a >= 2 {
            law_stretch_fills_width(sub, max);
        }
    }
}

/// A menu of one entry: the bold title, then the entry's id two columns in, two spaces, and the
/// first line of its description; each further line of the description starts in the
/// description column, two columns past the widest id (here this one), that is `w + 4` columns
/// in; then the entry's empty lines and an empty line. The description is flowed into the
/// width left from that column on.
pub proof fn law_menu_entry_layout(e: SpecMenuEntry, w: nat, ind: nat, width: nat, m: Seq<(SpecId, usize)>)
    requires
        render_menu_w(seq![SpecMenuItem::Entry(e)], seq![w], ind, width, m) is Some,
    ensures
        w + 4 <= width,
        flow_from(words_of_lines(e.description, Seq::empty()), 0, (width - (w + 4)) as nat, false, Seq::empty()) is Some,
        ({
            let fl = flow_from(words_of_lines(e.description, Seq::empty()), 0, (width - (w + 4)) as nat, false, Seq::empty()).unwrap();
            render_menu_w(seq![SpecMenuItem::Entry(e)], seq![w], ind, width, m) == Some(
                spaces(ind) + painted("* Menu:"@, Paint::Bold) + seq!['\n'] + spaces(ind + 2) + entry_id(e, m) + "  "@
                    + (if fl.len() == 0 {
                    seq!['\n']
                } else {
                    fl[0] + seq!['\n'] + lines_out(ind + w + 4, fl.skip(1))
                }) + newlines(e.trailing_newlines) + seq!['\n'],
            )
        }),
{
    let items = seq![SpecMenuItem::Entry(e)];
    let idw = seq![w];
    assert(items.drop_last() =~= Seq::<SpecMenuItem>::empty());
    assert(idw.drop_last() =~= Seq::<nat>::empty());
    assert(items.last() == SpecMenuItem::Entry(e));
    assert(idw.last() == w);
    assert(longest_entry_id(items.drop_last(), idw.drop_last()) == 0);
    assert(longest_entry_id(items, idw) == w);
    assert(menu_items_out(items.drop_last(), idw.drop_last(), m, w, width, ind + 2, ind + 2 + (w + 2),
        (width - 2 - (w + 2)) as nat) == Some(Seq::<char>::empty()));
    assert(spaces(0) =~= Seq::<char>::empty());
    let fl = flow_from(words_of_lines(e.description, Seq::empty()), 0, (width - (w + 4)) as nat, false, Seq::empty()).unwrap();
    let head = spaces(ind + 2) + entry_id(e, m) + spaces((w - w) as nat) + "  "@;
    assert(head =~= spaces(ind + 2) + entry_id(e, m) + "  "@);
    let body = if fl.len() == 0 {
        seq!['\n']
    } else {
        fl[0] + seq!['\n'] + lines_out(ind + w + 4, fl.skip(1))
    };
    assert(menu_items_out(items, idw, m, w, width, ind + 2, ind + 2 + (w + 2), (width - 2 - (w + 2)) as nat)
        == Some(Seq::<char>::empty() + (head + body + newlines(e.trailing_newlines))));
    assert(Seq::<char>::empty() + (head + body + newlines(e.trailing_newlines)) =~= head + body + newlines(e.trailing_newlines));
    assert(ln(ind, painted("* Menu:"@, Paint::Bold)) + (head + body + newlines(e.trailing_newlines) + seq!['\n'])
        =~= spaces(ind) + painted("* Menu:"@, Paint::Bold) + seq!['\n'] + spaces(ind + 2) + entry_id(e, m) + "  "@
        + body + newlines(e.trailing_newlines) + seq!['\n']);
}

/// A menu of one comment: the bold title, then the comment's words flowed into the width of the
/// menu, each line two columns in, then the comment's empty lines and an empty line.
pub proof fn law_menu_comment_layout(c: SpecMenuComment, ind: nat, width: nat, m: Seq<(SpecId, usize)>)
    requires
        render_menu_w(seq![SpecMenuItem::Comment(c)], seq![0nat], ind, width, m) is Some,
    ensures
        flow_from(words_of_lines(c.lines, Seq::empty()), 0, width, false, Seq::empty()) is Some,
        render_menu_w(seq![SpecMenuItem::Comment(c)], seq![0nat], ind, width, m) == Some(
            spaces(ind) + painted("* Menu:"@, Paint::Bold) + seq!['\n'] + lines_out(
                ind + 2,
                flow_from(words_of_lines(c.lines, Seq::empty()), 0, width, false, Seq::empty()).unwrap(),
            ) + newlines(c.trailing_newlines) + seq!['\n'],
        ),
{
    let items = seq![SpecMenuItem::Comment(c)];
    let idw = seq![0nat];
    assert(items.drop_last() =~= Seq::<SpecMenuItem>::empty());
    assert(idw.drop_last() =~= Seq::<nat>::empty());
    assert(items.last() == SpecMenuItem::Comment(c));
    assert(longest_entry_id(items.drop_last(), idw.drop_last()) == 0);
    assert(longest_entry_id(items, idw) == 0);
    assert(menu_items_out(items.drop_last(), idw.drop_last(), m, 0, width, ind + 2, ind + 4, (width - 4) as nat)
        == Some(Seq::<char>::empty()));
    let fl = flow_from(words_of_lines(c.lines, Seq::empty()), 0, width, false, Seq::empty()).unwrap();
    let out = lines_out(ind + 2, fl) + newlines(c.trailing_newlines);
    assert(Seq::<char>::empty() + out =~= out);
    assert(ln(ind, painted("* Menu:"@, Paint::Bold)) + (out + seq!['\n']) =~= spaces(ind) + painted("* Menu:"@, Paint::Bold)
        + seq!['\n'] + lines_out(ind + 2, fl) + newlines(c.trailing_newlines) + seq!['\n']);
}

/// An index of one entry that names its node: the bold title `* Index:` and an empty line, then
/// two columns further in the underlined entry text, `: `, the node's name and, in
/// parentheses, the line where the node begins; then an empty line.
pub proof fn law_index_layout(e: SpecIndexEntry, nm: Seq<char>, ind: nat, width: nat, m: Seq<(SpecId, usize)>)
    requires
        e.node.nodename == Some(nm),
        2 <= width,
        ind + 2 <= usize::MAX,
    ensures
        render_index(seq![e], ind, width, m) == Some(
            spaces(ind) + painted("* Index:\n"@, Paint::Bold) + seq!['\n'] + spaces(ind + 2) + painted(e.text, Paint::Underline)
                + ": "@ + nm + " ("@ + node_ref(m, e.node) + ")"@ + seq!['\n'] + seq!['\n'],
        ),
{
    let es = seq![e];
    assert(es.drop_last() =~= Seq::<SpecIndexEntry>::empty());
    assert(es.last() == e);
    assert(index_entries_out(es.drop_last(), ind + 2, m) == Seq::<char>::empty());
    assert(Seq::<char>::empty() + ln(ind + 2, painted(e.text, Paint::Underline) + ": "@ + index_id(e.node, m))
        =~= ln(ind + 2, painted(e.text, Paint::Underline) + ": "@ + index_id(e.node, m)));
    assert(ln(ind, painted("* Index:\n"@, Paint::Bold)) + ln(ind + 2, painted(e.text, Paint::Underline) + ": "@
        + index_id(e.node, m)) + seq!['\n'] =~= spaces(ind) + painted("* Index:\n"@, Paint::Bold) + seq!['\n']
        + spaces(ind + 2) + painted(e.text, Paint::Underline) + ": "@ + nm + " ("@ + node_ref(m, e.node) + ")"@
        + seq!['\n'] + seq!['\n']);
}

} // verus!
