//! The grammar of a non-split Info file.
//! https://www.gnu.org/software/texinfo/manual/texinfo/html_node/Info-Format-Whole-Manual.html
//!
//! Each rule is a spec function over the whole input `s` and a position `p` in it; it gives
//! what the rule produces and the position after it, or why it fails. Each executable parser
//! reads the same input at the same position and is proved to give exactly that.
use vstd::prelude::*;

use crate::control::{DELETE, FORM_FEED, UNIT_SEPARATOR, char_at, delete, form_feed, line_feed, unit_separator};
use crate::info::{
    Heading, HeadingLevel, Id, IndexEntry, LocalVariables, Menu, MenuComment, MenuEntry, MenuItem,
    Node, NonsplitInfoFile, Paragraph, Preamble, Printindex, SpecBlock, SpecHeading, SpecId,
    SpecIndexEntry, SpecInfoFile, SpecLocalVariables, SpecMenuComment, SpecMenuEntry, SpecMenuItem,
    SpecNode, SpecTag, SpecTagTable, SpecTagTableEntry, SplitInfoSubfile, TableEntry, Tag,
    TagTable, TagTableEntry, TextBlock, TextBlockContent, Verbatim, block_view, blocks_view,
    lemma_blocks_view_push,
};
use crate::parser_util::{
    CharClass, find_lit, in_class, lemma_run_bounds, lit_at, run, run_len, scan_till_stop, starts_with,
    take_until, take_until_at, till_stop,
};
use crate::text::{
    chars_of, count_graphemes, grapheme_count, string_of, string_trim, string_trim_end, trim,
    trim_bounds, trim_end, trim_end_bound,
};

verus! {

broadcast use vstd::string::group_string_axioms;

/// Why a rule failed. `Backtrack` lets an enclosing alternative try something else; `Cut`
/// fails the whole parse; `Abort` marks an input on which parsing stops without a result.
#[derive(Debug, Clone, Copy, PartialEq, Eq, Structural)]
pub enum Fail {
    Backtrack,
    Cut,
    Abort,
}

/// Inputs whose length leaves room for the indentation arithmetic of nested blocks.
pub open spec fn fits(s: Seq<char>) -> bool {
    s.len() + 16 <= usize::MAX
}

/// The literal `w` at `p`; the result is the position after it.
pub fn lit(s: &[char], p: usize, w: &str) -> (r: Option<usize>)
    ensures
        r matches Some(q) ==> lit_at(s@, p as int, w@) && q == p + w@.len(),
        r is None ==> !lit_at(s@, p as int, w@),
{
    let wv = chars_of(w);
    let _n = s.len();
    if starts_with(s, p, wv.as_slice()) {
        Some(p + wv.len())
    } else {
        None
    }
}

// https://www.gnu.org/software/texinfo/manual/texinfo/html_node/Info-Format-Whole-Manual.html
/// `[^L] ^_ [^L] ^J`
pub open spec fn spec_separator(s: Seq<char>, p: int) -> Option<int> {
    let p1 = if char_at(s, p, FORM_FEED) { p + 1 } else { p };
    if !char_at(s, p1, UNIT_SEPARATOR) {
        None
    } else {
        let p2 = if char_at(s, p1 + 1, FORM_FEED) { p1 + 2 } else { p1 + 1 };
        if char_at(s, p2, '\n') {
            Some(p2 + 1)
        } else {
            None
        }
    }
}

pub fn separator_at(s: &[char], p: usize) -> (r: Option<usize>)
    requires
        p <= s@.len(),
    ensures
        r matches Some(q) ==> spec_separator(s@, p as int) == Some(q as int) && p < q <= s@.len(),
        r is None ==> spec_separator(s@, p as int) is None,
{
    let p1 = match form_feed(s, p) {
        Some(q) => q,
        None => p,
    };
    let p2 = match unit_separator(s, p1) {
        Some(q) => q,
        None => return None,
    };
    let p3 = match form_feed(s, p2) {
        Some(q) => q,
        None => p2,
    };
    line_feed(s, p3)
}

/// The first position at or after `q` where a separator starts.
pub open spec fn first_separator(s: Seq<char>, q: int) -> Option<int>
    decreases s.len() - q,
{
    if q < 0 {
        None
    } else if spec_separator(s, q) is Some {
        Some(q)
    } else if q >= s.len() {
        None
    } else {
        first_separator(s, q + 1)
    }
}

// https://www.gnu.org/software/texinfo/manual/texinfo/html_node/Info-Format-Preamble.html
/// At least one character, up to the first separator (which stays in the input).
pub open spec fn spec_preamble(s: Seq<char>, p: int) -> Option<(Seq<char>, int)> {
    if p < 0 || p >= s.len() {
        None
    } else {
        match first_separator(s, p + 1) {
            Some(q) => Some((s.subrange(p, q), q)),
            None => None,
        }
    }
}

pub fn preamble_at(s: &[char], p: usize) -> (r: Option<(Preamble, usize)>)
    requires
        p <= s@.len(),
    ensures
        r matches Some((v, q)) ==> spec_preamble(s@, p as int) == Some((v.content@, q as int))
            && p < q <= s@.len(),
        r is None ==> spec_preamble(s@, p as int) is None,
{
    let n = s.len();
    if p >= n {
        return None;
    }
    let mut q = p + 1;
    loop
        invariant
            n == s@.len(),
            p < q <= n,
            first_separator(s@, p + 1) == first_separator(s@, q as int),
        decreases n - q,
    {
        if separator_at(s, q).is_some() {
            return Some((Preamble { content: string_of(s, p, q) }, q));
        }
        if q >= n {
            return None;
        }
        q = q + 1;
    }
}

// https://www.gnu.org/software/texinfo/manual/texinfo/html_node/Info-Format-Regular-Nodes.html
/// The node name of an id: characters up to `DELETE`, a newline or one of `stop`; or a name
/// quoted between two `DELETE`s.
pub open spec fn spec_node_spec(s: Seq<char>, p: int, stop: Seq<char>) -> Option<(Seq<char>, int)> {
    let e = till_stop(s, p, stop);
    if e > p {
        Some((s.subrange(p, e), e))
    } else if char_at(s, p, DELETE) {
        match take_until(s, p + 1, seq![DELETE], 1, s.len() as int) {
            Some(q) => Some((s.subrange(p + 1, q), q + 1)),
            None => None,
        }
    } else {
        None
    }
}

/// `(infofile)`: a nonempty name in parentheses.
pub open spec fn spec_infofile(s: Seq<char>, p: int) -> Option<(Seq<char>, int)> {
    if char_at(s, p, '(') {
        match take_until(s, p + 1, seq![')'], 1, s.len() as int) {
            Some(q) => Some((s.subrange(p + 1, q), q + 1)),
            None => None,
        }
    } else {
        None
    }
}

/// `[(infofile)][nodename]`: never fails, each part is optional.
pub open spec fn spec_id(s: Seq<char>, p: int, stop: Seq<char>) -> (SpecId, int) {
    let (infofile, p1) = match spec_infofile(s, p) {
        Some((f, q)) => (Some(f), q),
        None => (None, p),
    };
    let (nodename, p2) = match spec_node_spec(s, p1, stop) {
        Some((n, q)) => (Some(n), q),
        None => (None, p1),
    };
    (SpecId { infofile, nodename }, p2)
}

fn delimited_name(s: &[char], p: usize, close: char) -> (r: Option<(String, usize)>)
    requires
        p <= s@.len(),
    ensures
        r matches Some((v, q)) ==> take_until(s@, p + 1, seq![close], 1, s@.len() as int) matches Some(e)
            && v@ == s@.subrange(p + 1, e) && q == e + 1 && p < q <= s@.len(),
        r is None ==> take_until(s@, p + 1, seq![close], 1, s@.len() as int) is None,
{
    let n = s.len();
    if p >= n {
        proof {
            reveal_with_fuel(find_lit, 2);
        }
        return None;
    }
    let w = [close];
    assert(w@ =~= seq![close]);
    match take_until_at(s, p + 1, &w, 1, n) {
        Some(q) => Some((string_of(s, p + 1, q), q + 1)),
        None => None,
    }
}

pub fn id_at(s: &[char], p: usize, stop: &[char]) -> (r: (Id, usize))
    requires
        p <= s@.len(),
    ensures
        spec_id(s@, p as int, stop@) == (r.0.deep_view(), r.1 as int),
        p <= r.1 <= s@.len(),
{
    let (infofile, p1) = if p < s.len() && s[p] == '(' {
        match delimited_name(s, p, ')') {
            Some((f, q)) => (Some(f), q),
            None => (None, p),
        }
    } else {
        (None, p)
    };
    let e = scan_till_stop(s, p1, stop);
    let (nodename, p2) = if e > p1 {
        (Some(string_of(s, p1, e)), e)
    } else if delete(s, p1).is_some() {
        match delimited_name(s, p1, DELETE) {
            Some((v, q)) => (Some(v), q),
            None => (None, p1),
        }
    } else {
        (None, p1)
    };
    let id = Id { infofile, nodename };
    proof {
        assert(spec_id(s@, p as int, stop@).0 =~= id.deep_view());
    }
    (id, p2)
}

/// A line after `min..=max` spaces (as many as there are, up to `max`): the bounds of its
/// content and the position after its newline. A separator is never such a line: it starts
/// the next node or the tag table.
pub open spec fn spec_indented_line(s: Seq<char>, p: int, min: int, max: int) -> Option<(int, int, int)> {
    let c = p + run(s, p, CharClass::Blank, max);
    if run(s, p, CharClass::Blank, max) < min {
        None
    } else if spec_separator(s, c) is Some {
        None
    } else {
        match take_until(s, c, seq!['\n'], 0, s.len() as int) {
            Some(e) => Some((c, e, e + 1)),
            None => None,
        }
    }
}

pub fn indented_line_at(s: &[char], p: usize, min: usize, max: usize) -> (r: Option<(usize, usize, usize)>)
    requires
        p <= s@.len(),
    ensures
        r matches Some((c, e, q)) ==> spec_indented_line(s@, p as int, min as int, max as int)
            == Some((c as int, e as int, q as int)) && p <= c <= e && e < q <= s@.len() && q == e + 1
            && c >= p + min,
        r is None ==> spec_indented_line(s@, p as int, min as int, max as int) is None,
{
    let _n = s.len();
    let k = run_len(s, p, CharClass::Blank, max);
    if k < min {
        return None;
    }
    let c = p + k;
    if separator_at(s, c).is_some() {
        return None;
    }
    let nl = ['\n'];
    assert(nl@ =~= seq!['\n']);
    match take_until_at(s, c, &nl, 0, s.len()) {
        Some(e) => Some((c, e, e + 1)),
        None => None,
    }
}

/// The text of a line: up to the first `'\r'` or `'\n'` (or the end), where a `'\r'` must
/// start `"\r\n"`. The result is where the text ends.
pub open spec fn spec_till_line_ending(s: Seq<char>, p: int) -> Option<int> {
    let e = till_cr_lf(s, p);
    if char_at(s, e, '\r') && !char_at(s, e + 1, '\n') {
        None
    } else {
        Some(e)
    }
}

/// The first position at or after `p` that holds `'\r'` or `'\n'`, or the end of `s`.
pub open spec fn till_cr_lf(s: Seq<char>, p: int) -> int
    decreases s.len() - p,
{
    if p < 0 || p >= s.len() || s[p] == '\r' || s[p] == '\n' {
        p
    } else {
        till_cr_lf(s, p + 1)
    }
}

pub fn till_line_ending_at(s: &[char], p: usize) -> (r: Option<usize>)
    requires
        p <= s@.len(),
    ensures
        r matches Some(e) ==> spec_till_line_ending(s@, p as int) == Some(e as int) && p <= e <= s@.len(),
        r is None ==> spec_till_line_ending(s@, p as int) is None,
{
    let n = s.len();
    let mut e = p;
    while e < n && s[e] != '\r' && s[e] != '\n'
        invariant
            n == s@.len(),
            p <= e <= n,
            till_cr_lf(s@, p as int) == till_cr_lf(s@, e as int),
        decreases n - e,
    {
        e = e + 1;
    }
    if e < n && s[e] == '\r' && !(e + 1 < n && s[e + 1] == '\n') {
        None
    } else {
        Some(e)
    }
}

/// `"\n"` or `"\r\n"`; the result is the position after it.
pub open spec fn spec_line_ending(s: Seq<char>, p: int) -> Option<int> {
    if char_at(s, p, '\n') {
        Some(p + 1)
    } else if char_at(s, p, '\r') && char_at(s, p + 1, '\n') {
        Some(p + 2)
    } else {
        None
    }
}

pub fn line_ending_at(s: &[char], p: usize) -> (r: Option<usize>)
    requires
        p <= s@.len(),
    ensures
        r matches Some(q) ==> spec_line_ending(s@, p as int) == Some(q as int) && p < q <= s@.len(),
        r is None ==> spec_line_ending(s@, p as int) is None,
{
    let n = s.len();
    if p < n && s[p] == '\n' {
        Some(p + 1)
    } else if p < n && s[p] == '\r' && p + 1 < n && s[p + 1] == '\n' {
        Some(p + 2)
    } else {
        None
    }
}

/// The value of a sequence of decimal digits.
pub open spec fn decimal(d: Seq<char>) -> nat
    decreases d.len(),
{
    if d.len() == 0 {
        0
    } else {
        decimal(d.drop_last()) * 10 + ((d.last() as u32) - ('0' as u32)) as nat
    }
}

/// A decimal number: `0`, or a digit from `1` to `9` followed by any digits, whose value must
/// not exceed `max`.
pub open spec fn spec_dec_uint(s: Seq<char>, p: int, max: nat) -> Option<(nat, int)> {
    if char_at(s, p, '0') {
        Some((0, p + 1))
    } else if 0 <= p < s.len() && '1' <= s[p] <= '9' {
        let e = p + run(s, p, CharClass::Digit, s.len() as int);
        if decimal(s.subrange(p, e)) <= max {
            Some((decimal(s.subrange(p, e)), e))
        } else {
            None
        }
    } else {
        None
    }
}

proof fn lemma_decimal_grows(d: Seq<char>, i: int)
    requires
        0 <= i <= d.len(),
        forall|j: int| 0 <= j < d.len() ==> '0' <= #[trigger] d[j] <= '9',
    ensures
        decimal(d.take(i)) <= decimal(d),
    decreases d.len() - i,
{
    if i < d.len() {
        lemma_decimal_grows(d, i + 1);
        assert(d.take(i + 1).drop_last() =~= d.take(i));
    } else {
        assert(d.take(i) =~= d);
    }
}

pub fn dec_uint_at(s: &[char], p: usize, max: u64) -> (r: Option<(u64, usize)>)
    requires
        p <= s@.len(),
    ensures
        r matches Some((v, q)) ==> spec_dec_uint(s@, p as int, max as nat) == Some((v as nat, q as int))
            && p < q <= s@.len(),
        r is None ==> spec_dec_uint(s@, p as int, max as nat) is None,
{
    let n = s.len();
    if p < n && s[p] == '0' {
        return Some((0, p + 1));
    }
    if !(p < n && '1' <= s[p] && s[p] <= '9') {
        return None;
    }
    let k = run_len(s, p, CharClass::Digit, n);
    let e = p + k;
    proof {
        lemma_run_bounds(s@, p as int, CharClass::Digit, n as int);
    }
    let ghost d = s@.subrange(p as int, e as int);
    assert(in_class(CharClass::Digit, s@[p as int]));
    proof {
        lemma_run_bounds(s@, p + 1, CharClass::Digit, n - 1);
    }
    assert(run(s@, p as int, CharClass::Digit, n as int) == 1 + run(s@, p + 1, CharClass::Digit, n - 1));
    assert(e > p);
    let mut v: u64 = 0;
    let mut i = p;
    while i < e
        invariant
            n == s@.len(),
            p <= i <= e <= n,
            d == s@.subrange(p as int, e as int),
            e == p + run(s@, p as int, CharClass::Digit, n as int),
            p < n && s@[p as int] != '0' && '1' <= s@[p as int] <= '9',
            forall|j: int| p <= j < e ==> in_class(CharClass::Digit, #[trigger] s@[j]),
            v as nat == decimal(d.take(i - p)),
            v <= max,
        decreases e - i,
    {
        let digit = (s[i] as u32 - '0' as u32) as u64;
        assert(d.take(i + 1 - p).drop_last() =~= d.take(i - p));
        let nv: u128 = v as u128 * 10 + digit as u128;
        if nv > max as u128 {
            proof {
                assert(decimal(d.take(i + 1 - p)) > max);
                assert forall|j: int| 0 <= j < d.len() implies '0' <= #[trigger] d[j] <= '9' by {
                    assert(in_class(CharClass::Digit, s@[p + j]));
                }
                lemma_decimal_grows(d, i + 1 - p);
                assert(decimal(s@.subrange(p as int, e as int)) > max);
            }
            return None;
        }
        v = nv as u64;
        i = i + 1;
    }
    assert(d.take(e - p) =~= d);
    Some((v, e))
}


/// The kinds of lines that a block is made of.
#[derive(Debug, Clone, Copy, PartialEq, Eq, Structural)]
pub enum LineKind {
    /// a paragraph line: nonempty, not starting with a space or tab; kept without trailing
    /// white space
    Paragraph,
    /// a line of a verbatim block: anything; kept without trailing white space
    Verbatim,
    /// a line of unknown kind: nonempty; kept as it is
    Unknown,
}

pub open spec fn valid_line(l: Seq<char>) -> bool {
    l.len() > 0 && l[0] != ' ' && l[0] != '\t'
}

pub open spec fn line_ok(k: LineKind, l: Seq<char>) -> bool {
    match k {
        LineKind::Paragraph => valid_line(l),
        LineKind::Verbatim => true,
        LineKind::Unknown => l.len() > 0,
    }
}

pub open spec fn line_kept(k: LineKind, l: Seq<char>) -> Seq<char> {
    match k {
        LineKind::Paragraph => trim_end(l),
        LineKind::Verbatim => trim_end(l),
        LineKind::Unknown => l,
    }
}

/// Lines of kind `k` after exactly `ind` spaces, one after the other from `p` on, added to
/// `acc`; and the position after the last of them.
pub open spec fn spec_lines(s: Seq<char>, p: int, ind: int, k: LineKind, acc: Seq<Seq<char>>) -> (Seq<Seq<char>>, int)
    decreases s.len() - p,
{
    match spec_indented_line(s, p, ind, ind) {
        Some((c, e, q)) => if line_ok(k, s.subrange(c, e)) && p < q <= s.len() {
            spec_lines(s, q, ind, k, acc.push(line_kept(k, s.subrange(c, e))))
        } else {
            (acc, p)
        },
        None => (acc, p),
    }
}

fn line_string(s: &[char], c: usize, e: usize, k: LineKind) -> (r: String)
    requires
        c <= e <= s@.len(),
    ensures
        r@ == line_kept(k, s@.subrange(c as int, e as int)),
{
    match k {
        LineKind::Unknown => string_of(s, c, e),
        _ => string_trim_end(s, c, e),
    }
}

fn line_is_ok(s: &[char], c: usize, e: usize, k: LineKind) -> (r: bool)
    requires
        c <= e <= s@.len(),
    ensures
        r == line_ok(k, s@.subrange(c as int, e as int)),
{
    match k {
        LineKind::Paragraph => c < e && s[c] != ' ' && s[c] != '\t',
        LineKind::Verbatim => true,
        LineKind::Unknown => c < e,
    }
}

pub fn lines_at(s: &[char], p: usize, ind: usize, k: LineKind, acc: Vec<String>) -> (r: (Vec<String>, usize))
    requires
        p <= s@.len(),
    ensures
        spec_lines(s@, p as int, ind as int, k, acc.deep_view()) == (r.0.deep_view(), r.1 as int),
        p <= r.1 <= s@.len(),
        r.0@.len() >= acc@.len(),
        r.0@.len() > acc@.len() ==> p < r.1,
{
    let mut v = acc;
    let mut i = p;
    loop
        invariant
            p <= i <= s@.len(),
            spec_lines(s@, p as int, ind as int, k, acc.deep_view()) == spec_lines(s@, i as int, ind as int, k, v.deep_view()),
            v@.len() >= acc@.len(),
            v@.len() > acc@.len() ==> p < i,
        decreases s@.len() - i,
    {
        match indented_line_at(s, i, ind, ind) {
            Some((c, e, q)) => {
                if line_is_ok(s, c, e, k) {
                    let l = line_string(s, c, e, k);
                    let ghost old_v = v.deep_view();
                    v.push(l);
                    assert(v.deep_view() =~= old_v.push(line_kept(k, s@.subrange(c as int, e as int))));
                    i = q;
                } else {
                    return (v, i);
                }
            },
            None => {
                return (v, i);
            },
        }
    }
}

/// A paragraph: an optional first line indented by one to three more spaces than `m`, then
/// lines indented by exactly `m`; at least one line in all. The first line is kept as it is.
pub open spec fn spec_paragraph(s: Seq<char>, p: int, m: int) -> Option<(Seq<Seq<char>>, int)> {
    let (first, p1) = match spec_indented_line(s, p, m + 1, m + 3) {
        Some((c, e, q)) => if valid_line(s.subrange(c, e)) {
            (seq![s.subrange(c, e)], q)
        } else {
            (Seq::empty(), p)
        },
        None => (Seq::empty(), p),
    };
    let (lines, q) = spec_lines(s, p1, m, LineKind::Paragraph, first);
    if lines.len() > 0 {
        Some((lines, q))
    } else {
        None
    }
}

pub fn paragraph_at(s: &[char], p: usize, m: usize) -> (r: Option<(Paragraph, usize)>)
    requires
        p <= s@.len(),
        m + 3 <= usize::MAX,
    ensures
        r matches Some((v, q)) ==> spec_paragraph(s@, p as int, m as int) == Some((v.lines.deep_view(), q as int))
            && p < q <= s@.len(),
        r is None ==> spec_paragraph(s@, p as int, m as int) is None,
{
    let mut first: Vec<String> = Vec::new();
    let mut p1 = p;
    match indented_line_at(s, p, m + 1, m + 3) {
        Some((c, e, q)) => {
            if line_is_ok(s, c, e, LineKind::Paragraph) {
                first.push(string_of(s, c, e));
                p1 = q;
            }
        },
        None => {},
    }
    let ghost f = first.deep_view();
    assert(f.len() == 0 ==> f =~= Seq::<Seq<char>>::empty());
    assert(f.len() == 1 ==> f =~= seq![f[0]]);
    let (lines, q) = lines_at(s, p1, m, LineKind::Paragraph, first);
    if lines.len() > 0 {
        Some((Paragraph { lines }, q))
    } else {
        None
    }
}

/// A verbatim block: lines indented by at least `m + 5` spaces (the first `m + 5` are dropped).
pub open spec fn spec_verbatim(s: Seq<char>, p: int, m: int) -> Option<(Seq<Seq<char>>, int)> {
    let (lines, q) = spec_lines(s, p, m + 5, LineKind::Verbatim, Seq::empty());
    if lines.len() > 0 {
        Some((lines, q))
    } else {
        None
    }
}

pub fn verbatim_at(s: &[char], p: usize, m: usize) -> (r: Option<(Verbatim, usize)>)
    requires
        p <= s@.len(),
        m + 5 <= usize::MAX,
    ensures
        r matches Some((v, q)) ==> spec_verbatim(s@, p as int, m as int) == Some((v.lines.deep_view(), q as int))
            && p < q <= s@.len(),
        r is None ==> spec_verbatim(s@, p as int, m as int) is None,
{
    let empty: Vec<String> = Vec::new();
    assert(empty.deep_view() =~= Seq::<Seq<char>>::empty());
    let (lines, q) = lines_at(s, p, m + 5, LineKind::Verbatim, empty);
    if lines.len() > 0 {
        Some((Verbatim { lines }, q))
    } else {
        None
    }
}

/// Nonempty lines indented by exactly `m` spaces that no other kind of block takes.
pub open spec fn spec_unknown_lines(s: Seq<char>, p: int, m: int) -> Option<(Seq<Seq<char>>, int)> {
    let (lines, q) = spec_lines(s, p, m, LineKind::Unknown, Seq::empty());
    if lines.len() > 0 {
        Some((lines, q))
    } else {
        None
    }
}

pub fn unknown_lines_at(s: &[char], p: usize, m: usize) -> (r: Option<(Vec<String>, usize)>)
    requires
        p <= s@.len(),
    ensures
        r matches Some((v, q)) ==> spec_unknown_lines(s@, p as int, m as int) == Some((v.deep_view(), q as int))
            && p < q <= s@.len(),
        r is None ==> spec_unknown_lines(s@, p as int, m as int) is None,
{
    let empty: Vec<String> = Vec::new();
    assert(empty.deep_view() =~= Seq::<Seq<char>>::empty());
    let (lines, q) = lines_at(s, p, m, LineKind::Unknown, empty);
    if lines.len() > 0 {
        Some((lines, q))
    } else {
        None
    }
}


/// The description lines of a menu entry: each line that starts with neither a newline nor
/// `*` and holds something after its leading spaces, trimmed.
pub open spec fn spec_descr_lines(s: Seq<char>, p: int, acc: Seq<Seq<char>>) -> (Seq<Seq<char>>, int)
    decreases s.len() - p,
{
    if char_at(s, p, '\n') || char_at(s, p, '*') || spec_separator(s, p) is Some {
        (acc, p)
    } else {
        let c = p + run(s, p, CharClass::Space, s.len() as int);
        match take_until(s, c, seq!['\n'], 1, s.len() as int) {
            Some(e) => if p < e + 1 <= s.len() {
                spec_descr_lines(s, e + 1, acc.push(trim(s.subrange(c, e))))
            } else {
                (acc, p)
            },
            None => (acc, p),
        }
    }
}

pub fn descr_lines_at(s: &[char], p: usize) -> (r: (Vec<String>, usize))
    requires
        p <= s@.len(),
    ensures
        spec_descr_lines(s@, p as int, Seq::empty()) == (r.0.deep_view(), r.1 as int),
        p <= r.1 <= s@.len(),
{
    let n = s.len();
    let mut v: Vec<String> = Vec::new();
    assert(v.deep_view() =~= Seq::<Seq<char>>::empty());
    let mut i = p;
    let nl = ['\n'];
    assert(nl@ =~= seq!['\n']);
    loop
        invariant
            n == s@.len(),
            p <= i <= n,
            nl@ == seq!['\n'],
            spec_descr_lines(s@, p as int, Seq::empty()) == spec_descr_lines(s@, i as int, v.deep_view()),
        decreases n - i,
    {
        if (i < n && (s[i] == '\n' || s[i] == '*')) || separator_at(s, i).is_some() {
            return (v, i);
        }
        let k = run_len(s, i, CharClass::Space, n);
        let c = i + k;
        match take_until_at(s, c, &nl, 1, n) {
            Some(e) => {
                let l = string_trim(s, c, e);
                let ghost old_v = v.deep_view();
                v.push(l);
                assert(v.deep_view() =~= old_v.push(trim(s@.subrange(c as int, e as int))));
                i = e + 1;
            },
            None => {
                return (v, i);
            },
        }
    }
}

// https://www.gnu.org/software/texinfo/manual/texinfo/html_node/Info-Format-Menu.html
/// `* nodename::` and an optional description.
pub open spec fn spec_menu_entry_without_label(s: Seq<char>, p: int) -> Option<(SpecMenuEntry, int)> {
    if !lit_at(s, p, "* "@) {
        None
    } else {
        let (id, p2) = spec_id(s, p + "* "@.len(), seq![':']);
        if !lit_at(s, p2, "::"@) {
            None
        } else {
            let p3 = p2 + "::"@.len();
            let d = if char_at(s, p3, '\n') {
                Some((Seq::<Seq<char>>::empty(), p3 + 1))
            } else if run(s, p3, CharClass::Space, s.len() as int) >= 1 {
                Some(spec_descr_lines(s, p3 + run(s, p3, CharClass::Space, s.len() as int), Seq::empty()))
            } else {
                None
            };
            match d {
                Some((description, p4)) => {
                    let t = run(s, p4, CharClass::Newline, s.len() as int);
                    Some((SpecMenuEntry { label: None, description, id, trailing_newlines: t as nat }, p4 + t))
                },
                None => None,
            }
        }
    }
}

fn newlines_after(s: &[char], d: Vec<String>, p: usize, label: Option<String>, id: Id) -> (r: (MenuEntry, usize))
    requires
        p <= s@.len(),
    ensures
        r.1 == p + run(s@, p as int, CharClass::Newline, s@.len() as int),
        p <= r.1 <= s@.len(),
        r.0.deep_view() == (SpecMenuEntry {
            label: label.deep_view(),
            description: d.deep_view(),
            id: id.deep_view(),
            trailing_newlines: run(s@, p as int, CharClass::Newline, s@.len() as int) as nat,
        }),
{
    let t = run_len(s, p, CharClass::Newline, s.len());
    (MenuEntry { label, description: d, id, trailing_newlines: t }, p + t)
}

pub fn menu_entry_without_label_at(s: &[char], p: usize) -> (r: Option<(MenuEntry, usize)>)
    requires
        p <= s@.len(),
    ensures
        r matches Some((v, q)) ==> spec_menu_entry_without_label(s@, p as int) == Some((v.deep_view(), q as int))
            && p < q <= s@.len(),
        r is None ==> spec_menu_entry_without_label(s@, p as int) is None,
{
    let n = s.len();
    proof {
        reveal_strlit("* ");
        reveal_strlit("::");
    }
    let p1 = match lit(s, p, "* ") {
        Some(q) => q,
        None => return None,
    };
    let colon = [':'];
    assert(colon@ =~= seq![':']);
    let (id, p2) = id_at(s, p1, &colon);
    let p3 = match lit(s, p2, "::") {
        Some(q) => q,
        None => return None,
    };
    let (description, p4) = if p3 < n && s[p3] == '\n' {
        let d: Vec<String> = Vec::new();
        assert(d.deep_view() =~= Seq::<Seq<char>>::empty());
        (d, p3 + 1)
    } else {
        let k = run_len(s, p3, CharClass::Space, n);
        if k >= 1 {
            descr_lines_at(s, p3 + k)
        } else {
            return None;
        }
    };
    let (e, q) = newlines_after(s, description, p4, None, id);
    Some((e, q))
}

/// `* label: nodename.` (the label may be quoted between `DELETE`s, the node name ends at `.`
/// or `,`) and an optional description.
pub open spec fn spec_menu_entry_with_label(s: Seq<char>, p: int) -> Option<(SpecMenuEntry, int)> {
    if !lit_at(s, p, "* "@) {
        None
    } else {
        let p1 = p + "* "@.len();
        let quoted = if char_at(s, p1, DELETE) {
            take_until(s, p1 + 1, seq![DELETE], 0, s.len() as int)
        } else {
            None
        };
        let label = match quoted {
            Some(q) => Some((s.subrange(p1 + 1, q), q + 1)),
            None => match take_until(s, p1, seq![':'], 1, s.len() as int) {
                Some(q) => Some((s.subrange(p1, q), q + 1)),
                None => None,
            },
        };
        match label {
            None => None,
            Some((label, p2)) => {
                let p3 = p2 + run(s, p2, CharClass::Space, s.len() as int);
                let (id, p4) = spec_id(s, p3, seq!['.', ',']);
                if !(char_at(s, p4, '.') || char_at(s, p4, ',')) {
                    None
                } else {
                    let p5 = p4 + 1;
                    let k = run(s, p5, CharClass::Space, s.len() as int);
                    let (description, p6) = if k >= 1 {
                        spec_descr_lines(s, p5 + k, Seq::empty())
                    } else {
                        (Seq::empty(), p5)
                    };
                    let t = run(s, p6, CharClass::Newline, s.len() as int);
                    Some((
                        SpecMenuEntry {
                            label: Some(label),
                            description,
                            id,
                            trailing_newlines: t as nat,
                        },
                        p6 + t,
                    ))
                }
            },
        }
    }
}

fn take_until_char(s: &[char], p: usize, c: char, min: usize) -> (r: Option<usize>)
    requires
        p <= s@.len(),
    ensures
        r matches Some(q) ==> take_until(s@, p as int, seq![c], min as int, s@.len() as int) == Some(q as int)
            && p <= q < s@.len() && s@[q as int] == c,
        r is None ==> take_until(s@, p as int, seq![c], min as int, s@.len() as int) is None,
{
    let w = [c];
    assert(w@ =~= seq![c]);
    let r = take_until_at(s, p, &w, min, s.len());
    proof {
        if let Some(q) = r {
            assert(lit_at(s@, q as int, seq![c])) by {
                crate::parser_util::lemma_find_lit_bounds(s@, p as int, seq![c]);
            }
            assert(s@.subrange(q as int, q + 1)[0] == s@[q as int]);
        }
    }
    r
}

pub fn menu_entry_with_label_at(s: &[char], p: usize) -> (r: Option<(MenuEntry, usize)>)
    requires
        p <= s@.len(),
    ensures
        r matches Some((v, q)) ==> spec_menu_entry_with_label(s@, p as int) == Some((v.deep_view(), q as int))
            && p < q <= s@.len(),
        r is None ==> spec_menu_entry_with_label(s@, p as int) is None,
{
    let n = s.len();
    proof {
        reveal_strlit("* ");
    }
    let p1 = match lit(s, p, "* ") {
        Some(q) => q,
        None => return None,
    };
    let quoted = if p1 < n && s[p1] == DELETE {
        take_until_char(s, p1 + 1, DELETE, 0)
    } else {
        None
    };
    let (label, p2) = match quoted {
        Some(q) => (string_of(s, p1 + 1, q), q + 1),
        None => match take_until_char(s, p1, ':', 1) {
            Some(q) => (string_of(s, p1, q), q + 1),
            None => return None,
        },
    };
    let p3 = p2 + run_len(s, p2, CharClass::Space, n);
    let stops = ['.', ','];
    assert(stops@ =~= seq!['.', ',']);
    let (id, p4) = id_at(s, p3, &stops);
    if !(p4 < n && (s[p4] == '.' || s[p4] == ',')) {
        return None;
    }
    let p5 = p4 + 1;
    let k = run_len(s, p5, CharClass::Space, n);
    let (description, p6) = if k >= 1 {
        descr_lines_at(s, p5 + k)
    } else {
        let d: Vec<String> = Vec::new();
        assert(d.deep_view() =~= Seq::<Seq<char>>::empty());
        (d, p5)
    };
    let (e, q) = newlines_after(s, description, p6, Some(label), id);
    Some((e, q))
}

/// The lines of a menu comment: each line that starts with neither a newline nor `*`, trimmed.
pub open spec fn spec_comment_lines(s: Seq<char>, p: int, acc: Seq<Seq<char>>) -> (Seq<Seq<char>>, int)
    decreases s.len() - p,
{
    if char_at(s, p, '\n') || char_at(s, p, '*') || spec_separator(s, p) is Some {
        (acc, p)
    } else {
        match take_until(s, p, seq!['\n'], 0, s.len() as int) {
            Some(e) => if p < e + 1 <= s.len() {
                spec_comment_lines(s, e + 1, acc.push(trim(s.subrange(p, e + 1))))
            } else {
                (acc, p)
            },
            None => (acc, p),
        }
    }
}

/// At least one comment line, then the newlines that follow.
pub open spec fn spec_menu_comment(s: Seq<char>, p: int) -> Option<(SpecMenuComment, int)> {
    let (lines, p1) = spec_comment_lines(s, p, Seq::empty());
    if lines.len() == 0 {
        None
    } else {
        let t = run(s, p1, CharClass::Newline, s.len() as int);
        Some((SpecMenuComment { lines, trailing_newlines: t as nat }, p1 + t))
    }
}

pub fn menu_comment_at(s: &[char], p: usize) -> (r: Option<(MenuComment, usize)>)
    requires
        p <= s@.len(),
    ensures
        r matches Some((v, q)) ==> spec_menu_comment(s@, p as int) == Some((v.deep_view(), q as int))
            && p < q <= s@.len(),
        r is None ==> spec_menu_comment(s@, p as int) is None,
{
    let n = s.len();
    let mut v: Vec<String> = Vec::new();
    assert(v.deep_view() =~= Seq::<Seq<char>>::empty());
    let mut i = p;
    loop
        invariant
            n == s@.len(),
            p <= i <= n,
            v@.len() > 0 ==> p < i,
            spec_comment_lines(s@, p as int, Seq::empty()) == spec_comment_lines(s@, i as int, v.deep_view()),
        ensures
            p <= i <= n,
            v@.len() > 0 ==> p < i,
            spec_comment_lines(s@, p as int, Seq::empty()) == (v.deep_view(), i as int),
        decreases n - i,
    {
        if (i < n && (s[i] == '\n' || s[i] == '*')) || separator_at(s, i).is_some() {
            break;
        }
        match take_until_char(s, i, '\n', 0) {
            Some(e) => {
                let l = string_trim(s, i, e + 1);
                let ghost old_v = v.deep_view();
                v.push(l);
                assert(v.deep_view() =~= old_v.push(trim(s@.subrange(i as int, e + 1))));
                i = e + 1;
            },
            None => {
                break;
            },
        }
    }
    if v.len() == 0 {
        return None;
    }
    let t = run_len(s, i, CharClass::Newline, n);
    Some((MenuComment { lines: v, trailing_newlines: t }, i + t))
}

/// An entry without label, an entry with label, or a comment, tried in this order.
pub open spec fn spec_menu_item(s: Seq<char>, p: int) -> Option<(SpecMenuItem, int)> {
    match spec_menu_entry_without_label(s, p) {
        Some((e, q)) => Some((SpecMenuItem::Entry(e), q)),
        None => match spec_menu_entry_with_label(s, p) {
            Some((e, q)) => Some((SpecMenuItem::Entry(e), q)),
            None => match spec_menu_comment(s, p) {
                Some((c, q)) => Some((SpecMenuItem::Comment(c), q)),
                None => None,
            },
        },
    }
}

pub fn menu_item_at(s: &[char], p: usize) -> (r: Option<(MenuItem, usize)>)
    requires
        p <= s@.len(),
    ensures
        r matches Some((v, q)) ==> spec_menu_item(s@, p as int) == Some((v.deep_view(), q as int))
            && p < q <= s@.len(),
        r is None ==> spec_menu_item(s@, p as int) is None,
{
    if let Some((e, q)) = menu_entry_without_label_at(s, p) {
        return Some((MenuItem::Entry(e), q));
    }
    if let Some((e, q)) = menu_entry_with_label_at(s, p) {
        return Some((MenuItem::Entry(e), q));
    }
    if let Some((c, q)) = menu_comment_at(s, p) {
        return Some((MenuItem::Comment(c), q));
    }
    None
}

/// Menu items one after the other from `p` on, added to `acc`.
pub open spec fn spec_menu_items(s: Seq<char>, p: int, acc: Seq<SpecMenuItem>) -> (Seq<SpecMenuItem>, int)
    decreases s.len() - p,
{
    match spec_menu_item(s, p) {
        Some((it, q)) => if p < q <= s.len() {
            spec_menu_items(s, q, acc.push(it))
        } else {
            (acc, p)
        },
        None => (acc, p),
    }
}

// https://www.gnu.org/software/texinfo/manual/texinfo/html_node/Info-Format-Menu.html
/// `* Menu:`, one or more newlines, white space, then menu items.
pub open spec fn spec_menu(s: Seq<char>, p: int) -> Option<(Seq<SpecMenuItem>, int)> {
    if !lit_at(s, p, "* Menu:"@) {
        None
    } else {
        let p1 = p + "* Menu:"@.len();
        let k = run(s, p1, CharClass::Newline, s.len() as int);
        if k < 1 {
            None
        } else {
            let p2 = p1 + k;
            let p3 = p2 + run(s, p2, CharClass::MultiSpace, s.len() as int);
            Some(spec_menu_items(s, p3, Seq::empty()))
        }
    }
}

pub fn menu_at(s: &[char], p: usize) -> (r: Option<(Menu, usize)>)
    requires
        p <= s@.len(),
    ensures
        r matches Some((v, q)) ==> spec_menu(s@, p as int) == Some((v.items.deep_view(), q as int))
            && p < q <= s@.len(),
        r is None ==> spec_menu(s@, p as int) is None,
{
    let n = s.len();
    proof {
        reveal_strlit("* Menu:");
    }
    let p1 = match lit(s, p, "* Menu:") {
        Some(q) => q,
        None => return None,
    };
    let k = run_len(s, p1, CharClass::Newline, n);
    if k < 1 {
        return None;
    }
    let p2 = p1 + k;
    let p3 = p2 + run_len(s, p2, CharClass::MultiSpace, n);
    let mut items: Vec<MenuItem> = Vec::new();
    assert(items.deep_view() =~= Seq::<SpecMenuItem>::empty());
    let mut i = p3;
    loop
        invariant
            n == s@.len(),
            p < p3 <= i <= n,
            spec_menu_items(s@, p3 as int, Seq::empty()) == spec_menu_items(s@, i as int, items.deep_view()),
        ensures
            p < p3 <= i <= n,
            spec_menu_items(s@, p3 as int, Seq::empty()) == (items.deep_view(), i as int),
        decreases n - i,
    {
        match menu_item_at(s, i) {
            Some((it, q)) => {
                let ghost old_v = items.deep_view();
                let ghost itv = it.deep_view();
                items.push(it);
                assert(items.deep_view() =~= old_v.push(itv));
                i = q;
            },
            None => {
                break;
            },
        }
    }
    Some((Menu { items }, i))
}


/// Whether `s` holds `n` copies of `c` from `p` on.
pub open spec fn repeated_at(s: Seq<char>, p: int, c: char, n: int) -> bool {
    0 <= p && p + n <= s.len() && forall|i: int| p <= i < p + n ==> s[i] == c
}

pub open spec fn is_underline(c: char) -> bool {
    c == '*' || c == '=' || c == '-' || c == '.'
}

pub open spec fn heading_level(c: char) -> HeadingLevel {
    if c == '*' {
        HeadingLevel::Major
    } else if c == '=' {
        HeadingLevel::Section
    } else if c == '-' {
        HeadingLevel::SubSection
    } else {
        HeadingLevel::SubSubSection
    }
}

/// An underline of `n` columns at `p`: `n` copies of `*`, `=`, `-` or `.` (which gives the
/// level), then a line ending; the position after it.
pub open spec fn spec_underline(s: Seq<char>, p: int, n: int) -> Option<(HeadingLevel, int)> {
    if !(0 <= p < s.len() && is_underline(s[p])) {
        None
    } else if !repeated_at(s, p, s[p], n) {
        None
    } else {
        match spec_line_ending(s, p + n) {
            None => None,
            Some(q) => Some((heading_level(s[p]), q)),
        }
    }
}

/// A line of text, then an underline as wide as the text has grapheme clusters.
pub open spec fn spec_heading(s: Seq<char>, p: int) -> Option<(SpecHeading, int)> {
    match spec_till_line_ending(s, p) {
        None => None,
        Some(e) => match spec_line_ending(s, e) {
            None => None,
            Some(p1) => match spec_underline(s, p1, grapheme_count(s.subrange(p, e)) as int) {
                None => None,
                Some((level, q)) => Some((SpecHeading { level, text: s.subrange(p, e) }, q)),
            },
        },
    }
}

fn repeated(s: &[char], p: usize, c: char, n: usize) -> (r: bool)
    requires
        p <= s@.len(),
    ensures
        r == repeated_at(s@, p as int, c, n as int),
{
    let slen = s.len();
    if n > slen - p {
        return false;
    }
    let mut i: usize = 0;
    while i < n
        invariant
            slen == s@.len(),
            p + n <= s@.len(),
            i <= n,
            forall|j: int| p <= j < p + i ==> s@[j] == c,
        decreases n - i,
    {
        if s[p + i] != c {
            return false;
        }
        i = i + 1;
    }
    true
}

pub fn heading_at(s: &[char], p: usize) -> (r: Option<(Heading, usize)>)
    requires
        p <= s@.len(),
    ensures
        r matches Some((v, q)) ==> spec_heading(s@, p as int) == Some((v.deep_view(), q as int))
            && p < q <= s@.len(),
        r is None ==> spec_heading(s@, p as int) is None,
{
    let e = match till_line_ending_at(s, p) {
        Some(e) => e,
        None => return None,
    };
    let p1 = match line_ending_at(s, e) {
        Some(q) => q,
        None => return None,
    };
    let text = string_of(s, p, e);
    let count = count_graphemes(text.as_str());
    match underline_at(s, p1, count) {
        Some((level, q)) => Some((Heading { level, text }, q)),
        None => None,
    }
}

/// The underline of `width` columns at `p`: its level and the position after it.
pub fn underline_at(s: &[char], p: usize, width: usize) -> (r: Option<(HeadingLevel, usize)>)
    requires
        p <= s@.len(),
    ensures
        r matches Some((level, q)) ==> spec_underline(s@, p as int, width as int) == Some((level, q as int))
            && p < q <= s@.len(),
        r is None ==> spec_underline(s@, p as int, width as int) is None,
{
    let n = s.len();
    if !(p < n && (s[p] == '*' || s[p] == '=' || s[p] == '-' || s[p] == '.')) {
        return None;
    }
    let ul = s[p];
    if !repeated(s, p, ul, width) {
        return None;
    }
    let q = match line_ending_at(s, p + width) {
        Some(q) => q,
        None => return None,
    };
    let level = if ul == '*' {
        HeadingLevel::Major
    } else if ul == '=' {
        HeadingLevel::Section
    } else if ul == '-' {
        HeadingLevel::SubSection
    } else {
        HeadingLevel::SubSubSection
    };
    Some((level, q))
}

/// The last position of `c` in `x`.
pub open spec fn last_index_of(x: Seq<char>, c: char) -> Option<int>
    decreases x.len(),
{
    if x.len() == 0 {
        None
    } else if x.last() == c {
        Some(x.len() - 1)
    } else {
        last_index_of(x.drop_last(), c)
    }
}

proof fn lemma_last_index_of(x: Seq<char>, c: char)
    ensures
        last_index_of(x, c) matches Some(k) ==> 0 <= k < x.len() && x[k] == c,
    decreases x.len(),
{
    if x.len() > 0 && x.last() != c {
        lemma_last_index_of(x.drop_last(), c);
    }
}

/// The last position of `c` in `s[a..b]`, counted from the start of `s`.
fn rfind_char(s: &[char], a: usize, b: usize, c: char) -> (r: Option<usize>)
    requires
        a <= b <= s@.len(),
    ensures
        r matches Some(k) ==> last_index_of(s@.subrange(a as int, b as int), c) == Some(k - a) && a <= k < b,
        r is None ==> last_index_of(s@.subrange(a as int, b as int), c) is None,
{
    let mut e = b;
    while e > a
        invariant
            a <= e <= b <= s@.len(),
            last_index_of(s@.subrange(a as int, b as int), c) == last_index_of(
                s@.subrange(a as int, e as int),
                c,
            ),
        decreases e,
    {
        if s[e - 1] == c {
            return Some(e - 1);
        }
        assert(s@.subrange(a as int, e as int).drop_last() =~= s@.subrange(a as int, e - 1));
        e = e - 1;
    }
    None
}

/// The entry text and the node of an index entry: around the last `:`, both trimmed.
pub open spec fn text_and_spec(x: Seq<char>) -> Option<(Seq<char>, Seq<char>)> {
    match last_index_of(x, ':') {
        Some(k) => Some((trim(x.take(k)), trim(x.skip(k + 1)))),
        None => None,
    }
}

fn text_and_spec_of(s: &[char], a: usize, b: usize) -> (r: Option<(String, String)>)
    requires
        a <= b <= s@.len(),
    ensures
        r matches Some((t, n)) ==> text_and_spec(s@.subrange(a as int, b as int)) == Some((t@, n@)),
        r is None ==> text_and_spec(s@.subrange(a as int, b as int)) is None,
{
    match rfind_char(s, a, b, ':') {
        Some(k) => {
            assert(s@.subrange(a as int, b as int).take(k - a) =~= s@.subrange(a as int, k as int));
            assert(s@.subrange(a as int, b as int).skip(k - a + 1) =~= s@.subrange(k + 1, b as int));
            Some((string_trim(s, a, k), string_trim(s, k + 1, b)))
        },
        None => None,
    }
}

/// `. (line N)`, the white space being any mix of spaces, tabs and newlines.
pub open spec fn spec_line_spec(s: Seq<char>, q: int) -> Option<(nat, int)> {
    if !char_at(s, q, '.') {
        None
    } else {
        let k = run(s, q + 1, CharClass::MultiSpace, s.len() as int);
        let r = q + 1 + k;
        if k < 1 || !char_at(s, r, '(') || !lit_at(s, r + 1, "line"@) {
            None
        } else {
            let a = r + 1 + "line"@.len();
            let k2 = run(s, a, CharClass::MultiSpace, s.len() as int);
            if k2 < 1 {
                None
            } else {
                match spec_dec_uint(s, a + k2, usize::MAX as nat) {
                    Some((v, r2)) => if char_at(s, r2, ')') {
                        Some((v, r2 + 1))
                    } else {
                        None
                    },
                    None => None,
                }
            }
        }
    }
}

fn line_spec_at(s: &[char], q: usize) -> (r: Option<(usize, usize)>)
    requires
        q <= s@.len(),
    ensures
        r matches Some((v, e)) ==> spec_line_spec(s@, q as int) == Some((v as nat, e as int)) && q < e <= s@.len(),
        r is None ==> spec_line_spec(s@, q as int) is None,
{
    let n = s.len();
    proof {
        reveal_strlit("line");
    }
    if !(q < n && s[q] == '.') {
        return None;
    }
    let k = run_len(s, q + 1, CharClass::MultiSpace, n);
    let r = q + 1 + k;
    if k < 1 || !(r < n && s[r] == '(') {
        return None;
    }
    let a = match lit(s, r + 1, "line") {
        Some(a) => a,
        None => return None,
    };
    let k2 = run_len(s, a, CharClass::MultiSpace, n);
    if k2 < 1 {
        return None;
    }
    match dec_uint_at(s, a + k2, usize::MAX as u64) {
        Some((v, r2)) => if r2 < n && s[r2] == ')' {
            Some((v as usize, r2 + 1))
        } else {
            None
        },
        None => None,
    }
}

/// The first newline at or after `p`, or the end of `s`.
pub open spec fn line_end(s: Seq<char>, p: int) -> int {
    match find_lit(s, p, seq!['\n']) {
        Some(q) => q,
        None => s.len() as int,
    }
}

// https://www.gnu.org/software/texinfo/manual/texinfo/html_node/Info-Format-Printindex.html
/// `* entry text: node.` followed by `(line N)` on the next line, or `* entry text: node.
/// (line N)` on one line. When the first line ends with `.` and the character just before its
/// end is not ASCII, parsing aborts: the slice would end inside that character.
pub open spec fn spec_index_entry(s: Seq<char>, p: int) -> Result<(SpecIndexEntry, int), Fail> {
    if !lit_at(s, p, "* "@) {
        Err(Fail::Backtrack)
    } else {
        let p1 = p + "* "@.len();
        let nl = line_end(s, p1);
        let first_line = trim_end(s.subrange(p1, nl));
        let cut = if first_line.len() == 0 {
            Err(Fail::Backtrack)
        } else if first_line.last() == '.' {
            if (s[nl - 1] as u32) >= 0x80 {
                Err(Fail::Abort)
            } else {
                Ok(nl - 1)
            }
        } else if first_line.last() == ')' {
            match last_index_of(first_line, '.') {
                Some(j) => Ok(p1 + j),
                None => Err(Fail::Backtrack),
            }
        } else {
            Err(Fail::Backtrack)
        };
        match cut {
            Err(f) => Err(f),
            Ok(q) => match text_and_spec(s.subrange(p1, q)) {
                None => Err(Fail::Backtrack),
                Some((text, node)) => match spec_line_spec(s, q) {
                    None => Err(Fail::Backtrack),
                    Some((line, r)) => Ok(
                        (
                            SpecIndexEntry {
                                text,
                                node: SpecId { infofile: None, nodename: Some(node) },
                                line,
                            },
                            r,
                        ),
                    ),
                },
            },
        }
    }
}

pub fn index_entry_at(s: &[char], p: usize) -> (r: Result<(IndexEntry, usize), Fail>)
    requires
        p <= s@.len(),
    ensures
        r matches Ok((v, q)) ==> spec_index_entry(s@, p as int) == Ok::<_, Fail>((v.deep_view(), q as int))
            && p < q <= s@.len(),
        r matches Err(f) ==> spec_index_entry(s@, p as int) == Err::<(SpecIndexEntry, int), _>(f),
{
    let n = s.len();
    proof {
        reveal_strlit("* ");
    }
    let p1 = match lit(s, p, "* ") {
        Some(q) => q,
        None => return Err(Fail::Backtrack),
    };
    let nlc = ['\n'];
    assert(nlc@ =~= seq!['\n']);
    proof {
        crate::parser_util::lemma_find_lit_bounds(s@, p1 as int, seq!['\n']);
    }
    let nl = match crate::parser_util::find(s, p1, &nlc) {
        Some(q) => q,
        None => n,
    };
    let e = trim_end_bound(s, p1, nl);
    let ghost first_line = s@.subrange(p1 as int, e as int);
    assert(first_line.len() > 0 ==> first_line.last() == s@[e - 1]);
    let q = if e == p1 {
        return Err(Fail::Backtrack);
    } else if s[e - 1] == '.' {
        if s[nl - 1] as u32 >= 0x80 {
            return Err(Fail::Abort);
        } else {
            nl - 1
        }
    } else if s[e - 1] == ')' {
        match rfind_char(s, p1, e, '.') {
            Some(j) => j,
            None => return Err(Fail::Backtrack),
        }
    } else {
        return Err(Fail::Backtrack);
    };
    let (text, node) = match text_and_spec_of(s, p1, q) {
        Some(x) => x,
        None => return Err(Fail::Backtrack),
    };
    match line_spec_at(s, q) {
        None => Err(Fail::Backtrack),
        Some((line, r)) => {
            let entry = IndexEntry { text, node: Id { infofile: None, nodename: Some(node) }, line };
            Ok((entry, r))
        },
    }
}

pub open spec fn printindex_header() -> Seq<char> {
    "\u{0}\u{8}[index\u{0}\u{8}]\n* Menu:\n\n"@
}

/// Index entries, each followed by a newline, from `p` on, added to `acc`.
pub open spec fn spec_index_entries(s: Seq<char>, p: int, acc: Seq<SpecIndexEntry>) -> Result<(Seq<SpecIndexEntry>, int), Fail>
    decreases s.len() - p,
{
    match spec_index_entry(s, p) {
        Ok((e, q)) => if char_at(s, q, '\n') && p < q + 1 <= s.len() {
            spec_index_entries(s, q + 1, acc.push(e))
        } else {
            Ok((acc, p))
        },
        Err(Fail::Abort) => Err(Fail::Abort),
        Err(_) => Ok((acc, p)),
    }
}

/// The index that `@printindex` writes: a header, then index entries.
pub open spec fn spec_printindex(s: Seq<char>, p: int) -> Result<(Seq<SpecIndexEntry>, int), Fail> {
    if !lit_at(s, p, printindex_header()) {
        Err(Fail::Backtrack)
    } else {
        spec_index_entries(s, p + printindex_header().len(), Seq::empty())
    }
}

pub fn printindex_at(s: &[char], p: usize) -> (r: Result<(Printindex, usize), Fail>)
    requires
        p <= s@.len(),
    ensures
        r matches Ok((v, q)) ==> spec_printindex(s@, p as int) == Ok::<_, Fail>((v.entries.deep_view(), q as int))
            && p < q <= s@.len(),
        r matches Err(f) ==> spec_printindex(s@, p as int) == Err::<(Seq<SpecIndexEntry>, int), _>(f),
{
    let n = s.len();
    proof {
        reveal_strlit("\u{0}\u{8}[index\u{0}\u{8}]\n* Menu:\n\n");
    }
    let p1 = match lit(s, p, "\u{0}\u{8}[index\u{0}\u{8}]\n* Menu:\n\n") {
        Some(q) => q,
        None => return Err(Fail::Backtrack),
    };
    let mut entries: Vec<IndexEntry> = Vec::new();
    assert(entries.deep_view() =~= Seq::<SpecIndexEntry>::empty());
    let mut i = p1;
    loop
        invariant
            n == s@.len(),
            p < p1 <= i <= n,
            lit_at(s@, p as int, printindex_header()),
            p1 == p + printindex_header().len(),
            spec_index_entries(s@, p1 as int, Seq::empty()) == spec_index_entries(s@, i as int, entries.deep_view()),
        decreases n - i,
    {
        match index_entry_at(s, i) {
            Ok((e, q)) => {
                if q < n && s[q] == '\n' {
                    let ghost old_v = entries.deep_view();
                    let ghost ev = e.deep_view();
                    entries.push(e);
                    assert(entries.deep_view() =~= old_v.push(ev));
                    i = q + 1;
                } else {
                    return Ok((Printindex { entries }, i));
                }
            },
            Err(Fail::Abort) => {
                return Err(Fail::Abort);
            },
            Err(_) => {
                return Ok((Printindex { entries }, i));
            },
        }
    }
}

/// The blocks that only stand at the top level of a node: an index, a menu or a heading.
pub open spec fn spec_top_level_block(s: Seq<char>, p: int) -> Result<(SpecBlock, int), Fail> {
    match spec_printindex(s, p) {
        Ok((es, q)) => Ok((SpecBlock::Printindex(es), q)),
        Err(Fail::Abort) => Err(Fail::Abort),
        Err(_) => match spec_menu(s, p) {
            Some((items, q)) => Ok((SpecBlock::Menu(items), q)),
            None => match spec_heading(s, p) {
                Some((h, q)) => Ok((SpecBlock::Heading(h), q)),
                None => Err(Fail::Backtrack),
            },
        },
    }
}

pub open spec fn block_res(r: Result<(TextBlock, usize), Fail>) -> Result<(SpecBlock, int), Fail> {
    match r {
        Ok((b, q)) => Ok((block_view(b), q as int)),
        Err(f) => Err(f),
    }
}

pub fn top_level_block_at(s: &[char], p: usize) -> (r: Result<(TextBlock, usize), Fail>)
    requires
        p <= s@.len(),
    ensures
        block_res(r) == spec_top_level_block(s@, p as int),
        r matches Ok((_, q)) ==> p < q <= s@.len(),
{
    match printindex_at(s, p) {
        Ok((pi, q)) => {
            return Ok((TextBlock { content: TextBlockContent::Printindex(pi) }, q));
        },
        Err(Fail::Abort) => {
            return Err(Fail::Abort);
        },
        Err(_) => {},
    }
    if let Some((m, q)) = menu_at(s, p) {
        return Ok((TextBlock { content: TextBlockContent::Menu(m) }, q));
    }
    if let Some((h, q)) = heading_at(s, p) {
        return Ok((TextBlock { content: TextBlockContent::Heading(h) }, q));
    }
    Err(Fail::Backtrack)
}

/// Line endings one after the other from `p` on; the position after the last.
pub open spec fn skip_line_endings(s: Seq<char>, p: int) -> int
    decreases s.len() - p,
{
    match spec_line_ending(s, p) {
        Some(q) => if p < q <= s.len() {
            skip_line_endings(s, q)
        } else {
            p
        },
        None => p,
    }
}

fn skip_line_endings_at(s: &[char], p: usize) -> (r: usize)
    requires
        p <= s@.len(),
    ensures
        r == skip_line_endings(s@, p as int),
        p <= r <= s@.len(),
{
    let mut i = p;
    loop
        invariant
            p <= i <= s@.len(),
            skip_line_endings(s@, p as int) == skip_line_endings(s@, i as int),
        decreases s@.len() - i,
    {
        match line_ending_at(s, i) {
            Some(q) => {
                i = q;
            },
            None => {
                return i;
            },
        }
    }
}

/// A block of text indented by `m` spaces, then the blank lines after it. At the top level
/// (`m == 0`) an index, a menu or a heading comes first.
pub open spec fn spec_text_block(s: Seq<char>, p: int, m: int) -> Result<(SpecBlock, int), Fail>
    decreases s.len() - p, 3int,
{
    let content = if m == 0 {
        match spec_top_level_block(s, p) {
            Err(Fail::Backtrack) => spec_nestable_block(s, p, 0),
            r => r,
        }
    } else {
        spec_nestable_block(s, p, m)
    };
    match content {
        Ok((b, q)) => Ok((b, skip_line_endings(s, q))),
        Err(f) => Err(f),
    }
}

/// A table entry, verbatim lines, a paragraph or unknown lines, tried in this order.
pub open spec fn spec_nestable_block(s: Seq<char>, p: int, m: int) -> Result<(SpecBlock, int), Fail>
    decreases s.len() - p, 2int,
{
    match spec_table_entry(s, p, m) {
        Ok(((title, description), q)) => Ok((SpecBlock::TableEntry(title, description), q)),
        Err(Fail::Abort) => Err(Fail::Abort),
        Err(_) => match spec_verbatim(s, p, m) {
            Some((lines, q)) => Ok((SpecBlock::Verbatim(lines), q)),
            None => match spec_paragraph(s, p, m) {
                Some((lines, q)) => Ok((SpecBlock::Paragraph(lines), q)),
                None => match spec_unknown_lines(s, p, m) {
                    Some((lines, q)) => Ok((SpecBlock::BunchOfUnknownLines(lines), q)),
                    None => Err(Fail::Backtrack),
                },
            },
        },
    }
}

/// A title line indented by `m` spaces, then one or more blocks indented by `m + 5`.
pub open spec fn spec_table_entry(s: Seq<char>, p: int, m: int) -> Result<((Seq<char>, Seq<SpecBlock>), int), Fail>
    decreases s.len() - p, 1int,
{
    match spec_indented_line(s, p, m, m) {
        None => Err(Fail::Backtrack),
        Some((c, e, q)) => if p < q <= s.len() {
            match spec_entry_blocks(s, q, m + 5, Seq::empty()) {
                Ok((bs, r)) => Ok(((s.subrange(c, e), bs), r)),
                Err(f) => Err(f),
            }
        } else {
            Err(Fail::Backtrack)
        },
    }
}

/// Blocks indented by `m`, one after the other from `p` on, added to `acc`; at least one in all.
pub open spec fn spec_entry_blocks(s: Seq<char>, p: int, m: int, acc: Seq<SpecBlock>) -> Result<(Seq<SpecBlock>, int), Fail>
    decreases s.len() - p, 4int,
{
    match spec_text_block(s, p, m) {
        Ok((b, q)) => if p < q <= s.len() {
            spec_entry_blocks(s, q, m, acc.push(b))
        } else {
            Err(Fail::Abort)
        },
        Err(Fail::Abort) => Err(Fail::Abort),
        Err(_) => if acc.len() == 0 {
            Err(Fail::Backtrack)
        } else {
            Ok((acc, p))
        },
    }
}


pub open spec fn entry_res(r: Result<(TableEntry, usize), Fail>) -> Result<((Seq<char>, Seq<SpecBlock>), int), Fail> {
    match r {
        Ok((e, q)) => Ok(((e.title@, blocks_view(e.description@)), q as int)),
        Err(f) => Err(f),
    }
}

pub open spec fn blocks_res(r: Result<(Vec<TextBlock>, usize), Fail>) -> Result<(Seq<SpecBlock>, int), Fail> {
    match r {
        Ok((v, q)) => Ok((blocks_view(v@), q as int)),
        Err(f) => Err(f),
    }
}

pub fn text_block_at(s: &[char], p: usize, m: usize) -> (r: Result<(TextBlock, usize), Fail>)
    requires
        p <= s@.len(),
        fits(s@),
        m + 5 <= usize::MAX,
    ensures
        block_res(r) == spec_text_block(s@, p as int, m as int),
        r matches Ok((_, q)) ==> p < q <= s@.len(),
    decreases s@.len() - p, 3int,
{
    let content = if m == 0 {
        match top_level_block_at(s, p) {
            Err(Fail::Backtrack) => nestable_block_at(s, p, 0),
            r => r,
        }
    } else {
        nestable_block_at(s, p, m)
    };
    match content {
        Ok((b, q)) => Ok((b, skip_line_endings_at(s, q))),
        Err(f) => Err(f),
    }
}

pub fn nestable_block_at(s: &[char], p: usize, m: usize) -> (r: Result<(TextBlock, usize), Fail>)
    requires
        p <= s@.len(),
        fits(s@),
        m + 5 <= usize::MAX,
    ensures
        block_res(r) == spec_nestable_block(s@, p as int, m as int),
        r matches Ok((_, q)) ==> p < q <= s@.len(),
    decreases s@.len() - p, 2int,
{
    match table_entry_at(s, p, m) {
        Ok((e, q)) => {
            return Ok((TextBlock { content: TextBlockContent::TableEntry(e) }, q));
        },
        Err(Fail::Abort) => {
            return Err(Fail::Abort);
        },
        Err(_) => {},
    }
    if let Some((v, q)) = verbatim_at(s, p, m) {
        return Ok((TextBlock { content: TextBlockContent::Verbatim(v) }, q));
    }
    if let Some((v, q)) = paragraph_at(s, p, m) {
        return Ok((TextBlock { content: TextBlockContent::Paragraph(v) }, q));
    }
    if let Some((v, q)) = unknown_lines_at(s, p, m) {
        return Ok((TextBlock { content: TextBlockContent::BunchOfUnknownLines(v) }, q));
    }
    Err(Fail::Backtrack)
}

pub fn table_entry_at(s: &[char], p: usize, m: usize) -> (r: Result<(TableEntry, usize), Fail>)
    requires
        p <= s@.len(),
        fits(s@),
        m + 5 <= usize::MAX,
    ensures
        entry_res(r) == spec_table_entry(s@, p as int, m as int),
        r matches Ok((_, q)) ==> p < q <= s@.len(),
    decreases s@.len() - p, 1int,
{
    match indented_line_at(s, p, m, m) {
        None => Err(Fail::Backtrack),
        Some((c, e, q)) => {
            let empty: Vec<TextBlock> = Vec::new();
            assert(blocks_view(empty@) =~= Seq::<SpecBlock>::empty());
            match entry_blocks_at(s, q, m + 5, empty) {
                Ok((bs, r)) => Ok((TableEntry { title: string_of(s, c, e), description: bs }, r)),
                Err(f) => Err(f),
            }
        },
    }
}

pub fn entry_blocks_at(s: &[char], p: usize, m: usize, acc: Vec<TextBlock>) -> (r: Result<(Vec<TextBlock>, usize), Fail>)
    requires
        p <= s@.len(),
        fits(s@),
        m + 5 <= usize::MAX,
    ensures
        blocks_res(r) == spec_entry_blocks(s@, p as int, m as int, blocks_view(acc@)),
        r matches Ok((_, q)) ==> p <= q <= s@.len(),
    decreases s@.len() - p, 4int,
{
    let mut v = acc;
    let mut i = p;
    loop
        invariant
            p <= i <= s@.len(),
            fits(s@),
            m + 5 <= usize::MAX,
            spec_entry_blocks(s@, p as int, m as int, blocks_view(acc@)) == spec_entry_blocks(
                s@,
                i as int,
                m as int,
                blocks_view(v@),
            ),
        decreases s@.len() - i,
    {
        match text_block_at(s, i, m) {
            Ok((b, q)) => {
                proof {
                    lemma_blocks_view_push(v@, b);
                }
                v.push(b);
                i = q;
            },
            Err(Fail::Abort) => {
                return Err(Fail::Abort);
            },
            Err(f) => {
                if v.len() == 0 {
                    proof {
                        crate::info::lemma_blocks_view_len(v@);
                    }
                    return Err(Fail::Backtrack);
                } else {
                    proof {
                        crate::info::lemma_blocks_view_len(v@);
                    }
                    return Ok((v, i));
                }
            },
        }
    }
}


/// `, keyword id`: one of the links of a node header.
pub open spec fn spec_link(s: Seq<char>, p: int, kw: Seq<char>) -> (Option<SpecId>, int) {
    let k1 = run(s, p + 1, CharClass::Space, s.len() as int);
    let a = p + 1 + k1;
    let k2 = run(s, a + kw.len(), CharClass::Space, s.len() as int);
    if char_at(s, p, ',') && k1 >= 1 && lit_at(s, a, kw) && k2 >= 1 {
        let (id, q) = spec_id(s, a + kw.len() + k2, seq![',', '\t']);
        (Some(id), q)
    } else {
        (None, p)
    }
}

fn link_at(s: &[char], p: usize, kw: &str) -> (r: (Option<Id>, usize))
    requires
        p <= s@.len(),
    ensures
        spec_link(s@, p as int, kw@) == (r.0.deep_view(), r.1 as int),
        p <= r.1 <= s@.len(),
{
    let n = s.len();
    if !(p < n && s[p] == ',') {
        return (None, p);
    }
    let k1 = run_len(s, p + 1, CharClass::Space, n);
    let a = p + 1 + k1;
    if k1 < 1 {
        return (None, p);
    }
    let b = match lit(s, a, kw) {
        Some(b) => b,
        None => return (None, p),
    };
    let k2 = run_len(s, b, CharClass::Space, n);
    if k2 < 1 {
        return (None, p);
    }
    let stops = [',', '\t'];
    assert(stops@ =~= seq![',', '\t']);
    let (id, q) = id_at(s, b + k2, &stops);
    (Some(id), q)
}

/// The text blocks of a node, up to a separator (which is left for what follows: the next
/// node or the tag table) or the end of the input. A text block that does not parse fails the
/// whole parse.
pub open spec fn spec_node_body(s: Seq<char>, p: int, acc: Seq<SpecBlock>) -> Result<(Seq<SpecBlock>, int), Fail>
    decreases s.len() - p,
{
    match spec_separator(s, p) {
        Some(_) => Ok((acc, p)),
        None => if p >= s.len() {
            Ok((acc, p))
        } else {
            match spec_text_block(s, p, 0) {
                Ok((b, q)) => if p < q <= s.len() {
                    spec_node_body(s, q, acc.push(b))
                } else {
                    Err(Fail::Abort)
                },
                Err(Fail::Abort) => Err(Fail::Abort),
                Err(_) => Err(Fail::Cut),
            }
        },
    }
}

// https://www.gnu.org/software/texinfo/manual/texinfo/html_node/Info-Format-Regular-Nodes.html
/// A separator, the header line `File: f,  Node: n[,  Next: x][,  Prev: y][,  Up: z][\tdescr]`,
/// an empty line, then the body.
pub open spec fn spec_node(s: Seq<char>, p: int) -> Result<(SpecNode, int), Fail> {
    match spec_separator(s, p) {
        None => Err(Fail::Backtrack),
        Some(p1) => {
            let k = run(s, p1 + "File:"@.len(), CharClass::Space, s.len() as int);
            let a = p1 + "File:"@.len() + k;
            if !lit_at(s, p1, "File:"@) || k < 1 {
                Err(Fail::Backtrack)
            } else {
                match take_until(s, a, seq![','], 1, s.len() as int) {
                    None => Err(Fail::Backtrack),
                    Some(f) => {
                        let k2 = run(s, f + 1, CharClass::Space, s.len() as int);
                        let c = f + 1 + k2;
                        let k3 = run(s, c + "Node:"@.len(), CharClass::Space, s.len() as int);
                        let d = c + "Node:"@.len() + k3;
                        if k2 < 1 || !lit_at(s, c, "Node:"@) || k3 < 1 {
                            Err(Fail::Backtrack)
                        } else {
                            let (node, e1) = spec_id(s, d, seq![',', '\t']);
                            let (next, e2) = spec_link(s, e1, "Next:"@);
                            let (prev, e3) = spec_link(s, e2, "Prev:"@);
                            let (up, e4) = spec_link(s, e3, "Up:"@);
                            let (descr, e5) = if char_at(s, e4, '\t') {
                                match take_until(s, e4 + 1, seq!['\n'], 1, s.len() as int) {
                                    Some(x) => (Some(s.subrange(e4 + 1, x)), x),
                                    None => (None, e4),
                                }
                            } else {
                                (None, e4)
                            };
                            if !lit_at(s, e5, "\n\n"@) {
                                Err(Fail::Backtrack)
                            } else {
                                match spec_node_body(s, e5 + "\n\n"@.len(), Seq::empty()) {
                                    Ok((general_text, q)) => Ok(
                                        (
                                            SpecNode {
                                                file: s.subrange(a, f),
                                                node,
                                                next,
                                                prev,
                                                up,
                                                descr,
                                                general_text,
                                            },
                                            q,
                                        ),
                                    ),
                                    Err(x) => Err(x),
                                }
                            }
                        }
                    },
                }
            }
        },
    }
}

pub open spec fn node_res(r: Result<(Node, usize), Fail>) -> Result<(SpecNode, int), Fail> {
    match r {
        Ok((v, q)) => Ok((v.deep_view(), q as int)),
        Err(f) => Err(f),
    }
}

fn node_body_at(s: &[char], p: usize) -> (r: Result<(Vec<TextBlock>, usize), Fail>)
    requires
        p <= s@.len(),
        fits(s@),
    ensures
        blocks_res(r) == spec_node_body(s@, p as int, Seq::empty()),
        r matches Ok((_, q)) ==> p <= q <= s@.len(),
{
    let n = s.len();
    let mut v: Vec<TextBlock> = Vec::new();
    assert(blocks_view(v@) =~= Seq::<SpecBlock>::empty());
    let mut i = p;
    loop
        invariant
            n == s@.len(),
            p <= i <= n,
            fits(s@),
            spec_node_body(s@, p as int, Seq::empty()) == spec_node_body(s@, i as int, blocks_view(v@)),
        decreases n - i,
    {
        if separator_at(s, i).is_some() {
            return Ok((v, i));
        }
        if i >= n {
            return Ok((v, i));
        }
        match text_block_at(s, i, 0) {
            Ok((b, q)) => {
                proof {
                    lemma_blocks_view_push(v@, b);
                }
                v.push(b);
                i = q;
            },
            Err(Fail::Abort) => {
                return Err(Fail::Abort);
            },
            Err(_) => {
                return Err(Fail::Cut);
            },
        }
    }
}

fn spaces_after(s: &[char], p: usize) -> (r: Option<usize>)
    requires
        p <= s@.len(),
    ensures
        r matches Some(q) ==> run(s@, p as int, CharClass::Space, s@.len() as int) >= 1
            && q == p + run(s@, p as int, CharClass::Space, s@.len() as int) && q <= s@.len(),
        r is None ==> run(s@, p as int, CharClass::Space, s@.len() as int) < 1,
{
    let k = run_len(s, p, CharClass::Space, s.len());
    if k >= 1 {
        Some(p + k)
    } else {
        None
    }
}

pub fn node_at(s: &[char], p: usize) -> (r: Result<(Node, usize), Fail>)
    requires
        p <= s@.len(),
        fits(s@),
    ensures
        node_res(r) == spec_node(s@, p as int),
        r matches Ok((_, q)) ==> p < q <= s@.len(),
{
    let n = s.len();
    proof {
        reveal_strlit("File:");
        reveal_strlit("Node:");
        reveal_strlit("\n\n");
    }
    let p1 = match separator_at(s, p) {
        Some(q) => q,
        None => return Err(Fail::Backtrack),
    };
    let b = match lit(s, p1, "File:") {
        Some(b) => b,
        None => return Err(Fail::Backtrack),
    };
    let a = match spaces_after(s, b) {
        Some(a) => a,
        None => return Err(Fail::Backtrack),
    };
    let f = match take_until_char(s, a, ',', 1) {
        Some(f) => f,
        None => return Err(Fail::Backtrack),
    };
    let c = match spaces_after(s, f + 1) {
        Some(c) => c,
        None => return Err(Fail::Backtrack),
    };
    let c2 = match lit(s, c, "Node:") {
        Some(c2) => c2,
        None => return Err(Fail::Backtrack),
    };
    let d = match spaces_after(s, c2) {
        Some(d) => d,
        None => return Err(Fail::Backtrack),
    };
    let stops = [',', '\t'];
    assert(stops@ =~= seq![',', '\t']);
    let (node, e1) = id_at(s, d, &stops);
    let (next, e2) = link_at(s, e1, "Next:");
    let (prev, e3) = link_at(s, e2, "Prev:");
    let (up, e4) = link_at(s, e3, "Up:");
    let (descr, e5) = if e4 < n && s[e4] == '\t' {
        match take_until_char(s, e4 + 1, '\n', 1) {
            Some(x) => (Some(string_of(s, e4 + 1, x)), x),
            None => (None, e4),
        }
    } else {
        (None, e4)
    };
    let g = match lit(s, e5, "\n\n") {
        Some(g) => g,
        None => return Err(Fail::Backtrack),
    };
    match node_body_at(s, g) {
        Ok((general_text, q)) => {
            let file = string_of(s, a, f);
            let nd = Node { file, node, next, prev, up, descr, general_text };
            proof {
                assert(node_res(Ok::<_, Fail>((nd, q))) == spec_node(s@, p as int));
            }
            Ok((nd, q))
        },
        Err(x) => Err(x),
    }
}

/// Nodes one after the other from `p` on, added to `acc`, until one does not start.
pub open spec fn spec_nodes(s: Seq<char>, p: int, acc: Seq<SpecNode>) -> Result<(Seq<SpecNode>, int), Fail>
    decreases s.len() - p,
{
    match spec_node(s, p) {
        Ok((nd, q)) => if p < q <= s.len() {
            spec_nodes(s, q, acc.push(nd))
        } else {
            Err(Fail::Abort)
        },
        Err(Fail::Backtrack) => Ok((acc, p)),
        Err(f) => Err(f),
    }
}

fn nodes_at(s: &[char], p: usize, acc: Vec<Node>) -> (r: Result<(Vec<Node>, usize), Fail>)
    requires
        p <= s@.len(),
        fits(s@),
    ensures
        r matches Ok((v, q)) ==> spec_nodes(s@, p as int, acc.deep_view()) == Ok::<_, Fail>((v.deep_view(), q as int))
            && p <= q <= s@.len() && v@.len() >= acc@.len(),
        r matches Err(f) ==> spec_nodes(s@, p as int, acc.deep_view()) == Err::<(Seq<SpecNode>, int), _>(f),
{
    let n = s.len();
    let mut v = acc;
    let mut i = p;
    loop
        invariant
            n == s@.len(),
            p <= i <= n,
            fits(s@),
            v@.len() >= acc@.len(),
            spec_nodes(s@, p as int, acc.deep_view()) == spec_nodes(s@, i as int, v.deep_view()),
        decreases n - i,
    {
        match node_at(s, i) {
            Ok((nd, q)) => {
                let ghost old_v = v.deep_view();
                let ghost ndv = nd.deep_view();
                v.push(nd);
                assert(v.deep_view() =~= old_v.push(ndv));
                i = q;
            },
            Err(Fail::Backtrack) => {
                return Ok((v, i));
            },
            Err(f) => {
                return Err(f);
            },
        }
    }
}

// https://www.gnu.org/software/texinfo/manual/texinfo/html_node/Info-Format-Tag-Table.html
/// A node id up to `DELETE` (at least one character), then its byte position.
pub open spec fn spec_tag(s: Seq<char>, p: int) -> Option<(SpecTag, int)> {
    if p < 0 || p >= s.len() {
        None
    } else {
        match crate::parser_util::find_lit(s, p + 1, seq![DELETE]) {
            None => None,
            Some(q) => match spec_dec_uint(s, q + 1, u64::MAX as nat) {
                Some((v, r)) => Some((SpecTag { nodeid: s.subrange(p, q), bytepos: v }, r)),
                None => None,
            },
        }
    }
}

fn tag_at(s: &[char], p: usize) -> (r: Option<(Tag, usize)>)
    requires
        p <= s@.len(),
    ensures
        r matches Some((v, q)) ==> spec_tag(s@, p as int) == Some((v.deep_view(), q as int)) && p < q <= s@.len(),
        r is None ==> spec_tag(s@, p as int) is None,
{
    let n = s.len();
    if p >= n {
        return None;
    }
    let del = [DELETE];
    assert(del@ =~= seq![DELETE]);
    proof {
        crate::parser_util::lemma_find_lit_bounds(s@, p + 1, seq![DELETE]);
    }
    let q = match crate::parser_util::find(s, p + 1, &del) {
        Some(q) => q,
        None => return None,
    };
    match dec_uint_at(s, q + 1, u64::MAX) {
        Some((v, r)) => Some((Tag { nodeid: string_of(s, p, q), bytepos: v }, r)),
        None => None,
    }
}

/// `Node: tag` or `Ref: tag`.
pub open spec fn spec_tag_table_entry(s: Seq<char>, p: int) -> Option<(SpecTagTableEntry, int)> {
    match take_until(s, p, ": "@, 3, 4) {
        None => None,
        Some(q) => if s.subrange(p, q) == "Node"@ {
            match spec_tag(s, q + 2) {
                Some((t, r)) => Some((SpecTagTableEntry::Node(t), r)),
                None => None,
            }
        } else if s.subrange(p, q) == "Ref"@ {
            match spec_tag(s, q + 2) {
                Some((t, r)) => Some((SpecTagTableEntry::Ref(t), r)),
                None => None,
            }
        } else {
            None
        },
    }
}

fn tag_table_entry_at(s: &[char], p: usize) -> (r: Option<(TagTableEntry, usize)>)
    requires
        p <= s@.len(),
    ensures
        r matches Some((v, q)) ==> spec_tag_table_entry(s@, p as int) == Some((v.deep_view(), q as int))
            && p < q <= s@.len(),
        r is None ==> spec_tag_table_entry(s@, p as int) is None,
{
    proof {
        reveal_strlit(": ");
        reveal_strlit("Node");
        reveal_strlit("Ref");
    }
    let sep = chars_of(": ");
    let _n = s.len();
    assert(sep@.len() == 2);
    let q = match take_until_at(s, p, sep.as_slice(), 3, 4) {
        Some(q) => q,
        None => return None,
    };
    if q - p == 4 && lit(s, p, "Node").is_some() {
        assert(s@.subrange(p as int, q as int) =~= "Node"@);
        match tag_at(s, q + 2) {
            Some((t, r)) => Some((TagTableEntry::Node(t), r)),
            None => None,
        }
    } else if q - p == 3 && lit(s, p, "Ref").is_some() {
        assert(s@.subrange(p as int, q as int) =~= "Ref"@);
        assert(s@.subrange(p as int, q as int) != "Node"@);
        match tag_at(s, q + 2) {
            Some((t, r)) => Some((TagTableEntry::Ref(t), r)),
            None => None,
        }
    } else {
        proof {
            if s@.subrange(p as int, q as int) == "Node"@ {
                assert(s@.subrange(p as int, p + 4) =~= "Node"@);
            }
            if s@.subrange(p as int, q as int) == "Ref"@ {
                assert(s@.subrange(p as int, p + 3) =~= "Ref"@);
            }
        }
        None
    }
}

/// Tag table entries, each ending with a line ending, from `p` on, added to `acc`.
pub open spec fn spec_tag_entries(s: Seq<char>, p: int, acc: Seq<SpecTagTableEntry>) -> (Seq<SpecTagTableEntry>, int)
    decreases s.len() - p,
{
    match spec_tag_table_entry(s, p) {
        Some((e, q)) => match spec_line_ending(s, q) {
            Some(r) => if p < r <= s.len() {
                spec_tag_entries(s, r, acc.push(e))
            } else {
                (acc, p)
            },
            None => (acc, p),
        },
        None => (acc, p),
    }
}

/// `Tag Table:`, an optional `(Indirect)` line, the entries, then `End Tag Table`.
pub open spec fn spec_tag_table(s: Seq<char>, p: int) -> Option<(SpecTagTable, int)> {
    match spec_separator(s, p) {
        None => None,
        Some(p1) => if !lit_at(s, p1, "Tag Table:\n"@) {
            None
        } else {
            let p2 = p1 + "Tag Table:\n"@.len();
            let indirect = lit_at(s, p2, "(Indirect)\n"@);
            let p3 = if indirect {
                p2 + "(Indirect)\n"@.len()
            } else {
                p2
            };
            let (entries, p4) = spec_tag_entries(s, p3, Seq::empty());
            match spec_separator(s, p4) {
                None => None,
                Some(p5) => if lit_at(s, p5, "End Tag Table\n\n"@) {
                    Some(
                        (
                            SpecTagTable { indirect, entries },
                            p5 + "End Tag Table\n\n"@.len(),
                        ),
                    )
                } else {
                    None
                },
            }
        },
    }
}

pub fn tag_table_at(s: &[char], p: usize) -> (r: Option<(TagTable, usize)>)
    requires
        p <= s@.len(),
    ensures
        r matches Some((v, q)) ==> spec_tag_table(s@, p as int) == Some((v.deep_view(), q as int))
            && p < q <= s@.len(),
        r is None ==> spec_tag_table(s@, p as int) is None,
{
    let n = s.len();
    let p1 = match separator_at(s, p) {
        Some(q) => q,
        None => return None,
    };
    let p2 = match lit(s, p1, "Tag Table:\n") {
        Some(q) => q,
        None => return None,
    };
    let (indirect, p3) = match lit(s, p2, "(Indirect)\n") {
        Some(q) => (true, q),
        None => (false, p2),
    };
    let mut entries: Vec<TagTableEntry> = Vec::new();
    assert(entries.deep_view() =~= Seq::<SpecTagTableEntry>::empty());
    let mut i = p3;
    loop
        invariant
            n == s@.len(),
            p3 <= i <= n,
            spec_tag_entries(s@, p3 as int, Seq::empty()) == spec_tag_entries(s@, i as int, entries.deep_view()),
        ensures
            p3 <= i <= n,
            spec_tag_entries(s@, p3 as int, Seq::empty()) == (entries.deep_view(), i as int),
        decreases n - i,
    {
        match tag_table_entry_at(s, i) {
            Some((e, q)) => match line_ending_at(s, q) {
                Some(r) => {
                    let ghost old_v = entries.deep_view();
                    let ghost ev = e.deep_view();
                    entries.push(e);
                    assert(entries.deep_view() =~= old_v.push(ev));
                    i = r;
                },
                None => {
                    break;
                },
            },
            None => {
                break;
            },
        }
    }
    let p5 = match separator_at(s, i) {
        Some(q) => q,
        None => return None,
    };
    match lit(s, p5, "End Tag Table\n\n") {
        Some(q) => Some((TagTable { indirect, entries }, q)),
        None => None,
    }
}

/// `prefix`, the rest of the line, and its line ending; or nothing.
pub open spec fn spec_variable(s: Seq<char>, p: int, prefix: Seq<char>) -> (Option<Seq<char>>, int) {
    if !lit_at(s, p, prefix) {
        (None, p)
    } else {
        let a = p + prefix.len();
        match spec_till_line_ending(s, a) {
            None => (None, p),
            Some(e) => match spec_line_ending(s, e) {
                None => (None, p),
                Some(q) => (Some(s.subrange(a, e)), q),
            },
        }
    }
}

fn variable_at(s: &[char], p: usize, prefix: &str) -> (r: (Option<String>, usize))
    requires
        p <= s@.len(),
    ensures
        spec_variable(s@, p as int, prefix@) == (r.0.deep_view(), r.1 as int),
        p <= r.1 <= s@.len(),
{
    let a = match lit(s, p, prefix) {
        Some(a) => a,
        None => return (None, p),
    };
    let e = match till_line_ending_at(s, a) {
        Some(e) => e,
        None => return (None, p),
    };
    match line_ending_at(s, e) {
        None => (None, p),
        Some(q) => (Some(string_of(s, a, e)), q),
    }
}

// https://www.gnu.org/software/texinfo/manual/texinfo/html_node/Info-Format-Local-Variables.html
/// `Local Variables:`, optional `coding:` and `Info-documentlanguage:` lines, then `End:`.
pub open spec fn spec_local_variables(s: Seq<char>, p: int) -> Option<(SpecLocalVariables, int)> {
    match spec_separator(s, p) {
        None => None,
        Some(p1) => if !lit_at(s, p1, "Local Variables:\n"@) {
            None
        } else {
            let (coding, p2) = spec_variable(s, p1 + "Local Variables:\n"@.len(), "coding: "@);
            let (language, p3) = spec_variable(s, p2, "Info-documentlanguage: "@);
            if lit_at(s, p3, "End:\n"@) {
                Some((SpecLocalVariables { coding, language }, p3 + "End:\n"@.len()))
            } else {
                None
            }
        },
    }
}

pub fn local_variables_at(s: &[char], p: usize) -> (r: Option<(LocalVariables, usize)>)
    requires
        p <= s@.len(),
    ensures
        r matches Some((v, q)) ==> spec_local_variables(s@, p as int) == Some((v.deep_view(), q as int))
            && p < q <= s@.len(),
        r is None ==> spec_local_variables(s@, p as int) is None,
{
    let p1 = match separator_at(s, p) {
        Some(q) => q,
        None => return None,
    };
    let a = match lit(s, p1, "Local Variables:\n") {
        Some(a) => a,
        None => return None,
    };
    let (coding, p2) = variable_at(s, a, "coding: ");
    let (language, p3) = variable_at(s, p2, "Info-documentlanguage: ");
    match lit(s, p3, "End:\n") {
        Some(q) => Some((LocalVariables { coding, language }, q)),
        None => None,
    }
}

/// A preamble, one or more nodes, an optional tag table and optional local variables.
pub open spec fn spec_nonsplit_info_file(s: Seq<char>, p: int) -> Result<(SpecInfoFile, int), Fail> {
    match spec_preamble(s, p) {
        None => Err(Fail::Backtrack),
        Some((preamble, p1)) => match spec_node(s, p1) {
            Err(f) => Err(f),
            Ok((first, p2)) => if !(p1 < p2 <= s.len()) {
                Err(Fail::Abort)
            } else {
                match spec_nodes(s, p2, seq![first]) {
                    Err(f) => Err(f),
                    Ok((nodes, p3)) => {
                        let (tag_table, p4) = match spec_tag_table(s, p3) {
                            Some((t, q)) => (Some(t), q),
                            None => (None, p3),
                        };
                        let (local_variables, p5) = match spec_local_variables(s, p4) {
                            Some((l, q)) => (Some(l), q),
                            None => (None, p4),
                        };
                        Ok((SpecInfoFile { preamble, nodes, tag_table, local_variables }, p5))
                    },
                }
            },
        },
    }
}

pub open spec fn file_res(r: Result<(NonsplitInfoFile, usize), Fail>) -> Result<(SpecInfoFile, int), Fail> {
    match r {
        Ok((v, q)) => Ok((v.deep_view(), q as int)),
        Err(f) => Err(f),
    }
}

pub fn nonsplit_info_file_at(s: &[char], p: usize) -> (r: Result<(NonsplitInfoFile, usize), Fail>)
    requires
        p <= s@.len(),
        fits(s@),
    ensures
        file_res(r) == spec_nonsplit_info_file(s@, p as int),
        r matches Ok((_, q)) ==> p < q <= s@.len(),
{
    let (preamble, p1) = match preamble_at(s, p) {
        Some(x) => x,
        None => return Err(Fail::Backtrack),
    };
    let (first, p2) = match node_at(s, p1) {
        Ok(x) => x,
        Err(f) => return Err(f),
    };
    let ghost fv = first.deep_view();
    let mut acc: Vec<Node> = Vec::new();
    acc.push(first);
    assert(acc.deep_view() =~= seq![fv]);
    let (nodes, p3) = match nodes_at(s, p2, acc) {
        Ok(x) => x,
        Err(f) => return Err(f),
    };
    let (tag_table, p4) = match tag_table_at(s, p3) {
        Some((t, q)) => (Some(t), q),
        None => (None, p3),
    };
    let (local_variables, p5) = match local_variables_at(s, p4) {
        Some((l, q)) => (Some(l), q),
        None => (None, p4),
    };
    Ok((NonsplitInfoFile { preamble, nodes, tag_table, local_variables }, p5))
}

/// A preamble, then any number of nodes.
pub open spec fn spec_split_info_subfile(s: Seq<char>, p: int) -> Result<((Seq<char>, Seq<SpecNode>), int), Fail> {
    match spec_preamble(s, p) {
        None => Err(Fail::Backtrack),
        Some((preamble, p1)) => match spec_nodes(s, p1, Seq::empty()) {
            Ok((nodes, q)) => Ok(((preamble, nodes), q)),
            Err(f) => Err(f),
        },
    }
}

pub fn split_info_subfile_at(s: &[char], p: usize) -> (r: Result<(SplitInfoSubfile, usize), Fail>)
    requires
        p <= s@.len(),
        fits(s@),
    ensures
        r matches Ok((v, q)) ==> spec_split_info_subfile(s@, p as int) == Ok::<_, Fail>(
            ((v.preamble.content@, v.nodes.deep_view()), q as int),
        ) && p < q <= s@.len(),
        r matches Err(f) ==> spec_split_info_subfile(s@, p as int) == Err::<((Seq<char>, Seq<SpecNode>), int), _>(f),
{
    let (preamble, p1) = match preamble_at(s, p) {
        Some(x) => x,
        None => return Err(Fail::Backtrack),
    };
    let empty: Vec<Node> = Vec::new();
    assert(empty.deep_view() =~= Seq::<SpecNode>::empty());
    match nodes_at(s, p1, empty) {
        Ok((nodes, q)) => Ok((SplitInfoSubfile { preamble, nodes }, q)),
        Err(f) => Err(f),
    }
}


/// A parse of a whole input that failed: the input does not follow the grammar, or something
/// follows what the grammar took.
#[derive(Debug, Clone, Copy, PartialEq, Eq, Structural)]
pub enum ParseError {
    Invalid,
    TrailingInput,
}

/// What a rule gives for a whole input: its result when it succeeds and takes all of `s`.
pub open spec fn whole<T>(r: Result<(T, int), Fail>, s: Seq<char>) -> Option<T> {
    match r {
        Ok((v, q)) => if q == s.len() {
            Some(v)
        } else {
            None
        },
        Err(_) => None,
    }
}

pub open spec fn whole_opt<T>(r: Option<(T, int)>, s: Seq<char>) -> Option<T> {
    match r {
        Some((v, q)) => if q == s.len() {
            Some(v)
        } else {
            None
        },
        None => None,
    }
}

/// Whether the rule succeeds before the end of `s`.
pub open spec fn stops_short<T>(r: Result<(T, int), Fail>, s: Seq<char>) -> bool {
    r matches Ok((_, q)) && q != s.len()
}

/// Whether the rule succeeds before the end of `s`.
pub open spec fn stops_short_opt<T>(r: Option<(T, int)>, s: Seq<char>) -> bool {
    r matches Some((_, q)) && q != s.len()
}

/// Whether the rule stops without a result on this input.
pub open spec fn aborts<T>(r: Result<(T, int), Fail>) -> bool {
    r == Err::<(T, int), Fail>(Fail::Abort)
}

fn finish<T>(r: Option<(T, usize)>, n: usize) -> (out: Result<T, ParseError>)
    ensures
        out matches Ok(v) ==> r matches Some((w, q)) && w == v && q == n,
        out is Err ==> !(r matches Some((_, q)) && q == n),
        out matches Err(ParseError::TrailingInput) <==> (r matches Some((_, q)) && q != n),
        out matches Err(ParseError::Invalid) <==> r is None,
{
    match r {
        Some((v, q)) => if q == n {
            Ok(v)
        } else {
            Err(ParseError::TrailingInput)
        },
        None => Err(ParseError::Invalid),
    }
}

fn finish_res<T>(r: Result<(T, usize), Fail>, n: usize) -> (out: Result<T, ParseError>)
    ensures
        out matches Ok(v) ==> r matches Ok((w, q)) && w == v && q == n,
        out is Err ==> !(r matches Ok((_, q)) && q == n),
        out matches Err(ParseError::TrailingInput) <==> (r matches Ok((_, q)) && q != n),
        out matches Err(ParseError::Invalid) <==> r is Err,
{
    match r {
        Ok((v, q)) => if q == n {
            Ok(v)
        } else {
            Err(ParseError::TrailingInput)
        },
        Err(_) => Err(ParseError::Invalid),
    }
}

// https://www.gnu.org/software/texinfo/manual/texinfo/html_node/Info-Format-Whole-Manual.html
/// Parses a whole non-split Info file.
pub fn nonsplit_info_file(input: &str) -> (r: Result<NonsplitInfoFile, ParseError>)
    requires
        fits(input@),
        !aborts(spec_nonsplit_info_file(input@, 0)),
    ensures
        r matches Ok(f) ==> whole(spec_nonsplit_info_file(input@, 0), input@) == Some(f.deep_view()),
        r is Err ==> whole(spec_nonsplit_info_file(input@, 0), input@) is None,
        r matches Err(ParseError::TrailingInput) <==> stops_short(spec_nonsplit_info_file(input@, 0), input@),
        r matches Err(ParseError::Invalid) <==> spec_nonsplit_info_file(input@, 0) is Err,
{
    let s = chars_of(input);
    finish_res(nonsplit_info_file_at(s.as_slice(), 0), s.len())
}

/// Parses a whole input as one node.
pub fn node(input: &str) -> (r: Result<Node, ParseError>)
    requires
        fits(input@),
        !aborts(spec_node(input@, 0)),
    ensures
        r matches Ok(n) ==> whole(spec_node(input@, 0), input@) == Some(n.deep_view()),
        r is Err ==> whole(spec_node(input@, 0), input@) is None,
        r matches Err(ParseError::TrailingInput) <==> stops_short(spec_node(input@, 0), input@),
        r matches Err(ParseError::Invalid) <==> spec_node(input@, 0) is Err,
{
    let s = chars_of(input);
    finish_res(node_at(s.as_slice(), 0), s.len())
}

/// Parses a whole input as one or more text blocks indented by `min_indent`.
pub fn text_blocks(min_indent: usize, input: &str) -> (r: Result<Vec<TextBlock>, ParseError>)
    requires
        fits(input@),
        min_indent + 5 <= usize::MAX,
        !aborts(spec_entry_blocks(input@, 0, min_indent as int, Seq::empty())),
    ensures
        r matches Ok(v) ==> whole(spec_entry_blocks(input@, 0, min_indent as int, Seq::empty()), input@)
            == Some(blocks_view(v@)),
        r is Err ==> whole(spec_entry_blocks(input@, 0, min_indent as int, Seq::empty()), input@) is None,
        r matches Err(ParseError::TrailingInput) <==> stops_short(spec_entry_blocks(input@, 0, min_indent as int, Seq::empty()), input@),
        r matches Err(ParseError::Invalid) <==> spec_entry_blocks(input@, 0, min_indent as int, Seq::empty()) is Err,
{
    let s = chars_of(input);
    let empty: Vec<TextBlock> = Vec::new();
    assert(blocks_view(empty@) =~= Seq::<SpecBlock>::empty());
    finish_res(entry_blocks_at(s.as_slice(), 0, min_indent, empty), s.len())
}

/// Parses a whole input as one table entry whose title is indented by `min_indent`.
pub fn table_entry(min_indent: usize, input: &str) -> (r: Result<TableEntry, ParseError>)
    requires
        fits(input@),
        min_indent + 5 <= usize::MAX,
        !aborts(spec_table_entry(input@, 0, min_indent as int)),
    ensures
        r matches Ok(e) ==> whole(spec_table_entry(input@, 0, min_indent as int), input@)
            == Some((e.title@, blocks_view(e.description@))),
        r is Err ==> whole(spec_table_entry(input@, 0, min_indent as int), input@) is None,
        r matches Err(ParseError::TrailingInput) <==> stops_short(spec_table_entry(input@, 0, min_indent as int), input@),
        r matches Err(ParseError::Invalid) <==> spec_table_entry(input@, 0, min_indent as int) is Err,
{
    let s = chars_of(input);
    finish_res(table_entry_at(s.as_slice(), 0, min_indent), s.len())
}

/// Parses a whole input as one paragraph indented by `min_indent`.
pub fn paragraph(min_indent: usize, input: &str) -> (r: Result<Paragraph, ParseError>)
    requires
        min_indent + 3 <= usize::MAX,
    ensures
        r matches Ok(v) ==> whole_opt(spec_paragraph(input@, 0, min_indent as int), input@)
            == Some(v.lines.deep_view()),
        r is Err ==> whole_opt(spec_paragraph(input@, 0, min_indent as int), input@) is None,
        r matches Err(ParseError::TrailingInput) <==> stops_short_opt(spec_paragraph(input@, 0, min_indent as int), input@),
        r matches Err(ParseError::Invalid) <==> spec_paragraph(input@, 0, min_indent as int) is None,
{
    let s = chars_of(input);
    finish(paragraph_at(s.as_slice(), 0, min_indent), s.len())
}

/// Parses a whole input as one menu.
pub fn menu(input: &str) -> (r: Result<Menu, ParseError>)
    ensures
        r matches Ok(v) ==> whole_opt(spec_menu(input@, 0), input@) == Some(v.items.deep_view()),
        r is Err ==> whole_opt(spec_menu(input@, 0), input@) is None,
        r matches Err(ParseError::TrailingInput) <==> stops_short_opt(spec_menu(input@, 0), input@),
        r matches Err(ParseError::Invalid) <==> spec_menu(input@, 0) is None,
{
    let s = chars_of(input);
    finish(menu_at(s.as_slice(), 0), s.len())
}

/// Parses a whole input as one menu entry with a label.
pub fn menu_entry_with_label(input: &str) -> (r: Result<MenuEntry, ParseError>)
    ensures
        r matches Ok(v) ==> whole_opt(spec_menu_entry_with_label(input@, 0), input@) == Some(v.deep_view()),
        r is Err ==> whole_opt(spec_menu_entry_with_label(input@, 0), input@) is None,
        r matches Err(ParseError::TrailingInput) <==> stops_short_opt(spec_menu_entry_with_label(input@, 0), input@),
        r matches Err(ParseError::Invalid) <==> spec_menu_entry_with_label(input@, 0) is None,
{
    let s = chars_of(input);
    finish(menu_entry_with_label_at(s.as_slice(), 0), s.len())
}

proof fn lemma_node_body_end(s: Seq<char>, p: int, acc: Seq<SpecBlock>)
    requires
        0 <= p <= s.len(),
    ensures
        spec_node_body(s, p, acc) matches Ok((_, q)) ==> p <= q <= s.len() && (q == s.len() || spec_separator(s, q) is Some),
    decreases s.len() - p,
{
    if spec_separator(s, p) is None && p < s.len() {
        match spec_text_block(s, p, 0) {
            Ok((b, q)) => if p < q <= s.len() {
                lemma_node_body_end(s, q, acc.push(b));
            },
            Err(_) => {},
        }
    }
}

/// A node ends where the input ends or where a separator starts: the separator is left for
/// the next node or the tag table.
pub proof fn law_node_ends_at_separator(s: Seq<char>, p: int)
    requires
        0 <= p <= s.len(),
    ensures
        spec_node(s, p) matches Ok((_, q)) ==> q == s.len() || spec_separator(s, q) is Some,
{
    match spec_node(s, p) {
        Ok((n, q)) => {
            let p1 = spec_separator(s, p).unwrap();
            let k = run(s, p1 + "File:"@.len(), CharClass::Space, s.len() as int);
            let a = p1 + "File:"@.len() + k;
            let f = take_until(s, a, seq![','], 1, s.len() as int).unwrap();
            let k2 = run(s, f + 1, CharClass::Space, s.len() as int);
            let c = f + 1 + k2;
            let k3 = run(s, c + "Node:"@.len(), CharClass::Space, s.len() as int);
            let d = c + "Node:"@.len() + k3;
            let (node, e1) = spec_id(s, d, seq![',', '\t']);
            let (next, e2) = spec_link(s, e1, "Next:"@);
            let (prev, e3) = spec_link(s, e2, "Prev:"@);
            let (up, e4) = spec_link(s, e3, "Up:"@);
            let (descr, e5) = if char_at(s, e4, '\t') {
                match take_until(s, e4 + 1, seq!['\n'], 1, s.len() as int) {
                    Some(x) => (Some(s.subrange(e4 + 1, x)), x),
                    None => (None, e4),
                }
            } else {
                (None, e4)
            };
            assert(lit_at(s, e5, "\n\n"@));
            lemma_node_body_end(s, e5 + "\n\n"@.len(), Seq::empty());
        },
        Err(_) => {},
    }
}

proof fn lemma_nodes_grow(s: Seq<char>, p: int, acc: Seq<SpecNode>)
    ensures
        spec_nodes(s, p, acc) matches Ok((ns, _)) ==> ns.len() >= acc.len(),
    decreases s.len() - p,
{
    match spec_node(s, p) {
        Ok((nd, q)) => if p < q <= s.len() {
            lemma_nodes_grow(s, q, acc.push(nd));
        },
        _ => {},
    }
}

/// A non-split file that reads has at least one node.
pub proof fn law_file_has_a_node(s: Seq<char>, p: int)
    ensures
        spec_nonsplit_info_file(s, p) matches Ok((f, _)) ==> f.nodes.len() >= 1,
{
    match spec_preamble(s, p) {
        Some((_, p1)) => match spec_node(s, p1) {
            Ok((first, p2)) => if p1 < p2 <= s.len() {
                lemma_nodes_grow(s, p2, seq![first]);
            },
            _ => {},
        },
        None => {},
    }
}


/// Where a one-character literal is first found: at `q`, when `s[q]` is `c` and no earlier
/// character from `p` on is.
pub proof fn lemma_find_char(s: Seq<char>, p: int, q: int, c: char)
    requires
        0 <= p <= q < s.len(),
        s[q] == c,
        forall|j: int| p <= j < q ==> s[j] != c,
    ensures
        find_lit(s, p, seq![c]) == Some(q),
    decreases q - p,
{
    assert(s.subrange(p, p + 1) =~= seq![s[p]]);
    if p < q {
        assert(s.subrange(p, p + 1)[0] != seq![c][0]);
        lemma_find_char(s, p + 1, q, c);
    }
}

/// A tag table line that starts with `Ref: ` is an anchor (a `Ref` entry), one that starts with
/// `Node: ` is a node (a `Node` entry); either way the tag is what follows.
pub proof fn law_tag_table_entry_kind(s: Seq<char>, p: int)
    requires
        0 <= p,
    ensures
        lit_at(s, p, "Ref: "@) ==> spec_tag_table_entry(s, p) == match spec_tag(s, p + 5) {
            Some((t, r)) => Some((SpecTagTableEntry::Ref(t), r)),
            None => None,
        },
        lit_at(s, p, "Node: "@) ==> spec_tag_table_entry(s, p) == match spec_tag(s, p + 6) {
            Some((t, r)) => Some((SpecTagTableEntry::Node(t), r)),
            None => None,
        },
{
    reveal_strlit("Ref: ");
    reveal_strlit("Node: ");
    reveal_strlit(": ");
    reveal_strlit("Ref");
    reveal_strlit("Node");
    if lit_at(s, p, "Ref: "@) {
        assert(s.subrange(p, p + 5)[0] == s[p]);
        assert(s[p] == 'R' && s[p + 1] == 'e' && s[p + 2] == 'f' && s[p + 3] == ':' && s[p + 4] == ' ') by {
            assert(s.subrange(p, p + 5)[1] == s[p + 1]);
            assert(s.subrange(p, p + 5)[2] == s[p + 2]);
            assert(s.subrange(p, p + 5)[3] == s[p + 3]);
            assert(s.subrange(p, p + 5)[4] == s[p + 4]);
        }
        assert(s.subrange(p, p + 2) !~= ": "@ ) by { assert(s.subrange(p, p + 2)[0] == s[p]); }
        assert(s.subrange(p + 1, p + 3) !~= ": "@ ) by { assert(s.subrange(p + 1, p + 3)[0] == s[p + 1]); }
        assert(s.subrange(p + 2, p + 4) !~= ": "@ ) by { assert(s.subrange(p + 2, p + 4)[0] == s[p + 2]); }
        assert(s.subrange(p + 3, p + 5) =~= ": "@);
        assert(find_lit(s, p + 3, ": "@) == Some(p + 3));
        assert(find_lit(s, p + 2, ": "@) == Some(p + 3));
        assert(find_lit(s, p + 1, ": "@) == Some(p + 3));
        assert(find_lit(s, p, ": "@) == Some(p + 3));
        assert(s.subrange(p, p + 3) =~= "Ref"@);
        assert("Ref"@ != "Node"@);
    }
    if lit_at(s, p, "Node: "@) {
        assert(s[p] == 'N' && s[p + 1] == 'o' && s[p + 2] == 'd' && s[p + 3] == 'e' && s[p + 4] == ':'
            && s[p + 5] == ' ') by {
            assert(s.subrange(p, p + 6)[0] == s[p]);
            assert(s.subrange(p, p + 6)[1] == s[p + 1]);
            assert(s.subrange(p, p + 6)[2] == s[p + 2]);
            assert(s.subrange(p, p + 6)[3] == s[p + 3]);
            assert(s.subrange(p, p + 6)[4] == s[p + 4]);
            assert(s.subrange(p, p + 6)[5] == s[p + 5]);
        }
        assert(s.subrange(p, p + 2) !~= ": "@ ) by { assert(s.subrange(p, p + 2)[0] == s[p]); }
        assert(s.subrange(p + 1, p + 3) !~= ": "@ ) by { assert(s.subrange(p + 1, p + 3)[0] == s[p + 1]); }
        assert(s.subrange(p + 2, p + 4) !~= ": "@ ) by { assert(s.subrange(p + 2, p + 4)[0] == s[p + 2]); }
        assert(s.subrange(p + 3, p + 5) !~= ": "@ ) by { assert(s.subrange(p + 3, p + 5)[0] == s[p + 3]); }
        assert(s.subrange(p + 4, p + 6) =~= ": "@);
        assert(find_lit(s, p + 4, ": "@) == Some(p + 4));
        assert(find_lit(s, p + 3, ": "@) == Some(p + 4));
        assert(find_lit(s, p + 2, ": "@) == Some(p + 4));
        assert(find_lit(s, p + 1, ": "@) == Some(p + 4));
        assert(find_lit(s, p, ": "@) == Some(p + 4));
        assert(s.subrange(p, p + 4) =~= "Node"@);
    }
}

/// The level that an underline character gives: `*` a chapter, `=` a section, `-` a
/// subsection, `.` a subsubsection.
pub open spec fn level_of_underline(c: char) -> HeadingLevel {
    if c == '*' {
        HeadingLevel::Major
    } else if c == '=' {
        HeadingLevel::Section
    } else if c == '-' {
        HeadingLevel::SubSection
    } else {
        HeadingLevel::SubSubSection
    }
}

/// An underline of `n >= 1` copies of `*`, `=`, `-` or `.` ending its line is read, with the
/// level that character gives, up to after its newline.
pub proof fn law_underline(s: Seq<char>, p: int, n: int, c: char)
    requires
        0 <= p,
        n >= 1,
        p + n < s.len(),
        forall|i: int| p <= i < p + n ==> s[i] == c,
        s[p + n] == '\n',
        c == '*' || c == '=' || c == '-' || c == '.',
    ensures
        spec_underline(s, p, n) == Some((level_of_underline(c), p + n + 1)),
{
    assert(s[p] == c);
}

proof fn lemma_till_line(s: Seq<char>, p: int, e: int)
    requires
        0 <= p <= e < s.len(),
        s[e] == '\n',
        forall|i: int| p <= i < e ==> s[i] != '\n' && s[i] != '\r',
    ensures
        till_cr_lf(s, p) == e,
    decreases e - p,
{
    if p < e {
        lemma_till_line(s, p + 1, e);
    }
}

/// A line of text `t` followed by a line of as many `*`, `=`, `-` or `.` as `t` has grapheme
/// clusters is a heading of the level that character gives, with `t` as its text.
pub proof fn law_heading(t: Seq<char>, c: char, rest: Seq<char>)
    requires
        grapheme_count(t) >= 1,
        forall|i: int| 0 <= i < t.len() ==> t[i] != '\n' && t[i] != '\r',
        c == '*' || c == '=' || c == '-' || c == '.',
    ensures
        ({
            let n = grapheme_count(t);
            let s = t + seq!['\n'] + Seq::new(n, |_i: int| c) + seq!['\n'] + rest;
            spec_heading(s, 0) == Some((SpecHeading { level: level_of_underline(c), text: t }, (t.len() + n + 2) as int))
        }),
{
    let n = grapheme_count(t);
    let s = t + seq!['\n'] + Seq::new(n, |_i: int| c) + seq!['\n'] + rest;
    let e = t.len() as int;
    assert forall|i: int| 0 <= i < e implies s[i] != '\n' && s[i] != '\r' by {
        assert(s[i] == t[i]);
    }
    assert(s[e] == '\n');
    lemma_till_line(s, 0, e);
    assert(spec_till_line_ending(s, 0) == Some(e));
    assert(spec_line_ending(s, e) == Some(e + 1));
    assert forall|i: int| e + 1 <= i < e + 1 + n implies s[i] == c by {
        assert(s[i] == Seq::new(n, |_i: int| c)[i - e - 1]);
    }
    assert(s[e + 1 + n] == '\n');
    law_underline(s, e + 1, n as int, c);
    assert(s.subrange(0, e) =~= t);
}

proof fn lemma_run_exact(s: Seq<char>, p: int, k: CharClass, n: int, max: int)
    requires
        0 <= p,
        0 <= n,
        p + n <= s.len(),
        max >= s.len() - p,
        forall|j: int| p <= j < p + n ==> in_class(k, #[trigger] s[j]),
        p + n == s.len() || !in_class(k, s[p + n]),
    ensures
        run(s, p, k, max) == n,
    decreases n,
{
    if n > 0 {
        assert(in_class(k, s[p]));
        lemma_run_exact(s, p + 1, k, n - 1, max - 1);
    }
}

proof fn lemma_last_colon(a: Seq<char>, b: Seq<char>)
    requires
        forall|j: int| 0 <= j < b.len() ==> b[j] != ':',
    ensures
        last_index_of(a + seq![':'] + b, ':') == Some(a.len() as int),
    decreases b.len(),
{
    let x = a + seq![':'] + b;
    if b.len() > 0 {
        assert(x.last() == b.last());
        assert(x.drop_last() =~= a + seq![':'] + b.drop_last());
        lemma_last_colon(a, b.drop_last());
    }
}

/// An index entry laid out over two lines, as `makeinfo` writes a long one.
pub open spec fn two_line_index_entry(t: Seq<char>, nd: Seq<char>, sp: nat, d: Seq<char>, rest: Seq<char>) -> Seq<char> {
    "* "@ + t + ": "@ + nd + ".\n"@ + Seq::new(sp, |_i: int| ' ') + "(line "@ + d + ")"@ + rest
}

/// An index entry whose first line `* text: node.` holds only the entry text and the node,
/// with `(line N)` on the next line after white space, is read: its text is the text before the
/// last `:`, its node what follows up to the final `.`, both trimmed, and its line the number.
pub proof fn law_index_entry_two_lines(t: Seq<char>, nd: Seq<char>, sp: nat, d: Seq<char>, rest: Seq<char>, line: nat)
    requires
        forall|j: int| 0 <= j < t.len() ==> t[j] != '\n',
        forall|j: int| 0 <= j < nd.len() ==> nd[j] != '\n' && nd[j] != ':',
        d.len() >= 1,
        '0' <= d[0] <= '9',
        spec_dec_uint(two_line_index_entry(t, nd, sp, d, rest), (4 + t.len() + nd.len() + 2 + sp + 6) as int, usize::MAX as nat)
            == Some((line, (4 + t.len() + nd.len() + 2 + sp + 6 + d.len()) as int)),
    ensures
        spec_index_entry(two_line_index_entry(t, nd, sp, d, rest), 0) == Ok::<_, Fail>(
            (
                SpecIndexEntry {
                    text: trim(t),
                    node: SpecId { infofile: None, nodename: Some(trim(seq![' '] + nd)) },
                    line,
                },
                (4 + t.len() + nd.len() + 2 + sp + 6 + d.len() + 1) as int,
            ),
        ),
{
    reveal_strlit("* ");
    reveal_strlit(": ");
    reveal_strlit(".\n");
    reveal_strlit("(line ");
    reveal_strlit(")");
    reveal_strlit("line");
    let s = two_line_index_entry(t, nd, sp, d, rest);
    let tl = t.len() as int;
    let nl_ = nd.len() as int;
    let q = 4 + tl + nl_;
    let r = q + 2 + sp;
    let a0 = r + 6;
    let dl = d.len() as int;
    assert(s.len() == a0 + dl + 1 + rest.len());
    assert forall|j: int| 2 <= j < 2 + tl implies s[j] == t[j - 2] by {}
    assert(s[2 + tl] == ':' && s[3 + tl] == ' ');
    assert forall|j: int| 4 + tl <= j < q implies s[j] == nd[j - 4 - tl] by {}
    assert(s[q] == '.' && s[q + 1] == '\n');
    assert forall|j: int| q + 2 <= j < r implies s[j] == ' ' by {}
    assert(s[r] == '(' && s[r + 1] == 'l' && s[r + 2] == 'i' && s[r + 3] == 'n' && s[r + 4] == 'e' && s[r + 5] == ' ');
    assert(s[a0] == d[0]);
    assert(s[a0 + dl] == ')');
    // the first line ends at q + 1
    assert forall|j: int| 2 <= j < q + 1 implies s[j] != '\n' by {
        if j < 2 + tl {
            assert(s[j] == t[j - 2]);
        } else if 4 + tl <= j < q {
            assert(s[j] == nd[j - 4 - tl]);
        }
    }
    lemma_find_char(s, 2, q + 1, '\n');
    assert(line_end(s, 2) == q + 1);
    assert(s.subrange(0, 2) =~= "* "@);
    let x = s.subrange(2, q + 1);
    assert(x.last() == '.');
    assert(!crate::text::is_whitespace('.'));
    assert(trim_end(x) == x);
    // the entry text and the node
    let y = s.subrange(2, q);
    assert(y =~= t + seq![':'] + (seq![' '] + nd));
    assert forall|j: int| 0 <= j < (seq![' '] + nd).len() implies (seq![' '] + nd)[j] != ':' by {
        if j > 0 {
            assert((seq![' '] + nd)[j] == nd[j - 1]);
        }
    }
    lemma_last_colon(t, seq![' '] + nd);
    assert(y.take(tl) =~= t);
    assert(y.skip(tl + 1) =~= seq![' '] + nd);
    // the line spec
    assert forall|j: int| q + 1 <= j < q + 1 + (1 + sp) implies in_class(CharClass::MultiSpace, #[trigger] s[j]) by {}
    lemma_run_exact(s, q + 1, CharClass::MultiSpace, 1 + sp as int, s.len() as int);
    assert(s.subrange(r + 1, r + 5) =~= "line"@);
    assert(lit_at(s, r + 1, "line"@));
    assert(in_class(CharClass::MultiSpace, s[r + 5]));
    assert(!in_class(CharClass::MultiSpace, s[a0]));
    lemma_run_exact(s, r + 5, CharClass::MultiSpace, 1, s.len() as int);
    assert(spec_line_spec(s, q) == Some((line, a0 + dl + 1)));
}

proof fn lemma_last_char(a: Seq<char>, c: char, b: Seq<char>)
    requires
        forall|j: int| 0 <= j < b.len() ==> b[j] != c,
    ensures
        last_index_of(a + seq![c] + b, c) == Some(a.len() as int),
    decreases b.len(),
{
    let x = a + seq![c] + b;
    if b.len() > 0 {
        assert(x.last() == b.last());
        assert(x.drop_last() =~= a + seq![c] + b.drop_last());
        lemma_last_char(a, c, b.drop_last());
    }
}

/// An index entry written on one line, as `makeinfo` writes a short one.
pub open spec fn one_line_index_entry(t: Seq<char>, nd: Seq<char>, sp: nat, d: Seq<char>, rest: Seq<char>) -> Seq<char> {
    "* "@ + t + ": "@ + nd + "."@ + Seq::new(sp, |_i: int| ' ') + "(line "@ + d + ")\n"@ + rest
}

/// An index entry `* text: node.  (line N)` on one line is read: its text is the text before
/// the last `:` before the node, its node what follows up to the `.` before `(line`, both
/// trimmed, and its line the number.
#[verifier::rlimit(80)]
#[verifier::spinoff_prover]
pub proof fn law_index_entry_one_line(t: Seq<char>, nd: Seq<char>, sp: nat, d: Seq<char>, rest: Seq<char>, line: nat)
    requires
        forall|j: int| 0 <= j < t.len() ==> t[j] != '\n',
        forall|j: int| 0 <= j < nd.len() ==> nd[j] != '\n' && nd[j] != ':',
        sp >= 1,
        d.len() >= 1,
        forall|j: int| 0 <= j < d.len() ==> '0' <= #[trigger] d[j] <= '9',
        spec_dec_uint(one_line_index_entry(t, nd, sp, d, rest), (4 + t.len() + nd.len() + 1 + sp + 6) as int, usize::MAX as nat)
            == Some((line, (4 + t.len() + nd.len() + 1 + sp + 6 + d.len()) as int)),
    ensures
        spec_index_entry(one_line_index_entry(t, nd, sp, d, rest), 0) == Ok::<_, Fail>(
            (
                SpecIndexEntry {
                    text: trim(t),
                    node: SpecId { infofile: None, nodename: Some(trim(seq![' '] + nd)) },
                    line,
                },
                (4 + t.len() + nd.len() + 1 + sp + 6 + d.len() + 1) as int,
            ),
        ),
{
    reveal_strlit("* ");
    reveal_strlit(": ");
    reveal_strlit(".");
    reveal_strlit("(line ");
    reveal_strlit(")\n");
    reveal_strlit("line");
    let s = one_line_index_entry(t, nd, sp, d, rest);
    let tl = t.len() as int;
    let nl_ = nd.len() as int;
    let q = 4 + tl + nl_;
    let r = q + 1 + sp;
    let a0 = r + 6;
    let dl = d.len() as int;
    let e = a0 + dl + 1;
    assert(s.len() == e + 1 + rest.len());
    assert forall|j: int| 2 <= j < 2 + tl implies s[j] == t[j - 2] by {}
    assert(s[2 + tl] == ':' && s[3 + tl] == ' ');
    assert forall|j: int| 4 + tl <= j < q implies s[j] == nd[j - 4 - tl] by {}
    assert(s[q] == '.');
    assert forall|j: int| q + 1 <= j < r implies s[j] == ' ' by {}
    assert(s[r] == '(' && s[r + 1] == 'l' && s[r + 2] == 'i' && s[r + 3] == 'n' && s[r + 4] == 'e' && s[r + 5] == ' ');
    assert forall|j: int| a0 <= j < a0 + dl implies s[j] == d[j - a0] by {}
    assert(s[a0 + dl] == ')' && s[e] == '\n');
    assert forall|j: int| 2 <= j < e implies s[j] != '\n' by {
        if j < 2 + tl {
            assert(s[j] == t[j - 2]);
        } else if 4 + tl <= j < q {
            assert(s[j] == nd[j - 4 - tl]);
        } else if a0 <= j < a0 + dl {
            assert(s[j] == d[j - a0]);
        }
    }
    lemma_find_char(s, 2, e, '\n');
    assert(line_end(s, 2) == e);
    assert(s.subrange(0, 2) =~= "* "@);
    let x = s.subrange(2, e);
    assert(x.last() == ')');
    assert(!crate::text::is_whitespace(')'));
    assert(trim_end(x) == x);
    // the last '.' of the line is the one after the node
    let after = s.subrange(q + 1, e);
    assert(x =~= s.subrange(2, q) + seq!['.'] + after);
    assert forall|j: int| 0 <= j < after.len() implies after[j] != '.' by {
        assert(after[j] == s[q + 1 + j]);
        if q + 1 + j >= a0 && q + 1 + j < a0 + dl {
            assert(s[q + 1 + j] == d[q + 1 + j - a0]);
        }
    }
    lemma_last_char(s.subrange(2, q), '.', after);
    assert(last_index_of(x, '.') == Some(q - 2));
    // the entry text and the node
    let y = s.subrange(2, q);
    assert(y =~= t + seq![':'] + (seq![' '] + nd));
    assert forall|j: int| 0 <= j < (seq![' '] + nd).len() implies (seq![' '] + nd)[j] != ':' by {
        if j > 0 {
            assert((seq![' '] + nd)[j] == nd[j - 1]);
        }
    }
    lemma_last_colon(t, seq![' '] + nd);
    assert(y.take(tl) =~= t);
    assert(y.skip(tl + 1) =~= seq![' '] + nd);
    // the line spec
    assert forall|j: int| q + 1 <= j < q + 1 + sp implies in_class(CharClass::MultiSpace, #[trigger] s[j]) by {}
    lemma_run_exact(s, q + 1, CharClass::MultiSpace, sp as int, s.len() as int);
    assert(s.subrange(r + 1, r + 5) =~= "line"@);
    assert(lit_at(s, r + 1, "line"@));
    assert(in_class(CharClass::MultiSpace, s[r + 5]));
    assert(s[a0] == d[0]);
    assert(!in_class(CharClass::MultiSpace, s[a0]));
    lemma_run_exact(s, r + 5, CharClass::MultiSpace, 1, s.len() as int);
    assert(spec_line_spec(s, q) == Some((line, a0 + dl + 1)));
}

/// A node name written plainly: nonempty, not starting with `(` or white space, and free of
/// `,`, tabs, newlines and `DELETE`.
pub open spec fn plain_name(n: Seq<char>) -> bool {
    &&& n.len() > 0
    &&& n[0] != '(' && n[0] != ' '
    &&& forall|j: int| 0 <= j < n.len() ==> #[trigger] n[j] != ',' && n[j] != '\t' && n[j] != '\n' && n[j] != DELETE
}

proof fn lemma_till_stop_at(s: Seq<char>, p: int, e: int)
    requires
        0 <= p <= e < s.len(),
        s[e] == ',' || s[e] == '\n',
        forall|j: int| p <= j < e ==> s[j] != ',' && s[j] != '\t' && s[j] != '\n' && s[j] != DELETE,
    ensures
        till_stop(s, p, seq![',', '\t']) == e,
    decreases e - p,
{
    if p < e {
        assert(!seq![',', '\t'].contains(s[p])) by {
            if seq![',', '\t'].contains(s[p]) {
                let i = choose|i: int| 0 <= i < 2 && seq![',', '\t'][i] == s[p];
                assert(i == 0 || i == 1);
            }
        }
        lemma_till_stop_at(s, p + 1, e);
    } else {
        if s[e] == ',' {
            assert(seq![',', '\t'][0] == ',');
        }
    }
}

/// A plain name at `p`, ended by `,` or a newline at `e`, is read as a node id with no file.
proof fn lemma_plain_id(s: Seq<char>, p: int, e: int)
    requires
        0 <= p < e < s.len(),
        plain_name(s.subrange(p, e)),
        s[e] == ',' || s[e] == '\n',
    ensures
        spec_id(s, p, seq![',', '\t']) == (SpecId { infofile: None, nodename: Some(s.subrange(p, e)) }, e),
{
    assert(s.subrange(p, e)[0] == s[p]);
    assert forall|j: int| p <= j < e implies s[j] != ',' && s[j] != '\t' && s[j] != '\n' && s[j] != DELETE by {
        assert(s.subrange(p, e)[j - p] == s[j]);
    }
    lemma_till_stop_at(s, p, e);
}

/// `,  kw name` at `p`, the name plain and ended by `,` or a newline at `e`, is a link to that
/// node.
proof fn lemma_plain_link(s: Seq<char>, p: int, kw: Seq<char>, e: int)
    requires
        0 <= p,
        p + 3 + kw.len() + 1 < e < s.len(),
        kw.len() >= 1,
        kw[0] != ' ' && kw[0] != '\t',
        kw[kw.len() - 1] != ' ' && kw[kw.len() - 1] != '\t',
        s[p] == ',' && s[p + 1] == ' ' && s[p + 2] == ' ',
        s.subrange(p + 3, p + 3 + kw.len()) == kw,
        s[p + 3 + kw.len()] == ' ',
        plain_name(s.subrange(p + 4 + kw.len(), e)),
        s[e] == ',' || s[e] == '\n',
    ensures
        spec_link(s, p, kw) == (Some(SpecId { infofile: None, nodename: Some(s.subrange(p + 4 + kw.len(), e)) }), e),
{
    assert(s[p + 3] == kw[0]) by {
        assert(s.subrange(p + 3, p + 3 + kw.len())[0] == s[p + 3]);
    }
    lemma_run_exact(s, p + 1, CharClass::Space, 2, s.len() as int);
    let a = p + 3;
    let q = a + kw.len() + 1;
    assert(s.subrange(q, e)[0] == s[q]);
    lemma_run_exact(s, a + kw.len(), CharClass::Space, 1, s.len() as int);
    lemma_plain_id(s, q, e);
}

/// A node whose header line names its file, itself and its next, previous and up nodes plainly,
/// `File: f,  Node: n,  Next: x,  Prev: y,  Up: u`, followed by an empty line and then the end
/// of the input or the next separator, is read with exactly those names, no description and no
/// text; it ends where that separator starts, which is left for what follows.
#[verifier::rlimit(100)]
#[verifier::spinoff_prover]
pub proof fn law_node_header(s: Seq<char>, f: Seq<char>, n: Seq<char>, x: Seq<char>, y: Seq<char>, u: Seq<char>)
    requires
        f.len() > 0,
        f[0] != ' ' && f[0] != '\t',
        forall|j: int| 0 <= j < f.len() ==> f[j] != ',',
        plain_name(n),
        plain_name(x),
        plain_name(y),
        plain_name(u),
        ({
            let fe = 8 + f.len() as int;
            let d = fe + 9;
            let e1 = d + n.len() as int;
            let e2 = e1 + 9 + x.len() as int;
            let e3 = e2 + 9 + y.len() as int;
            let e4 = e3 + 7 + u.len() as int;
            &&& s.len() >= e4 + 2
            &&& s.subrange(0, 8) == "\u{1f}\nFile: "@
            &&& s.subrange(8, fe) == f
            &&& s.subrange(fe, d) == ",  Node: "@
            &&& s.subrange(d, e1) == n
            &&& s.subrange(e1, e1 + 9) == ",  Next: "@
            &&& s.subrange(e1 + 9, e2) == x
            &&& s.subrange(e2, e2 + 9) == ",  Prev: "@
            &&& s.subrange(e2 + 9, e3) == y
            &&& s.subrange(e3, e3 + 7) == ",  Up: "@
            &&& s.subrange(e3 + 7, e4) == u
            &&& s.subrange(e4, e4 + 2) == "\n\n"@
            &&& (s.len() == e4 + 2 || (s.len() >= e4 + 4 && s[e4 + 2] == '\u{1f}' && s[e4 + 3] == '\n'))
        }),
    ensures
        spec_node(s, 0) == Ok::<_, Fail>(
            (
                SpecNode {
                    file: f,
                    node: SpecId { infofile: None, nodename: Some(n) },
                    next: Some(SpecId { infofile: None, nodename: Some(x) }),
                    prev: Some(SpecId { infofile: None, nodename: Some(y) }),
                    up: Some(SpecId { infofile: None, nodename: Some(u) }),
                    descr: None,
                    general_text: Seq::empty(),
                },
                (8 + f.len() + 9 + n.len() + 9 + x.len() + 9 + y.len() + 7 + u.len() + 2) as int,
            ),
        ),
{
    reveal_strlit("\u{1f}\nFile: ");
    reveal_strlit(",  Node: ");
    reveal_strlit(",  Next: ");
    reveal_strlit(",  Prev: ");
    reveal_strlit(",  Up: ");
    reveal_strlit("\n\n");
    reveal_strlit("File:");
    reveal_strlit("Node:");
    reveal_strlit("Next:");
    reveal_strlit("Prev:");
    reveal_strlit("Up:");
    let fe = 8 + f.len() as int;
    let d = fe + 9;
    let e1 = d + n.len() as int;
    let e2 = e1 + 9 + x.len() as int;
    let e3 = e2 + 9 + y.len() as int;
    let e4 = e3 + 7 + u.len() as int;
    let h = e4 + 2;
    reveal_strlit(",  ");
    reveal_strlit(" ");
    assert(s[fe] == ',') by {
        assert(s.subrange(fe, d)[0] == s[fe]);
    }
    lemma_header_start(s, f);
    assert(s[e1] == ',') by {
        assert(s.subrange(e1, e1 + 9)[0] == s[e1]);
    }
    lemma_header_node(s, fe, n);
    assert(s[e2] == ',') by {
        assert(s.subrange(e2, e2 + 9)[0] == s[e2]);
    }
    assert(",  "@ + "Next:"@ + " "@ =~= ",  Next: "@);
    lemma_header_link(s, e1, "Next:"@, x);
    assert(s[e3] == ',') by {
        assert(s.subrange(e3, e3 + 7)[0] == s[e3]);
    }
    assert(",  "@ + "Prev:"@ + " "@ =~= ",  Prev: "@);
    lemma_header_link(s, e2, "Prev:"@, y);
    assert(s[e4] == '\n') by {
        assert(s.subrange(e4, e4 + 2)[0] == s[e4]);
    }
    assert(",  "@ + "Up:"@ + " "@ =~= ",  Up: "@);
    lemma_header_link(s, e3, "Up:"@, u);
    assert(s[e4] == '\n') by {
        assert(s.subrange(e4, e4 + 2)[0] == s[e4]);
    }
    assert(!char_at(s, e4, '\t'));
    assert(lit_at(s, e4, "\n\n"@));
    if s.len() > h {
        assert(spec_separator(s, h) == Some(h + 2));
    }
    assert(spec_node_body(s, h, Seq::empty()) == Ok::<_, Fail>((Seq::<SpecBlock>::empty(), h)));
}

proof fn lemma_header_start(s: Seq<char>, f: Seq<char>)
    requires
        f.len() > 0,
        f[0] != ' ' && f[0] != '\t',
        forall|j: int| 0 <= j < f.len() ==> f[j] != ',',
        s.len() > 8 + f.len(),
        s.subrange(0, 8) == "\u{1f}\nFile: "@,
        s.subrange(8, 8 + f.len() as int) == f,
        s[8 + f.len() as int] == ',',
    ensures
        spec_separator(s, 0) == Some(2int),
        lit_at(s, 2, "File:"@),
        run(s, 7, CharClass::Space, s.len() as int) == 1,
        take_until(s, 8, seq![','], 1, s.len() as int) == Some(8 + f.len() as int),
{
    reveal_strlit("\u{1f}\nFile: ");
    reveal_strlit("File:");
    let fe = 8 + f.len() as int;
    assert forall|j: int| 0 <= j < 8 implies s[j] == "\u{1f}\nFile: "@[j] by {
        assert(s.subrange(0, 8)[j] == s[j]);
    }
    assert forall|j: int| 8 <= j < fe implies s[j] == f[j - 8] by {
        assert(s.subrange(8, fe)[j - 8] == s[j]);
    }
    assert(s.subrange(2, 7) =~= "File:"@);
    lemma_run_exact(s, 7, CharClass::Space, 1, s.len() as int);
    lemma_find_char(s, 8, fe, ',');
}

proof fn lemma_header_node(s: Seq<char>, fe: int, n: Seq<char>)
    requires
        0 <= fe,
        plain_name(n),
        s.len() > fe + 9 + n.len(),
        s.subrange(fe, fe + 9) == ",  Node: "@,
        s.subrange(fe + 9, fe + 9 + n.len() as int) == n,
        s[fe + 9 + n.len() as int] == ',',
    ensures
        run(s, fe + 1, CharClass::Space, s.len() as int) == 2,
        lit_at(s, fe + 3, "Node:"@),
        run(s, fe + 8, CharClass::Space, s.len() as int) == 1,
        spec_id(s, fe + 9, seq![',', '\t']) == (SpecId { infofile: None, nodename: Some(n) }, fe + 9 + n.len()),
{
    reveal_strlit(",  Node: ");
    reveal_strlit("Node:");
    let d = fe + 9;
    assert forall|j: int| fe <= j < d implies s[j] == ",  Node: "@[j - fe] by {
        assert(s.subrange(fe, d)[j - fe] == s[j]);
    }
    assert(s[d] == n[0]) by {
        assert(s.subrange(d, d + n.len())[0] == s[d]);
    }
    assert(s.subrange(fe + 3, fe + 8) =~= "Node:"@);
    lemma_run_exact(s, fe + 1, CharClass::Space, 2, s.len() as int);
    lemma_run_exact(s, fe + 8, CharClass::Space, 1, s.len() as int);
    lemma_plain_id(s, d, d + n.len());
}

proof fn lemma_header_link(s: Seq<char>, p: int, kw: Seq<char>, x: Seq<char>)
    requires
        0 <= p,
        kw == "Next:"@ || kw == "Prev:"@ || kw == "Up:"@,
        plain_name(x),
        s.len() > p + 4 + kw.len() + x.len(),
        s.subrange(p, p + 4 + kw.len()) == ",  "@ + kw + " "@,
        s.subrange(p + 4 + kw.len(), p + 4 + kw.len() + x.len()) == x,
        s[p + 4 + kw.len() as int + x.len() as int] == ',' || s[p + 4 + kw.len() as int + x.len() as int] == '\n',
    ensures
        spec_link(s, p, kw) == (Some(SpecId { infofile: None, nodename: Some(x) }), p + 4 + kw.len() + x.len()),
{
    reveal_strlit("Next:");
    reveal_strlit("Prev:");
    reveal_strlit("Up:");
    reveal_strlit(",  ");
    reveal_strlit(" ");
    let k = kw.len() as int;
    let lit = ",  "@ + kw + " "@;
    assert forall|j: int| p <= j < p + 4 + k implies s[j] == lit[j - p] by {
        assert(s.subrange(p, p + 4 + k)[j - p] == s[j]);
    }
    assert(s.subrange(p + 3, p + 3 + k) =~= kw);
    lemma_plain_link(s, p, kw, p + 4 + k + x.len());
}

} // verus!
