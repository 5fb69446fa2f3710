//! Scanning primitives over a sequence of characters, each read at a position.
use vstd::prelude::*;

verus! {

/// Whether `w` occurs in `s` at position `p`.
pub open spec fn lit_at(s: Seq<char>, p: int, w: Seq<char>) -> bool {
    0 <= p && p + w.len() <= s.len() && s.subrange(p, p + w.len()) == w
}

/// Whether `w` occurs in `s` at position `p`.
pub fn starts_with(s: &[char], p: usize, w: &[char]) -> (r: bool)
    ensures
        r == lit_at(s@, p as int, w@),
{
    let slen = s.len();
    if p > slen || w.len() > slen - p {
        return false;
    }
    let mut i: usize = 0;
    while i < w.len()
        invariant
            slen == s@.len(),
            p + w@.len() <= s@.len(),
            i <= w@.len(),
            forall|j: int| 0 <= j < i ==> s@[p + j] == w@[j],
        decreases w.len() - i,
    {
        if s[p + i] != w[i] {
            assert(s@.subrange(p as int, p + w@.len())[i as int] != w@[i as int]);
            return false;
        }
        i = i + 1;
    }
    assert(s@.subrange(p as int, p + w@.len()) =~= w@);
    true
}

/// The first position at or after `p` where `w` occurs in `s`.
pub open spec fn find_lit(s: Seq<char>, p: int, w: Seq<char>) -> Option<int>
    decreases s.len() - p,
{
    if p < 0 || p + w.len() > s.len() {
        None
    } else if lit_at(s, p, w) {
        Some(p)
    } else if p >= s.len() {
        None
    } else {
        find_lit(s, p + 1, w)
    }
}

pub proof fn lemma_find_lit_bounds(s: Seq<char>, p: int, w: Seq<char>)
    ensures
        find_lit(s, p, w) matches Some(q) ==> p <= q && q + w.len() <= s.len() && lit_at(s, q, w),
    decreases s.len() - p,
{
    if p < 0 || p + w.len() > s.len() {
    } else if lit_at(s, p, w) {
    } else if p >= s.len() {
    } else {
        lemma_find_lit_bounds(s, p + 1, w);
    }
}

/// The first position at or after `p` where `w` occurs in `s`.
pub fn find(s: &[char], p: usize, w: &[char]) -> (r: Option<usize>)
    requires
        p <= s@.len(),
    ensures
        r matches Some(q) ==> find_lit(s@, p as int, w@) == Some(q as int),
        r is None ==> find_lit(s@, p as int, w@) is None,
{
    let slen = s.len();
    let mut i = p;
    loop
        invariant
            slen == s@.len(),
            p <= i <= s@.len(),
            find_lit(s@, p as int, w@) == find_lit(s@, i as int, w@),
        decreases s@.len() - i,
    {
        if w.len() > slen - i {
            return None;
        }
        if starts_with(s, i, w) {
            return Some(i);
        }
        if i >= slen {
            return None;
        }
        i = i + 1;
    }
}

/// The text from `p` up to the first occurrence of `w`, whose length must lie in `min..=max`.
/// The result is where the text ends.
pub open spec fn take_until(s: Seq<char>, p: int, w: Seq<char>, min: int, max: int) -> Option<int> {
    match find_lit(s, p, w) {
        Some(q) => if min <= q - p <= max {
            Some(q)
        } else {
            None
        },
        None => None,
    }
}

/// Where the text from `p` up to the first occurrence of `w` ends, when its length lies in
/// `min..=max`.
pub fn take_until_at(s: &[char], p: usize, w: &[char], min: usize, max: usize) -> (r: Option<usize>)
    requires
        p <= s@.len(),
    ensures
        r matches Some(q) ==> take_until(s@, p as int, w@, min as int, max as int) == Some(q as int)
            && p <= q && q + w@.len() <= s@.len(),
        r is None ==> take_until(s@, p as int, w@, min as int, max as int) is None,
{
    proof {
        lemma_find_lit_bounds(s@, p as int, w@);
    }
    match find(s, p, w) {
        Some(q) => if min <= q - p && q - p <= max {
            Some(q)
        } else {
            None
        },
        None => None,
    }
}

/// As `take_until`, with `w` itself taken as well: the result is where the text ends, and
/// reading resumes after `w`.
pub open spec fn take_until_and_consume(s: Seq<char>, p: int, w: Seq<char>, min: int, max: int) -> Option<int> {
    take_until(s, p, w, min, max)
}

/// Sets of characters that the grammar skips over.
#[derive(Clone, Copy, PartialEq, Eq, Structural)]
pub enum CharClass {
    /// `' '` and `'\t'`
    Space,
    /// `' '` alone
    Blank,
    /// `' '`, `'\t'`, `'\r'` and `'\n'`
    MultiSpace,
    /// `'\n'` alone
    Newline,
    /// `'0'` to `'9'`
    Digit,
}

pub open spec fn in_class(k: CharClass, c: char) -> bool {
    match k {
        CharClass::Space => c == ' ' || c == '\t',
        CharClass::Blank => c == ' ',
        CharClass::MultiSpace => c == ' ' || c == '\t' || c == '\r' || c == '\n',
        CharClass::Newline => c == '\n',
        CharClass::Digit => '0' <= c <= '9',
    }
}

pub fn is_in_class(k: CharClass, c: char) -> (r: bool)
    ensures
        r == in_class(k, c),
{
    match k {
        CharClass::Space => c == ' ' || c == '\t',
        CharClass::Blank => c == ' ',
        CharClass::MultiSpace => c == ' ' || c == '\t' || c == '\r' || c == '\n',
        CharClass::Newline => c == '\n',
        CharClass::Digit => '0' <= c && c <= '9',
    }
}

/// How many characters of class `k` follow one another from `p` on, counting at most `max`.
pub open spec fn run(s: Seq<char>, p: int, k: CharClass, max: int) -> int
    decreases max,
{
    if max <= 0 || p < 0 || p >= s.len() || !in_class(k, s[p]) {
        0
    } else {
        1 + run(s, p + 1, k, max - 1)
    }
}

pub proof fn lemma_run_bounds(s: Seq<char>, p: int, k: CharClass, max: int)
    ensures
        0 <= run(s, p, k, max),
        max >= 0 ==> run(s, p, k, max) <= max,
        0 <= p ==> p + run(s, p, k, max) <= s.len() || run(s, p, k, max) == 0,
        forall|j: int| p <= j < p + run(s, p, k, max) ==> 0 <= j < s.len() && in_class(k, #[trigger] s[j]),
    decreases max,
{
    if max <= 0 || p < 0 || p >= s.len() || !in_class(k, s[p]) {
    } else {
        lemma_run_bounds(s, p + 1, k, max - 1);
    }
}

/// How many characters of class `k` follow one another from `p` on, counting at most `max`.
pub fn run_len(s: &[char], p: usize, k: CharClass, max: usize) -> (r: usize)
    requires
        p <= s@.len(),
    ensures
        r == run(s@, p as int, k, max as int),
        p + r <= s@.len(),
        r <= max,
{
    let slen = s.len();
    let mut n: usize = 0;
    while n < max && p + n < slen && is_in_class(k, s[p + n])
        invariant
            slen == s@.len(),
            p + n <= s@.len(),
            n <= max,
            run(s@, p as int, k, max as int) == n + run(s@, p + n, k, max - n),
        decreases max - n,
    {
        n = n + 1;
    }
    n
}

/// The first position at or after `p` that holds `'\u{7f}'`, `'\n'` or a character of `stop`,
/// or the length of `s` when there is none.
pub open spec fn till_stop(s: Seq<char>, p: int, stop: Seq<char>) -> int
    decreases s.len() - p,
{
    if p < 0 || p >= s.len() || s[p] == '\u{7f}' || s[p] == '\n' || stop.contains(s[p]) {
        p
    } else {
        till_stop(s, p + 1, stop)
    }
}

pub proof fn lemma_till_stop_bounds(s: Seq<char>, p: int, stop: Seq<char>)
    ensures
        0 <= p <= s.len() ==> p <= till_stop(s, p, stop) <= s.len(),
    decreases s.len() - p,
{
    if p < 0 || p >= s.len() || s[p] == '\u{7f}' || s[p] == '\n' || stop.contains(s[p]) {
    } else {
        lemma_till_stop_bounds(s, p + 1, stop);
    }
}

fn contains_char(v: &[char], c: char) -> (r: bool)
    ensures
        r == v@.contains(c),
{
    let mut i: usize = 0;
    while i < v.len()
        invariant
            i <= v@.len(),
            forall|j: int| 0 <= j < i ==> v@[j] != c,
        decreases v.len() - i,
    {
        if v[i] == c {
            return true;
        }
        i = i + 1;
    }
    false
}

/// The first position at or after `p` that holds `'\u{7f}'`, `'\n'` or a character of `stop`.
pub fn scan_till_stop(s: &[char], p: usize, stop: &[char]) -> (r: usize)
    requires
        p <= s@.len(),
    ensures
        r == till_stop(s@, p as int, stop@),
        p <= r <= s@.len(),
{
    let slen = s.len();
    let mut i = p;
    while i < slen && s[i] != '\u{7f}' && s[i] != '\n' && !contains_char(stop, s[i])
        invariant
            slen == s@.len(),
            p <= i <= s@.len(),
            till_stop(s@, p as int, stop@) == till_stop(s@, i as int, stop@),
        decreases s@.len() - i,
    {
        i = i + 1;
    }
    i
}

} // verus!
