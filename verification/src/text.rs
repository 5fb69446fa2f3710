//! Characters, white space and strings.
use vstd::prelude::*;

verus! {

broadcast use vstd::string::group_string_axioms;

/// The characters of `s`, in order.
pub fn chars_of(s: &str) -> (r: Vec<char>)
    ensures
        r@ == s@,
{
    let mut v: Vec<char> = Vec::new();
    for c in iter: s.chars()
        invariant
            v@ == iter.seq().take(iter.index()),
            iter.seq() == s@,
    {
        v.push(c);
    }
    v
}

/// `String::push`: appends one character at the end of the string.
#[verifier::external_body]
pub(crate) fn push_char(s: &mut String, c: char)
    ensures
        final(s)@ == old(s)@.push(c),
{
    s.push(c);
}

/// A new string made of the characters `s[a..b]`.
pub fn string_of(s: &[char], a: usize, b: usize) -> (r: String)
    requires
        a <= b <= s@.len(),
    ensures
        r@ == s@.subrange(a as int, b as int),
{
    let mut r = String::new();
    let mut i = a;
    while i < b
        invariant
            a <= i <= b <= s@.len(),
            r@ == s@.subrange(a as int, i as int),
        decreases b - i,
    {
        push_char(&mut r, s[i]);
        assert(s@.subrange(a as int, i + 1) =~= s@.subrange(a as int, i as int).push(s@[i as int]));
        i = i + 1;
    }
    r
}

/// A new string holding `n` copies of `c`.
pub fn repeat_char(c: char, n: usize) -> (r: String)
    ensures
        r@ == Seq::new(n as nat, |_i: int| c),
{
    let mut r = String::new();
    let mut i: usize = 0;
    while i < n
        invariant
            i <= n,
            r@ =~= Seq::new(i as nat, |_i: int| c),
        decreases n - i,
    {
        push_char(&mut r, c);
        i = i + 1;
        assert(r@ =~= Seq::new(i as nat, |_i: int| c));
    }
    r
}

/// Unicode `White_Space`, as `char::is_whitespace` documents it.
pub open spec fn is_whitespace(c: char) -> bool {
    let u = c as u32;
    ||| 0x9 <= u <= 0xd
    ||| u == 0x20
    ||| u == 0x85
    ||| u == 0xa0
    ||| u == 0x1680
    ||| 0x2000 <= u <= 0x200a
    ||| u == 0x2028
    ||| u == 0x2029
    ||| u == 0x202f
    ||| u == 0x205f
    ||| u == 0x3000
}

/// Whether `c` is Unicode white space.
pub fn whitespace(c: char) -> (r: bool)
    ensures
        r == is_whitespace(c),
{
    let u = c as u32;
    (0x9 <= u && u <= 0xd) || u == 0x20 || u == 0x85 || u == 0xa0 || u == 0x1680 || (0x2000 <= u
        && u <= 0x200a) || u == 0x2028 || u == 0x2029 || u == 0x202f || u == 0x205f || u == 0x3000
}

/// `x` without its trailing white space (`str::trim_end`).
pub open spec fn trim_end(x: Seq<char>) -> Seq<char>
    decreases x.len(),
{
    if x.len() > 0 && is_whitespace(x.last()) {
        trim_end(x.drop_last())
    } else {
        x
    }
}

/// `x` without its leading white space (`str::trim_start`).
pub open spec fn trim_start(x: Seq<char>) -> Seq<char>
    decreases x.len(),
{
    if x.len() > 0 && is_whitespace(x[0]) {
        trim_start(x.drop_first())
    } else {
        x
    }
}

/// `x` without leading and trailing white space (`str::trim`).
pub open spec fn trim(x: Seq<char>) -> Seq<char> {
    trim_start(trim_end(x))
}

/// The end of `s[a..b]` once its trailing white space is dropped.
pub fn trim_end_bound(s: &[char], a: usize, b: usize) -> (e: usize)
    requires
        a <= b <= s@.len(),
    ensures
        a <= e <= b,
        s@.subrange(a as int, e as int) == trim_end(s@.subrange(a as int, b as int)),
{
    let mut e = b;
    while e > a && whitespace(s[e - 1])
        invariant
            a <= e <= b <= s@.len(),
            trim_end(s@.subrange(a as int, e as int)) == trim_end(s@.subrange(a as int, b as int)),
        decreases e,
    {
        assert(s@.subrange(a as int, e as int).drop_last() =~= s@.subrange(a as int, e - 1));
        e = e - 1;
    }
    e
}

/// The bounds of `s[a..b]` once its leading and trailing white space is dropped.
pub fn trim_bounds(s: &[char], a: usize, b: usize) -> (r: (usize, usize))
    requires
        a <= b <= s@.len(),
    ensures
        a <= r.0 <= r.1 <= b,
        s@.subrange(r.0 as int, r.1 as int) == trim(s@.subrange(a as int, b as int)),
{
    let e = trim_end_bound(s, a, b);
    let mut st = a;
    while st < e && whitespace(s[st])
        invariant
            a <= st <= e <= b <= s@.len(),
            trim_start(s@.subrange(st as int, e as int)) == trim_start(
                s@.subrange(a as int, e as int),
            ),
        decreases e - st,
    {
        assert(s@.subrange(st as int, e as int).drop_first() =~= s@.subrange(st + 1, e as int));
        st = st + 1;
    }
    (st, e)
}

/// A new string holding `s[a..b]` without trailing white space.
pub fn string_trim_end(s: &[char], a: usize, b: usize) -> (r: String)
    requires
        a <= b <= s@.len(),
    ensures
        r@ == trim_end(s@.subrange(a as int, b as int)),
{
    let e = trim_end_bound(s, a, b);
    string_of(s, a, e)
}

/// A new string holding `s[a..b]` without leading and trailing white space.
pub fn string_trim(s: &[char], a: usize, b: usize) -> (r: String)
    requires
        a <= b <= s@.len(),
    ensures
        r@ == trim(s@.subrange(a as int, b as int)),
{
    let (x, y) = trim_bounds(s, a, b);
    string_of(s, x, y)
}

/// The number of extended grapheme clusters in `s`, as `unicode_segmentation` counts them.
pub uninterp spec fn grapheme_count(s: Seq<char>) -> nat;

/// `UnicodeSegmentation::graphemes(s, true).count()`: the number of extended grapheme
/// clusters of `s`. The contract names the count and states only what the iterator's source
/// shows plainly: each cluster holds at least one character, and a nonempty string has at
/// least one cluster. Where the boundaries fall is left unsaid.
#[verifier::external_body]
pub(crate) fn count_graphemes(s: &str) -> (r: usize)
    ensures
        r as nat == grapheme_count(s@),
        r <= s@.len(),
        s@.len() > 0 ==> r >= 1,
{
    unicode_segmentation::UnicodeSegmentation::graphemes(s, true).count()
}

} // verus!
