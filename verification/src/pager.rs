//! The command line that starts the pager.
use vstd::prelude::*;
use crate::config::PagerSettings;
use crate::info::render::{decimal_digits, push_decimal};
use crate::parser_util::{lit_at, starts_with};
use crate::text::{chars_of, push_char};

verus! {

broadcast use vstd::string::group_string_axioms;

/// `s` with each occurrence of `pat` replaced by `rep`, the occurrences found from left to
/// right without overlapping (`str::replace` with a nonempty pattern).
pub open spec fn replace_all(s: Seq<char>, pat: Seq<char>, rep: Seq<char>) -> Seq<char>
    decreases s.len(),
{
    if s.len() == 0 {
        s
    } else if pat.len() > 0 && lit_at(s, 0, pat) {
        rep + replace_all(s.skip(pat.len() as int), pat, rep)
    } else {
        seq![s[0]] + replace_all(s.skip(1), pat, rep)
    }
}

/// Replaces each occurrence of `pat` in `s` by `rep`.
pub fn replace_all_str(s: &str, pat: &str, rep: &str) -> (r: String)
    requires
        pat@.len() > 0,
    ensures
        r@ == replace_all(s@, pat@, rep@),
{
    let x = chars_of(s);
    let p = chars_of(pat);
    let n = x.len();
    let mut r = String::new();
    let mut i: usize = 0;
    proof {
        assert(x@.skip(0) =~= x@);
        assert(r@ + replace_all(x@, p@, rep@) =~= replace_all(x@, p@, rep@));
    }
    while i < n
        invariant
            n == x@.len(),
            x@ == s@,
            p@ == pat@,
            p@.len() > 0,
            i <= n,
            r@ + replace_all(x@.skip(i as int), p@, rep@) == replace_all(x@, p@, rep@),
        decreases n - i,
    {
        let ghost t = x@.skip(i as int);
        if starts_with(x.as_slice(), i, p.as_slice()) {
            proof {
                assert(t.subrange(0, p@.len() as int) =~= x@.subrange(i as int, i + p@.len()));
                assert(t.skip(p@.len() as int) =~= x@.skip(i + p@.len()));
            }
            r.append(rep);
            i = i + p.len();
        } else {
            proof {
                if lit_at(t, 0, p@) {
                    assert(t.subrange(0, p@.len() as int) =~= x@.subrange(i as int, i + p@.len()));
                }
                assert(t.skip(1) =~= x@.skip(i + 1));
                assert(t[0] == x@[i as int]);
            }
            push_char(&mut r, x[i]);
            i = i + 1;
        }
    }
    proof {
        assert(x@.skip(n as int) =~= Seq::<char>::empty());
    }
    r
}

/// The argument that makes the pager start at `start` (`{}` in the pattern stands for it).
pub open spec fn start_argument(pattern: Seq<char>, start: nat) -> Seq<char> {
    replace_all(pattern, "{}"@, decimal_digits(start))
}

/// The words of the pager's command line: its command, then the argument that makes it start
/// at `start_line`, where there is a line and the settings say how.
pub open spec fn command_line(
    cmd: Seq<Seq<char>>,
    start_line_arg: Option<Seq<char>>,
    start_line: Option<usize>,
) -> Seq<Seq<char>> {
    match (start_line, start_line_arg) {
        (Some(start), Some(arg)) => cmd.push(start_argument(arg, start as nat)),
        _ => cmd,
    }
}

/// The command line that starts the pager: the program is its first word, the rest are its
/// arguments. The command must name a program.
pub fn pager_command(pager: &PagerSettings, start_line: Option<usize>) -> (r: Vec<String>)
    requires
        pager.cmd@.len() > 0,
    ensures
        r.deep_view() == command_line(
            pager.cmd.deep_view(),
            pager.start_line_arg.deep_view(),
            start_line,
        ),
        r@.len() > 0,
{
    let mut r: Vec<String> = Vec::new();
    let mut k: usize = 0;
    while k < pager.cmd.len()
        invariant
            k <= pager.cmd@.len(),
            r.deep_view() == pager.cmd.deep_view().take(k as int),
        decreases pager.cmd@.len() - k,
    {
        r.push(pager.cmd[k].clone());
        proof {
            assert(pager.cmd.deep_view().take(k + 1) =~= pager.cmd.deep_view().take(k as int).push(
                pager.cmd@[k as int]@,
            ));
        }
        k = k + 1;
    }
    proof {
        assert(pager.cmd.deep_view().take(k as int) =~= pager.cmd.deep_view());
    }
    match (start_line, &pager.start_line_arg) {
        (Some(start), Some(arg)) => {
            let mut digits = String::new();
            push_decimal(&mut digits, start);
            let pat = "{}";
            proof {
                reveal_strlit("{}");
            }
            let a = replace_all_str(arg.as_str(), pat, digits.as_str());
            r.push(a);
        },
        _ => {},
    }
    r
}

} // verus!
