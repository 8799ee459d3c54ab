//! Command-line option handling: the maximum depth (`-d=<depth>`,
//! default 3, falling back to the default on anything that does not
//! parse as a number) and the pattern file path (`-x=<file>`).  The
//! first occurrence of an option wins.  Also the split of an elapsed
//! time into hours, minutes and seconds for the final report.
use vstd::prelude::*;
use crate::pattern::str_views;

verus! {

/// Whether `c` is an ASCII digit.
pub open spec fn is_digit(c: char) -> bool {
    '0' <= c && c <= '9'
}

/// The numeric value of an ASCII digit.
pub open spec fn digit_val(c: char) -> nat {
    ((c as u8) - 48) as nat
}

/// Whether every character is an ASCII digit.
pub open spec fn all_digits(s: Seq<char>) -> bool {
    forall|i: int| 0 <= i < s.len() ==> is_digit(#[trigger] s[i])
}

/// The number a digit string denotes.
pub open spec fn digits_val(s: Seq<char>) -> nat
    decreases s.len(),
{
    if s.len() == 0 {
        0
    } else {
        digits_val(s.drop_last()) * 10 + digit_val(s.last())
    }
}

/// What parsing a string as an unsigned 32-bit number yields: an
/// optional leading `+`, then at least one digit, the value in range —
/// or nothing.
pub open spec fn parse_u32_spec(s: Seq<char>) -> Option<u32> {
    let body = if s.len() >= 1 && s[0] == '+' {
        s.drop_first()
    } else {
        s
    };
    if body.len() == 0 || !all_digits(body) || digits_val(body) > u32::MAX {
        None
    } else {
        Some(digits_val(body) as u32)
    }
}

/// A longer digit prefix never denotes a smaller number.
proof fn lemma_digits_monotone(s: Seq<char>, j: int, k: int)
    requires
        0 <= j <= k <= s.len(),
    ensures
        digits_val(s.take(j)) <= digits_val(s.take(k)),
    decreases k - j,
{
    if j < k {
        lemma_digits_monotone(s, j, k - 1);
        let a = s.take(k - 1);
        let b = s.take(k);
        assert(b.drop_last() =~= a);
        assert(digits_val(b) == digits_val(a) * 10 + digit_val(b.last()));
    }
}

/// Parse a string as an unsigned 32-bit number, as the standard
/// library's `parse::<u32>` reads it: an optional sign, then digits.
pub fn parse_u32(s: &str) -> (r: Option<u32>)
    ensures
        r == parse_u32_spec(s@),
{
    let n: usize = s.unicode_len();
    let start: usize = if n >= 1 && s.get_char(0) == '+' {
        1
    } else {
        0
    };
    let ghost body = if s@.len() >= 1 && s@[0] == '+' {
        s@.drop_first()
    } else {
        s@
    };
    proof {
        assert(forall|t: int| 0 <= t < body.len() ==> body[t] == s@[t + start]);
    }
    if start == n {
        return None;
    }
    let mut acc: u32 = 0;
    let mut i: usize = start;
    while i < n
        invariant
            start <= i <= n,
            n == s@.len(),
            start == if s@.len() >= 1 && s@[0] == '+' { 1int } else { 0int },
            body == (if s@.len() >= 1 && s@[0] == '+' {
                s@.drop_first()
            } else {
                s@
            }),
            body.len() == n - start,
            forall|t: int| 0 <= t < body.len() ==> body[t] == s@[t + start],
            all_digits(body.take(i - start)),
            acc as nat == digits_val(body.take(i - start)),
        decreases n - i,
    {
        let c = s.get_char(i);
        proof {
            assert(body.take(i + 1 - start).drop_last() =~= body.take(i - start));
            assert(body.take(i + 1 - start).last() == body[i - start]);
            assert(body[i - start] == s@[i as int]);
        }
        if !(c >= '0' && c <= '9') {
            proof {
                assert(!is_digit(body[i - start]));
            }
            return None;
        }
        let d: u32 = (c as u32) - 48;
        proof {
            assert(d as nat == digit_val(body[i - start]));
        }
        if acc > (u32::MAX - d) / 10 {
            proof {
                assert(digits_val(body.take(i + 1 - start)) > u32::MAX) by {
                    assert(digits_val(body.take(i + 1 - start)) == acc as nat * 10 + d);
                    assert(acc as nat >= (u32::MAX - d) / 10 + 1);
                    assert(((u32::MAX - d) / 10 + 1) * 10 > (u32::MAX - d) as nat) by {
                        assert((u32::MAX - d) / 10 * 10 + 10 > (u32::MAX - d) as nat);
                    }
                    assert(acc as nat * 10 >= ((u32::MAX - d) / 10 + 1) * 10) by (nonlinear_arith)
                        requires
                            acc as nat >= (u32::MAX - d) / 10 + 1,
                    ;
                }
                lemma_digits_monotone(body, i + 1 - start, body.len() as int);
                assert(body.take(body.len() as int) =~= body);
                assert(digits_val(body) > u32::MAX);
            }
            return None;
        }
        acc = acc * 10 + d;
        i = i + 1;
    }
    proof {
        assert(body.take(body.len() as int) =~= body);
    }
    Some(acc)
}

/// Whether an argument carries the depth option.
pub open spec fn is_depth_arg(s: Seq<char>) -> bool {
    s.len() >= 3 && s[0] == '-' && s[1] == 'd' && s[2] == '='
}

/// Whether an argument carries the pattern-file option.
pub open spec fn is_pattern_arg(s: Seq<char>) -> bool {
    s.len() >= 3 && s[0] == '-' && s[1] == 'x' && s[2] == '='
}

/// The first argument satisfying a depth-option shape.
pub open spec fn first_depth_arg(args: Seq<Seq<char>>) -> Option<Seq<char>>
    decreases args.len(),
{
    if args.len() == 0 {
        None
    } else if is_depth_arg(args[0]) {
        Some(args[0])
    } else {
        first_depth_arg(args.drop_first())
    }
}

/// The first argument satisfying a pattern-file-option shape.
pub open spec fn first_pattern_arg(args: Seq<Seq<char>>) -> Option<Seq<char>>
    decreases args.len(),
{
    if args.len() == 0 {
        None
    } else if is_pattern_arg(args[0]) {
        Some(args[0])
    } else {
        first_pattern_arg(args.drop_first())
    }
}

/// The depth the arguments configure: what follows `-d=` in the first
/// argument of that shape, when it parses as a number; 3 otherwise.
pub open spec fn depth_from_args(args: Seq<Seq<char>>) -> u32 {
    match first_depth_arg(args) {
        None => 3,
        Some(a) => match parse_u32_spec(a.skip(3)) {
            Some(v) => v,
            None => 3,
        },
    }
}

/// The pattern file the arguments configure: what follows `-x=` in the
/// first argument of that shape.
pub open spec fn pattern_file_from_args(args: Seq<Seq<char>>) -> Option<Seq<char>> {
    match first_pattern_arg(args) {
        None => None,
        Some(a) => Some(a.skip(3)),
    }
}

/// Arguments without the sought shape can be skipped.
proof fn lemma_first_depth_skip(args: Seq<Seq<char>>, i: int)
    requires
        0 <= i <= args.len(),
        forall|j: int| 0 <= j < i ==> !is_depth_arg(args[j]),
    ensures
        first_depth_arg(args) == first_depth_arg(args.skip(i)),
    decreases i,
{
    if i > 0 {
        lemma_first_depth_skip(args, i - 1);
        let rest = args.skip(i - 1);
        assert(rest[0] == args[i - 1]);
        assert(rest.drop_first() =~= args.skip(i));
    } else {
        assert(args.skip(0) =~= args);
    }
}

/// Arguments without the sought shape can be skipped.
proof fn lemma_first_pattern_skip(args: Seq<Seq<char>>, i: int)
    requires
        0 <= i <= args.len(),
        forall|j: int| 0 <= j < i ==> !is_pattern_arg(args[j]),
    ensures
        first_pattern_arg(args) == first_pattern_arg(args.skip(i)),
    decreases i,
{
    if i > 0 {
        lemma_first_pattern_skip(args, i - 1);
        let rest = args.skip(i - 1);
        assert(rest[0] == args[i - 1]);
        assert(rest.drop_first() =~= args.skip(i));
    } else {
        assert(args.skip(0) =~= args);
    }
}

/// Whether an argument begins with `-`, the given letter, `=`.
fn has_opt_shape(s: &str, letter: char) -> (r: bool)
    ensures
        r == (s@.len() >= 3 && s@[0] == '-' && s@[1] == letter && s@[2] == '='),
{
    if s.unicode_len() < 3 {
        return false;
    }
    s.get_char(0) == '-' && s.get_char(1) == letter && s.get_char(2) == '='
}

/// What follows the option prefix.
fn opt_value(s: &str) -> (r: String)
    requires
        s@.len() >= 3,
    ensures
        r@ == s@.skip(3),
{
    let n: usize = s.unicode_len();
    let v = s.substring_char(3, n);
    proof {
        assert(v@ =~= s@.skip(3));
    }
    v.to_owned()
}

/// The configured maximum depth: what follows `-d=` in the first such
/// argument, or 3 when there is none or it is not a number.
pub fn get_depth_from_args(args: Vec<String>) -> (r: u32)
    ensures
        r == depth_from_args(str_views(args@)),
{
    let ghost views = str_views(args@);
    let n: usize = args.len();
    let mut i: usize = 0;
    while i < n
        invariant
            i <= n,
            n == args@.len(),
            views == str_views(args@),
            forall|j: int| 0 <= j < i ==> !is_depth_arg(views[j]),
        decreases n - i,
    {
        let a = &args[i];
        proof {
            assert(views[i as int] == args@[i as int]@);
        }
        if has_opt_shape(a.as_str(), 'd') {
            proof {
                lemma_first_depth_skip(views, i as int);
                assert(views.skip(i as int)[0] == views[i as int]);
            }
            let v = opt_value(a.as_str());
            return match parse_u32(v.as_str()) {
                Some(d) => d,
                None => 3,
            };
        }
        i = i + 1;
    }
    proof {
        lemma_first_depth_skip(views, n as int);
        assert(views.skip(n as int) =~= Seq::<Seq<char>>::empty());
    }
    3
}

/// The configured pattern file: what follows `-x=` in the first such
/// argument, if any.
pub fn get_pattern_file_from_args(args: Vec<String>) -> (r: Option<String>)
    ensures
        match r {
            Some(f) => pattern_file_from_args(str_views(args@)) == Some(f@),
            None => pattern_file_from_args(str_views(args@)) is None,
        },
{
    let ghost views = str_views(args@);
    let n: usize = args.len();
    let mut i: usize = 0;
    while i < n
        invariant
            i <= n,
            n == args@.len(),
            views == str_views(args@),
            forall|j: int| 0 <= j < i ==> !is_pattern_arg(views[j]),
        decreases n - i,
    {
        let a = &args[i];
        proof {
            assert(views[i as int] == args@[i as int]@);
        }
        if has_opt_shape(a.as_str(), 'x') {
            proof {
                lemma_first_pattern_skip(views, i as int);
                assert(views.skip(i as int)[0] == views[i as int]);
            }
            return Some(opt_value(a.as_str()));
        }
        i = i + 1;
    }
    proof {
        lemma_first_pattern_skip(views, n as int);
        assert(views.skip(n as int) =~= Seq::<Seq<char>>::empty());
    }
    None
}

/// Split an elapsed time in seconds into hours, minutes and seconds
/// for the final report.
pub fn split_elapsed(total: u64) -> (r: (u64, u64, u64))
    ensures
        r.0 == total / 3600,
        r.1 == (total % 3600) / 60,
        r.2 == total % 60,
        r.1 < 60,
        r.2 < 60,
{
    let hours = total / 3600;
    let minutes = (total % 3600) / 60;
    let seconds = total % 60;
    (hours, minutes, seconds)
}

} // verus!
