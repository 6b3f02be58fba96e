//! Startup arguments: a file path, optionally suffixed `:<line>`, and an
//! optional separate `+<line>` argument.  The suffix form wins when both are
//! given; the default starting line is 1.
//!
//! A line number is read the way the standard library reads an unsigned
//! integer: an optional leading `'+'`, then one or more decimal digits, and
//! the value must fit the machine word — anything else is no line number and
//! leaves the text as part of the path (or falls back to the default).

use vstd::prelude::*;
use vstd::arithmetic::div_mod::lemma_fundamental_div_mod;

verus! {

pub open spec fn is_digit(c: char) -> bool {
    '0' as u32 <= c as u32 && c as u32 <= '9' as u32
}

pub open spec fn digit_val(c: char) -> int {
    c as u32 - '0' as u32
}

/// One or more characters, all decimal digits.
pub open spec fn is_digits(s: Seq<char>) -> bool {
    s.len() > 0 && forall|j: int| 0 <= j < s.len() ==> is_digit(#[trigger] s[j])
}

/// The number a run of decimal digits denotes.
pub open spec fn digits_val(s: Seq<char>) -> int
    decreases s.len(),
{
    if s.len() == 0 {
        0
    } else {
        digits_val(s.drop_last()) * 10 + digit_val(s.last())
    }
}

/// The digits of a number text, a single leading `'+'` stripped.
pub open spec fn num_body(s: Seq<char>) -> Seq<char> {
    if s.len() > 0 && s[0] == '+' {
        s.drop_first()
    } else {
        s
    }
}

/// Whether the standard library would read `s` as a `usize`.
pub open spec fn parses_as_usize(s: Seq<char>) -> bool {
    is_digits(num_body(s)) && digits_val(num_body(s)) <= usize::MAX
}

pub open spec fn parsed_usize(s: Seq<char>) -> int {
    digits_val(num_body(s))
}

/// Index of the last `':'` of `s`, or -1 when there is none.
pub open spec fn last_colon(s: Seq<char>) -> int
    decreases s.len(),
{
    if s.len() == 0 {
        -1
    } else if s.last() == ':' {
        s.len() - 1
    } else {
        last_colon(s.drop_last())
    }
}

/// The (path, starting line) pair the arguments resolve to.
pub open spec fn parsed_args(file: Seq<char>, line: Option<Seq<char>>) -> (Seq<char>, int) {
    let k = last_colon(file);
    if k >= 0 && parses_as_usize(file.subrange(k + 1, file.len() as int)) {
        (file.subrange(0, k), parsed_usize(file.subrange(k + 1, file.len() as int)))
    } else {
        let fallback = match line {
            Option::Some(s) => if s.len() > 0 && s[0] == '+' && parses_as_usize(s.drop_first()) {
                parsed_usize(s.drop_first())
            } else {
                1
            },
            Option::None => 1,
        };
        (file, fallback)
    }
}

/// A digit run denotes at least as much as any of its prefixes.
proof fn lemma_digits_val_grows(s: Seq<char>, k: int)
    requires
        0 <= k <= s.len(),
        forall|j: int| 0 <= j < s.len() ==> digit_val(#[trigger] s[j]) >= 0,
    ensures
        digits_val(s) >= digits_val(s.subrange(0, k)),
        digits_val(s) >= 0,
    decreases s.len(), s.len() - k,
{
    if k == s.len() {
        assert(s.subrange(0, k) =~= s);
        if s.len() > 0 {
            lemma_digits_val_grows(s.drop_last(), s.len() - 1);
            assert(s.drop_last() =~= s.subrange(0, s.len() - 1));
        }
    } else {
        lemma_digits_val_grows(s, k + 1);
        assert(s.subrange(0, k + 1).drop_last() =~= s.subrange(0, k));
        assert(digits_val(s.subrange(0, k + 1)) == digits_val(s.subrange(0, k)) * 10 + digit_val(
            s[k],
        ));
        assert(digits_val(s.subrange(0, k)) * 10 >= digits_val(s.subrange(0, k))) by {
            lemma_digits_val_grows(s.subrange(0, k), k);
        }
    }
}

/// Reads a decimal `usize` exactly as the standard library does: an optional
/// leading `'+'`, then digits, and the value must fit the machine word.
pub fn parse_usize(s: &str) -> (r: Option<usize>)
    ensures
        r is Some <==> parses_as_usize(s@),
        r is Some ==> r->0 as int == parsed_usize(s@),
{
    let n = s.unicode_len();
    let start: usize = if n > 0 && s.get_char(0) == '+' {
        1
    } else {
        0
    };
    if start >= n {
        proof {
            assert(num_body(s@).len() == 0);
        }
        return None;
    }
    let ghost body = num_body(s@);
    proof {
        assert(body =~= s@.subrange(start as int, n as int));
    }
    let mut i: usize = start;
    let mut val: usize = 0;
    let mut too_big = false;
    while i < n
        invariant
            start <= i <= n,
            n == s@.len(),
            body == num_body(s@),
            body == s@.subrange(start as int, n as int),
            forall|j: int| start <= j < i ==> is_digit(#[trigger] s@[j]),
            !too_big ==> val as int == digits_val(s@.subrange(start as int, i as int)),
            too_big ==> digits_val(s@.subrange(start as int, i as int)) > usize::MAX,
        decreases n - i,
    {
        let c = s.get_char(i);
        let u = c as u32;
        if u < '0' as u32 || u > '9' as u32 {
            proof {
                let jj = i - start;
                assert(0 <= jj < body.len());
                assert(body[jj] == s@[i as int]);
                assert(!is_digit(body[jj]));
                assert(!is_digits(body));
            }
            return None;
        }
        let d: usize = (u - '0' as u32) as usize;
        proof {
            let pre = s@.subrange(start as int, i as int);
            let ext = s@.subrange(start as int, i + 1 as int);
            assert(ext.drop_last() =~= pre);
            assert(digits_val(ext) == digits_val(pre) * 10 + digit_val(s@[i as int]));
            lemma_fundamental_div_mod(usize::MAX as int, 10);
            if too_big {
                assert forall|j: int| 0 <= j < pre.len() implies digit_val(#[trigger] pre[j])
                    >= 0 by {}
                lemma_digits_val_grows(pre, pre.len() as int);
                assert(digits_val(pre) * 10 >= digits_val(pre));
            }
        }
        if too_big || val > usize::MAX / 10 || (val == usize::MAX / 10 && d > usize::MAX % 10) {
            too_big = true;
        } else {
            val = val * 10 + d;
        }
        i = i + 1;
    }
    proof {
        assert(s@.subrange(start as int, n as int) =~= body);
    }
    if too_big {
        None
    } else {
        Some(val)
    }
}

/// Index of the last `':'` of `s`, if any.
fn find_last_colon(s: &str) -> (r: Option<usize>)
    ensures
        (match r {
            Option::Some(k) => last_colon(s@) == k as int && (k as int) < s@.len(),
            Option::None => last_colon(s@) == -1,
        }),
{
    let n = s.unicode_len();
    proof {
        assert(s@.subrange(0, n as int) =~= s@);
    }
    let mut i: usize = n;
    while i > 0
        invariant
            i <= n,
            n == s@.len(),
            last_colon(s@) == last_colon(s@.subrange(0, i as int)),
        decreases i,
    {
        proof {
            assert(s@.subrange(0, i as int).drop_last() =~= s@.subrange(0, i - 1));
            assert(s@.subrange(0, i as int).last() == s@[i - 1]);
        }
        if s.get_char(i - 1) == ':' {
            return Some(i - 1);
        }
        i = i - 1;
    }
    proof {
        assert(s@.subrange(0, 0) =~= Seq::<char>::empty());
    }
    None
}

/// Resolves the startup arguments to a path and a one-based starting line.
/// A `path:<line>` suffix wins over a separate `+<line>` argument; with
/// neither, the starting line is 1.
pub fn parse_args(file_arg: String, line_arg: Option<String>) -> (r: (String, usize))
    ensures
        ({
            let expect = parsed_args(
                file_arg@,
                match line_arg {
                    Option::Some(s) => Option::Some(s@),
                    Option::None => Option::None,
                },
            );
            r.0@ == expect.0 && r.1 as int == expect.1
        }),
{
    let n = file_arg.as_str().unicode_len();
    match find_last_colon(file_arg.as_str()) {
        Some(k) => {
            let suffix = file_arg.as_str().substring_char(k + 1, n);
            match parse_usize(suffix) {
                Some(num) => {
                    let path = file_arg.as_str().substring_char(0, k).to_owned();
                    return (path, num);
                },
                None => {},
            }
        },
        None => {},
    }
    let mut num: usize = 1;
    match &line_arg {
        Some(s) => {
            let m = s.as_str().unicode_len();
            if m > 0 && s.as_str().get_char(0) == '+' {
                let rest = s.as_str().substring_char(1, m);
                proof {
                    assert(rest@ =~= s@.drop_first());
                }
                match parse_usize(rest) {
                    Some(v) => {
                        num = v;
                    },
                    None => {},
                }
            }
        },
        None => {},
    }
    (file_arg, num)
}

} // verus!
