//! A mathematical model of line-structured text.
//!
//! Text is a flat `Seq<char>` in which `'\n'` terminates a line.  Every line
//! except possibly the last ends with exactly one terminator; the number of
//! logical lines is the number of terminators plus one, so the empty text has
//! one empty line.  `line_count`, `line_start` and `line_len` describe that
//! decomposition, and the lemmas below say how it behaves and how single
//! character insertions and removals move it.

use vstd::prelude::*;

verus! {

/// Position of the first line terminator of `s`, or `s.len()` when `s` holds
/// no terminator.
pub open spec fn first_nl(s: Seq<char>) -> nat
    decreases s.len(),
{
    if s.len() == 0 {
        0
    } else if s[0] == '\n' {
        0
    } else {
        1 + first_nl(s.drop_first())
    }
}

/// The text after the first line terminator of `s`; meaningful only when
/// `first_nl(s) < s.len()`.
pub open spec fn rest_after_nl(s: Seq<char>) -> Seq<char> {
    s.subrange(first_nl(s) as int + 1, s.len() as int)
}

/// Number of logical lines of `s`: one more than its number of terminators.
pub open spec fn line_count(s: Seq<char>) -> nat
    decreases s.len(),
{
    if first_nl(s) >= s.len() {
        1
    } else {
        1 + line_count(rest_after_nl(s))
    }
}

/// Offset of the first character of line `i`; meaningful only when
/// `i < line_count(s)`.
pub open spec fn line_start(s: Seq<char>, i: nat) -> nat
    decreases i,
{
    if i == 0 {
        0
    } else {
        first_nl(s) + 1 + line_start(rest_after_nl(s), (i - 1) as nat)
    }
}

/// Number of characters of line `i`, its terminator excluded; meaningful only
/// when `i < line_count(s)`.
pub open spec fn line_len(s: Seq<char>, i: nat) -> nat
    decreases i,
{
    if i == 0 {
        first_nl(s)
    } else {
        line_len(rest_after_nl(s), (i - 1) as nat)
    }
}

/// The full slice of line `i`, its terminator included when it has one.
pub open spec fn line_text(s: Seq<char>, i: nat) -> Seq<char> {
    if i + 1 < line_count(s) {
        s.subrange(line_start(s, i) as int, line_start(s, i) as int + line_len(s, i) + 1)
    } else {
        s.subrange(line_start(s, i) as int, line_start(s, i) as int + line_len(s, i))
    }
}

/// A requested line index, clamped against the shape of `s`.
pub open spec fn clamp_line(s: Seq<char>, l: nat) -> nat {
    if l < line_count(s) {
        l
    } else {
        (line_count(s) - 1) as nat
    }
}

/// A requested (line, column) position, clamped against the shape of `s`:
/// first the line against the line count, then the column against that
/// line's length.
pub open spec fn clamp_pos(s: Seq<char>, l: nat, c: nat) -> (nat, nat) {
    let cl = clamp_line(s, l);
    if c <= line_len(s, cl) {
        (cl, c)
    } else {
        (cl, line_len(s, cl))
    }
}

/// `first_nl` is at most the length of the text, everything before it is an
/// ordinary character, and when it is a proper position it holds the
/// terminator.
pub proof fn lemma_first_nl_bounds(s: Seq<char>)
    ensures
        first_nl(s) <= s.len(),
        forall|j: int| 0 <= j < first_nl(s) ==> s[j] != '\n',
        first_nl(s) < s.len() ==> s[first_nl(s) as int] == '\n',
    decreases s.len(),
{
    if s.len() == 0 {
    } else if s[0] == '\n' {
    } else {
        lemma_first_nl_bounds(s.drop_first());
        assert forall|j: int| 0 <= j < first_nl(s) implies s[j] != '\n' by {
            if j > 0 {
                assert(s.drop_first()[j - 1] == s[j]);
            }
        }
        if first_nl(s) < s.len() {
            assert(s.drop_first()[first_nl(s) as int - 1] == s[first_nl(s) as int]);
        }
    }
}

/// A position before which every character is ordinary and which holds a
/// terminator (or is the end of the text) is exactly `first_nl`.
pub proof fn lemma_first_nl_at(s: Seq<char>, k: int)
    requires
        0 <= k <= s.len(),
        forall|j: int| 0 <= j < k ==> s[j] != '\n',
        k < s.len() ==> s[k] == '\n',
    ensures
        first_nl(s) == k,
    decreases s.len(),
{
    if s.len() == 0 {
    } else if s[0] == '\n' {
        if k != 0 {
            assert(s[0] != '\n');
        }
    } else {
        if k == 0 {
            assert(s[0] == '\n');
        }
        assert forall|j: int| 0 <= j < k - 1 implies s.drop_first()[j] != '\n' by {
            assert(s.drop_first()[j] == s[j + 1]);
        }
        if k - 1 < s.drop_first().len() {
            assert(s.drop_first()[k - 1] == s[k]);
        }
        lemma_first_nl_at(s.drop_first(), k - 1);
    }
}

/// There is always at least one line.
pub proof fn lemma_line_count_pos(s: Seq<char>)
    ensures
        line_count(s) >= 1,
{
}

/// How line `i` sits inside the text: it fits, it holds no terminator, a
/// terminator follows it exactly when it is not the last line, and the next
/// line starts right after that terminator.
pub proof fn lemma_line_shape(s: Seq<char>, i: nat)
    requires
        i < line_count(s),
    ensures
        line_start(s, i) + line_len(s, i) <= s.len(),
        forall|j: int|
            line_start(s, i) <= j < line_start(s, i) + line_len(s, i) ==> s[j] != '\n',
        i + 1 < line_count(s) ==> line_start(s, i) + line_len(s, i) < s.len(),
        i + 1 < line_count(s) ==> s[line_start(s, i) as int + line_len(s, i)] == '\n',
        i + 1 < line_count(s) ==> line_start(s, (i + 1) as nat) == line_start(s, i)
            + line_len(s, i) + 1,
        i + 1 == line_count(s) ==> line_start(s, i) + line_len(s, i) == s.len(),
    decreases i,
{
    lemma_first_nl_bounds(s);
    if i == 0 {
        if line_count(s) > 1 {
            assert(first_nl(s) < s.len());
            assert(line_start(s, 1) == first_nl(s) + 1 + line_start(rest_after_nl(s), 0));
        } else {
            if first_nl(s) < s.len() {
                lemma_line_count_pos(rest_after_nl(s));
                assert(line_count(s) > 1);
            }
        }
    } else {
        assert(first_nl(s) < s.len());
        let t = rest_after_nl(s);
        let d = first_nl(s) as int + 1;
        assert(line_count(s) == 1 + line_count(t));
        lemma_line_shape(t, (i - 1) as nat);
        assert(line_start(s, i) == d + line_start(t, (i - 1) as nat));
        assert(line_len(s, i) == line_len(t, (i - 1) as nat));
        assert forall|j: int|
            line_start(s, i) <= j < line_start(s, i) + line_len(s, i) implies s[j] != '\n' by {
            assert(t[j - d] == s[j]);
        }
        if i + 1 < line_count(s) {
            assert(t[line_start(t, (i - 1) as nat) as int + line_len(t, (i - 1) as nat)]
                == s[line_start(s, i) as int + line_len(s, i)]);
            assert(line_start(s, (i + 1) as nat) == d + line_start(t, i));
            assert(line_start(t, i) == line_start(t, (i - 1) as nat) + line_len(
                t,
                (i - 1) as nat,
            ) + 1);
        }
    }
}


/// Inserting an ordinary character at column `c` of line `l` lengthens that
/// line by one and leaves every other line as it was; lines after `l` start
/// one position later.
pub proof fn lemma_insert_text(s: Seq<char>, l: nat, c: nat, ch: char)
    requires
        l < line_count(s),
        c <= line_len(s, l),
        ch != '\n',
    ensures
        ({
            let t = s.insert(line_start(s, l) as int + c, ch);
            &&& line_count(t) == line_count(s)
            &&& forall|i: nat| i <= l ==> #[trigger] line_start(t, i) == line_start(s, i)
            &&& forall|i: nat|
                l < i < line_count(s) ==> #[trigger] line_start(t, i) == line_start(s, i) + 1
            &&& line_len(t, l) == line_len(s, l) + 1
            &&& forall|i: nat|
                i < line_count(s) && i != l ==> #[trigger] line_len(t, i) == line_len(s, i)
        }),
    decreases l,
{
    let p = line_start(s, l) as int + c;
    let t = s.insert(p, ch);
    lemma_first_nl_bounds(s);
    lemma_line_shape(s, l);
    s.insert_ensures(p, ch);
    if l == 0 {
        assert(p <= first_nl(s));
        assert forall|j: int| 0 <= j < first_nl(s) + 1 implies t[j] != '\n' by {
            if j < p {
                assert(t[j] == s[j]);
            } else if j > p {
                assert(t[j] == s[j - 1]);
            }
        }
        if first_nl(s) < s.len() {
            assert(t[first_nl(s) as int + 1] == s[first_nl(s) as int]);
        }
        lemma_first_nl_at(t, first_nl(s) as int + 1);
        if first_nl(s) >= s.len() {
            assert(first_nl(t) >= t.len());
            assert(line_count(t) == 1);
        } else {
            let rs = rest_after_nl(s);
            assert(rest_after_nl(t) =~= rs) by {
                assert forall|j: int| 0 <= j < s.len() - first_nl(s) - 1 implies rest_after_nl(
                    t,
                )[j] == rs[j] by {
                    assert(rest_after_nl(t)[j] == t[first_nl(s) as int + 2 + j]);
                    assert(t[first_nl(s) as int + 2 + j] == s[first_nl(s) as int + 1 + j]);
                }
            }
            assert(line_count(t) == 1 + line_count(rest_after_nl(t)));
            assert forall|i: nat| 0 < i < line_count(s) implies #[trigger] line_start(t, i)
                == line_start(s, i) + 1 by {
                assert(line_start(t, i) == first_nl(t) + 1 + line_start(
                    rest_after_nl(t),
                    (i - 1) as nat,
                ));
                assert(line_start(s, i) == first_nl(s) + 1 + line_start(rs, (i - 1) as nat));
            }
            assert forall|i: nat| i < line_count(s) && i != 0 implies #[trigger] line_len(t, i)
                == line_len(s, i) by {
                assert(line_len(t, i) == line_len(rest_after_nl(t), (i - 1) as nat));
                assert(line_len(s, i) == line_len(rs, (i - 1) as nat));
            }
        }
    } else {
        assert(first_nl(s) < s.len());
        let fs = first_nl(s) as int;
        let rs = rest_after_nl(s);
        assert(line_start(s, l) == fs + 1 + line_start(rs, (l - 1) as nat));
        assert(line_len(s, l) == line_len(rs, (l - 1) as nat));
        assert(line_count(s) == 1 + line_count(rs));
        assert forall|j: int| 0 <= j < fs implies t[j] != '\n' by {
            assert(t[j] == s[j]);
        }
        assert(t[fs] == s[fs]);
        lemma_first_nl_at(t, fs);
        let q = p - fs - 1;
        rs.insert_ensures(q, ch);
        assert(rest_after_nl(t) =~= rs.insert(q, ch)) by {
            assert forall|j: int| 0 <= j < s.len() - fs implies rest_after_nl(t)[j] == rs.insert(
                q,
                ch,
            )[j] by {
                assert(rest_after_nl(t)[j] == t[fs + 1 + j]);
                if j < q {
                    assert(t[fs + 1 + j] == s[fs + 1 + j]);
                    assert(rs.insert(q, ch)[j] == rs[j]);
                    assert(rs[j] == s[fs + 1 + j]);
                } else if j == q {
                    assert(t[fs + 1 + j] == t[p]);
                    assert(rs.insert(q, ch)[j] == ch);
                } else {
                    assert(t[fs + 1 + j] == s[fs + j]);
                    assert(rs.insert(q, ch)[j] == rs[j - 1]);
                    assert(rs[j - 1] == s[fs + j]);
                }
            }
        }
        lemma_insert_text(rs, (l - 1) as nat, c, ch);
        assert(line_count(t) == 1 + line_count(rest_after_nl(t)));
        assert forall|i: nat| i <= l implies #[trigger] line_start(t, i) == line_start(s, i) by {
            if i > 0 {
                assert(line_start(t, i) == first_nl(t) + 1 + line_start(
                    rest_after_nl(t),
                    (i - 1) as nat,
                ));
                assert(line_start(s, i) == fs + 1 + line_start(rs, (i - 1) as nat));
                assert(line_start(rest_after_nl(t), (i - 1) as nat) == line_start(
                    rs,
                    (i - 1) as nat,
                ));
            }
        }
        assert forall|i: nat| l < i < line_count(s) implies #[trigger] line_start(t, i)
            == line_start(s, i) + 1 by {
            assert(line_start(t, i) == first_nl(t) + 1 + line_start(
                rest_after_nl(t),
                (i - 1) as nat,
            ));
            assert(line_start(s, i) == fs + 1 + line_start(rs, (i - 1) as nat));
            assert(line_start(rest_after_nl(t), (i - 1) as nat) == line_start(rs, (i - 1) as nat)
                + 1);
        }
        assert(line_len(t, l) == line_len(rest_after_nl(t), (l - 1) as nat));
        assert forall|i: nat| i < line_count(s) && i != l implies #[trigger] line_len(t, i)
            == line_len(s, i) by {
            if i > 0 {
                assert(line_len(t, i) == line_len(rest_after_nl(t), (i - 1) as nat));
                assert(line_len(s, i) == line_len(rs, (i - 1) as nat));
                assert(line_len(rest_after_nl(t), (i - 1) as nat) == line_len(rs, (i - 1) as nat));
            }
        }
    }
}

/// Inserting a terminator at column `c` of line `l` splits that line in two:
/// the first keeps `c` characters, the second the rest.  Later lines keep
/// their length and start one position later, one index further down.
pub proof fn lemma_insert_newline(s: Seq<char>, l: nat, c: nat)
    requires
        l < line_count(s),
        c <= line_len(s, l),
    ensures
        ({
            let t = s.insert(line_start(s, l) as int + c, '\n');
            &&& line_count(t) == line_count(s) + 1
            &&& forall|i: nat| i <= l ==> #[trigger] line_start(t, i) == line_start(s, i)
            &&& forall|i: nat| i < l ==> #[trigger] line_len(t, i) == line_len(s, i)
            &&& line_len(t, l) == c
            &&& line_start(t, (l + 1) as nat) == line_start(s, l) + c + 1
            &&& line_len(t, (l + 1) as nat) == line_len(s, l) - c
            &&& forall|i: nat|
                l < i < line_count(s) ==> #[trigger] line_start(t, (i + 1) as nat) == line_start(
                    s,
                    i,
                ) + 1
            &&& forall|i: nat|
                l < i < line_count(s) ==> #[trigger] line_len(t, (i + 1) as nat) == line_len(s, i)
        }),
    decreases l,
{
    let p = line_start(s, l) as int + c;
    let t = s.insert(p, '\n');
    lemma_first_nl_bounds(s);
    lemma_line_shape(s, l);
    s.insert_ensures(p, '\n');
    if l == 0 {
        assert(p == c <= first_nl(s));
        assert forall|j: int| 0 <= j < p implies t[j] != '\n' by {
            assert(t[j] == s[j]);
        }
        lemma_first_nl_at(t, p);
        let rest = s.subrange(c as int, s.len() as int);
        assert(rest_after_nl(t) =~= rest) by {
            assert forall|j: int| 0 <= j < s.len() - c implies rest_after_nl(t)[j] == rest[j] by {
                assert(rest_after_nl(t)[j] == t[c + 1 + j]);
                assert(t[c + 1 + j] == s[c + j]);
            }
        }
        assert forall|j: int| 0 <= j < first_nl(s) - c implies rest[j] != '\n' by {
            assert(rest[j] == s[c + j]);
        }
        if first_nl(s) < s.len() {
            assert(rest[first_nl(s) - c] == s[first_nl(s) as int]);
        }
        lemma_first_nl_at(rest, first_nl(s) - c);
        assert(line_count(t) == 1 + line_count(rest));
        assert(line_len(t, 0) == c);
        assert(line_start(t, 1) == first_nl(t) + 1 + line_start(rest_after_nl(t), 0));
        assert(line_start(rest_after_nl(t), 0) == 0);
        assert(line_len(t, 1) == line_len(rest, 0));
        if first_nl(s) >= s.len() {
            assert(first_nl(rest) >= rest.len());
            assert(line_count(rest) == 1);
            assert(line_count(s) == 1);
        } else {
            let rs = rest_after_nl(s);
            assert(rest_after_nl(rest) =~= rs) by {
                assert forall|j: int| 0 <= j < s.len() - first_nl(s) - 1 implies rest_after_nl(
                    rest,
                )[j] == rs[j] by {
                    assert(rest_after_nl(rest)[j] == rest[first_nl(s) - c + 1 + j]);
                    assert(rest[first_nl(s) - c + 1 + j] == s[first_nl(s) as int + 1 + j]);
                }
            }
            assert(line_count(rest) == 1 + line_count(rs));
            assert(line_count(s) == 1 + line_count(rs));
            assert forall|i: nat| 0 < i < line_count(s) implies #[trigger] line_start(
                t,
                (i + 1) as nat,
            ) == line_start(s, i) + 1 by {
                assert(line_start(t, (i + 1) as nat) == first_nl(t) + 1 + line_start(
                    rest_after_nl(t),
                    i,
                ));
                assert(line_start(rest, i) == first_nl(rest) + 1 + line_start(
                    rest_after_nl(rest),
                    (i - 1) as nat,
                ));
                assert(line_start(s, i) == first_nl(s) + 1 + line_start(rs, (i - 1) as nat));
            }
            assert forall|i: nat| 0 < i < line_count(s) implies #[trigger] line_len(
                t,
                (i + 1) as nat,
            ) == line_len(s, i) by {
                assert(line_len(t, (i + 1) as nat) == line_len(rest_after_nl(t), i));
                assert(line_len(rest, i) == line_len(rest_after_nl(rest), (i - 1) as nat));
                assert(line_len(s, i) == line_len(rs, (i - 1) as nat));
            }
        }
    } else {
        assert(first_nl(s) < s.len());
        let fs = first_nl(s) as int;
        let rs = rest_after_nl(s);
        assert(line_start(s, l) == fs + 1 + line_start(rs, (l - 1) as nat));
        assert(line_len(s, l) == line_len(rs, (l - 1) as nat));
        assert(line_count(s) == 1 + line_count(rs));
        assert forall|j: int| 0 <= j < fs implies t[j] != '\n' by {
            assert(t[j] == s[j]);
        }
        assert(t[fs] == s[fs]);
        lemma_first_nl_at(t, fs);
        let q = p - fs - 1;
        rs.insert_ensures(q, '\n');
        assert(rest_after_nl(t) =~= rs.insert(q, '\n')) by {
            assert forall|j: int| 0 <= j < s.len() - fs implies rest_after_nl(t)[j] == rs.insert(
                q,
                '\n',
            )[j] by {
                assert(rest_after_nl(t)[j] == t[fs + 1 + j]);
                if j < q {
                    assert(t[fs + 1 + j] == s[fs + 1 + j]);
                    assert(rs.insert(q, '\n')[j] == rs[j]);
                    assert(rs[j] == s[fs + 1 + j]);
                } else if j == q {
                    assert(t[fs + 1 + j] == t[p]);
                    assert(rs.insert(q, '\n')[j] == '\n');
                } else {
                    assert(t[fs + 1 + j] == s[fs + j]);
                    assert(rs.insert(q, '\n')[j] == rs[j - 1]);
                    assert(rs[j - 1] == s[fs + j]);
                }
            }
        }
        lemma_insert_newline(rs, (l - 1) as nat, c);
        assert(line_count(t) == 1 + line_count(rest_after_nl(t)));
        assert forall|i: nat| i <= l implies #[trigger] line_start(t, i) == line_start(s, i) by {
            if i > 0 {
                assert(line_start(t, i) == first_nl(t) + 1 + line_start(
                    rest_after_nl(t),
                    (i - 1) as nat,
                ));
                assert(line_start(s, i) == fs + 1 + line_start(rs, (i - 1) as nat));
                assert(line_start(rest_after_nl(t), (i - 1) as nat) == line_start(
                    rs,
                    (i - 1) as nat,
                ));
            }
        }
        assert forall|i: nat| i < l implies #[trigger] line_len(t, i) == line_len(s, i) by {
            if i > 0 {
                assert(line_len(t, i) == line_len(rest_after_nl(t), (i - 1) as nat));
                assert(line_len(s, i) == line_len(rs, (i - 1) as nat));
                assert(line_len(rest_after_nl(t), (i - 1) as nat) == line_len(rs, (i - 1) as nat));
            }
        }
        assert(line_len(t, l) == line_len(rest_after_nl(t), (l - 1) as nat));
        assert(line_start(t, (l + 1) as nat) == first_nl(t) + 1 + line_start(
            rest_after_nl(t),
            l,
        ));
        assert(line_len(t, (l + 1) as nat) == line_len(rest_after_nl(t), l));
        assert forall|i: nat| l < i < line_count(s) implies #[trigger] line_start(
            t,
            (i + 1) as nat,
        ) == line_start(s, i) + 1 by {
            assert(line_start(t, (i + 1) as nat) == first_nl(t) + 1 + line_start(
                rest_after_nl(t),
                i,
            ));
            assert(line_start(s, i) == fs + 1 + line_start(rs, (i - 1) as nat));
            assert(line_start(rest_after_nl(t), ((i - 1) + 1) as nat) == line_start(
                rs,
                (i - 1) as nat,
            ) + 1);
        }
        assert forall|i: nat| l < i < line_count(s) implies #[trigger] line_len(
            t,
            (i + 1) as nat,
        ) == line_len(s, i) by {
            assert(line_len(t, (i + 1) as nat) == line_len(rest_after_nl(t), i));
            assert(line_len(s, i) == line_len(rs, (i - 1) as nat));
            assert(line_len(rest_after_nl(t), ((i - 1) + 1) as nat) == line_len(
                rs,
                (i - 1) as nat,
            ));
        }
    }
}


/// Removing an ordinary character at column `c` of line `l` shortens that
/// line by one and leaves every other line as it was; lines after `l` start
/// one position earlier.
pub proof fn lemma_remove_in_line(s: Seq<char>, l: nat, c: nat)
    requires
        l < line_count(s),
        c < line_len(s, l),
    ensures
        ({
            let t = s.remove(line_start(s, l) as int + c);
            &&& line_count(t) == line_count(s)
            &&& forall|i: nat| i <= l ==> #[trigger] line_start(t, i) == line_start(s, i)
            &&& forall|i: nat|
                l < i < line_count(s) ==> #[trigger] line_start(t, i) == line_start(s, i) - 1
            &&& line_len(t, l) == line_len(s, l) - 1
            &&& forall|i: nat|
                i < line_count(s) && i != l ==> #[trigger] line_len(t, i) == line_len(s, i)
        }),
    decreases l,
{
    let p = line_start(s, l) as int + c;
    let t = s.remove(p);
    lemma_first_nl_bounds(s);
    lemma_line_shape(s, l);
    s.remove_ensures(p);
    if l == 0 {
        assert(p == c < first_nl(s));
        assert forall|j: int| 0 <= j < first_nl(s) - 1 implies t[j] != '\n' by {
            if j < p {
                assert(t[j] == s[j]);
            } else {
                assert(t[j] == s[j + 1]);
            }
        }
        if first_nl(s) < s.len() {
            assert(t[first_nl(s) - 1] == s[first_nl(s) as int]);
        }
        lemma_first_nl_at(t, first_nl(s) - 1);
        if first_nl(s) >= s.len() {
            assert(first_nl(t) >= t.len());
            assert(line_count(t) == 1);
        } else {
            let rs = rest_after_nl(s);
            assert(rest_after_nl(t) =~= rs) by {
                assert forall|j: int| 0 <= j < s.len() - first_nl(s) - 1 implies rest_after_nl(
                    t,
                )[j] == rs[j] by {
                    assert(rest_after_nl(t)[j] == t[first_nl(s) as int + j]);
                    assert(t[first_nl(s) as int + j] == s[first_nl(s) as int + 1 + j]);
                }
            }
            assert(line_count(t) == 1 + line_count(rest_after_nl(t)));
            assert forall|i: nat| 0 < i < line_count(s) implies #[trigger] line_start(t, i)
                == line_start(s, i) - 1 by {
                assert(line_start(t, i) == first_nl(t) + 1 + line_start(
                    rest_after_nl(t),
                    (i - 1) as nat,
                ));
                assert(line_start(s, i) == first_nl(s) + 1 + line_start(rs, (i - 1) as nat));
            }
            assert forall|i: nat| i < line_count(s) && i != 0 implies #[trigger] line_len(t, i)
                == line_len(s, i) by {
                assert(line_len(t, i) == line_len(rest_after_nl(t), (i - 1) as nat));
                assert(line_len(s, i) == line_len(rs, (i - 1) as nat));
            }
        }
    } else {
        assert(first_nl(s) < s.len());
        let fs = first_nl(s) as int;
        let rs = rest_after_nl(s);
        assert(line_start(s, l) == fs + 1 + line_start(rs, (l - 1) as nat));
        assert(line_len(s, l) == line_len(rs, (l - 1) as nat));
        assert(line_count(s) == 1 + line_count(rs));
        assert forall|j: int| 0 <= j < fs implies t[j] != '\n' by {
            assert(t[j] == s[j]);
        }
        assert(t[fs] == s[fs]);
        lemma_first_nl_at(t, fs);
        let q = p - fs - 1;
        rs.remove_ensures(q);
        assert(rest_after_nl(t) =~= rs.remove(q)) by {
            assert forall|j: int| 0 <= j < s.len() - fs - 2 implies rest_after_nl(t)[j]
                == rs.remove(q)[j] by {
                assert(rest_after_nl(t)[j] == t[fs + 1 + j]);
                if j < q {
                    assert(t[fs + 1 + j] == s[fs + 1 + j]);
                    assert(rs.remove(q)[j] == rs[j]);
                    assert(rs[j] == s[fs + 1 + j]);
                } else {
                    assert(t[fs + 1 + j] == s[fs + 2 + j]);
                    assert(rs.remove(q)[j] == rs[j + 1]);
                    assert(rs[j + 1] == s[fs + 2 + j]);
                }
            }
        }
        lemma_remove_in_line(rs, (l - 1) as nat, c);
        assert(line_count(t) == 1 + line_count(rest_after_nl(t)));
        assert forall|i: nat| i <= l implies #[trigger] line_start(t, i) == line_start(s, i) by {
            if i > 0 {
                assert(line_start(t, i) == first_nl(t) + 1 + line_start(
                    rest_after_nl(t),
                    (i - 1) as nat,
                ));
                assert(line_start(s, i) == fs + 1 + line_start(rs, (i - 1) as nat));
                assert(line_start(rest_after_nl(t), (i - 1) as nat) == line_start(
                    rs,
                    (i - 1) as nat,
                ));
            }
        }
        assert forall|i: nat| l < i < line_count(s) implies #[trigger] line_start(t, i)
            == line_start(s, i) - 1 by {
            assert(line_start(t, i) == first_nl(t) + 1 + line_start(
                rest_after_nl(t),
                (i - 1) as nat,
            ));
            assert(line_start(s, i) == fs + 1 + line_start(rs, (i - 1) as nat));
            assert(line_start(rest_after_nl(t), (i - 1) as nat) == line_start(rs, (i - 1) as nat)
                - 1);
        }
        assert(line_len(t, l) == line_len(rest_after_nl(t), (l - 1) as nat));
        assert forall|i: nat| i < line_count(s) && i != l implies #[trigger] line_len(t, i)
            == line_len(s, i) by {
            if i > 0 {
                assert(line_len(t, i) == line_len(rest_after_nl(t), (i - 1) as nat));
                assert(line_len(s, i) == line_len(rs, (i - 1) as nat));
                assert(line_len(rest_after_nl(t), (i - 1) as nat) == line_len(rs, (i - 1) as nat));
            }
        }
    }
}

/// Removing the terminator that ends line `l` joins lines `l` and `l + 1`
/// into one line holding both their characters.  Earlier lines are untouched;
/// later lines keep their length, start one position earlier, and move one
/// index up.
pub proof fn lemma_remove_terminator(s: Seq<char>, l: nat)
    requires
        l + 1 < line_count(s),
    ensures
        ({
            let t = s.remove(line_start(s, l) as int + line_len(s, l));
            &&& line_count(t) == line_count(s) - 1
            &&& forall|i: nat| i <= l ==> #[trigger] line_start(t, i) == line_start(s, i)
            &&& forall|i: nat| i < l ==> #[trigger] line_len(t, i) == line_len(s, i)
            &&& line_len(t, l) == line_len(s, l) + line_len(s, (l + 1) as nat)
            &&& forall|i: nat|
                l < i < line_count(s) - 1 ==> #[trigger] line_start(t, i) == line_start(
                    s,
                    (i + 1) as nat,
                ) - 1
            &&& forall|i: nat|
                l < i < line_count(s) - 1 ==> #[trigger] line_len(t, i) == line_len(
                    s,
                    (i + 1) as nat,
                )
        }),
    decreases l,
{
    let p = line_start(s, l) as int + line_len(s, l);
    let t = s.remove(p);
    lemma_first_nl_bounds(s);
    lemma_line_shape(s, l);
    s.remove_ensures(p);
    let rs = rest_after_nl(s);
    if l == 0 {
        assert(first_nl(s) < s.len());
        assert(p == first_nl(s));
        lemma_first_nl_bounds(rs);
        let fs = first_nl(s) as int;
        let fnr = first_nl(rs) as int;
        assert(rs.len() == s.len() - fs - 1);
        assert forall|j: int| 0 <= j < fs + fnr implies t[j] != '\n' by {
            if j < fs {
                assert(t[j] == s[j]);
            } else {
                assert(t[j] == s[j + 1]);
                assert(rs[j - fs] == s[j + 1]);
            }
        }
        if fnr < rs.len() {
            assert(t[fs + fnr] == s[fs + fnr + 1]);
            assert(rs[fnr] == s[fs + fnr + 1]);
        }
        lemma_first_nl_at(t, fs + fnr);
        assert(line_len(t, 0) == line_len(s, 0) + line_len(s, 1)) by {
            assert(line_len(s, 1) == line_len(rs, 0));
        }
        assert(line_count(s) == 1 + line_count(rs));
        if fnr >= rs.len() {
            assert(first_nl(t) >= t.len());
            assert(line_count(t) == 1);
            assert(line_count(rs) == 1);
        } else {
            let rr = rest_after_nl(rs);
            assert(rest_after_nl(t) =~= rr) by {
                assert forall|j: int| 0 <= j < rs.len() - fnr - 1 implies rest_after_nl(t)[j]
                    == rr[j] by {
                    assert(rest_after_nl(t)[j] == t[fs + fnr + 1 + j]);
                    assert(t[fs + fnr + 1 + j] == s[fs + fnr + 2 + j]);
                    assert(rr[j] == rs[fnr + 1 + j]);
                    assert(rs[fnr + 1 + j] == s[fs + fnr + 2 + j]);
                }
            }
            assert(line_count(t) == 1 + line_count(rest_after_nl(t)));
            assert(line_count(rs) == 1 + line_count(rr));
            assert forall|i: nat| 0 < i < line_count(s) - 1 implies #[trigger] line_start(t, i)
                == line_start(s, (i + 1) as nat) - 1 by {
                assert(line_start(t, i) == first_nl(t) + 1 + line_start(
                    rest_after_nl(t),
                    (i - 1) as nat,
                ));
                assert(line_start(s, (i + 1) as nat) == fs + 1 + line_start(rs, i));
                assert(line_start(rs, i) == fnr + 1 + line_start(rr, (i - 1) as nat));
            }
            assert forall|i: nat| 0 < i < line_count(s) - 1 implies #[trigger] line_len(t, i)
                == line_len(s, (i + 1) as nat) by {
                assert(line_len(t, i) == line_len(rest_after_nl(t), (i - 1) as nat));
                assert(line_len(s, (i + 1) as nat) == line_len(rs, i));
                assert(line_len(rs, i) == line_len(rr, (i - 1) as nat));
            }
        }
    } else {
        assert(first_nl(s) < s.len());
        let fs = first_nl(s) as int;
        assert(line_start(s, l) == fs + 1 + line_start(rs, (l - 1) as nat));
        assert(line_len(s, l) == line_len(rs, (l - 1) as nat));
        assert(line_count(s) == 1 + line_count(rs));
        assert forall|j: int| 0 <= j < fs implies t[j] != '\n' by {
            assert(t[j] == s[j]);
        }
        assert(t[fs] == s[fs]);
        lemma_first_nl_at(t, fs);
        let q = p - fs - 1;
        rs.remove_ensures(q);
        assert(rest_after_nl(t) =~= rs.remove(q)) by {
            assert forall|j: int| 0 <= j < s.len() - fs - 2 implies rest_after_nl(t)[j]
                == rs.remove(q)[j] by {
                assert(rest_after_nl(t)[j] == t[fs + 1 + j]);
                if j < q {
                    assert(t[fs + 1 + j] == s[fs + 1 + j]);
                    assert(rs.remove(q)[j] == rs[j]);
                    assert(rs[j] == s[fs + 1 + j]);
                } else {
                    assert(t[fs + 1 + j] == s[fs + 2 + j]);
                    assert(rs.remove(q)[j] == rs[j + 1]);
                    assert(rs[j + 1] == s[fs + 2 + j]);
                }
            }
        }
        lemma_remove_terminator(rs, (l - 1) as nat);
        assert(line_count(t) == 1 + line_count(rest_after_nl(t)));
        assert forall|i: nat| i <= l implies #[trigger] line_start(t, i) == line_start(s, i) by {
            if i > 0 {
                assert(line_start(t, i) == first_nl(t) + 1 + line_start(
                    rest_after_nl(t),
                    (i - 1) as nat,
                ));
                assert(line_start(s, i) == fs + 1 + line_start(rs, (i - 1) as nat));
                assert(line_start(rest_after_nl(t), (i - 1) as nat) == line_start(
                    rs,
                    (i - 1) as nat,
                ));
            }
        }
        assert forall|i: nat| i < l implies #[trigger] line_len(t, i) == line_len(s, i) by {
            if i > 0 {
                assert(line_len(t, i) == line_len(rest_after_nl(t), (i - 1) as nat));
                assert(line_len(s, i) == line_len(rs, (i - 1) as nat));
                assert(line_len(rest_after_nl(t), (i - 1) as nat) == line_len(rs, (i - 1) as nat));
            }
        }
        assert(line_len(t, l) == line_len(rest_after_nl(t), (l - 1) as nat));
        assert(line_len(s, (l + 1) as nat) == line_len(rs, l));
        assert forall|i: nat| l < i < line_count(s) - 1 implies #[trigger] line_start(t, i)
            == line_start(s, (i + 1) as nat) - 1 by {
            assert(line_start(t, i) == first_nl(t) + 1 + line_start(
                rest_after_nl(t),
                (i - 1) as nat,
            ));
            assert(line_start(s, (i + 1) as nat) == fs + 1 + line_start(rs, i));
            assert(line_start(rest_after_nl(t), (i - 1) as nat) == line_start(
                rs,
                ((i - 1) + 1) as nat,
            ) - 1);
        }
        assert forall|i: nat| l < i < line_count(s) - 1 implies #[trigger] line_len(t, i)
            == line_len(s, (i + 1) as nat) by {
            assert(line_len(t, i) == line_len(rest_after_nl(t), (i - 1) as nat));
            assert(line_len(s, (i + 1) as nat) == line_len(rs, i));
            assert(line_len(rest_after_nl(t), (i - 1) as nat) == line_len(rs, ((i - 1) + 1) as nat));
        }
    }
}


/// Line `i` starts no earlier than offset `i`: every earlier line takes up
/// at least one position.
pub proof fn lemma_line_start_ge(s: Seq<char>, i: nat)
    ensures
        line_start(s, i) >= i,
    decreases i,
{
    if i > 0 {
        lemma_line_start_ge(rest_after_nl(s), (i - 1) as nat);
    }
}


} // verus!
