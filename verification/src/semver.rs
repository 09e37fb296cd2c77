//! Composer version constraints, checked by the `semver-php` crate.

use vstd::prelude::*;
use crate::text::concat3;

verus! {

/// What `semver_php::Semver::satisfies(version, constraints)` returns: whether the
/// version satisfies the constraint expression, or the text of its error for an
/// invalid version or constraint. Composer's constraint grammar takes pages to
/// state, so the result is named rather than spelled out.
pub uninterp spec fn semver_outcome(version: Seq<char>, constraints: Seq<char>) -> Result<
    bool,
    Seq<char>,
>;

/// Every character is ASCII.
pub open spec fn all_ascii(s: Seq<char>) -> bool {
    vstd::utf8::is_ascii_chars(s)
}

/// The largest `i64`.
pub open spec fn i64_max() -> int {
    9223372036854775807
}

/// Whether `c` is an ASCII digit.
pub open spec fn is_digit(c: char) -> bool {
    '0' <= c && c <= '9'
}

/// Every character of `t` is an ASCII digit.
pub open spec fn all_digits(t: Seq<char>) -> bool {
    forall|i: int| 0 <= i < t.len() ==> is_digit(#[trigger] t[i])
}

/// The number the digits `t` spell in decimal.
pub open spec fn digits_value(t: Seq<char>) -> int
    decreases t.len(),
{
    if t.len() == 0 {
        0
    } else {
        digits_value(t.drop_last()) * 10 + (t.last() as int - '0' as int)
    }
}

/// Every run of digits in `s` spells a number below `i64::MAX`.
pub open spec fn numbers_fit(s: Seq<char>) -> bool {
    forall|i: int, j: int|
        0 <= i < j <= s.len() && all_digits(#[trigger] s.subrange(i, j)) ==> digits_value(
            s.subrange(i, j),
        ) < i64_max()
}

/// Calls `semver_php::Semver::satisfies`.
///
/// The crate splits constraint expressions by character position and slices the
/// string by byte position, which panics on some non-ASCII constraints; and it adds
/// one to a version number of a caret or tilde constraint as an `i64`, which
/// overflows for `i64::MAX` (numbers above it fail to parse and count as 0). The
/// contract therefore admits ASCII constraints whose numbers are all below `i64::MAX`.
#[verifier::external_body]
fn semver_satisfies(version: &str, constraints: &str) -> (r: Result<bool, String>)
    requires
        all_ascii(constraints@),
        numbers_fit(constraints@),
    ensures
        match r {
            Ok(b) => semver_outcome(version@, constraints@) == Ok::<bool, Seq<char>>(b),
            Err(m) => semver_outcome(version@, constraints@) == Err::<bool, Seq<char>>(m@),
        },
{
    match semver_php::Semver::satisfies(version, constraints) {
        Ok(matches) => Ok(matches),
        Err(error) => Err(error.to_string()),
    }
}

/// What `satisfies` gives: the crate's answer for ASCII constraints whose numbers fit,
/// and an error naming the constraint otherwise.
pub open spec fn satisfies_spec(version: Seq<char>, constraints: Seq<char>) -> Result<
    bool,
    Seq<char>,
> {
    if !all_ascii(constraints) {
        Err("constraint \""@ + constraints + "\" is not ASCII"@)
    } else if !numbers_fit(constraints) {
        Err("constraint \""@ + constraints + "\" has a version number too large"@)
    } else {
        semver_outcome(version, constraints)
    }
}

/// The digits of `t` after the first `k` spell no larger a number than all of them.
proof fn lemma_digits_suffix_value(t: Seq<char>, k: int)
    requires
        all_digits(t),
        0 <= k <= t.len(),
    ensures
        0 <= digits_value(t.subrange(k, t.len() as int)) <= digits_value(t),
    decreases t.len(),
{
    if t.len() == 0 {
        assert(t.subrange(k, 0) =~= t);
    } else if k == t.len() {
        assert(t.subrange(k, t.len() as int) =~= Seq::<char>::empty());
        lemma_digits_suffix_value(t.drop_last(), t.len() - 1);
    } else {
        let s = t.subrange(k, t.len() as int);
        lemma_digits_suffix_value(t.drop_last(), k);
        assert(s.drop_last() =~= t.drop_last().subrange(k, t.len() - 1));
        assert(s.last() == t.last());
        assert(is_digit(t.last()));
    }
}

/// Whether every run of digits in `s` spells a number below `i64::MAX`.
fn numbers_fit_check(s: &str) -> (r: bool)
    ensures
        r == numbers_fit(s@),
{
    let cs = crate::text::chars_of(s);
    let n = cs.len();
    let mut start: usize = 0;
    let mut cur: u128 = 0;
    let mut i: usize = 0;
    assert(cs@.subrange(0, 0) =~= Seq::<char>::empty());
    while i < n
        invariant
            n == cs@.len(),
            cs@ == s@,
            start <= i <= n,
            all_digits(cs@.subrange(start as int, i as int)),
            start == 0 || !is_digit(cs@[start - 1]),
            cur == digits_value(cs@.subrange(start as int, i as int)),
            cur < i64_max(),
            forall|a: int, b: int|
                0 <= a < b <= i && all_digits(#[trigger] cs@.subrange(a, b)) ==> digits_value(
                    cs@.subrange(a, b),
                ) < i64_max(),
        decreases n - i,
    {
        let c = cs[i];
        let ghost run = cs@.subrange(start as int, i + 1);
        if '0' <= c && c <= '9' {
            let d: u128 = (c as u32 - '0' as u32) as u128;
            let next: u128 = cur * 10 + d;
            proof {
                assert(run.drop_last() =~= cs@.subrange(start as int, i as int));
                assert(run.last() == c);
                assert(all_digits(run));
            }
            if next >= 9223372036854775807u128 {
                proof {
                    assert(digits_value(run) >= i64_max());
                }
                return false;
            }
            proof {
                assert forall|a: int, b: int|
                    0 <= a < b <= i + 1 && all_digits(#[trigger] cs@.subrange(a, b)) implies digits_value(
                        cs@.subrange(a, b),
                    ) < i64_max() by {
                    if b == i + 1 {
                        if a < start {
                            assert(cs@.subrange(a, b)[start - 1 - a] == cs@[start - 1]);
                        } else {
                            lemma_digits_suffix_value(run, a - start);
                            assert(run.subrange(a - start, run.len() as int) =~= cs@.subrange(a, b));
                        }
                    }
                }
            }
            cur = next;
        } else {
            proof {
                assert forall|a: int, b: int|
                    0 <= a < b <= i + 1 && all_digits(#[trigger] cs@.subrange(a, b)) implies digits_value(
                        cs@.subrange(a, b),
                    ) < i64_max() by {
                    if b == i + 1 {
                        assert(cs@.subrange(a, b)[i - a] == c);
                    }
                }
                assert(cs@.subrange(i + 1, i + 1) =~= Seq::<char>::empty());
            }
            start = i + 1;
            cur = 0;
        }
        i = i + 1;
    }
    true
}

/// Whether `version` satisfies the Composer constraint expression `constraints`.
pub fn satisfies(version: &str, constraints: &str) -> (r: Result<bool, String>)
    ensures
        match r {
            Ok(b) => satisfies_spec(version@, constraints@) == Ok::<bool, Seq<char>>(b),
            Err(m) => satisfies_spec(version@, constraints@) == Err::<bool, Seq<char>>(m@),
        },
{
    if !constraints.is_ascii() {
        Err(concat3("constraint \"", constraints, "\" is not ASCII"))
    } else if !numbers_fit_check(constraints) {
        Err(concat3("constraint \"", constraints, "\" has a version number too large"))
    } else {
        semver_satisfies(version, constraints)
    }
}

} // verus!
