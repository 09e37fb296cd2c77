//! Splitting text into lines and comma-separated items.

use vstd::prelude::*;
use crate::text::{chars_of, find_char, first_index_of, string_of_range};

verus! {

/// A character that occurs in `s` has a first occurrence.
pub proof fn lemma_first_index_exists(s: Seq<char>, c: char)
    requires
        s.contains(c),
    ensures
        exists|i: int| first_index_of(s, c, i),
    decreases s.len(),
{
    if s[0] == c {
        assert(first_index_of(s, c, 0));
    } else {
        let k = choose|k: int| 0 <= k < s.len() && s[k] == c;
        assert(s.drop_first()[k - 1] == c);
        lemma_first_index_exists(s.drop_first(), c);
        let j = choose|j: int| first_index_of(s.drop_first(), c, j);
        assert forall|m: int| 0 <= m < j + 1 implies s[m] != c by {
            if m > 0 {
                assert(s[m] == s.drop_first()[m - 1]);
            }
        }
        assert(first_index_of(s, c, j + 1));
    }
}

/// A line without the `\r` of a `\r\n` ending.
pub open spec fn strip_cr(line: Seq<char>) -> Seq<char> {
    if line.len() > 0 && line.last() == '\r' {
        line.drop_last()
    } else {
        line
    }
}

/// The lines of `s`, as `str::lines` yields them: split at `\n`, a `\r` before
/// the `\n` dropped, and no empty line after a final `\n`.
pub open spec fn lines_spec(s: Seq<char>) -> Seq<Seq<char>>
    decreases s.len(),
{
    if s.len() == 0 {
        Seq::empty()
    } else if s.contains('\n') {
        proof {
            lemma_first_index_exists(s, '\n');
        }
        let i = choose|i: int| first_index_of(s, '\n', i);
        seq![strip_cr(s.subrange(0, i))] + lines_spec(s.subrange(i + 1, s.len() as int))
    } else {
        seq![s]
    }
}

/// The pieces of `s` between the separators `c`, as `str::split(c)` yields them.
pub open spec fn split_spec(s: Seq<char>, c: char) -> Seq<Seq<char>>
    decreases s.len(),
{
    if s.contains(c) {
        proof {
            lemma_first_index_exists(s, c);
        }
        let i = choose|i: int| first_index_of(s, c, i);
        seq![s.subrange(0, i)] + split_spec(s.subrange(i + 1, s.len() as int), c)
    } else {
        seq![s]
    }
}

/// The first index at or after `from` holding `c`.
fn find_from(cs: &Vec<char>, c: char, from: usize) -> (r: Option<usize>)
    requires
        from <= cs@.len(),
    ensures
        r matches Some(i) ==> from <= i && first_index_of(
            cs@.subrange(from as int, cs@.len() as int),
            c,
            i - from,
        ),
        r is None ==> !cs@.subrange(from as int, cs@.len() as int).contains(c),
{
    let mut i = from;
    while i < cs.len()
        invariant
            from <= i <= cs@.len(),
            forall|j: int| from <= j < i ==> cs@[j] != c,
        decreases cs@.len() - i,
    {
        if cs[i] == c {
            assert(cs@.subrange(from as int, cs@.len() as int)[i - from] == c);
            return Some(i);
        }
        i = i + 1;
    }
    assert forall|k: int|
        0 <= k < cs@.subrange(from as int, cs@.len() as int).len() implies cs@.subrange(
        from as int,
        cs@.len() as int,
    )[k] != c by {
        assert(cs@.subrange(from as int, cs@.len() as int)[k] == cs@[from + k]);
    }
    None
}

proof fn lemma_first_unique(s: Seq<char>, c: char, i: int, j: int)
    requires
        first_index_of(s, c, i),
        first_index_of(s, c, j),
    ensures
        i == j,
{
}

/// The lines of `s`.
pub fn split_lines(s: &str) -> (r: Vec<String>)
    ensures
        r@.map_values(|l: String| l@) == lines_spec(s@),
{
    let cs = chars_of(s);
    let mut out: Vec<String> = Vec::new();
    let mut start: usize = 0;
    assert(cs@.subrange(0, cs@.len() as int) =~= cs@);
    assert(out@.map_values(|l: String| l@) + lines_spec(cs@) =~= lines_spec(cs@));
    while start < cs.len()
        invariant
            start <= cs@.len(),
            cs@ == s@,
            lines_spec(s@) == out@.map_values(|l: String| l@) + lines_spec(
                cs@.subrange(start as int, cs@.len() as int),
            ),
        decreases cs@.len() - start,
    {
        let ghost rest = cs@.subrange(start as int, cs@.len() as int);
        let ghost before = out@;
        match find_from(&cs, '\n', start) {
            Some(i) => {
                proof {
                    assert(rest[i - start] == '\n');
                    assert(rest.contains('\n'));
                    let k = choose|k: int| first_index_of(rest, '\n', k);
                    lemma_first_unique(rest, '\n', k, i - start);
                }
                assert(i < cs.len());
                let mut end = i;
                if end > start && cs[end - 1] == '\r' {
                    end = end - 1;
                }
                out.push(string_of_range(&cs, start, end));
                proof {
                    assert(rest.subrange(0, i - start) =~= cs@.subrange(start as int, i as int));
                    assert(rest.subrange(i - start + 1, rest.len() as int) =~= cs@.subrange(
                        i + 1,
                        cs@.len() as int,
                    ));
                    if i > start && cs@[i - 1] == '\r' {
                        assert(strip_cr(cs@.subrange(start as int, i as int)) =~= cs@.subrange(
                            start as int,
                            end as int,
                        ));
                    } else {
                        assert(strip_cr(cs@.subrange(start as int, i as int)) =~= cs@.subrange(
                            start as int,
                            end as int,
                        ));
                    }
                    assert(out@.map_values(|l: String| l@) =~= before.map_values(|l: String| l@).push(
                        cs@.subrange(start as int, end as int),
                    ));
                    assert(before.map_values(|l: String| l@) + lines_spec(rest) =~= out@.map_values(
                        |l: String| l@,
                    ) + lines_spec(cs@.subrange(i + 1, cs@.len() as int)));
                }
                start = i + 1;
            },
            None => {
                out.push(string_of_range(&cs, start, cs.len()));
                proof {
                    assert(lines_spec(rest) == seq![rest]);
                    assert(out@.map_values(|l: String| l@) =~= before.map_values(|l: String| l@).push(
                        rest,
                    ));
                    assert(cs@.subrange(cs@.len() as int, cs@.len() as int) =~= Seq::<char>::empty());
                    assert(before.map_values(|l: String| l@) + lines_spec(rest) =~= out@.map_values(
                        |l: String| l@,
                    ) + lines_spec(Seq::<char>::empty()));
                }
                start = cs.len();
            },
        }
    }
    assert(cs@.subrange(start as int, cs@.len() as int) =~= Seq::<char>::empty());
    assert(out@.map_values(|l: String| l@) + Seq::<Seq<char>>::empty() =~= out@.map_values(
        |l: String| l@,
    ));
    out
}

/// The pieces of `s` between the separators `c`.
pub fn split_char(s: &str, c: char) -> (r: Vec<String>)
    ensures
        r@.map_values(|l: String| l@) == split_spec(s@, c),
{
    let cs = chars_of(s);
    let mut out: Vec<String> = Vec::new();
    let mut start: usize = 0;
    assert(cs@.subrange(0, cs@.len() as int) =~= cs@);
    assert(out@.map_values(|l: String| l@) + split_spec(cs@, c) =~= split_spec(cs@, c));
    loop
        invariant_except_break
            split_spec(s@, c) == out@.map_values(|l: String| l@) + split_spec(
                cs@.subrange(start as int, cs@.len() as int),
                c,
            ),
        invariant
            start <= cs@.len(),
            cs@ == s@,
        ensures
            split_spec(s@, c) == out@.map_values(|l: String| l@),
        decreases cs@.len() - start,
    {
        let ghost rest = cs@.subrange(start as int, cs@.len() as int);
        let ghost before = out@;
        match find_from(&cs, c, start) {
            Some(i) => {
                proof {
                    assert(rest[i - start] == c);
                    assert(rest.contains(c));
                    let k = choose|k: int| first_index_of(rest, c, k);
                    lemma_first_unique(rest, c, k, i - start);
                }
                assert(i < cs.len());
                out.push(string_of_range(&cs, start, i));
                proof {
                    assert(rest.subrange(0, i - start) =~= cs@.subrange(start as int, i as int));
                    assert(rest.subrange(i - start + 1, rest.len() as int) =~= cs@.subrange(
                        i + 1,
                        cs@.len() as int,
                    ));
                    assert(out@.map_values(|l: String| l@) =~= before.map_values(|l: String| l@).push(
                        cs@.subrange(start as int, i as int),
                    ));
                    assert(before.map_values(|l: String| l@) + split_spec(rest, c) =~= out@.map_values(
                        |l: String| l@,
                    ) + split_spec(cs@.subrange(i + 1, cs@.len() as int), c));
                }
                start = i + 1;
            },
            None => {
                out.push(string_of_range(&cs, start, cs.len()));
                proof {
                    assert(split_spec(rest, c) == seq![rest]);
                    assert(out@.map_values(|l: String| l@) =~= before.map_values(|l: String| l@).push(
                        rest,
                    ));
                }
                break;
            },
        }
    }
    out
}

} // verus!
