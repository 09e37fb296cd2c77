//! The order of text the library sorts by, and sorting with it.
//!
//! Text is compared character by character by code point, a proper prefix
//! first. On UTF-8 strings this is the order of their bytes, which is the order
//! `String` has in Rust.

use vstd::prelude::*;
use vstd::relations::{sorted_by, total_ordering};
use crate::error::views;
use crate::text::chars_of;

verus! {

broadcast use vstd::seq_lib::group_to_multiset_ensures;

/// `a` sorts strictly before `b`.
pub open spec fn text_lt(a: Seq<char>, b: Seq<char>) -> bool
    decreases a.len(),
{
    if a.len() == 0 {
        b.len() > 0
    } else if b.len() == 0 {
        false
    } else if a[0] != b[0] {
        a[0] < b[0]
    } else {
        text_lt(a.drop_first(), b.drop_first())
    }
}

/// `a` sorts before `b` or equals it.
pub open spec fn text_le(a: Seq<char>, b: Seq<char>) -> bool {
    a == b || text_lt(a, b)
}

/// No text occurs twice.
pub open spec fn distinct(s: Seq<Seq<char>>) -> bool {
    forall|i: int, j: int| 0 <= i < j < s.len() ==> #[trigger] s[i] != #[trigger] s[j]
}

/// Each text sorts strictly before the next: sorted, with no text twice.
pub open spec fn strictly_sorted(s: Seq<Seq<char>>) -> bool {
    forall|i: int, j: int| 0 <= i < j < s.len() ==> text_lt(#[trigger] s[i], #[trigger] s[j])
}

proof fn lemma_split_first(a: Seq<char>)
    requires
        a.len() > 0,
    ensures
        a == seq![a[0]] + a.drop_first(),
{
    assert(a =~= seq![a[0]] + a.drop_first());
}

/// No text sorts before itself.
pub proof fn lemma_text_lt_irreflexive(a: Seq<char>)
    ensures
        !text_lt(a, a),
    decreases a.len(),
{
    if a.len() > 0 {
        lemma_text_lt_irreflexive(a.drop_first());
    }
}

/// Two texts never sort before each other.
pub proof fn lemma_text_lt_asymmetric(a: Seq<char>, b: Seq<char>)
    requires
        text_lt(a, b),
    ensures
        !text_lt(b, a),
    decreases a.len(),
{
    if a.len() > 0 && b.len() > 0 && a[0] == b[0] {
        lemma_text_lt_asymmetric(a.drop_first(), b.drop_first());
    }
}

/// The order is transitive.
pub proof fn lemma_text_lt_transitive(a: Seq<char>, b: Seq<char>, c: Seq<char>)
    requires
        text_lt(a, b),
        text_lt(b, c),
    ensures
        text_lt(a, c),
    decreases a.len(),
{
    if a.len() > 0 && b.len() > 0 && c.len() > 0 && a[0] == b[0] && b[0] == c[0] {
        lemma_text_lt_transitive(a.drop_first(), b.drop_first(), c.drop_first());
    }
}

/// Of two different texts, one sorts before the other.
pub proof fn lemma_text_lt_connected(a: Seq<char>, b: Seq<char>)
    requires
        a != b,
    ensures
        text_lt(a, b) || text_lt(b, a),
    decreases a.len(),
{
    if a.len() > 0 && b.len() > 0 && a[0] == b[0] {
        lemma_split_first(a);
        lemma_split_first(b);
        lemma_text_lt_connected(a.drop_first(), b.drop_first());
    } else if a.len() == 0 && b.len() == 0 {
        assert(a =~= b);
    }
}

/// Two strictly sorted lists of the same texts are the same list.
pub proof fn lemma_strictly_sorted_same_set(a: Seq<Seq<char>>, b: Seq<Seq<char>>)
    requires
        strictly_sorted(a),
        strictly_sorted(b),
        a.to_set() == b.to_set(),
    ensures
        a == b,
    decreases a.len(),
{
    if a.len() == 0 {
        if b.len() > 0 {
            assert(b.to_set().contains(b[0]));
        }
        assert(a =~= b);
    } else {
        assert(a.to_set().contains(a[0]));
        assert(b.len() > 0);
        assert(b.to_set().contains(b[0]));
        let i = choose|i: int| 0 <= i < a.len() && a[i] == b[0];
        let j = choose|j: int| 0 <= j < b.len() && b[j] == a[0];
        if i > 0 && j > 0 {
            lemma_text_lt_transitive(a[0], a[i], a[0]);
            lemma_text_lt_irreflexive(a[0]);
        }
        if i > 0 && j == 0 {
            lemma_text_lt_irreflexive(a[0]);
        }
        if i == 0 && j > 0 {
            lemma_text_lt_irreflexive(b[0]);
        }
        assert(a[0] == b[0]);
        let ra = a.drop_first();
        let rb = b.drop_first();
        assert forall|x: Seq<char>| ra.to_set().contains(x) <==> rb.to_set().contains(x) by {
            if ra.to_set().contains(x) {
                let w = choose|w: int| 0 <= w < ra.len() && ra[w] == x;
                assert(a[w + 1] == x);
                assert(b.to_set().contains(x));
                let v = choose|v: int| 0 <= v < b.len() && b[v] == x;
                if v == 0 {
                    lemma_text_lt_irreflexive(x);
                }
                assert(rb[v - 1] == x);
            }
            if rb.to_set().contains(x) {
                let w = choose|w: int| 0 <= w < rb.len() && rb[w] == x;
                assert(b[w + 1] == x);
                assert(a.to_set().contains(x));
                let v = choose|v: int| 0 <= v < a.len() && a[v] == x;
                if v == 0 {
                    lemma_text_lt_irreflexive(x);
                }
                assert(ra[v - 1] == x);
            }
        }
        assert(ra.to_set() =~= rb.to_set());
        lemma_strictly_sorted_same_set(ra, rb);
        assert(a =~= seq![a[0]] + ra);
        assert(b =~= seq![b[0]] + rb);
    }
}

/// `text_le` as a relation.
pub open spec fn text_order() -> spec_fn(Seq<char>, Seq<char>) -> bool {
    |a: Seq<char>, b: Seq<char>| text_le(a, b)
}

/// `text_le` is a total order.
pub proof fn lemma_text_le_total_ordering()
    ensures
        total_ordering(text_order()),
{
    let le = text_order();
    assert forall|a: Seq<char>| #[trigger] le(a, a) by {}
    assert forall|a: Seq<char>, b: Seq<char>| #[trigger] le(a, b) && #[trigger] le(b, a) implies a
        == b by {
        if a != b {
            lemma_text_lt_asymmetric(a, b);
        }
    }
    assert forall|a: Seq<char>, b: Seq<char>, c: Seq<char>| #[trigger] le(a, b) && #[trigger] le(
        b,
        c,
    ) implies le(a, c) by {
        if a != b && b != c {
            lemma_text_lt_transitive(a, b, c);
        }
    }
    assert forall|a: Seq<char>, b: Seq<char>| #[trigger] le(a, b) || #[trigger] le(b, a) by {
        if a != b {
            lemma_text_lt_connected(a, b);
        }
    }
}

proof fn lemma_take_next_set(items: Seq<String>, n: int)
    requires
        0 <= n < items.len(),
    ensures
        views(items.take(n + 1)).to_set() == views(items.take(n)).to_set().insert(items[n]@),
{
    let s = views(items.take(n));
    let t = views(items.take(n + 1));
    assert forall|x: Seq<char>| t.contains(x) <==> s.contains(x) || x == items[n]@ by {
        if t.contains(x) {
            let i = choose|i: int| 0 <= i < t.len() && t[i] == x;
            if i < s.len() {
                assert(s[i] == x);
            }
        }
        if s.contains(x) {
            let i = choose|i: int| 0 <= i < s.len() && s[i] == x;
            assert(t[i] == x);
        }
        if x == items[n]@ {
            assert(t[n] == x);
        }
    }
    assert(t.to_set() =~= s.to_set().insert(items[n]@));
}

/// Pairs of texts in order of the first, then of the second.
pub open spec fn pair_le(a: (Seq<char>, Seq<char>), b: (Seq<char>, Seq<char>)) -> bool {
    text_lt(a.0, b.0) || (a.0 == b.0 && text_le(a.1, b.1))
}

/// `pair_le` as a relation.
pub open spec fn pair_order() -> spec_fn((Seq<char>, Seq<char>), (Seq<char>, Seq<char>)) -> bool {
    |a: (Seq<char>, Seq<char>), b: (Seq<char>, Seq<char>)| pair_le(a, b)
}

/// `pair_le` is a total order.
pub proof fn lemma_pair_le_total_ordering()
    ensures
        total_ordering(pair_order()),
{
    let le = pair_order();
    assert forall|a: (Seq<char>, Seq<char>)| #[trigger] le(a, a) by {}
    assert forall|a: (Seq<char>, Seq<char>), b: (Seq<char>, Seq<char>)|
        #[trigger] le(a, b) && #[trigger] le(b, a) implies a == b by {
        if text_lt(a.0, b.0) {
            lemma_text_lt_asymmetric(a.0, b.0);
            if b.0 == a.0 {
                lemma_text_lt_irreflexive(a.0);
            }
        } else if text_lt(b.0, a.0) {
            lemma_text_lt_asymmetric(b.0, a.0);
            if b.0 == a.0 {
                lemma_text_lt_irreflexive(a.0);
            }
        } else if a.1 != b.1 {
            lemma_text_lt_asymmetric(a.1, b.1);
        }
    }
    assert forall|a: (Seq<char>, Seq<char>), b: (Seq<char>, Seq<char>), c: (Seq<char>, Seq<char>)|
        #[trigger] le(a, b) && #[trigger] le(b, c) implies le(a, c) by {
        if text_lt(a.0, b.0) && text_lt(b.0, c.0) {
            lemma_text_lt_transitive(a.0, b.0, c.0);
        } else if a.0 == b.0 && b.0 == c.0 && a.1 != b.1 && b.1 != c.1 {
            lemma_text_lt_transitive(a.1, b.1, c.1);
        }
    }
    assert forall|a: (Seq<char>, Seq<char>), b: (Seq<char>, Seq<char>)|
        #[trigger] le(a, b) || #[trigger] le(b, a) by {
        if a.0 != b.0 {
            lemma_text_lt_connected(a.0, b.0);
        } else if a.1 != b.1 {
            lemma_text_lt_connected(a.1, b.1);
        }
    }
}

/// Whether `a` sorts strictly before `b`.
pub fn text_less(a: &str, b: &str) -> (r: bool)
    ensures
        r == text_lt(a@, b@),
{
    let ac = chars_of(a);
    let bc = chars_of(b);
    let mut i: usize = 0;
    assert(ac@.skip(0) =~= ac@);
    assert(bc@.skip(0) =~= bc@);
    while i < ac.len() && i < bc.len()
        invariant
            i <= ac@.len(),
            i <= bc@.len(),
            ac@ == a@,
            bc@ == b@,
            text_lt(a@, b@) == text_lt(ac@.skip(i as int), bc@.skip(i as int)),
        decreases ac@.len() - i,
    {
        assert(ac@.skip(i as int)[0] == ac@[i as int]);
        assert(bc@.skip(i as int)[0] == bc@[i as int]);
        if ac[i] != bc[i] {
            return ac[i] < bc[i];
        }
        assert(ac@.skip(i as int).drop_first() =~= ac@.skip(i + 1));
        assert(bc@.skip(i as int).drop_first() =~= bc@.skip(i + 1));
        i = i + 1;
    }
    i == ac.len() && i < bc.len()
}

/// The texts of `items`, sorted, each once.
pub fn sorted_unique(items: &Vec<String>) -> (r: Vec<String>)
    ensures
        strictly_sorted(views(r@)),
        views(r@).to_set() == views(items@).to_set(),
{
    let mut out: Vec<String> = Vec::new();
    let mut n: usize = 0;
    while n < items.len()
        invariant
            n <= items@.len(),
            strictly_sorted(views(out@)),
            views(out@).to_set() == views(items@.take(n as int)).to_set(),
        decreases items@.len() - n,
    {
        let item = &items[n];
        let mut k: usize = 0;
        while k < out.len() && text_less(out[k].as_str(), item.as_str())
            invariant
                k <= out@.len(),
                forall|j: int| 0 <= j < k ==> text_lt(#[trigger] out@[j]@, item@),
            decreases out@.len() - k,
        {
            k = k + 1;
        }
        let ghost before = views(out@);
        if k < out.len() && crate::text::str_eq(out[k].as_str(), item.as_str()) {
            proof {
                lemma_take_next_set(items@, n as int);
                assert(views(out@)[k as int] == item@);
                assert(views(out@).to_set().contains(item@));
                assert(views(items@.take(n + 1)).to_set() =~= views(out@).to_set());
            }
        } else {
            proof {
                if k < out@.len() {
                    lemma_text_lt_connected(out@[k as int]@, item@);
                    assert(text_lt(item@, out@[k as int]@));
                    assert forall|j: int| k <= j < out@.len() implies text_lt(
                        item@,
                        #[trigger] out@[j]@,
                    ) by {
                        if j > k {
                            assert(text_lt(before[k as int], before[j]));
                            lemma_text_lt_transitive(item@, out@[k as int]@, out@[j]@);
                        }
                    }
                }
            }
            out.insert(k, item.clone());
            proof {
                let after = views(out@);
                assert(after =~= before.insert(k as int, item@));
                assert forall|i: int, j: int| 0 <= i < j < after.len() implies text_lt(
                    #[trigger] after[i],
                    #[trigger] after[j],
                ) by {
                    if j < k {
                        assert(after[i] == before[i] && after[j] == before[j]);
                    } else if j == k {
                        assert(after[i] == before[i]);
                    } else if i == k {
                        assert(after[j] == before[j - 1]);
                    } else if i < k {
                        assert(after[i] == before[i] && after[j] == before[j - 1]);
                    } else {
                        assert(after[i] == before[i - 1] && after[j] == before[j - 1]);
                    }
                }
                assert(after.to_set() =~= before.to_set().insert(item@)) by {
                    assert forall|x: Seq<char>| after.contains(x) <==> before.contains(x) || x
                        == item@ by {
                        if after.contains(x) {
                            let i = choose|i: int| 0 <= i < after.len() && after[i] == x;
                            if i < k {
                                assert(before[i] == x);
                            } else if i > k {
                                assert(before[i - 1] == x);
                            }
                        }
                        if before.contains(x) {
                            let i = choose|i: int| 0 <= i < before.len() && before[i] == x;
                            if i < k {
                                assert(after[i] == x);
                            } else {
                                assert(after[i + 1] == x);
                            }
                        }
                        if x == item@ {
                            assert(after[k as int] == x);
                        }
                    }
                }
                lemma_take_next_set(items@, n as int);
            }
        }
        n = n + 1;
    }
    assert(items@.take(items@.len() as int) =~= items@);
    out
}

/// The texts of `items` sorted, repeats kept.
pub fn sort_texts(items: &Vec<String>) -> (r: Vec<String>)
    ensures
        views(r@) == views(items@).sort_by(text_order()),
{
    let mut out: Vec<String> = Vec::new();
    let mut n: usize = 0;
    proof {
        lemma_text_le_total_ordering();
    }
    while n < items.len()
        invariant
            n <= items@.len(),
            total_ordering(text_order()),
            sorted_by(views(out@), text_order()),
            views(out@).to_multiset() == views(items@.take(n as int)).to_multiset(),
        decreases items@.len() - n,
    {
        let item = &items[n];
        let mut k: usize = 0;
        while k < out.len() && !text_less(item.as_str(), out[k].as_str())
            invariant
                k <= out@.len(),
                forall|j: int| 0 <= j < k ==> !text_lt(item@, #[trigger] views(out@)[j]),
            decreases out@.len() - k,
        {
            k = k + 1;
        }
        let ghost before = views(out@);
        let ghost x = item@;
        proof {
            let le = text_order();
            assert forall|j: int| 0 <= j < k implies le(#[trigger] before[j], x) by {
                if before[j] != x {
                    lemma_text_lt_connected(before[j], x);
                }
            }
            if k < before.len() {
                assert forall|j: int| k <= j < before.len() implies le(x, #[trigger] before[j]) by {
                    if j > k {
                        assert(le(before[k as int], before[j]));
                        assert(le(x, before[k as int]) && le(before[k as int], before[j]) ==> le(
                            x,
                            before[j],
                        ));
                    }
                }
            }
        }
        out.insert(k, item.clone());
        proof {
            let le = text_order();
            let after = views(out@);
            assert(after =~= before.insert(k as int, x));
            assert forall|i: int, j: int| 0 <= i < j < after.len() implies #[trigger] le(
                after[i],
                after[j],
            ) by {
                if j < k {
                    assert(after[i] == before[i] && after[j] == before[j]);
                } else if j == k {
                    assert(after[i] == before[i]);
                } else if i == k {
                    assert(after[j] == before[j - 1]);
                } else if i < k {
                    assert(after[i] == before[i] && after[j] == before[j - 1]);
                    assert(le(before[i], x) && le(x, before[j - 1]) ==> le(before[i], before[j - 1]));
                } else {
                    assert(after[i] == before[i - 1] && after[j] == before[j - 1]);
                }
            }
            assert(views(items@.take(n + 1)) =~= views(items@.take(n as int)).push(x));
        }
        n = n + 1;
    }
    proof {
        assert(items@.take(items@.len() as int) =~= items@);
        let all = views(items@);
        all.lemma_sort_by_ensures(text_order());
        vstd::seq_lib::lemma_sorted_unique(views(out@), all.sort_by(text_order()), text_order());
    }
    out
}

} // verus!
