//! Properties that relate several operations, stated over the tree's map view.
use vstd::prelude::*;
use crate::tree_core::lists_in_order;

verus! {

/// The in-order listing of a tree depends only on its entries: two listings of the
/// same entries are equal, however the trees were built.
pub proof fn lemma_listing_unique<V>(m: Map<u64, V>, s1: Seq<(u64, V)>, s2: Seq<(u64, V)>)
    requires
        lists_in_order(m, s1),
        lists_in_order(m, s2),
    ensures
        s1 == s2,
    decreases s1.len() + s2.len(),
{
    if s1.len() == 0 || s2.len() == 0 {
        if s1.len() > 0 {
            assert(m.contains_key(s1[0].0));
        }
        if s2.len() > 0 {
            assert(m.contains_key(s2[0].0));
        }
        assert(s1 =~= s2);
    } else {
        let k1 = s1[0].0;
        let k2 = s2[0].0;
        assert(m.contains_key(k1));
        assert(m.contains_key(k2));
        let i2 = choose|i: int| 0 <= i < s2.len() && s2[i].0 == k1;
        let i1 = choose|i: int| 0 <= i < s1.len() && s1[i].0 == k2;
        if i2 > 0 {
            assert(s2[0].0 < s2[i2].0);
        }
        if i1 > 0 {
            assert(s1[0].0 < s1[i1].0);
        }
        assert(k1 == k2);
        let m2 = m.remove(k1);
        let t1 = s1.drop_first();
        let t2 = s2.drop_first();
        assert forall|i: int, j: int| 0 <= i < j < t1.len() implies #[trigger] t1[i].0 < #[trigger] t1[j].0 by {
            assert(s1[i + 1].0 < s1[j + 1].0);
        }
        assert forall|i: int, j: int| 0 <= i < j < t2.len() implies #[trigger] t2[i].0 < #[trigger] t2[j].0 by {
            assert(s2[i + 1].0 < s2[j + 1].0);
        }
        assert forall|i: int| 0 <= i < t1.len() implies m2.contains_key(#[trigger] t1[i].0) && m2[t1[i].0] == t1[i].1 by {
            assert(s1[0].0 < s1[i + 1].0);
            assert(m.contains_key(s1[i + 1].0));
        }
        assert forall|i: int| 0 <= i < t2.len() implies m2.contains_key(#[trigger] t2[i].0) && m2[t2[i].0] == t2[i].1 by {
            assert(s2[0].0 < s2[i + 1].0);
            assert(m.contains_key(s2[i + 1].0));
        }
        assert forall|k: u64| #[trigger] m2.contains_key(k) implies exists|i: int| 0 <= i < t1.len() && t1[i].0 == k by {
            let i = choose|i: int| 0 <= i < s1.len() && s1[i].0 == k;
            assert(i != 0);
            assert(t1[i - 1].0 == k);
        }
        assert forall|k: u64| #[trigger] m2.contains_key(k) implies exists|i: int| 0 <= i < t2.len() && t2[i].0 == k by {
            let i = choose|i: int| 0 <= i < s2.len() && s2[i].0 == k;
            assert(i != 0);
            assert(t2[i - 1].0 == k);
        }
        lemma_listing_unique(m2, t1, t2);
        assert(s1[0] == s2[0]);
        assert(s1 =~= seq![s1[0]] + t1);
        assert(s2 =~= seq![s2[0]] + t2);
    }
}

/// The entries after inserting the pairs of `s` one after another, into an empty tree.
pub open spec fn inserted<V>(s: Seq<(u64, V)>) -> Map<u64, V>
    decreases s.len(),
{
    if s.len() == 0 {
        Map::empty()
    } else {
        inserted(s.drop_last()).insert(s.last().0, s.last().1)
    }
}

/// No key occurs twice among the pairs.
pub open spec fn keys_unique<V>(s: Seq<(u64, V)>) -> bool {
    forall|i: int, j: int| 0 <= i < j < s.len() ==> #[trigger] s[i].0 != #[trigger] s[j].0
}

proof fn lemma_inserted_holds<V>(s: Seq<(u64, V)>)
    requires
        keys_unique(s),
    ensures
        forall|i: int| 0 <= i < s.len() ==> inserted(s).contains_key(#[trigger] s[i].0) && inserted(s)[s[i].0] == s[i].1,
        forall|k: u64| #[trigger] inserted(s).contains_key(k) ==> exists|i: int| 0 <= i < s.len() && s[i].0 == k,
    decreases s.len(),
{
    if s.len() > 0 {
        let p = s.drop_last();
        assert forall|i: int, j: int| 0 <= i < j < p.len() implies #[trigger] p[i].0 != #[trigger] p[j].0 by {
            assert(s[i].0 != s[j].0);
        }
        lemma_inserted_holds(p);
        assert forall|i: int| 0 <= i < s.len() implies inserted(s).contains_key(#[trigger] s[i].0) && inserted(s)[s[i].0] == s[i].1 by {
            if i < s.len() - 1 {
                assert(p[i] == s[i]);
                assert(s[i].0 != s[s.len() - 1].0);
            }
        }
        assert forall|k: u64| #[trigger] inserted(s).contains_key(k) implies exists|i: int| 0 <= i < s.len() && s[i].0 == k by {
            if k != s.last().0 {
                assert(inserted(p).contains_key(k));
                let i = choose|i: int| 0 <= i < p.len() && p[i].0 == k;
                assert(s[i].0 == k);
            }
        }
    }
}

/// Inserting the same pairs (no key twice) in any order gives the same entries; with
/// the unique in-order listing, the walk of the result is the pairs sorted by key.
pub proof fn lemma_insert_order_irrelevant<V>(s1: Seq<(u64, V)>, s2: Seq<(u64, V)>)
    requires
        keys_unique(s1),
        keys_unique(s2),
        forall|p: (u64, V)| s1.contains(p) <==> s2.contains(p),
    ensures
        inserted(s1) == inserted(s2),
{
    lemma_inserted_holds(s1);
    lemma_inserted_holds(s2);
    let m1 = inserted(s1);
    let m2 = inserted(s2);
    assert forall|k: u64| #[trigger] m1.contains_key(k) implies m2.contains_key(k) && m1[k] == m2[k] by {
        let i = choose|i: int| 0 <= i < s1.len() && s1[i].0 == k;
        assert(s1.contains(s1[i]));
        assert(s2.contains(s1[i]));
        let j = choose|j: int| 0 <= j < s2.len() && s2[j] == s1[i];
        assert(m2.contains_key(s2[j].0));
    }
    assert forall|k: u64| #[trigger] m2.contains_key(k) implies m1.contains_key(k) by {
        let j = choose|j: int| 0 <= j < s2.len() && s2[j].0 == k;
        assert(s2.contains(s2[j]));
        assert(s1.contains(s2[j]));
        let i = choose|i: int| 0 <= i < s1.len() && s1[i] == s2[j];
        assert(m1.contains_key(s1[i].0));
    }
    assert(m1 =~= m2);
}

/// Inserting the same entry twice: the second insert finds the first value and the
/// entries (so the length) do not change.
pub proof fn lemma_insert_twice<V>(m: Map<u64, V>, k: u64, v: V)
    ensures
        m.insert(k, v).contains_key(k),
        m.insert(k, v)[k] == v,
        m.insert(k, v).insert(k, v) == m.insert(k, v),
{
    assert(m.insert(k, v).insert(k, v) =~= m.insert(k, v));
}

/// Inserting an absent key and then removing it gives back the entries it started from.
pub proof fn lemma_insert_remove<V>(m: Map<u64, V>, k: u64, v: V)
    requires
        !m.contains_key(k),
    ensures
        m.insert(k, v).remove(k) == m,
        m.insert(k, v).contains_key(k),
        m.insert(k, v)[k] == v,
{
    assert(m.insert(k, v).remove(k) =~= m);
}

/// Two successive minimum extractions come out in ascending order.
pub proof fn lemma_pop_min_ascending<V>(m: Map<u64, V>, k1: u64, k2: u64)
    requires
        m.contains_key(k1),
        forall|x: u64| #[trigger] m.contains_key(x) ==> k1 <= x,
        m.remove(k1).contains_key(k2),
    ensures
        k1 < k2,
{
    assert(m.contains_key(k2));
}

/// Two successive maximum extractions come out in descending order.
pub proof fn lemma_pop_max_descending<V>(m: Map<u64, V>, k1: u64, k2: u64)
    requires
        m.contains_key(k1),
        forall|x: u64| #[trigger] m.contains_key(x) ==> x <= k1,
        m.remove(k1).contains_key(k2),
    ensures
        k2 < k1,
{
    assert(m.contains_key(k2));
}

/// For a key that is present, its lower bound is itself and its upper bound is the
/// key that follows it in the in-order listing.
pub proof fn lemma_bounds_of_member<V>(m: Map<u64, V>, s: Seq<(u64, V)>, i: int, lo: u64, hi: u64)
    requires
        lists_in_order(m, s),
        0 <= i < s.len(),
        m.contains_key(lo),
        s[i].0 <= lo,
        forall|x: u64| m.contains_key(x) && s[i].0 <= x ==> lo <= x,
        m.contains_key(hi),
        s[i].0 < hi,
        forall|x: u64| m.contains_key(x) && s[i].0 < x ==> hi <= x,
    ensures
        lo == s[i].0,
        i + 1 < s.len(),
        hi == s[i + 1].0,
{
    assert(m.contains_key(s[i].0));
    let j = choose|j: int| 0 <= j < s.len() && s[j].0 == hi;
    if j <= i {
        if j < i {
            assert(s[j].0 < s[i].0);
        }
    }
    assert(j > i);
    if j > i + 1 {
        assert(s[i].0 < s[i + 1].0);
        assert(s[i + 1].0 < s[j].0);
        assert(m.contains_key(s[i + 1].0));
    }
}

} // verus!
