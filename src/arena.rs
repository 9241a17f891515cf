//! The arena as a whole: which entries it holds, independent of the tree's shape.
use vstd::prelude::*;
use crate::shape::Node;

verus! {

/// The entries of an arena, as a map from key to value.
pub open spec fn arena_map<V>(s: Seq<Node<V>>) -> Map<u64, V> {
    Map::new(
        |k: u64| exists|i: int| 0 <= i < s.len() && s[i].key == k,
        |k: u64| s[choose|i: int| 0 <= i < s.len() && s[i].key == k].val,
    )
}

/// No two slots hold the same key.
pub open spec fn distinct_keys<V>(s: Seq<Node<V>>) -> bool {
    forall|i: int, j: int|
        0 <= i < s.len() && 0 <= j < s.len() && i != j ==> #[trigger] s[i].key != #[trigger] s[j].key
}

/// Two arenas hold the same key and value in every slot (links may differ).
pub open spec fn same_entries<V>(a: Seq<Node<V>>, b: Seq<Node<V>>) -> bool {
    &&& a.len() == b.len()
    &&& forall|i: int| 0 <= i < a.len() ==> #[trigger] a[i].key == b[i].key && a[i].val == b[i].val
}

pub proof fn lemma_arena_map_at<V>(s: Seq<Node<V>>, i: int)
    requires
        distinct_keys(s),
        0 <= i < s.len(),
    ensures
        arena_map(s).contains_key(s[i].key),
        arena_map(s)[s[i].key] == s[i].val,
{
    let k = s[i].key;
    assert(exists|j: int| 0 <= j < s.len() && s[j].key == k);
    let j = choose|j: int| 0 <= j < s.len() && s[j].key == k;
    assert(j == i);
}

pub proof fn lemma_arena_map_has<V>(s: Seq<Node<V>>, k: u64)
    requires
        distinct_keys(s),
        arena_map(s).contains_key(k),
    ensures
        exists|i: int| 0 <= i < s.len() && s[i].key == k && arena_map(s)[k] == s[i].val,
{
    let i = choose|i: int| 0 <= i < s.len() && s[i].key == k;
    lemma_arena_map_at(s, i);
}

pub proof fn lemma_arena_map_same<V>(a: Seq<Node<V>>, b: Seq<Node<V>>)
    requires
        same_entries(a, b),
        distinct_keys(a),
    ensures
        arena_map(a) == arena_map(b),
        distinct_keys(b),
{
    assert forall|k: u64| #[trigger] arena_map(a).contains_key(k) == arena_map(b).contains_key(k) by {
        if arena_map(a).contains_key(k) {
            let i = choose|i: int| 0 <= i < a.len() && a[i].key == k;
            assert(b[i].key == k);
        }
        if arena_map(b).contains_key(k) {
            let i = choose|i: int| 0 <= i < b.len() && b[i].key == k;
            assert(a[i].key == k);
        }
    }
    assert forall|i: int, j: int|
        0 <= i < b.len() && 0 <= j < b.len() && i != j implies #[trigger] b[i].key
        != #[trigger] b[j].key by {
        assert(a[i].key != a[j].key);
    }
    assert forall|k: u64| #[trigger] arena_map(a).contains_key(k) implies arena_map(a)[k]
        == arena_map(b)[k] by {
        let i = choose|i: int| 0 <= i < a.len() && a[i].key == k;
        lemma_arena_map_at(a, i);
        lemma_arena_map_at(b, i);
    }
    assert(arena_map(a) =~= arena_map(b));
}

pub proof fn lemma_arena_map_push<V>(s: Seq<Node<V>>, n: Node<V>)
    requires
        distinct_keys(s),
        !arena_map(s).contains_key(n.key),
    ensures
        distinct_keys(s.push(n)),
        arena_map(s.push(n)) == arena_map(s).insert(n.key, n.val),
{
    let t = s.push(n);
    assert forall|i: int| 0 <= i < s.len() implies #[trigger] s[i].key != n.key by {
        lemma_arena_map_at(s, i);
    }
    assert(distinct_keys(t)) by {
        assert forall|i: int, j: int|
            0 <= i < t.len() && 0 <= j < t.len() && i != j implies #[trigger] t[i].key
            != #[trigger] t[j].key by {
            if i < s.len() && j < s.len() {
                assert(s[i].key != s[j].key);
            }
        }
    }
    let m = arena_map(s).insert(n.key, n.val);
    assert forall|k: u64| #[trigger] arena_map(t).contains_key(k) == m.contains_key(k) by {
        if arena_map(t).contains_key(k) {
            let i = choose|i: int| 0 <= i < t.len() && t[i].key == k;
            if i < s.len() {
                assert(s[i].key == k);
            }
        }
        if arena_map(s).contains_key(k) {
            let i = choose|i: int| 0 <= i < s.len() && s[i].key == k;
            assert(t[i].key == k);
        }
        assert(t[s.len() as int] == n);
    }
    assert forall|k: u64| #[trigger] arena_map(t).contains_key(k) implies arena_map(t)[k] == m[k] by {
        let i = choose|i: int| 0 <= i < t.len() && t[i].key == k;
        lemma_arena_map_at(t, i);
        if i < s.len() {
            lemma_arena_map_at(s, i);
        }
    }
    assert(arena_map(t) =~= m);
}

pub proof fn lemma_arena_map_update<V>(s: Seq<Node<V>>, i: int, n: Node<V>)
    requires
        distinct_keys(s),
        0 <= i < s.len(),
        n.key == s[i].key,
    ensures
        distinct_keys(s.update(i, n)),
        arena_map(s.update(i, n)) == arena_map(s).insert(n.key, n.val),
{
    let t = s.update(i, n);
    assert(distinct_keys(t)) by {
        assert forall|a: int, b: int|
            0 <= a < t.len() && 0 <= b < t.len() && a != b implies #[trigger] t[a].key
            != #[trigger] t[b].key by {
            assert(s[a].key != s[b].key);
        }
    }
    let m = arena_map(s).insert(n.key, n.val);
    assert forall|k: u64| #[trigger] arena_map(t).contains_key(k) == m.contains_key(k) by {
        if arena_map(t).contains_key(k) {
            let j = choose|j: int| 0 <= j < t.len() && t[j].key == k;
            assert(s[j].key == k);
        }
        if arena_map(s).contains_key(k) {
            let j = choose|j: int| 0 <= j < s.len() && s[j].key == k;
            assert(t[j].key == k);
        }
        lemma_arena_map_at(t, i);
    }
    assert forall|k: u64| #[trigger] arena_map(t).contains_key(k) implies arena_map(t)[k] == m[k] by {
        let j = choose|j: int| 0 <= j < t.len() && t[j].key == k;
        lemma_arena_map_at(t, j);
        lemma_arena_map_at(s, j);
    }
    assert(arena_map(t) =~= m);
}

pub proof fn lemma_arena_map_swap_remove<V>(s: Seq<Node<V>>, i: int)
    requires
        distinct_keys(s),
        0 <= i < s.len(),
    ensures
        distinct_keys(s.update(i, s.last()).drop_last()),
        arena_map(s.update(i, s.last()).drop_last()) == arena_map(s).remove(s[i].key),
{
    let t = s.update(i, s.last()).drop_last();
    let last = s.len() - 1;
    assert forall|a: int| 0 <= a < t.len() implies #[trigger] t[a] == (if a == i {
        s[last]
    } else {
        s[a]
    }) by {}
    assert(distinct_keys(t)) by {
        assert forall|a: int, b: int|
            0 <= a < t.len() && 0 <= b < t.len() && a != b implies #[trigger] t[a].key
            != #[trigger] t[b].key by {
            let a2 = if a == i { last } else { a };
            let b2 = if b == i { last } else { b };
            assert(s[a2].key != s[b2].key);
        }
    }
    let m = arena_map(s).remove(s[i].key);
    assert forall|k: u64| #[trigger] arena_map(t).contains_key(k) == m.contains_key(k) by {
        if arena_map(t).contains_key(k) {
            let a = choose|a: int| 0 <= a < t.len() && t[a].key == k;
            let a2 = if a == i { last } else { a };
            assert(s[a2].key == k);
            assert(s[a2].key != s[i].key);
        }
        if m.contains_key(k) {
            let a = choose|a: int| 0 <= a < s.len() && s[a].key == k;
            assert(a != i);
            let a2 = if a == last { i } else { a };
            assert(t[a2].key == k);
        }
    }
    assert forall|k: u64| #[trigger] arena_map(t).contains_key(k) implies arena_map(t)[k] == m[k] by {
        let a = choose|a: int| 0 <= a < t.len() && t[a].key == k;
        let a2 = if a == i { last } else { a };
        lemma_arena_map_at(t, a);
        lemma_arena_map_at(s, a2);
    }
    assert(arena_map(t) =~= m);
}

pub proof fn lemma_arena_map_len<V>(s: Seq<Node<V>>)
    requires
        distinct_keys(s),
    ensures
        arena_map(s).dom().finite(),
        arena_map(s).len() == s.len(),
    decreases s.len(),
{
    if s.len() == 0 {
        assert(arena_map(s).dom() =~= Set::<u64>::empty());
    } else {
        let p = s.drop_last();
        assert(p.push(s.last()) =~= s);
        assert(distinct_keys(p)) by {
            assert forall|i: int, j: int|
                0 <= i < p.len() && 0 <= j < p.len() && i != j implies #[trigger] p[i].key
                != #[trigger] p[j].key by {
                assert(s[i].key != s[j].key);
            }
        }
        if arena_map(p).contains_key(s.last().key) {
            lemma_arena_map_has(p, s.last().key);
            let i = choose|i: int| 0 <= i < p.len() && p[i].key == s.last().key;
            assert(s[i].key == s[s.len() - 1].key);
        }
        lemma_arena_map_len(p);
        lemma_arena_map_push(p, s.last());
    }
}

} // verus!
