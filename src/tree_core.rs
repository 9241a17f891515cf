//! The splay tree: its arena, its invariant, and the operations on keys.
use vstd::prelude::*;
use std::cmp::Ordering;
use vstd::std_specs::cmp::PartialEqSpec;
use crate::arena::{
    arena_map, distinct_keys, same_entries, lemma_arena_map_at, lemma_arena_map_has,
    lemma_arena_map_same, lemma_arena_map_push, lemma_arena_map_update,
    lemma_arena_map_swap_remove, lemma_arena_map_len,
};
use crate::iter::InOrderIter;
use crate::shape::{
    Node, NodeIndex, NULL_NODE, Shape, models, bst, lemma_children_sub, lemma_models_bounds,
    lemma_models_unfold, lemma_bst_unfold, lemma_models_frame, lemma_bst_frame, lemma_inorder,
};
use crate::splay::{
    Target, target_cmp, splayed, splay_by, join_children, lemma_splayed_entries,
    lemma_target_monotone,
};

verus! {

/// `s` lists exactly the entries of `m`, in strictly ascending key order.
pub open spec fn lists_in_order<V>(m: Map<u64, V>, s: Seq<(u64, V)>) -> bool {
    &&& forall|i: int, j: int| 0 <= i < j < s.len() ==> #[trigger] s[i].0 < #[trigger] s[j].0
    &&& forall|i: int| 0 <= i < s.len() ==> m.contains_key(#[trigger] s[i].0) && m[s[i].0] == s[i].1
    &&& forall|k: u64| #[trigger] m.contains_key(k) ==> exists|i: int| 0 <= i < s.len() && s[i].0 == k
}

/// Listings of two maps with the same keys have the same length and the same key at
/// each position.
proof fn lemma_same_keys_same_listing<V>(m1: Map<u64, V>, m2: Map<u64, V>, s1: Seq<(u64, V)>, s2: Seq<(u64, V)>)
    requires
        lists_in_order(m1, s1),
        lists_in_order(m2, s2),
        m1.dom() == m2.dom(),
    ensures
        s1.len() == s2.len(),
        forall|j: int| 0 <= j < s1.len() ==> #[trigger] s1[j].0 == s2[j].0,
{
    let u1 = s1.map_values(|e: (u64, V)| (e.0, ()));
    let u2 = s2.map_values(|e: (u64, V)| (e.0, ()));
    let mu = Map::new(|k: u64| m1.contains_key(k), |k: u64| ());
    assert(lists_in_order(mu, u1)) by {
        assert forall|k: u64| #[trigger] mu.contains_key(k) implies exists|i: int| 0 <= i < u1.len() && u1[i].0 == k by {
            let i = choose|i: int| 0 <= i < s1.len() && s1[i].0 == k;
            assert(u1[i].0 == k);
        }
    }
    assert(lists_in_order(mu, u2)) by {
        assert forall|k: u64| #[trigger] mu.contains_key(k) implies exists|i: int| 0 <= i < u2.len() && u2[i].0 == k by {
            assert(m2.contains_key(k));
            let i = choose|i: int| 0 <= i < s2.len() && s2[i].0 == k;
            assert(u2[i].0 == k);
        }
        assert forall|i: int| 0 <= i < u2.len() implies mu.contains_key(#[trigger] u2[i].0) && mu[u2[i].0] == u2[i].1 by {
            assert(m2.contains_key(s2[i].0));
        }
    }
    crate::laws::lemma_listing_unique(mu, u1, u2);
    assert forall|j: int| 0 <= j < s1.len() implies #[trigger] s1[j].0 == s2[j].0 by {
        assert(u1[j].0 == s1[j].0);
        assert(u2[j].0 == s2[j].0);
    }
}

/// A splay tree whose nodes live in one vector and link to each other by index.
pub struct Tree<V> {
    root: NodeIndex,
    nodes: Vec<Node<V>>,
    shape: Ghost<Shape>,
}

impl<V> View for Tree<V> {
    type V = Map<u64, V>;

    /// The entries of the tree, as a map from key to value.
    closed spec fn view(&self) -> Map<u64, V> {
        arena_map(self.nodes@)
    }
}

impl<V> Tree<V> {
    /// The arena holds a search tree rooted at `root` that reaches every slot.
    pub closed spec fn wf(&self) -> bool {
        &&& self.nodes@.len() < NULL_NODE
        &&& models(self.nodes@, self.shape@, self.root)
        &&& bst(self.nodes@, self.shape@)
        &&& forall|j: NodeIndex| #![trigger self.shape@.idxs().contains(j)]
            (j as int) < self.nodes@.len() ==> self.shape@.idxs().contains(j)
        &&& distinct_keys(self.nodes@)
    }

    /// Number of arena slots.
    pub closed spec fn arena_len(&self) -> nat {
        self.nodes@.len()
    }

    /// The arena slots reachable from the root.
    pub closed spec fn reachable(&self) -> Set<NodeIndex> {
        self.shape@.idxs()
    }

    /// Every arena slot is reachable from the root and no other index is, and the
    /// number of slots is the number of entries.
    pub proof fn lemma_arena_is_tree(&self)
        requires
            self.wf(),
        ensures
            self.arena_len() == self@.len(),
            self.reachable() == Set::new(|j: NodeIndex| (j as int) < self.arena_len()),
    {
        lemma_arena_map_len(self.nodes@);
        lemma_models_bounds(self.nodes@, self.shape@, self.root);
        assert(self.reachable() =~= Set::new(|j: NodeIndex| (j as int) < self.arena_len()));
    }

    /// The key held by the root node.
    pub closed spec fn root_key(&self) -> u64 {
        self.nodes@[self.root as int].key
    }

    /// An empty tree.
    pub fn new() -> (t: Self)
        ensures
            t.wf(),
            t@ == Map::<u64, V>::empty(),
    {
        let t = Tree { root: NULL_NODE, nodes: Vec::new(), shape: Ghost(Shape::Leaf) };
        proof {
            assert(t@ =~= Map::<u64, V>::empty());
        }
        t
    }

    /// Number of entries.
    pub fn len(&self) -> (n: usize)
        requires
            self.wf(),
        ensures
            n == self@.len(),
            n == self.arena_len(),
    {
        proof {
            lemma_arena_map_len(self.nodes@);
        }
        self.nodes.len()
    }

    /// Whether the tree has no entries.
    pub fn is_empty(&self) -> (b: bool)
        requires
            self.wf(),
        ensures
            b == (self@.len() == 0),
    {
        proof {
            lemma_arena_map_len(self.nodes@);
        }
        self.nodes.len() == 0
    }

    /// Splay the whole tree towards `target`; the tree must not be empty.
    fn splay_root(&mut self, target: &Target) -> (o: Ordering)
        requires
            old(self).wf(),
            old(self).nodes@.len() > 0,
        ensures
            final(self).wf(),
            final(self)@ == old(self)@,
            splayed(
                old(self).nodes@,
                final(self).nodes@,
                old(self).shape@,
                *target,
                final(self).root,
                o,
                final(self).shape@,
            ),
    {
        proof {
            let j: NodeIndex = 0;
            assert(self.shape@.idxs().contains(j));
            lemma_models_bounds(self.nodes@, self.shape@, self.root);
        }
        let ghost a = self.nodes@;
        let (root, order, shape) = splay_by(&mut self.nodes, self.root, target, self.shape);
        self.root = root;
        self.shape = shape;
        proof {
            lemma_splayed_entries(a, self.nodes@, old(self).shape@, *target, root, order, shape@);
            lemma_arena_map_same(a, self.nodes@);
        }
        order
    }

    /// Whether `key` is present; the tree is splayed towards it.
    pub fn contains_key(&mut self, key: u64) -> (b: bool)
        requires
            old(self).wf(),
        ensures
            final(self).wf(),
            final(self)@ == old(self)@,
            b == old(self)@.contains_key(key),
            b ==> final(self).root_key() == key,
    {
        if self.nodes.len() == 0 {
            proof {
                if self@.contains_key(key) {
                    lemma_arena_map_has(self.nodes@, key);
                }
            }
            return false;
        }
        let order = self.splay_root(&Target::Key(key));
        proof {
            self.lemma_found_iff(key, order);
        }
        matches!(order, Ordering::Equal)
    }

    /// The value stored under `key`, if any, for reading or writing; the tree is
    /// splayed towards it.
    pub fn get(&mut self, key: u64) -> (r: Option<&mut V>)
        requires
            old(self).wf(),
        ensures
            r.is_some() == old(self)@.contains_key(key),
            r matches Some(v) ==> *v == old(self)@[key],
            r matches Some(v) ==> final(self)@ == old(self)@.insert(key, *final(v)),
            r is None ==> final(self)@ == old(self)@,
            final(self).wf(),
    {
        if self.contains_key(key) {
            let ghost a = self.nodes@;
            proof {
                lemma_models_bounds(self.nodes@, self.shape@, self.root);
                let j: NodeIndex = 0;
                assert(self.shape@.idxs().contains(j));
                lemma_arena_map_at(self.nodes@, self.root as int);
            }
            let root = self.root;
            let v = &mut self.nodes[root as usize].val;
            proof {
                let n = Node { val: *final(v), ..a[root as int] };
                lemma_arena_map_update(a, root as int, n);
                lemma_models_frame(a, a.update(root as int, n), self.shape@, root);
                lemma_bst_frame(a, a.update(root as int, n), self.shape@);
            }
            Some(v)
        } else {
            None
        }
    }

    /// Append `node` to the arena and make it the root.
    fn push_root(&mut self, node: Node<V>)
        requires
            old(self).nodes@.len() + 1 < NULL_NODE,
        ensures
            final(self).nodes@ == old(self).nodes@.push(node),
            final(self).root == old(self).nodes@.len(),
            final(self).shape == old(self).shape,
    {
        self.nodes.push(node);
        self.root = (self.nodes.len() - 1) as NodeIndex;
    }

    /// Insert `key` with `value`; returns the value it replaces, if any. The new or
    /// updated entry ends at the root.
    pub fn insert(&mut self, key: u64, value: V) -> (r: Option<V>)
        requires
            old(self).wf(),
            old(self)@.len() + 1 < NULL_NODE,
        ensures
            final(self).wf(),
            final(self)@ == old(self)@.insert(key, value),
            r == (if old(self)@.contains_key(key) {
                Some(old(self)@[key])
            } else {
                None::<V>
            }),
            final(self).root_key() == key,
    {
        proof {
            lemma_arena_map_len(self.nodes@);
        }
        if self.nodes.len() == 0 {
            let ghost a = self.nodes@;
            let node = Node { lft: NULL_NODE, rgt: NULL_NODE, key, val: value };
            proof {
                if self@.contains_key(key) {
                    lemma_arena_map_has(self.nodes@, key);
                }
                lemma_arena_map_push(a, node);
            }
            self.push_root(node);
            proof {
                let s = Shape::Fork(Box::new(Shape::Leaf), 0, Box::new(Shape::Leaf));
                self.shape = Ghost(s);
                assert(Shape::Leaf.idxs() =~= Set::<NodeIndex>::empty());
                assert(models(self.nodes@, Shape::Leaf, NULL_NODE));
                assert(bst(self.nodes@, Shape::Leaf));
                assert(bst(self.nodes@, s));
                assert(models(self.nodes@, s, self.root));
                assert(forall|j: NodeIndex| #![trigger self.shape@.idxs().contains(j)]
                    (j as int) < self.nodes@.len() ==> self.shape@.idxs().contains(j));
            }
            return None;
        }
        let ghost a0 = self.nodes@;
        let order = self.splay_root(&Target::Key(key));
        proof {
            self.lemma_found_iff(key, order);
        }
        let ghost a = self.nodes@;
        let ghost s = self.shape@;
        let root = self.root;
        proof {
            lemma_models_unfold(a, s, root);
            lemma_models_bounds(a, s, root);
            lemma_children_sub(s);
            lemma_bst_unfold(a, s);
        }
        match order {
            Ordering::Equal => {
                let mut v = value;
                std::mem::swap(&mut self.nodes[root as usize].val, &mut v);
                proof {
                    lemma_arena_map_at(a, root as int);
                    lemma_arena_map_update(a, root as int, self.nodes@[root as int]);
                    assert(self.nodes@ == a.update(root as int, self.nodes@[root as int]));
                    lemma_models_frame(a, self.nodes@, s, root);
                    lemma_bst_frame(a, self.nodes@, s);
                }
                Some(v)
            },
            Ordering::Less => {
                let lft = self.nodes[root as usize].lft;
                self.nodes[root as usize].lft = NULL_NODE;
                let ghost a1 = self.nodes@;
                let node = Node { lft, rgt: root, key, val: value };
                proof {
                    lemma_models_frame(a, a1, s.left(), lft);
                    lemma_models_frame(a, a1, s.right(), a[root as int].rgt);
                    assert(same_entries(a, a1));
                    lemma_arena_map_same(a, a1);
                    lemma_arena_map_push(a1, node);
                }
                self.push_root(node);
                proof {
                    let ghost n = a.len() as NodeIndex;
                    let up = Shape::Fork(Box::new(Shape::Leaf), root, Box::new(s.right()));
                    let ns = Shape::Fork(Box::new(s.left()), n, Box::new(up));
                    let b = self.nodes@;
                    lemma_models_frame(a1, b, s.left(), lft);
                    lemma_models_frame(a1, b, s.right(), a[root as int].rgt);
                    assert(models(b, Shape::Leaf, NULL_NODE));
                    assert(models(b, up, root));
                    assert(models(b, ns, n));
                    lemma_bst_frame(a, b, s.left());
                    lemma_bst_frame(a, b, s.right());
                    assert(Shape::Leaf.idxs() =~= Set::<NodeIndex>::empty());
                    assert(bst(b, Shape::Leaf));
                    lemma_children_sub(up);
                    assert(bst(b, up));
                    assert(bst(b, ns));
                    lemma_children_sub(ns);
                    self.shape = Ghost(ns);
                    assert(self.nodes@.len() < NULL_NODE);
                    assert(models(self.nodes@, self.shape@, self.root));
                    assert(bst(self.nodes@, self.shape@));
                    assert(distinct_keys(self.nodes@));
                    assert forall|j: NodeIndex| #![trigger self.shape@.idxs().contains(j)]
                        (j as int) < self.nodes@.len() implies self.shape@.idxs().contains(j) by {
                        if j != n {
                            assert(s.idxs().contains(j));
                        }
                    }
                }
                None
            },
            Ordering::Greater => {
                let rgt = self.nodes[root as usize].rgt;
                self.nodes[root as usize].rgt = NULL_NODE;
                let ghost a1 = self.nodes@;
                let node = Node { lft: root, rgt, key, val: value };
                proof {
                    lemma_models_frame(a, a1, s.right(), rgt);
                    lemma_models_frame(a, a1, s.left(), a[root as int].lft);
                    assert(same_entries(a, a1));
                    lemma_arena_map_same(a, a1);
                    lemma_arena_map_push(a1, node);
                }
                self.push_root(node);
                proof {
                    let ghost n = a.len() as NodeIndex;
                    let up = Shape::Fork(Box::new(s.left()), root, Box::new(Shape::Leaf));
                    let ns = Shape::Fork(Box::new(up), n, Box::new(s.right()));
                    let b = self.nodes@;
                    lemma_models_frame(a1, b, s.right(), rgt);
                    lemma_models_frame(a1, b, s.left(), a[root as int].lft);
                    assert(models(b, Shape::Leaf, NULL_NODE));
                    assert(models(b, up, root));
                    assert(models(b, ns, n));
                    lemma_bst_frame(a, b, s.left());
                    lemma_bst_frame(a, b, s.right());
                    assert(Shape::Leaf.idxs() =~= Set::<NodeIndex>::empty());
                    assert(bst(b, Shape::Leaf));
                    lemma_children_sub(up);
                    assert(bst(b, up));
                    assert(bst(b, ns));
                    lemma_children_sub(ns);
                    self.shape = Ghost(ns);
                    assert(self.nodes@.len() < NULL_NODE);
                    assert(models(self.nodes@, self.shape@, self.root));
                    assert(bst(self.nodes@, self.shape@));
                    assert(distinct_keys(self.nodes@));
                    assert forall|j: NodeIndex| #![trigger self.shape@.idxs().contains(j)]
                        (j as int) < self.nodes@.len() implies self.shape@.idxs().contains(j) by {
                        if j != n {
                            assert(s.idxs().contains(j));
                        }
                    }
                }
                None
            },
        }
    }

    /// Remove the root node and return its entry. The arena stays dense: when the root
    /// is not the last slot, the last slot's node is first splayed to the top of the
    /// remaining tree and then moved into the freed slot.
    fn non_empty_pop_root(&mut self) -> (r: (u64, V))
        requires
            old(self).wf(),
            old(self).nodes@.len() > 0,
        ensures
            final(self).wf(),
            r.0 == old(self).root_key(),
            old(self)@.contains_key(r.0),
            r.1 == old(self)@[r.0],
            final(self)@ == old(self)@.remove(r.0),
    {
        let ghost a = self.nodes@;
        let ghost s = self.shape@;
        let root = self.root;
        proof {
            let z: NodeIndex = 0;
            assert(s.idxs().contains(z));
            lemma_models_bounds(a, s, root);
            lemma_arena_map_at(a, root as int);
        }
        let (new_root, ns) = join_children(&mut self.nodes, root, self.shape);
        let ghost b = self.nodes@;
        proof {
            lemma_arena_map_same(a, b);
            lemma_models_bounds(b, ns@, new_root);
        }
        let last = (self.nodes.len() - 1) as NodeIndex;
        if last != root {
            proof {
                assert(s.idxs().contains(last));
                assert(ns@.idxs().contains(last));
            }
            let last_key = self.nodes[last as usize].key;
            let (top, o, ts) = splay_by(&mut self.nodes, new_root, &Target::Key(last_key), ns);
            let ghost c = self.nodes@;
            proof {
                lemma_splayed_entries(b, c, ns@, Target::Key(last_key), top, o, ts@);
                lemma_arena_map_same(b, c);
                let tv = ts@;
                lemma_children_sub(tv);
                lemma_models_unfold(c, tv, top);
                lemma_bst_unfold(c, tv);
                lemma_models_bounds(c, tv, top);
                assert(tv.idxs().contains(last));
                if top != last {
                    assert(c[top as int].key != c[last as int].key);
                    if tv.left().idxs().contains(last) {
                    } else {
                        assert(tv.right().idxs().contains(last));
                    }
                }
                assert(top == last);
            }
            let removed = self.nodes.swap_remove(root as usize);
            proof {
                let tv = ts@;
                let d = self.nodes@;
                lemma_arena_map_swap_remove(c, root as int);
                assert(!tv.idxs().contains(root));
                assert forall|j: NodeIndex| #[trigger] tv.left().idxs().contains(j) implies j
                    != last && j != root && (j as int) < d.len() by {}
                assert forall|j: NodeIndex| #[trigger] tv.right().idxs().contains(j) implies j
                    != last && j != root && (j as int) < d.len() by {}
                lemma_models_frame(c, d, tv.left(), c[last as int].lft);
                lemma_models_frame(c, d, tv.right(), c[last as int].rgt);
                lemma_bst_frame(c, d, tv.left());
                lemma_bst_frame(c, d, tv.right());
                let fs = Shape::Fork(Box::new(tv.left()), root, Box::new(tv.right()));
                lemma_children_sub(fs);
                assert(models(d, fs, root));
                assert(bst(d, fs));
                self.shape = Ghost(fs);
                assert forall|j: NodeIndex| #![trigger self.shape@.idxs().contains(j)]
                    (j as int) < d.len() implies self.shape@.idxs().contains(j) by {
                    if j != root {
                        assert(s.idxs().contains(j));
                        assert(tv.idxs().contains(j));
                    }
                }
            }
            (removed.key, removed.val)
        } else {
            self.root = new_root;
            self.shape = ns;
            let removed = self.nodes.pop().unwrap();
            proof {
                let d = self.nodes@;
                assert(b.update(root as int, b.last()).drop_last() =~= d);
                lemma_arena_map_swap_remove(b, root as int);
                assert forall|j: NodeIndex| #[trigger] ns@.idxs().contains(j) implies (j as int)
                    < d.len() by {}
                lemma_models_frame(b, d, ns@, new_root);
                lemma_bst_frame(b, d, ns@);
                assert forall|j: NodeIndex| #![trigger self.shape@.idxs().contains(j)]
                    (j as int) < d.len() implies self.shape@.idxs().contains(j) by {
                    assert(s.idxs().contains(j));
                }
            }
            (removed.key, removed.val)
        }
    }

    /// Remove `key`; returns its value if it was present.
    pub fn remove(&mut self, key: u64) -> (r: Option<V>)
        requires
            old(self).wf(),
        ensures
            final(self).wf(),
            final(self)@ == old(self)@.remove(key),
            r == (if old(self)@.contains_key(key) {
                Some(old(self)@[key])
            } else {
                None::<V>
            }),
    {
        if self.contains_key(key) {
            proof {
                lemma_arena_map_len(self.nodes@);
            }
            let (_k, v) = self.non_empty_pop_root();
            Some(v)
        } else {
            proof {
                assert(old(self)@.remove(key) =~= old(self)@);
            }
            None
        }
    }

    /// Every key of the tree sits at some index of its shape.
    proof fn lemma_key_at(&self, x: u64)
        requires
            self.wf(),
            self@.contains_key(x),
        ensures
            exists|j: NodeIndex|
                #![trigger self.shape@.idxs().contains(j)]
                self.shape@.idxs().contains(j) && self.nodes@[j as int].key == x && self@[x]
                    == self.nodes@[j as int].val,
    {
        lemma_arena_map_has(self.nodes@, x);
        let i = choose|i: int|
            0 <= i < self.nodes@.len() && self.nodes@[i].key == x && self@[x] == self.nodes@[i].val;
        let j = i as NodeIndex;
        assert(j as int == i);
        assert(self.shape@.idxs().contains(j));
    }

    /// The least key that the target does not lie above, if any; the tree is splayed
    /// so that it ends at the root or right below it.
    fn find_bound(&mut self, target: &Target) -> (r: Option<u64>)
        requires
            old(self).wf(),
        ensures
            final(self).wf(),
            final(self)@ == old(self)@,
            r.is_some() == exists|x: u64|
                old(self)@.contains_key(x) && target_cmp(*target, x) != Ordering::Greater,
            r matches Some(b) ==> {
                &&& old(self)@.contains_key(b)
                &&& target_cmp(*target, b) != Ordering::Greater
                &&& forall|x: u64|
                    old(self)@.contains_key(x) && target_cmp(*target, x) != Ordering::Greater
                        ==> b <= x
            },
    {
        if self.nodes.len() == 0 {
            proof {
                if exists|x: u64| self@.contains_key(x) {
                    let x = choose|x: u64| self@.contains_key(x);
                    lemma_arena_map_has(self.nodes@, x);
                }
            }
            return None;
        }
        let order = self.splay_root(target);
        let ghost a = self.nodes@;
        let ghost s = self.shape@;
        let root = self.root;
        proof {
            lemma_target_monotone(*target);
            lemma_models_unfold(a, s, root);
            lemma_models_bounds(a, s, root);
            lemma_children_sub(s);
            lemma_bst_unfold(a, s);
            lemma_arena_map_at(a, root as int);
        }
        if matches!(order, Ordering::Greater) {
            let root_rgt = self.nodes[root as usize].rgt;
            if root_rgt == NULL_NODE {
                proof {
                    lemma_models_bounds(a, s.right(), root_rgt);
                    assert forall|x: u64| #[trigger] self@.contains_key(x) implies target_cmp(*target, x)
                        == Ordering::Greater by {
                        self.lemma_key_at(x);
                        let j = choose|j: NodeIndex|
                            #![trigger self.shape@.idxs().contains(j)]
                            self.shape@.idxs().contains(j) && self.nodes@[j as int].key == x;
                        if s.left().idxs().contains(j) {
                            assert(target_cmp(*target, a[j as int].key) == Ordering::Greater);
                        }
                    }
                }
                None
            } else {
                let (m, _o, sr) = splay_by(&mut self.nodes, root_rgt, &Target::Min, Ghost(s.right()));
                let ghost b = self.nodes@;
                self.nodes[root as usize].rgt = m;
                proof {
                    let srv = sr@;
                    let d = self.nodes@;
                    lemma_children_sub(srv);
                    lemma_models_unfold(b, srv, m);
                    lemma_bst_unfold(b, srv);
                    if srv.left().is_fork() {
                        lemma_children_sub(srv.left());
                        assert(srv.left().idxs().contains(srv.left().top()));
                    }
                    lemma_splayed_entries(a, b, s.right(), Target::Min, m, _o, srv);
                    assert(same_entries(a, d));
                    lemma_arena_map_same(a, d);
                    assert forall|j: NodeIndex| #[trigger] s.left().idxs().contains(j) implies !s.right().idxs().contains(j) && j != root by {}
                    lemma_models_frame(a, d, s.left(), a[root as int].lft);
                    lemma_models_frame(b, d, srv, m);
                    let fs = Shape::Fork(Box::new(s.left()), root, Box::new(srv));
                    assert(models(d, fs, root));
                    lemma_bst_frame(a, d, s.left());
                    lemma_bst_frame(b, d, srv);
                    lemma_children_sub(fs);
                    assert(bst(d, fs));
                    self.shape = Ghost(fs);
                    assert forall|j: NodeIndex| #![trigger self.shape@.idxs().contains(j)]
                        (j as int) < d.len() implies self.shape@.idxs().contains(j) by {
                        assert(s.idxs().contains(j));
                    }
                    lemma_arena_map_at(d, m as int);
                    assert forall|x: u64|
                        old(self)@.contains_key(x) && target_cmp(*target, x) != Ordering::Greater
                            implies d[m as int].key <= x by {
                        old(self).lemma_key_at(x);
                        let j = choose|j: NodeIndex|
                            #![trigger s.idxs().contains(j)]
                            s.idxs().contains(j) && a[j as int].key == x;
                        if s.left().idxs().contains(j) {
                            assert(target_cmp(*target, a[j as int].key) == Ordering::Greater);
                        } else if j == root {
                        } else {
                            assert(srv.idxs().contains(j));
                        }
                    }
                    assert(target_cmp(*target, d[m as int].key) == Ordering::Less);
                }
                Some(self.nodes[m as usize].key)
            }
        } else {
            proof {
                assert forall|x: u64|
                    old(self)@.contains_key(x) && target_cmp(*target, x) != Ordering::Greater
                        implies a[root as int].key <= x by {
                    old(self).lemma_key_at(x);
                    let j = choose|j: NodeIndex|
                        #![trigger s.idxs().contains(j)]
                        s.idxs().contains(j) && a[j as int].key == x;
                    if s.left().idxs().contains(j) {
                        assert(target_cmp(*target, a[j as int].key) == Ordering::Greater);
                    }
                }
            }
            Some(self.nodes[root as usize].key)
        }
    }

    /// The greatest key that the target does not lie below, if any; the tree is splayed
    /// so that it ends at the root or right below it.
    fn find_bound_below(&mut self, target: &Target) -> (r: Option<u64>)
        requires
            old(self).wf(),
        ensures
            final(self).wf(),
            final(self)@ == old(self)@,
            r.is_some() == exists|x: u64|
                old(self)@.contains_key(x) && target_cmp(*target, x) != Ordering::Less,
            r matches Some(b) ==> {
                &&& old(self)@.contains_key(b)
                &&& target_cmp(*target, b) != Ordering::Less
                &&& forall|x: u64|
                    old(self)@.contains_key(x) && target_cmp(*target, x) != Ordering::Less
                        ==> x <= b
            },
    {
        if self.nodes.len() == 0 {
            proof {
                if exists|x: u64| self@.contains_key(x) {
                    let x = choose|x: u64| self@.contains_key(x);
                    lemma_arena_map_has(self.nodes@, x);
                }
            }
            return None;
        }
        let order = self.splay_root(target);
        let ghost a = self.nodes@;
        let ghost s = self.shape@;
        let root = self.root;
        proof {
            lemma_target_monotone(*target);
            lemma_models_unfold(a, s, root);
            lemma_models_bounds(a, s, root);
            lemma_children_sub(s);
            lemma_bst_unfold(a, s);
            lemma_arena_map_at(a, root as int);
        }
        if matches!(order, Ordering::Less) {
            let root_lft = self.nodes[root as usize].lft;
            if root_lft == NULL_NODE {
                proof {
                    lemma_models_bounds(a, s.left(), root_lft);
                    assert forall|x: u64| #[trigger] self@.contains_key(x) implies target_cmp(*target, x)
                        == Ordering::Less by {
                        self.lemma_key_at(x);
                        let j = choose|j: NodeIndex|
                            #![trigger self.shape@.idxs().contains(j)]
                            self.shape@.idxs().contains(j) && self.nodes@[j as int].key == x;
                        if s.right().idxs().contains(j) {
                            assert(target_cmp(*target, a[j as int].key) == Ordering::Less);
                        }
                    }
                }
                None
            } else {
                let (m, _o, sr) = splay_by(&mut self.nodes, root_lft, &Target::Max, Ghost(s.left()));
                let ghost b = self.nodes@;
                self.nodes[root as usize].lft = m;
                proof {
                    let srv = sr@;
                    let d = self.nodes@;
                    lemma_children_sub(srv);
                    lemma_models_unfold(b, srv, m);
                    lemma_bst_unfold(b, srv);
                    if srv.right().is_fork() {
                        lemma_children_sub(srv.right());
                        assert(srv.right().idxs().contains(srv.right().top()));
                    }
                    lemma_splayed_entries(a, b, s.left(), Target::Max, m, _o, srv);
                    assert(same_entries(a, d));
                    lemma_arena_map_same(a, d);
                    assert forall|j: NodeIndex| #[trigger] s.right().idxs().contains(j) implies !s.left().idxs().contains(j) && j != root by {}
                    lemma_models_frame(a, d, s.right(), a[root as int].rgt);
                    lemma_models_frame(b, d, srv, m);
                    let fs = Shape::Fork(Box::new(srv), root, Box::new(s.right()));
                    assert(models(d, fs, root));
                    lemma_bst_frame(a, d, s.right());
                    lemma_bst_frame(b, d, srv);
                    lemma_children_sub(fs);
                    assert(bst(d, fs));
                    self.shape = Ghost(fs);
                    assert forall|j: NodeIndex| #![trigger self.shape@.idxs().contains(j)]
                        (j as int) < d.len() implies self.shape@.idxs().contains(j) by {
                        assert(s.idxs().contains(j));
                    }
                    lemma_arena_map_at(d, m as int);
                    assert forall|x: u64|
                        old(self)@.contains_key(x) && target_cmp(*target, x) != Ordering::Less
                            implies x <= d[m as int].key by {
                        old(self).lemma_key_at(x);
                        let j = choose|j: NodeIndex|
                            #![trigger s.idxs().contains(j)]
                            s.idxs().contains(j) && a[j as int].key == x;
                        if s.right().idxs().contains(j) {
                            assert(target_cmp(*target, a[j as int].key) == Ordering::Less);
                        } else if j == root {
                        } else {
                            assert(srv.idxs().contains(j));
                        }
                    }
                    assert(target_cmp(*target, d[m as int].key) == Ordering::Greater);
                }
                Some(self.nodes[m as usize].key)
            }
        } else {
            proof {
                assert forall|x: u64|
                    old(self)@.contains_key(x) && target_cmp(*target, x) != Ordering::Less
                        implies x <= a[root as int].key by {
                    old(self).lemma_key_at(x);
                    let j = choose|j: NodeIndex|
                        #![trigger s.idxs().contains(j)]
                        s.idxs().contains(j) && a[j as int].key == x;
                    if s.right().idxs().contains(j) {
                        assert(target_cmp(*target, a[j as int].key) == Ordering::Less);
                    }
                }
            }
            Some(self.nodes[root as usize].key)
        }
    }

    /// The least key at or above `key`.
    pub fn find_lower_bound(&mut self, key: u64) -> (r: Option<u64>)
        requires
            old(self).wf(),
        ensures
            final(self).wf(),
            final(self)@ == old(self)@,
            r.is_some() == exists|x: u64| old(self)@.contains_key(x) && key <= x,
            r matches Some(b) ==> {
                &&& old(self)@.contains_key(b)
                &&& key <= b
                &&& forall|x: u64| old(self)@.contains_key(x) && key <= x ==> b <= x
            },
    {
        let r = self.find_bound(&Target::Key(key));
        proof {
            if r.is_none() {
                assert forall|x: u64| #[trigger] old(self)@.contains_key(x) implies !(key <= x) by {
                    if key <= x {
                        assert(target_cmp(Target::Key(key), x) != Ordering::Greater);
                    }
                }
            }
            if let Some(b) = r {
                assert forall|x: u64| old(self)@.contains_key(x) && key <= x implies b <= x by {
                    assert(target_cmp(Target::Key(key), x) != Ordering::Greater);
                }
            }
        }
        r
    }

    /// The least key strictly above `key`.
    pub fn find_upper_bound(&mut self, key: u64) -> (r: Option<u64>)
        requires
            old(self).wf(),
        ensures
            final(self).wf(),
            final(self)@ == old(self)@,
            r.is_some() == exists|x: u64| old(self)@.contains_key(x) && key < x,
            r matches Some(b) ==> {
                &&& old(self)@.contains_key(b)
                &&& key < b
                &&& forall|x: u64| old(self)@.contains_key(x) && key < x ==> b <= x
            },
    {
        let r = self.find_bound(&Target::Above(key));
        proof {
            if r.is_none() {
                assert forall|x: u64| #[trigger] old(self)@.contains_key(x) implies !(key < x) by {
                    if key < x {
                        assert(target_cmp(Target::Above(key), x) != Ordering::Greater);
                    }
                }
            }
            if let Some(b) = r {
                assert forall|x: u64| old(self)@.contains_key(x) && key < x implies b <= x by {
                    assert(target_cmp(Target::Above(key), x) != Ordering::Greater);
                }
            }
        }
        r
    }

    /// The greatest key strictly below `key`.
    pub fn find_less(&mut self, key: u64) -> (r: Option<u64>)
        requires
            old(self).wf(),
        ensures
            final(self).wf(),
            final(self)@ == old(self)@,
            r.is_some() == exists|x: u64| old(self)@.contains_key(x) && x < key,
            r matches Some(b) ==> {
                &&& old(self)@.contains_key(b)
                &&& b < key
                &&& forall|x: u64| old(self)@.contains_key(x) && x < key ==> x <= b
            },
    {
        let r = self.find_bound_below(&Target::Below(key));
        proof {
            if r.is_none() {
                assert forall|x: u64| #[trigger] old(self)@.contains_key(x) implies !(x < key) by {
                    if x < key {
                        assert(target_cmp(Target::Below(key), x) != Ordering::Less);
                    }
                }
            }
            if let Some(b) = r {
                assert forall|x: u64| old(self)@.contains_key(x) && x < key implies x <= b by {
                    assert(target_cmp(Target::Below(key), x) != Ordering::Less);
                }
            }
        }
        r
    }

    /// After splaying towards an end, the root holds the least (for `Min`) or the
    /// greatest (for `Max`) key.
    proof fn lemma_root_extreme(&self, target: Target, o: Ordering)
        requires
            self.wf(),
            self.shape@.is_fork(),
            self.shape@.top() == self.root,
            target == Target::Min || target == Target::Max,
            o == target_cmp(target, self.nodes@[self.root as int].key),
            o == Ordering::Less ==> forall|j: NodeIndex| #[trigger]
                self.shape@.left().idxs().contains(j) ==> target_cmp(target, self.nodes@[j as int].key)
                    == Ordering::Greater,
            o == Ordering::Greater ==> forall|j: NodeIndex| #[trigger]
                self.shape@.right().idxs().contains(j) ==> target_cmp(target, self.nodes@[j as int].key)
                    == Ordering::Less,
        ensures
            self@.contains_key(self.root_key()),
            target == Target::Min ==> forall|x: u64| #[trigger]
                self@.contains_key(x) ==> self.root_key() <= x,
            target == Target::Max ==> forall|x: u64| #[trigger]
                self@.contains_key(x) ==> x <= self.root_key(),
    {
        let s = self.shape@;
        lemma_children_sub(s);
        lemma_models_bounds(self.nodes@, s, self.root);
        lemma_bst_unfold(self.nodes@, s);
        lemma_arena_map_at(self.nodes@, self.root as int);
        assert forall|x: u64| #[trigger] self@.contains_key(x) implies (target == Target::Min ==> self.root_key() <= x) && (target == Target::Max ==> x <= self.root_key()) by {
            self.lemma_key_at(x);
            let j = choose|j: NodeIndex|
                #![trigger s.idxs().contains(j)]
                s.idxs().contains(j) && self.nodes@[j as int].key == x;
            if s.left().idxs().contains(j) {
            } else if s.right().idxs().contains(j) {
            }
        }
    }

    /// The entry with the least key, left at the root.
    pub fn get_lftmost(&mut self) -> (r: Option<(u64, &V)>)
        requires
            old(self).wf(),
        ensures
            final(self).wf(),
            final(self)@ == old(self)@,
            r.is_none() == (old(self)@.len() == 0),
            r matches Some((k, v)) ==> {
                &&& old(self)@.contains_key(k)
                &&& *v == old(self)@[k]
                &&& forall|x: u64| #[trigger] old(self)@.contains_key(x) ==> k <= x
            },
    {
        proof {
            lemma_arena_map_len(self.nodes@);
        }
        if self.nodes.len() == 0 {
            return None;
        }
        let o = self.splay_root(&Target::Min);
        proof {
            lemma_models_bounds(self.nodes@, self.shape@, self.root);
            self.lemma_root_extreme(Target::Min, o);
            lemma_arena_map_at(self.nodes@, self.root as int);
        }
        let n = &self.nodes[self.root as usize];
        Some((n.key, &n.val))
    }

    /// The entry with the greatest key, left at the root.
    pub fn get_rgtmost(&mut self) -> (r: Option<(u64, &V)>)
        requires
            old(self).wf(),
        ensures
            final(self).wf(),
            final(self)@ == old(self)@,
            r.is_none() == (old(self)@.len() == 0),
            r matches Some((k, v)) ==> {
                &&& old(self)@.contains_key(k)
                &&& *v == old(self)@[k]
                &&& forall|x: u64| #[trigger] old(self)@.contains_key(x) ==> x <= k
            },
    {
        proof {
            lemma_arena_map_len(self.nodes@);
        }
        if self.nodes.len() == 0 {
            return None;
        }
        let o = self.splay_root(&Target::Max);
        proof {
            lemma_models_bounds(self.nodes@, self.shape@, self.root);
            self.lemma_root_extreme(Target::Max, o);
            lemma_arena_map_at(self.nodes@, self.root as int);
        }
        let n = &self.nodes[self.root as usize];
        Some((n.key, &n.val))
    }

    /// Remove and return the entry with the least key.
    pub fn take_lftmost(&mut self) -> (r: Option<(u64, V)>)
        requires
            old(self).wf(),
        ensures
            final(self).wf(),
            r.is_none() == (old(self)@.len() == 0),
            r.is_none() ==> final(self)@ == old(self)@,
            r matches Some((k, v)) ==> {
                &&& old(self)@.contains_key(k)
                &&& v == old(self)@[k]
                &&& forall|x: u64| #[trigger] old(self)@.contains_key(x) ==> k <= x
                &&& final(self)@ == old(self)@.remove(k)
            },
    {
        proof {
            lemma_arena_map_len(self.nodes@);
        }
        if self.nodes.len() == 0 {
            return None;
        }
        let o = self.splay_root(&Target::Min);
        proof {
            self.lemma_root_extreme(Target::Min, o);
        }
        Some(self.non_empty_pop_root())
    }

    /// Remove and return the entry with the greatest key.
    pub fn take_rgtmost(&mut self) -> (r: Option<(u64, V)>)
        requires
            old(self).wf(),
        ensures
            final(self).wf(),
            r.is_none() == (old(self)@.len() == 0),
            r.is_none() ==> final(self)@ == old(self)@,
            r matches Some((k, v)) ==> {
                &&& old(self)@.contains_key(k)
                &&& v == old(self)@[k]
                &&& forall|x: u64| #[trigger] old(self)@.contains_key(x) ==> x <= k
                &&& final(self)@ == old(self)@.remove(k)
            },
    {
        proof {
            lemma_arena_map_len(self.nodes@);
        }
        if self.nodes.len() == 0 {
            return None;
        }
        let o = self.splay_root(&Target::Max);
        proof {
            self.lemma_root_extreme(Target::Max, o);
        }
        Some(self.non_empty_pop_root())
    }

    /// Remove and return the entry at the root (the one most recently reached).
    pub fn pop_root(&mut self) -> (r: Option<(u64, V)>)
        requires
            old(self).wf(),
        ensures
            final(self).wf(),
            r.is_none() == (old(self)@.len() == 0),
            r.is_none() ==> final(self)@ == old(self)@,
            r matches Some((k, v)) ==> {
                &&& k == old(self).root_key()
                &&& old(self)@.contains_key(k)
                &&& v == old(self)@[k]
                &&& final(self)@ == old(self)@.remove(k)
            },
    {
        proof {
            lemma_arena_map_len(self.nodes@);
        }
        if self.nodes.len() == 0 {
            return None;
        }
        Some(self.non_empty_pop_root())
    }

    /// The key stored in the last arena slot.
    pub closed spec fn last_key(&self) -> u64 {
        self.nodes@.last().key
    }

    /// Remove and return the entry stored in the last arena slot.
    pub fn pop_last(&mut self) -> (r: Option<(u64, V)>)
        requires
            old(self).wf(),
        ensures
            final(self).wf(),
            r.is_none() == (old(self)@.len() == 0),
            r.is_none() ==> final(self)@ == old(self)@,
            r matches Some((k, v)) ==> {
                &&& k == old(self).last_key()
                &&& old(self)@.contains_key(k)
                &&& v == old(self)@[k]
                &&& final(self)@ == old(self)@.remove(k)
            },
    {
        proof {
            lemma_arena_map_len(self.nodes@);
        }
        if self.nodes.len() == 0 {
            return None;
        }
        let key = self.nodes[self.nodes.len() - 1].key;
        proof {
            lemma_arena_map_at(self.nodes@, self.nodes@.len() - 1);
        }
        self.contains_key(key);
        proof {
            lemma_arena_map_len(self.nodes@);
        }
        Some(self.non_empty_pop_root())
    }

    /// The index of the root node, if the tree is not empty.
    pub fn root(&self) -> (r: Option<NodeIndex>)
        requires
            self.wf(),
        ensures
            r.is_none() == (self@.len() == 0),
            r matches Some(i) ==> i == self.root_index(),
    {
        proof {
            lemma_arena_map_len(self.nodes@);
        }
        if self.nodes.len() == 0 {
            None
        } else {
            Some(self.root)
        }
    }

    /// The index of the root slot.
    pub closed spec fn root_index(&self) -> NodeIndex {
        self.root
    }

    /// The root node; the tree must not be empty.
    pub fn root_ref(&self) -> (n: &Node<V>)
        requires
            self.wf(),
            self@.len() > 0,
        ensures
            n.key == self.root_key(),
            self@.contains_key(n.key),
            n.val == self@[n.key],
    {
        proof {
            lemma_arena_map_len(self.nodes@);
            let z: NodeIndex = 0;
            assert(self.shape@.idxs().contains(z));
            lemma_models_bounds(self.nodes@, self.shape@, self.root);
            lemma_arena_map_at(self.nodes@, self.root as int);
        }
        &self.nodes[self.root as usize]
    }

    /// The arena slots in storage order (not in key order).
    pub fn nodes_iter(&self) -> (s: &[Node<V>])
        requires
            self.wf(),
        ensures
            s@.len() == self@.len(),
            arena_map(s@) == self@,
            distinct_keys(s@),
    {
        proof {
            lemma_arena_map_len(self.nodes@);
        }
        self.nodes.as_slice()
    }

    /// The entries in ascending key order, borrowed from the arena. The walk does not
    /// splay.
    pub fn iter(&self) -> (r: Vec<(u64, &V)>)
        requires
            self.wf(),
        ensures
            lists_in_order(self@, r@.map_values(|e: (u64, &V)| (e.0, *e.1))),
    {
        let ghost order = self.shape@.inorder();
        let ghost ns = self.nodes@;
        proof {
            lemma_arena_map_len(ns);
            lemma_models_bounds(ns, self.shape@, self.root);
            lemma_inorder(ns, self.shape@);
            if self.shape@.is_fork() {
                lemma_children_sub(self.shape@);
            }
            if ns.len() > 0 {
                let z: NodeIndex = 0;
                assert(self.shape@.idxs().contains(z));
            }
        }
        let slice = self.nodes.as_slice();
        let mut it = InOrderIter::new(self.root(), slice, self.shape);
        let mut out: Vec<(u64, &V)> = Vec::new();
        loop
            invariant
                self.wf(),
                order == self.shape@.inorder(),
                slice@ == ns,
                ns == self.nodes@,
                it.wf(ns),
                out@.len() + it.remaining().len() == order.len(),
                it.remaining() == order.subrange(out@.len() as int, order.len() as int),
                forall|i: int| 0 <= i < out@.len() ==> (#[trigger] out@[i]).0 == ns[order[i] as int].key
                    && *out@[i].1 == ns[order[i] as int].val,
            ensures
                it.remaining().len() == 0,
            decreases it.remaining().len(),
        {
            let ghost before = it.remaining();
            match it.next(slice) {
                None => {
                    break;
                },
                Some(x) => {
                    proof {
                        lemma_models_bounds(ns, self.shape@, self.root);
                        lemma_inorder(ns, self.shape@);
                        assert(order[out@.len() as int] == x);
                        assert(order.contains(x));
                        assert(self.shape@.idxs().contains(x));
                        assert(it.remaining() =~= order.subrange(out@.len() as int + 1, order.len() as int));
                    }
                    out.push((self.nodes[x as usize].key, &self.nodes[x as usize].val));
                },
            }
        }
        proof {
            lemma_models_bounds(ns, self.shape@, self.root);
            lemma_inorder(ns, self.shape@);
            let r = out@.map_values(|e: (u64, &V)| (e.0, *e.1));
            assert(out@.len() == order.len());
            assert forall|i: int, j: int| 0 <= i < j < r.len() implies #[trigger] r[i].0 < #[trigger] r[j].0 by {
                assert(r[i].0 == ns[order[i] as int].key);
                assert(r[j].0 == ns[order[j] as int].key);
            }
            assert forall|i: int| 0 <= i < r.len() implies self@.contains_key(#[trigger] r[i].0) && self@[r[i].0] == r[i].1 by {
                assert(order.contains(order[i]));
                assert(self.shape@.idxs().contains(order[i]));
                lemma_arena_map_at(ns, order[i] as int);
            }
            assert forall|k: u64| #[trigger] self@.contains_key(k) implies exists|i: int| 0 <= i < r.len() && r[i].0 == k by {
                self.lemma_key_at(k);
                let j = choose|j: NodeIndex|
                    #![trigger self.shape@.idxs().contains(j)]
                    self.shape@.idxs().contains(j) && self.nodes@[j as int].key == k;
                assert(order.contains(j));
                let p = choose|p: int| 0 <= p < order.len() && order[p] == j;
                assert(r[p].0 == k);
            }
        }
        out
    }

    /// Whether both trees hold the same keys with equal values (by `V`'s `==`),
    /// however their shapes differ. The listings are compared in key order.
    pub fn eq_entries(&self, other: &Tree<V>) -> (r: bool)
        where
            V: PartialEq,
        requires
            self.wf(),
            other.wf(),
            V::obeys_eq_spec(),
        ensures
            r == (self@.dom() == other@.dom() && forall|k: u64| #[trigger]
                self@.contains_key(k) ==> self@[k].eq_spec(&other@[k])),
    {
        let a = self.iter();
        let b = other.iter();
        let ghost sa = a@.map_values(|e: (u64, &V)| (e.0, *e.1));
        let ghost sb = b@.map_values(|e: (u64, &V)| (e.0, *e.1));
        if a.len() != b.len() {
            proof {
                if self@.dom() == other@.dom() {
                    lemma_same_keys_same_listing(self@, other@, sa, sb);
                }
            }
            return false;
        }
        let mut i: usize = 0;
        while i < a.len()
            invariant
                a@.len() == b@.len(),
                i <= a@.len(),
                sa == a@.map_values(|e: (u64, &V)| (e.0, *e.1)),
                sb == b@.map_values(|e: (u64, &V)| (e.0, *e.1)),
                lists_in_order(self@, sa),
                lists_in_order(other@, sb),
                V::obeys_eq_spec(),
                forall|j: int| 0 <= j < i ==> (#[trigger] sa[j]).0 == sb[j].0 && sa[j].1.eq_spec(&sb[j].1),
            decreases a@.len() - i,
        {
            if a[i].0 != b[i].0 || !(a[i].1 == b[i].1) {
                proof {
                    assert(sa[i as int].0 != sb[i as int].0 || !sa[i as int].1.eq_spec(&sb[i as int].1));
                    if self@.dom() == other@.dom() {
                        lemma_same_keys_same_listing(self@, other@, sa, sb);
                        assert(self@.contains_key(sa[i as int].0));
                    }
                }
                return false;
            }
            i = i + 1;
        }
        proof {
            assert forall|k: u64| #[trigger] self@.contains_key(k) implies other@.contains_key(k) && self@[k].eq_spec(&other@[k]) by {
                let j = choose|j: int| 0 <= j < sa.len() && sa[j].0 == k;
                assert(sb[j].0 == k);
            }
            assert forall|k: u64| #[trigger] other@.contains_key(k) implies self@.contains_key(k) by {
                let j = choose|j: int| 0 <= j < sb.len() && sb[j].0 == k;
                assert(sa[j].0 == k);
            }
            assert(self@.dom() =~= other@.dom());
        }
        true
    }

    /// Consume the tree, returning its entries in ascending key order.
    pub fn into_iter(self) -> (r: Vec<(u64, V)>)
        requires
            self.wf(),
        ensures
            lists_in_order(self@, r@),
    {
        let ghost orig = self@;
        let mut t = self;
        let mut out: Vec<(u64, V)> = Vec::new();
        while !t.is_empty()
            invariant
                t.wf(),
                forall|i: int| 0 <= i < out@.len() ==> orig.contains_key(#[trigger] out@[i].0)
                    && orig[out@[i].0] == out@[i].1,
                forall|i: int, j: int| 0 <= i < j < out@.len() ==> #[trigger] out@[i].0 < #[trigger] out@[j].0,
                forall|k: u64| #[trigger] t@.contains_key(k) ==> orig.contains_key(k) && orig[k] == t@[k],
                forall|i: int, k: u64| 0 <= i < out@.len() && #[trigger] t@.contains_key(k) ==> #[trigger] out@[i].0 < k,
                forall|k: u64| #[trigger] orig.contains_key(k) ==> t@.contains_key(k) || exists|i: int| 0 <= i < out@.len() && out@[i].0 == k,
            decreases t@.len(),
        {
            proof {
                lemma_arena_map_len(t.nodes@);
            }
            let ghost before = t@;
            match t.take_lftmost() {
                None => {},
                Some(e) => {
                    proof {
                        lemma_arena_map_len(t.nodes@);
                        assert(t@.len() < before.len()) by {
                            assert(before.dom().remove(e.0) =~= t@.dom());
                        }
                    }
                    let ghost prev = out@;
                    out.push(e);
                    proof {
                        assert forall|k: u64| #[trigger] orig.contains_key(k) implies t@.contains_key(k) || exists|i: int| 0 <= i < out@.len() && out@[i].0 == k by {
                            if !t@.contains_key(k) {
                                if before.contains_key(k) {
                                    assert(k == e.0);
                                    assert(out@[prev.len() as int].0 == k);
                                } else {
                                    let i = choose|i: int| 0 <= i < prev.len() && prev[i].0 == k;
                                    assert(out@[i].0 == k);
                                }
                            }
                        }
                        assert forall|i: int, j: int| 0 <= i < j < out@.len() implies #[trigger] out@[i].0 < #[trigger] out@[j].0 by {
                            if j == prev.len() {
                                assert(before.contains_key(e.0));
                            } else {
                                assert(prev[i].0 < prev[j].0);
                            }
                        }
                        assert forall|i: int, k: u64| 0 <= i < out@.len() && #[trigger] t@.contains_key(k) implies #[trigger] out@[i].0 < k by {
                            assert(before.contains_key(k));
                            if i < prev.len() {
                                assert(prev[i].0 < k);
                            }
                        }
                    }
                },
            }
        }
        proof {
            assert forall|k: u64| #[trigger] orig.contains_key(k) implies exists|i: int| 0 <= i < out@.len() && out@[i].0 == k by {
                lemma_arena_map_len(t.nodes@);
                if t@.contains_key(k) {
                    assert(t@.dom().contains(k));
                    t@.dom().lemma_len0_is_empty();
                }
            }
        }
        out
    }

    /// After a splay towards `key`, the root holds `key` exactly when the splay ended
    /// on `Equal`.
    proof fn lemma_found_iff(&self, key: u64, o: Ordering)
        requires
            self.wf(),
            self.nodes@.len() > 0,
            self.shape@.top() == self.root,
            self.shape@.is_fork(),
            o == target_cmp(Target::Key(key), self.nodes@[self.root as int].key),
            o == Ordering::Less ==> forall|j: NodeIndex| #[trigger]
                self.shape@.left().idxs().contains(j) ==> target_cmp(
                    Target::Key(key),
                    self.nodes@[j as int].key,
                ) == Ordering::Greater,
            o == Ordering::Greater ==> forall|j: NodeIndex| #[trigger]
                self.shape@.right().idxs().contains(j) ==> target_cmp(
                    Target::Key(key),
                    self.nodes@[j as int].key,
                ) == Ordering::Less,
        ensures
            self@.contains_key(key) == (o == Ordering::Equal),
            o == Ordering::Equal ==> self.nodes@[self.root as int].key == key,
    {
        let s = self.shape@;
        lemma_children_sub(s);
        lemma_bst_unfold(self.nodes@, s);
        lemma_models_bounds(self.nodes@, s, self.root);
        if o == Ordering::Equal {
            lemma_arena_map_at(self.nodes@, self.root as int);
        } else if self@.contains_key(key) {
            lemma_arena_map_has(self.nodes@, key);
            let i = choose|i: int| 0 <= i < self.nodes@.len() && self.nodes@[i].key == key;
            let j = i as NodeIndex;
            assert(j as int == i);
            assert(s.idxs().contains(j));
            if s.left().idxs().contains(j) {
            } else if s.right().idxs().contains(j) {
            } else {
            }
        }
    }
}

} // verus!
