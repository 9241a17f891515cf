//! The ghost picture of an arena tree: which node indices form which subtree.
use vstd::prelude::*;

verus! {

/// Index of a node in the arena.
pub type NodeIndex = u32;

/// The reserved index that stands for "no child".
pub const NULL_NODE: NodeIndex = 0xffff_ffff;

/// One arena slot: a key, its value, and the indices of both children.
pub struct Node<V> {
    pub lft: NodeIndex,
    pub rgt: NodeIndex,
    pub key: u64,
    pub val: V,
}

impl<V> Node<V> {
    /// A node with the given entry and children.
    pub fn new(key: u64, value: V, lft: NodeIndex, rgt: NodeIndex) -> (n: Self)
        ensures
            n.key == key,
            n.val == value,
            n.lft == lft,
            n.rgt == rgt,
    {
        Node { lft, rgt, key, val: value }
    }

    /// The right child, if any.
    pub fn rgt(&self) -> (r: Option<NodeIndex>)
        ensures
            r == (if self.rgt != NULL_NODE {
                Some(self.rgt)
            } else {
                None::<NodeIndex>
            }),
    {
        if self.rgt != NULL_NODE {
            Some(self.rgt)
        } else {
            None
        }
    }

    /// The left child, if any.
    pub fn lft(&self) -> (r: Option<NodeIndex>)
        ensures
            r == (if self.lft != NULL_NODE {
                Some(self.lft)
            } else {
                None::<NodeIndex>
            }),
    {
        if self.lft != NULL_NODE {
            Some(self.lft)
        } else {
            None
        }
    }
}

/// The shape of a (sub)tree as a recursive value over arena indices.
pub enum Shape {
    Leaf,
    Fork(Box<Shape>, NodeIndex, Box<Shape>),
}

impl Shape {
    /// The indices that occur in the shape.
    pub open spec fn idxs(self) -> Set<NodeIndex>
        decreases self,
    {
        match self {
            Shape::Leaf => Set::empty(),
            Shape::Fork(l, i, r) => l.idxs().union(r.idxs()).insert(i),
        }
    }

    /// Indices in in-order: left subtree, node, right subtree.
    pub open spec fn inorder(self) -> Seq<NodeIndex>
        decreases self,
    {
        match self {
            Shape::Leaf => Seq::empty(),
            Shape::Fork(l, i, r) => l.inorder().push(i) + r.inorder(),
        }
    }

    pub open spec fn size(self) -> nat
        decreases self,
    {
        match self {
            Shape::Leaf => 0,
            Shape::Fork(l, _, r) => l.size() + 1 + r.size(),
        }
    }

    pub open spec fn is_fork(self) -> bool {
        self is Fork
    }

    pub open spec fn top(self) -> NodeIndex {
        match self {
            Shape::Leaf => NULL_NODE,
            Shape::Fork(_, i, _) => i,
        }
    }

    pub open spec fn left(self) -> Shape {
        match self {
            Shape::Leaf => Shape::Leaf,
            Shape::Fork(l, _, _) => *l,
        }
    }

    pub open spec fn right(self) -> Shape {
        match self {
            Shape::Leaf => Shape::Leaf,
            Shape::Fork(_, _, r) => *r,
        }
    }

    /// The last node on the right spine.
    pub open spec fn rightmost(self) -> NodeIndex
        decreases self,
    {
        match self {
            Shape::Leaf => NULL_NODE,
            Shape::Fork(_, i, r) => if r.is_fork() { r.rightmost() } else { i },
        }
    }

    /// The last node on the left spine.
    pub open spec fn leftmost(self) -> NodeIndex
        decreases self,
    {
        match self {
            Shape::Leaf => NULL_NODE,
            Shape::Fork(l, i, _) => if l.is_fork() { l.leftmost() } else { i },
        }
    }

    /// Replace the empty right child at the end of the right spine by `t`.
    pub open spec fn plug_right(self, t: Shape) -> Shape
        decreases self,
    {
        match self {
            Shape::Leaf => t,
            Shape::Fork(l, i, r) => Shape::Fork(l, i, Box::new(r.plug_right(t))),
        }
    }

    /// Replace the empty left child at the end of the left spine by `t`.
    pub open spec fn plug_left(self, t: Shape) -> Shape
        decreases self,
    {
        match self {
            Shape::Leaf => t,
            Shape::Fork(l, i, r) => Shape::Fork(Box::new(l.plug_left(t)), i, r),
        }
    }
}

/// The arena links from index `x` down trace exactly the shape `t`.
pub open spec fn models<V>(nodes: Seq<Node<V>>, t: Shape, x: NodeIndex) -> bool
    decreases t,
{
    match t {
        Shape::Leaf => x == NULL_NODE,
        Shape::Fork(l, i, r) => {
            &&& x == i
            &&& i != NULL_NODE
            &&& (i as int) < nodes.len()
            &&& models(nodes, *l, nodes[i as int].lft)
            &&& models(nodes, *r, nodes[i as int].rgt)
        },
    }
}

/// Search-tree order of the keys over the shape.
pub open spec fn bst<V>(nodes: Seq<Node<V>>, t: Shape) -> bool
    decreases t,
{
    match t {
        Shape::Leaf => true,
        Shape::Fork(l, i, r) => {
            &&& bst(nodes, *l)
            &&& bst(nodes, *r)
            &&& forall|j: NodeIndex| #[trigger]
                l.idxs().contains(j) ==> nodes[j as int].key < nodes[i as int].key
            &&& forall|j: NodeIndex| #[trigger]
                r.idxs().contains(j) ==> nodes[i as int].key < nodes[j as int].key
        },
    }
}

/// Every key of `s` is below every key of `t`.
pub open spec fn keys_below<V>(nodes: Seq<Node<V>>, s: Set<NodeIndex>, t: Set<NodeIndex>) -> bool {
    forall|a: NodeIndex, b: NodeIndex|
        #![trigger s.contains(a), t.contains(b)]
        s.contains(a) && t.contains(b) ==> nodes[a as int].key < nodes[b as int].key
}

/// `a` and `b` hold the same links and keys at every index of `s`.
pub open spec fn agree<V>(a: Seq<Node<V>>, b: Seq<Node<V>>, s: Set<NodeIndex>) -> bool {
    forall|j: NodeIndex| #[trigger]
        s.contains(j) ==> {
            &&& (j as int) < a.len()
            &&& (j as int) < b.len()
            &&& a[j as int].lft == b[j as int].lft
            &&& a[j as int].rgt == b[j as int].rgt
            &&& a[j as int].key == b[j as int].key
        }
}

/// `a` and `b` hold the same keys at every index of `s`.
pub open spec fn same_keys<V>(a: Seq<Node<V>>, b: Seq<Node<V>>, s: Set<NodeIndex>) -> bool {
    forall|j: NodeIndex| #[trigger]
        s.contains(j) ==> (j as int) < a.len() && (j as int) < b.len() && a[j as int].key
            == b[j as int].key
}

pub proof fn lemma_children_sub(t: Shape)
    requires
        t.is_fork(),
    ensures
        forall|j: NodeIndex| #[trigger] t.left().idxs().contains(j) ==> t.idxs().contains(j),
        forall|j: NodeIndex| #[trigger] t.right().idxs().contains(j) ==> t.idxs().contains(j),
        t.idxs().contains(t.top()),
        t.idxs() == t.left().idxs().union(t.right().idxs()).insert(t.top()),
{
}

pub proof fn lemma_models_bounds<V>(nodes: Seq<Node<V>>, t: Shape, x: NodeIndex)
    requires
        models(nodes, t, x),
    ensures
        forall|j: NodeIndex| #[trigger]
            t.idxs().contains(j) ==> (j as int) < nodes.len() && j != NULL_NODE,
        t.is_fork() <==> x != NULL_NODE,
        t.is_fork() ==> t.top() == x,
    decreases t,
{
    if let Shape::Fork(l, i, r) = t {
        lemma_children_sub(t);
        lemma_models_bounds(nodes, *l, nodes[i as int].lft);
        lemma_models_bounds(nodes, *r, nodes[i as int].rgt);
    }
}

pub proof fn lemma_models_unfold<V>(nodes: Seq<Node<V>>, t: Shape, x: NodeIndex)
    requires
        models(nodes, t, x),
        t.is_fork(),
    ensures
        x == t.top(),
        x != NULL_NODE,
        (x as int) < nodes.len(),
        models(nodes, t.left(), nodes[x as int].lft),
        models(nodes, t.right(), nodes[x as int].rgt),
{
}

pub proof fn lemma_bst_unfold<V>(nodes: Seq<Node<V>>, t: Shape)
    requires
        bst(nodes, t),
        t.is_fork(),
    ensures
        bst(nodes, t.left()),
        bst(nodes, t.right()),
        forall|j: NodeIndex| #[trigger]
            t.left().idxs().contains(j) ==> nodes[j as int].key < nodes[t.top() as int].key,
        forall|j: NodeIndex| #[trigger]
            t.right().idxs().contains(j) ==> nodes[t.top() as int].key < nodes[j as int].key,
{
}

pub proof fn lemma_models_frame<V>(a: Seq<Node<V>>, b: Seq<Node<V>>, t: Shape, x: NodeIndex)
    requires
        models(a, t, x),
        agree(a, b, t.idxs()),
    ensures
        models(b, t, x),
    decreases t,
{
    if let Shape::Fork(l, i, r) = t {
        lemma_children_sub(t);
        lemma_models_frame(a, b, *l, a[i as int].lft);
        lemma_models_frame(a, b, *r, a[i as int].rgt);
    }
}

pub proof fn lemma_bst_frame<V>(a: Seq<Node<V>>, b: Seq<Node<V>>, t: Shape)
    requires
        bst(a, t),
        same_keys(a, b, t.idxs()),
    ensures
        bst(b, t),
    decreases t,
{
    if let Shape::Fork(l, i, r) = t {
        lemma_children_sub(t);
        lemma_bst_frame(a, b, *l);
        lemma_bst_frame(a, b, *r);
        assert forall|j: NodeIndex| #[trigger] l.idxs().contains(j) implies b[j as int].key
            < b[i as int].key by {
            assert(t.idxs().contains(j));
        }
        assert forall|j: NodeIndex| #[trigger] r.idxs().contains(j) implies b[i as int].key
            < b[j as int].key by {
            assert(t.idxs().contains(j));
        }
    }
}


pub proof fn lemma_rightmost_in(t: Shape)
    requires
        t.is_fork(),
    ensures
        t.idxs().contains(t.rightmost()),
    decreases t,
{
    if let Shape::Fork(l, i, r) = t {
        if r.is_fork() {
            lemma_rightmost_in(*r);
        }
    }
}

pub proof fn lemma_plug_right_idxs(s: Shape, t: Shape)
    ensures
        s.plug_right(t).idxs() == s.idxs().union(t.idxs()),
    decreases s,
{
    if let Shape::Fork(l, i, r) = s {
        lemma_plug_right_idxs(*r, t);
    }
    assert(s.plug_right(t).idxs() =~= s.idxs().union(t.idxs()));
}

pub proof fn lemma_plug_right_rightmost(s: Shape, t: Shape)
    requires
        t.is_fork(),
    ensures
        s.plug_right(t).rightmost() == t.rightmost(),
        s.plug_right(t).is_fork(),
    decreases s,
{
    if let Shape::Fork(l, i, r) = s {
        lemma_plug_right_rightmost(*r, t);
    }
}

pub proof fn lemma_plug_right_bst<V>(nodes: Seq<Node<V>>, s: Shape, t: Shape)
    requires
        bst(nodes, s),
        bst(nodes, t),
        keys_below(nodes, s.idxs(), t.idxs()),
    ensures
        bst(nodes, s.plug_right(t)),
    decreases s,
{
    if let Shape::Fork(l, i, r) = s {
        assert(s.idxs().contains(i));
        assert forall|a: NodeIndex, b: NodeIndex|
            r.idxs().contains(a) && t.idxs().contains(b) implies nodes[a as int].key
            < nodes[b as int].key by {
            assert(s.idxs().contains(a));
        }
        lemma_plug_right_bst(nodes, *r, t);
        lemma_plug_right_idxs(*r, t);
    }
}

pub proof fn lemma_plug_right_models<V>(
    a: Seq<Node<V>>,
    b: Seq<Node<V>>,
    s: Shape,
    root: NodeIndex,
    t: Shape,
    x: NodeIndex,
)
    requires
        models(a, s, root),
        s.is_fork(),
        bst(a, s),
        models(b, t, x),
        agree(a, b, s.idxs().remove(s.rightmost())),
        (s.rightmost() as int) < b.len(),
        b[s.rightmost() as int].lft == a[s.rightmost() as int].lft,
        b[s.rightmost() as int].rgt == x,
    ensures
        models(b, s.plug_right(t), root),
    decreases s,
{
    if let Shape::Fork(l, i, r) = s {
        let last = s.rightmost();
        if r.is_fork() {
            lemma_rightmost_in(*r);
            assert(s.idxs().contains(i));
            assert(i != last);
            assert forall|j: NodeIndex| #[trigger] l.idxs().contains(j) implies s.idxs().remove(
                last,
            ).contains(j) by {
                assert(s.idxs().contains(j));
            }
            assert forall|j: NodeIndex| #[trigger] r.idxs().remove(last).contains(j) implies s.idxs().remove(
                last,
            ).contains(j) by {
                assert(s.idxs().contains(j));
            }
            lemma_models_frame(a, b, *l, a[i as int].lft);
            lemma_plug_right_models(a, b, *r, a[i as int].rgt, t, x);
        } else {
            assert forall|j: NodeIndex| #[trigger] l.idxs().contains(j) implies s.idxs().remove(
                last,
            ).contains(j) by {
                assert(s.idxs().contains(j));
            }
            lemma_models_frame(a, b, *l, a[i as int].lft);
        }
    }
}

pub proof fn lemma_leftmost_in(t: Shape)
    requires
        t.is_fork(),
    ensures
        t.idxs().contains(t.leftmost()),
    decreases t,
{
    if let Shape::Fork(r, i, l) = t {
        if r.is_fork() {
            lemma_leftmost_in(*r);
        }
    }
}

pub proof fn lemma_plug_left_idxs(s: Shape, t: Shape)
    ensures
        s.plug_left(t).idxs() == s.idxs().union(t.idxs()),
    decreases s,
{
    if let Shape::Fork(r, i, l) = s {
        lemma_plug_left_idxs(*r, t);
    }
    assert(s.plug_left(t).idxs() =~= s.idxs().union(t.idxs()));
}

pub proof fn lemma_plug_left_leftmost(s: Shape, t: Shape)
    requires
        t.is_fork(),
    ensures
        s.plug_left(t).leftmost() == t.leftmost(),
        s.plug_left(t).is_fork(),
    decreases s,
{
    if let Shape::Fork(r, i, l) = s {
        lemma_plug_left_leftmost(*r, t);
    }
}

pub proof fn lemma_plug_left_bst<V>(nodes: Seq<Node<V>>, s: Shape, t: Shape)
    requires
        bst(nodes, s),
        bst(nodes, t),
        keys_below(nodes, t.idxs(), s.idxs()),
    ensures
        bst(nodes, s.plug_left(t)),
    decreases s,
{
    if let Shape::Fork(r, i, l) = s {
        assert(s.idxs().contains(i));
        assert forall|a: NodeIndex, b: NodeIndex|
            r.idxs().contains(a) && t.idxs().contains(b) implies nodes[b as int].key
            < nodes[a as int].key by {
            assert(s.idxs().contains(a));
        }
        lemma_plug_left_bst(nodes, *r, t);
        lemma_plug_left_idxs(*r, t);
    }
}

pub proof fn lemma_plug_left_models<V>(
    a: Seq<Node<V>>,
    b: Seq<Node<V>>,
    s: Shape,
    root: NodeIndex,
    t: Shape,
    x: NodeIndex,
)
    requires
        models(a, s, root),
        s.is_fork(),
        bst(a, s),
        models(b, t, x),
        agree(a, b, s.idxs().remove(s.leftmost())),
        (s.leftmost() as int) < b.len(),
        b[s.leftmost() as int].rgt == a[s.leftmost() as int].rgt,
        b[s.leftmost() as int].lft == x,
    ensures
        models(b, s.plug_left(t), root),
    decreases s,
{
    if let Shape::Fork(r, i, l) = s {
        let last = s.leftmost();
        if r.is_fork() {
            lemma_leftmost_in(*r);
            assert(s.idxs().contains(i));
            assert(i != last);
            assert forall|j: NodeIndex| #[trigger] l.idxs().contains(j) implies s.idxs().remove(
                last,
            ).contains(j) by {
                assert(s.idxs().contains(j));
            }
            assert forall|j: NodeIndex| #[trigger] r.idxs().remove(last).contains(j) implies s.idxs().remove(
                last,
            ).contains(j) by {
                assert(s.idxs().contains(j));
            }
            lemma_models_frame(a, b, *l, a[i as int].rgt);
            lemma_plug_left_models(a, b, *r, a[i as int].lft, t, x);
        } else {
            assert forall|j: NodeIndex| #[trigger] l.idxs().contains(j) implies s.idxs().remove(
                last,
            ).contains(j) by {
                assert(s.idxs().contains(j));
            }
            lemma_models_frame(a, b, *l, a[i as int].rgt);
        }
    }
}

/// In-order position and membership agree, and a search tree lists its keys in
/// strictly ascending order.
pub proof fn lemma_inorder<V>(nodes: Seq<Node<V>>, t: Shape)
    requires
        bst(nodes, t),
    ensures
        forall|j: NodeIndex|
            #![trigger t.idxs().contains(j)]
            #![trigger t.inorder().contains(j)]
            t.idxs().contains(j) <==> t.inorder().contains(j),
        forall|p: int, q: int|
            0 <= p < q < t.inorder().len() ==> nodes[#[trigger] t.inorder()[p] as int].key
                < nodes[#[trigger] t.inorder()[q] as int].key,
    decreases t,
{
    if let Shape::Fork(l, i, r) = t {
        lemma_inorder(nodes, *l);
        lemma_inorder(nodes, *r);
        let li = l.inorder();
        let ri = r.inorder();
        let s = t.inorder();
        assert(s == li.push(i) + ri);
        assert forall|p: int| 0 <= p < s.len() implies #[trigger] s[p] == (if p < li.len() {
            li[p]
        } else if p == li.len() {
            i
        } else {
            ri[p - li.len() - 1]
        }) by {}
        assert forall|j: NodeIndex| #[trigger] t.idxs().contains(j) <==> s.contains(j) by {
            if t.idxs().contains(j) {
                if l.idxs().contains(j) {
                    assert(li.contains(j));
                    let p = choose|p: int| 0 <= p < li.len() && li[p] == j;
                    assert(s[p] == j);
                    assert(s.contains(j));
                } else if r.idxs().contains(j) {
                    assert(ri.contains(j));
                    let p = choose|p: int| 0 <= p < ri.len() && ri[p] == j;
                    assert(s[p + li.len() + 1] == j);
                    assert(s.contains(j));
                } else {
                    assert(j == i);
                    assert(s[li.len() as int] == j);
                    assert(s.contains(j));
                }
            }
            if s.contains(j) {
                let p = choose|p: int| 0 <= p < s.len() && s[p] == j;
                if p < li.len() {
                    assert(li.contains(j));
                } else if p > li.len() {
                    assert(ri[p - li.len() - 1] == j);
                    assert(ri.contains(j));
                }
            }
        }
        assert forall|p: int, q: int| 0 <= p < q < s.len() implies nodes[#[trigger] s[p] as int].key
            < nodes[#[trigger] s[q] as int].key by {
            if p < li.len() {
                assert(li[p] == s[p]);
                assert(li.contains(s[p]));
                if q > li.len() {
                    assert(ri[q - li.len() - 1] == s[q]);
                    assert(ri.contains(s[q]));
                } else if q < li.len() {
                    assert(li[p] == s[p] && li[q] == s[q]);
                }
            } else if p == li.len() {
                assert(ri[q - li.len() - 1] == s[q]);
                assert(ri.contains(s[q]));
            } else {
                assert(ri[p - li.len() - 1] == s[p]);
                assert(ri[q - li.len() - 1] == s[q]);
            }
        }
    }
}

} // verus!
