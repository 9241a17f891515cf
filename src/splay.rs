//! The splay engine: top-down splaying of an arena subtree towards a target.
use vstd::prelude::*;
use std::cmp::Ordering;
use crate::arena::same_entries;
use crate::shape::{
    Node, NodeIndex, NULL_NODE, Shape, models, bst, keys_below, lemma_children_sub,
    lemma_models_bounds, lemma_models_unfold, lemma_bst_unfold, lemma_models_frame,
    lemma_bst_frame, lemma_rightmost_in, lemma_leftmost_in, lemma_plug_right_idxs,
    lemma_plug_left_idxs, lemma_plug_right_rightmost, lemma_plug_left_leftmost,
    lemma_plug_right_bst, lemma_plug_left_bst, lemma_plug_right_models, lemma_plug_left_models,
};

verus! {

/// What a splay descends towards: a key, the first key above or below one, or an end.
pub enum Target {
    /// Compare with the key itself.
    Key(u64),
    /// Treat an equal key as lying below the target.
    Above(u64),
    /// Treat an equal key as lying above the target.
    Below(u64),
    /// Always descend left.
    Min,
    /// Always descend right.
    Max,
}

/// How the target compares with a node's key (`Less`: the target lies below it).
pub open spec fn target_cmp(t: Target, key: u64) -> Ordering {
    match t {
        Target::Key(k) => if k < key {
            Ordering::Less
        } else if k == key {
            Ordering::Equal
        } else {
            Ordering::Greater
        },
        Target::Above(k) => if k < key {
            Ordering::Less
        } else {
            Ordering::Greater
        },
        Target::Below(k) => if k <= key {
            Ordering::Less
        } else {
            Ordering::Greater
        },
        Target::Min => Ordering::Less,
        Target::Max => Ordering::Greater,
    }
}

pub(crate) fn compare(t: &Target, key: u64) -> (o: Ordering)
    ensures
        o == target_cmp(*t, key),
{
    match t {
        Target::Key(k) => if *k < key {
            Ordering::Less
        } else if *k == key {
            Ordering::Equal
        } else {
            Ordering::Greater
        },
        Target::Above(k) => if *k < key {
            Ordering::Less
        } else {
            Ordering::Greater
        },
        Target::Below(k) => if *k <= key {
            Ordering::Less
        } else {
            Ordering::Greater
        },
        Target::Min => Ordering::Less,
        Target::Max => Ordering::Greater,
    }
}

/// A target lies below every key above one it lies below, and above every key below
/// one it lies above.
pub(crate) proof fn lemma_target_monotone(t: Target)
    ensures
        forall|x: u64, y: u64|
            #![trigger target_cmp(t, x), target_cmp(t, y)]
            x < y && target_cmp(t, x) == Ordering::Less ==> target_cmp(t, y) == Ordering::Less,
        forall|x: u64, y: u64|
            #![trigger target_cmp(t, x), target_cmp(t, y)]
            x < y && target_cmp(t, y) == Ordering::Greater ==> target_cmp(t, x)
                == Ordering::Greater,
        forall|x: u64, y: u64|
            #![trigger target_cmp(t, x), target_cmp(t, y)]
            x < y && target_cmp(t, y) == Ordering::Equal ==> target_cmp(t, x)
                == Ordering::Greater,
        forall|x: u64, y: u64|
            #![trigger target_cmp(t, x), target_cmp(t, y)]
            x < y && target_cmp(t, x) == Ordering::Equal ==> target_cmp(t, y)
                == Ordering::Less,
{
}

/// What a splay of the subtree `t` (from arena `a` to arena `b`) guarantees.
pub open spec fn splayed<V>(
    a: Seq<Node<V>>,
    b: Seq<Node<V>>,
    t: Shape,
    target: Target,
    r: NodeIndex,
    o: Ordering,
    s: Shape,
) -> bool {
    &&& b.len() == a.len()
    &&& forall|j: NodeIndex| #![trigger b[j as int]]
        (j as int) < a.len() ==> b[j as int].key == a[j as int].key && b[j as int].val
            == a[j as int].val
    &&& forall|j: NodeIndex| #![trigger b[j as int]]
        (j as int) < a.len() && !t.idxs().contains(j) ==> b[j as int] == a[j as int]
    &&& s.idxs() == t.idxs()
    &&& s.is_fork()
    &&& s.top() == r
    &&& models(b, s, r)
    &&& bst(b, s)
    &&& o == target_cmp(target, b[r as int].key)
    &&& (o == Ordering::Less ==> forall|j: NodeIndex| #[trigger]
        s.left().idxs().contains(j) ==> target_cmp(target, b[j as int].key) == Ordering::Greater)
    &&& (o == Ordering::Greater ==> forall|j: NodeIndex| #[trigger]
        s.right().idxs().contains(j) ==> target_cmp(target, b[j as int].key) == Ordering::Less)
}

/// Top-down splay of the subtree at `root` towards `target`. Returns the new subtree
/// root (the node last compared) and how the target compared with it.
#[verifier::rlimit(80)]
#[verifier::spinoff_prover]
pub(crate) fn splay_by<V>(nodes: &mut Vec<Node<V>>, root: NodeIndex, target: &Target, Ghost(t): Ghost<Shape>) -> (res: (
    NodeIndex,
    Ordering,
    Ghost<Shape>,
))
    requires
        old(nodes)@.len() < NULL_NODE,
        models(old(nodes)@, t, root),
        t.is_fork(),
        bst(old(nodes)@, t),
    ensures
        splayed(old(nodes)@, final(nodes)@, t, *target, res.0, res.1, res.2@),
{
    let ghost a0 = nodes@;
    proof {
        lemma_target_monotone(*target);
        lemma_models_bounds(a0, t, root);
    }
    let mut curr = root;
    let mut order = compare(target, nodes[curr as usize].key);
    let mut lft_root = NULL_NODE;
    let mut rgt_root = NULL_NODE;
    let mut lft_last = NULL_NODE;
    let mut rgt_last = NULL_NODE;
    let ghost mut lt = Shape::Leaf;
    let ghost mut rt = Shape::Leaf;
    let ghost mut ct = t;
    loop
        invariant
            nodes@.len() == a0.len(),
            a0.len() < NULL_NODE,
            forall|j: NodeIndex| #![trigger nodes@[j as int]]
                (j as int) < a0.len() ==> nodes@[j as int].key == a0[j as int].key
                    && nodes@[j as int].val == a0[j as int].val,
            forall|j: NodeIndex| #![trigger nodes@[j as int]]
                (j as int) < a0.len() && !t.idxs().contains(j) ==> nodes@[j as int]
                    == a0[j as int],
            models(nodes@, lt, lft_root),
            models(nodes@, rt, rgt_root),
            models(nodes@, ct, curr),
            ct.is_fork(),
            lt.is_fork() ==> lt.rightmost() == lft_last,
            rt.is_fork() ==> rt.leftmost() == rgt_last,
            lt.idxs().union(rt.idxs()).union(ct.idxs()) == t.idxs(),
            bst(a0, lt),
            bst(a0, rt),
            bst(a0, ct),
            keys_below(a0, lt.idxs(), ct.idxs()),
            keys_below(a0, ct.idxs(), rt.idxs()),
            keys_below(a0, lt.idxs(), rt.idxs()),
            forall|j: NodeIndex| #[trigger]
                lt.idxs().contains(j) ==> target_cmp(*target, a0[j as int].key)
                    == Ordering::Greater,
            forall|j: NodeIndex| #[trigger]
                rt.idxs().contains(j) ==> target_cmp(*target, a0[j as int].key)
                    == Ordering::Less,
            order == target_cmp(*target, a0[curr as int].key),
        ensures
            order == Ordering::Less ==> nodes@[curr as int].lft == NULL_NODE,
            order == Ordering::Greater ==> nodes@[curr as int].rgt == NULL_NODE,
        decreases ct.size(),
    {
        proof {
            lemma_models_bounds(nodes@, ct, curr);
            lemma_models_bounds(nodes@, lt, lft_root);
            lemma_models_bounds(nodes@, rt, rgt_root);
        }
        let cur_l = nodes[curr as usize].lft;
        let cur_r = nodes[curr as usize].rgt;
            if matches!(order, Ordering::Greater) && cur_r != NULL_NODE {
                let ghost n0 = nodes@;
                let ghost ca = ct.left();
                let ghost cc = ct.right();
                proof {
                    lemma_children_sub(ct);
                    lemma_models_bounds(n0, cc, cur_r);
                    lemma_children_sub(cc);
                    assert(ct.idxs().contains(cur_r));
                    assert(a0[curr as int].key < a0[cur_r as int].key);
                    lemma_models_unfold(n0, ct, curr);
                    lemma_models_unfold(n0, cc, cur_r);
                    lemma_bst_unfold(a0, ct);
                    lemma_bst_unfold(a0, cc);
                    if cc.left().is_fork() {
                        lemma_children_sub(cc.left());
                    }
                    if cc.right().is_fork() {
                        lemma_children_sub(cc.right());
                    }
                }
                let child = cur_r;
                nodes[curr as usize].rgt = NULL_NODE;
                let o2 = compare(target, nodes[child as usize].key);
                let grand = nodes[child as usize].rgt;
                let x: NodeIndex;
                let next_idx: NodeIndex;
                let next_order: Ordering;
                let ghost piece: Shape;
                let ghost next: Shape;
                if matches!(o2, Ordering::Greater) && grand != NULL_NODE {
                    let cl = nodes[child as usize].lft;
                    nodes[child as usize].rgt = NULL_NODE;
                    nodes[curr as usize].rgt = cl;
                    nodes[child as usize].lft = curr;
                    proof {
                        lemma_models_bounds(n0, cc.right(), grand);
                        lemma_children_sub(cc.right());
                        let ghost inner = Shape::Fork(Box::new(ca), curr, Box::new(cc.left()));
                        piece = Shape::Fork(Box::new(inner), child, Box::new(Shape::Leaf));
                        next = cc.right();
                        lemma_models_frame(n0, nodes@, ca, n0[curr as int].lft);
                        lemma_models_frame(n0, nodes@, cc.left(), cl);
                        lemma_models_frame(n0, nodes@, next, grand);
                        lemma_children_sub(inner);
                        assert(models(nodes@, inner, curr));
                        assert(nodes@[child as int].lft == curr);
                        assert(models(nodes@, Shape::Leaf, nodes@[child as int].rgt));
                        assert(models(nodes@, piece, child));
                        assert(bst(a0, inner));
                        assert forall|j: NodeIndex| #[trigger] inner.idxs().contains(j) implies a0[j as int].key
                            < a0[child as int].key by {
                            if ca.idxs().contains(j) {
                            }
                        }
                        assert(Shape::Leaf.idxs() =~= Set::<NodeIndex>::empty());
                        assert(bst(a0, Shape::Leaf));
                        assert(bst(a0, piece));
                    }
                    x = child;
                    next_idx = grand;
                    next_order = compare(target, nodes[grand as usize].key);
                } else {
                    proof {
                        piece = Shape::Fork(Box::new(ca), curr, Box::new(Shape::Leaf));
                        next = cc;
                        lemma_models_frame(n0, nodes@, ca, n0[curr as int].lft);
                        lemma_models_frame(n0, nodes@, next, child);
                        assert(nodes@[curr as int].rgt == NULL_NODE);
                        assert(nodes@[curr as int].lft == n0[curr as int].lft);
                        assert(models(nodes@, ca, nodes@[curr as int].lft));
                        assert(models(nodes@, Shape::Leaf, nodes@[curr as int].rgt));
                        assert(models(nodes@, piece, curr));
                        assert(bst(a0, ca));
                        assert(bst(a0, Shape::Leaf));
                        assert(forall|j: NodeIndex| #[trigger] ca.idxs().contains(j) ==> a0[j as int].key < a0[curr as int].key);
                        assert(forall|j: NodeIndex| #[trigger] Shape::Leaf.idxs().contains(j) ==> a0[j as int].key < a0[curr as int].key);
                        assert(bst(a0, piece));
                    }
                    x = curr;
                    next_idx = child;
                    next_order = o2;
                }
                let ghost n1 = nodes@;
                proof {
                    lemma_children_sub(piece);
                    assert forall|j: NodeIndex| #[trigger] piece.idxs().contains(j) implies target_cmp(
                        *target,
                        a0[j as int].key,
                    ) == Ordering::Greater by {
                        if piece.left().is_fork() {
                            lemma_children_sub(piece.left());
                        }
                    }
                    lemma_models_frame(n0, n1, rt, rgt_root);
                    lemma_models_frame(n0, n1, lt, lft_root);
                    lemma_bst_frame(a0, n1, lt);
                }
                if lft_root == NULL_NODE {
                    lft_root = x;
                    proof {
                        lt = piece;
                    }
                } else {
                    proof {
                        lemma_rightmost_in(lt);
                    }
                    nodes[lft_last as usize].rgt = x;
                    proof {
                        lemma_models_frame(n1, nodes@, piece, x);
                        lemma_plug_right_models(n1, nodes@, lt, lft_root, piece, x);
                        lemma_plug_right_bst(a0, lt, piece);
                        lemma_plug_right_idxs(lt, piece);
                        lemma_plug_right_rightmost(lt, piece);
                        lt = lt.plug_right(piece);
                    }
                }
                proof {
                    lemma_models_frame(n1, nodes@, rt, rgt_root);
                    lemma_models_frame(n1, nodes@, next, next_idx);
                    assert(ct.size() == ct.left().size() + 1 + ct.right().size());
                    assert(cc.size() == cc.left().size() + 1 + cc.right().size());
                    assert(next.size() < ct.size());
                    ct = next;
                }
                lft_last = x;
                curr = next_idx;
                order = next_order;
            } else if matches!(order, Ordering::Less) && cur_l != NULL_NODE {
                let ghost n0 = nodes@;
                let ghost ca = ct.right();
                let ghost cc = ct.left();
                proof {
                    lemma_children_sub(ct);
                    lemma_models_bounds(n0, cc, cur_l);
                    lemma_children_sub(cc);
                    assert(ct.idxs().contains(cur_l));
                    assert(a0[cur_l as int].key < a0[curr as int].key);
                    lemma_models_unfold(n0, ct, curr);
                    lemma_models_unfold(n0, cc, cur_l);
                    lemma_bst_unfold(a0, ct);
                    lemma_bst_unfold(a0, cc);
                    if cc.left().is_fork() {
                        lemma_children_sub(cc.left());
                    }
                    if cc.right().is_fork() {
                        lemma_children_sub(cc.right());
                    }
                }
                let child = cur_l;
                nodes[curr as usize].lft = NULL_NODE;
                let o2 = compare(target, nodes[child as usize].key);
                let grand = nodes[child as usize].lft;
                let x: NodeIndex;
                let next_idx: NodeIndex;
                let next_order: Ordering;
                let ghost piece: Shape;
                let ghost next: Shape;
                if matches!(o2, Ordering::Less) && grand != NULL_NODE {
                    let cl = nodes[child as usize].rgt;
                    nodes[child as usize].lft = NULL_NODE;
                    nodes[curr as usize].lft = cl;
                    nodes[child as usize].rgt = curr;
                    proof {
                        lemma_models_bounds(n0, cc.left(), grand);
                        lemma_children_sub(cc.left());
                        let ghost inner = Shape::Fork(Box::new(cc.right()), curr, Box::new(ca));
                        piece = Shape::Fork(Box::new(Shape::Leaf), child, Box::new(inner));
                        next = cc.left();
                        lemma_models_frame(n0, nodes@, ca, n0[curr as int].rgt);
                        lemma_models_frame(n0, nodes@, cc.right(), cl);
                        lemma_models_frame(n0, nodes@, next, grand);
                        lemma_children_sub(inner);
                        assert(models(nodes@, inner, curr));
                        assert(nodes@[child as int].rgt == curr);
                        assert(models(nodes@, Shape::Leaf, nodes@[child as int].lft));
                        assert(models(nodes@, piece, child));
                        assert(bst(a0, inner));
                        assert forall|j: NodeIndex| #[trigger] inner.idxs().contains(j) implies a0[child as int].key
                            < a0[j as int].key by {
                            if ca.idxs().contains(j) {
                            }
                        }
                        assert(Shape::Leaf.idxs() =~= Set::<NodeIndex>::empty());
                        assert(bst(a0, Shape::Leaf));
                        assert(bst(a0, piece));
                    }
                    x = child;
                    next_idx = grand;
                    next_order = compare(target, nodes[grand as usize].key);
                } else {
                    proof {
                        piece = Shape::Fork(Box::new(Shape::Leaf), curr, Box::new(ca));
                        next = cc;
                        lemma_models_frame(n0, nodes@, ca, n0[curr as int].rgt);
                        lemma_models_frame(n0, nodes@, next, child);
                        assert(nodes@[curr as int].lft == NULL_NODE);
                        assert(nodes@[curr as int].rgt == n0[curr as int].rgt);
                        assert(models(nodes@, ca, nodes@[curr as int].rgt));
                        assert(models(nodes@, Shape::Leaf, nodes@[curr as int].lft));
                        assert(models(nodes@, piece, curr));
                        assert(bst(a0, ca));
                        assert(bst(a0, Shape::Leaf));
                        assert(forall|j: NodeIndex| #[trigger] ca.idxs().contains(j) ==> a0[curr as int].key < a0[j as int].key);
                        assert(forall|j: NodeIndex| #[trigger] Shape::Leaf.idxs().contains(j) ==> a0[j as int].key < a0[curr as int].key);
                        assert(bst(a0, piece));
                    }
                    x = curr;
                    next_idx = child;
                    next_order = o2;
                }
                let ghost n1 = nodes@;
                proof {
                    lemma_children_sub(piece);
                    assert forall|j: NodeIndex| #[trigger] piece.idxs().contains(j) implies target_cmp(
                        *target,
                        a0[j as int].key,
                    ) == Ordering::Less by {
                        if piece.right().is_fork() {
                            lemma_children_sub(piece.right());
                        }
                    }
                    lemma_models_frame(n0, n1, lt, lft_root);
                    lemma_models_frame(n0, n1, rt, rgt_root);
                    lemma_bst_frame(a0, n1, rt);
                }
                if rgt_root == NULL_NODE {
                    rgt_root = x;
                    proof {
                        rt = piece;
                    }
                } else {
                    proof {
                        lemma_leftmost_in(rt);
                    }
                    nodes[rgt_last as usize].lft = x;
                    proof {
                        lemma_models_frame(n1, nodes@, piece, x);
                        lemma_plug_left_models(n1, nodes@, rt, rgt_root, piece, x);
                        lemma_plug_left_bst(a0, rt, piece);
                        lemma_plug_left_idxs(rt, piece);
                        lemma_plug_left_leftmost(rt, piece);
                        rt = rt.plug_left(piece);
                    }
                }
                proof {
                    lemma_models_frame(n1, nodes@, lt, lft_root);
                    lemma_models_frame(n1, nodes@, next, next_idx);
                    assert(ct.size() == ct.left().size() + 1 + ct.right().size());
                    assert(cc.size() == cc.left().size() + 1 + cc.right().size());
                    assert(next.size() < ct.size());
                    ct = next;
                }
                rgt_last = x;
                curr = next_idx;
                order = next_order;
        } else {
            break;
        }
    }
    // Reassemble: the current node's subtrees close both accumulated spines.
    let ghost n0 = nodes@;
    let ghost ca = ct.left();
    let ghost cc = ct.right();
    proof {
        lemma_children_sub(ct);
        lemma_models_bounds(n0, ct, curr);
        lemma_models_bounds(n0, lt, lft_root);
        lemma_models_bounds(n0, rt, rgt_root);
    }
    let cur_l = nodes[curr as usize].lft;
    let cur_r = nodes[curr as usize].rgt;
    nodes[curr as usize].lft = NULL_NODE;
    nodes[curr as usize].rgt = NULL_NODE;
    let ghost n1 = nodes@;
    proof {
        lemma_models_frame(n0, n1, lt, lft_root);
        lemma_models_frame(n0, n1, rt, rgt_root);
        lemma_models_frame(n0, n1, ca, cur_l);
        lemma_models_frame(n0, n1, cc, cur_r);
        lemma_bst_frame(a0, n1, lt);
        lemma_bst_frame(a0, n1, rt);
        lemma_plug_right_idxs(lt, ca);
        lemma_plug_left_idxs(rt, cc);
        lemma_plug_right_bst(a0, lt, ca);
        lemma_plug_left_bst(a0, rt, cc);
    }
    if lft_root == NULL_NODE {
        lft_root = cur_l;
    } else {
        proof {
            lemma_rightmost_in(lt);
        }
        nodes[lft_last as usize].rgt = cur_l;
        proof {
            lemma_models_frame(n1, nodes@, ca, cur_l);
            lemma_plug_right_models(n1, nodes@, lt, lft_root, ca, cur_l);
        }
    }
    let ghost n2 = nodes@;
    proof {
        lemma_models_frame(n1, n2, rt, rgt_root);
        lemma_models_frame(n1, n2, cc, cur_r);
        lemma_bst_frame(a0, n2, rt);
    }
    if rgt_root == NULL_NODE {
        rgt_root = cur_r;
    } else {
        proof {
            lemma_leftmost_in(rt);
        }
        nodes[rgt_last as usize].lft = cur_r;
        proof {
            lemma_models_frame(n2, nodes@, cc, cur_r);
            lemma_plug_left_models(n2, nodes@, rt, rgt_root, cc, cur_r);
        }
    }
    let ghost n3 = nodes@;
    let ghost lf = lt.plug_right(ca);
    let ghost rf = rt.plug_left(cc);
    proof {
        lemma_models_frame(n2, n3, lf, lft_root);
    }
    nodes[curr as usize].lft = lft_root;
    nodes[curr as usize].rgt = rgt_root;
    let ghost s = Shape::Fork(Box::new(lf), curr, Box::new(rf));
    proof {
        lemma_models_frame(n3, nodes@, lf, lft_root);
        lemma_models_frame(n3, nodes@, rf, rgt_root);
        assert(s.idxs() =~= t.idxs());
        assert(bst(a0, s));
        lemma_bst_frame(a0, nodes@, s);
    }
    (curr, order, Ghost(s))
}

pub(crate) proof fn lemma_splayed_entries<V>(
    a: Seq<Node<V>>,
    b: Seq<Node<V>>,
    t: Shape,
    target: Target,
    r: NodeIndex,
    o: Ordering,
    s: Shape,
)
    requires
        splayed(a, b, t, target, r, o, s),
        a.len() < NULL_NODE,
    ensures
        same_entries(a, b),
{
    assert forall|i: int| 0 <= i < a.len() implies #[trigger] a[i].key == b[i].key && a[i].val
        == b[i].val by {
        let j = i as NodeIndex;
        assert(j as int == i);
        assert(b[j as int].key == a[j as int].key);
    }
}

/// Link the two subtrees under `root` into one tree that leaves `root` out. The node
/// `root` itself is not changed.
pub(crate) fn join_children<V>(nodes: &mut Vec<Node<V>>, root: NodeIndex, Ghost(s): Ghost<Shape>) -> (res: (
    NodeIndex,
    Ghost<Shape>,
))
    requires
        old(nodes)@.len() < NULL_NODE,
        models(old(nodes)@, s, root),
        s.is_fork(),
        bst(old(nodes)@, s),
    ensures
        same_entries(old(nodes)@, final(nodes)@),
        final(nodes)@[root as int] == old(nodes)@[root as int],
        res.1@.idxs() == s.idxs().remove(root),
        models(final(nodes)@, res.1@, res.0),
        bst(final(nodes)@, res.1@),
{
    let ghost a = nodes@;
    proof {
        lemma_models_unfold(a, s, root);
        lemma_models_bounds(a, s, root);
        lemma_children_sub(s);
        lemma_bst_unfold(a, s);
        lemma_models_bounds(a, s.left(), a[root as int].lft);
        lemma_models_bounds(a, s.right(), a[root as int].rgt);
        assert(!s.left().idxs().contains(root));
        assert(!s.right().idxs().contains(root));
    }
    let lft = nodes[root as usize].lft;
    let rgt = nodes[root as usize].rgt;
    if lft == NULL_NODE && rgt == NULL_NODE {
        proof {
            assert(s.idxs().remove(root) =~= Shape::Leaf.idxs());
        }
        (NULL_NODE, Ghost(Shape::Leaf))
    } else if rgt == NULL_NODE {
        proof {
            assert(s.idxs().remove(root) =~= s.left().idxs());
        }
        (lft, Ghost(s.left()))
    } else if lft == NULL_NODE {
        proof {
            assert(s.idxs().remove(root) =~= s.right().idxs());
        }
        (rgt, Ghost(s.right()))
    } else if nodes[rgt as usize].lft == NULL_NODE {
        let ghost r = s.right();
        proof {
            lemma_models_unfold(a, r, rgt);
            lemma_children_sub(r);
            lemma_bst_unfold(a, r);
        }
        nodes[rgt as usize].lft = lft;
        let ghost ns = Shape::Fork(Box::new(s.left()), rgt, Box::new(r.right()));
        proof {
            assert(r.left().idxs() =~= Set::<NodeIndex>::empty()) by {
                lemma_models_bounds(a, r.left(), a[rgt as int].lft);
            }
            assert(!s.left().idxs().contains(rgt));
            lemma_models_frame(a, nodes@, s.left(), lft);
            lemma_models_frame(a, nodes@, r.right(), a[rgt as int].rgt);
            assert(models(nodes@, ns, rgt));
            assert(same_entries(a, nodes@));
            lemma_bst_frame(a, nodes@, s.left());
            lemma_bst_frame(a, nodes@, r.right());
            lemma_children_sub(ns);
            assert(bst(nodes@, ns));
            assert(ns.idxs() =~= s.idxs().remove(root));
        }
        (rgt, Ghost(ns))
    } else {
        let ghost l = s.left();
        proof {
            lemma_models_unfold(a, l, lft);
            lemma_children_sub(l);
            lemma_bst_unfold(a, l);
            lemma_models_bounds(a, l.right(), a[lft as int].rgt);
        }
        let lft_rgt = nodes[lft as usize].rgt;
        nodes[lft as usize].rgt = NULL_NODE;
        let ghost a1 = nodes@;
        proof {
            lemma_models_frame(a, a1, s.right(), rgt);
            lemma_bst_frame(a, a1, s.right());
            lemma_models_frame(a, a1, l.right(), lft_rgt);
        }
        let mut r2 = rgt;
        let ghost mut rs = s.right();
        if lft_rgt != NULL_NODE {
            let (m, _o, sr) = splay_by(nodes, rgt, &Target::Min, Ghost(s.right()));
            let ghost a2 = nodes@;
            proof {
                let srv = sr@;
                lemma_children_sub(srv);
                lemma_models_unfold(a2, srv, m);
                lemma_bst_unfold(a2, srv);
                if srv.left().is_fork() {
                    lemma_children_sub(srv.left());
                    assert(srv.left().idxs().contains(srv.left().top()));
                }
                assert(!srv.left().is_fork());
                lemma_models_frame(a1, a2, l.right(), lft_rgt);
            }
            nodes[m as usize].lft = lft_rgt;
            proof {
                let srv = sr@;
                rs = Shape::Fork(Box::new(l.right()), m, Box::new(srv.right()));
                lemma_models_frame(a2, nodes@, l.right(), lft_rgt);
                lemma_models_frame(a2, nodes@, srv.right(), a2[m as int].rgt);
                assert(models(nodes@, rs, m));
                lemma_bst_frame(a, nodes@, l.right());
                lemma_bst_frame(a2, nodes@, srv.right());
                lemma_children_sub(rs);
                assert(bst(nodes@, rs));
            }
            r2 = m;
        }
        let ghost a3 = nodes@;
        nodes[lft as usize].rgt = r2;
        let ghost ns = Shape::Fork(Box::new(l.left()), lft, Box::new(rs));
        proof {
            lemma_models_frame(a, nodes@, l.left(), a[lft as int].lft);
            lemma_models_frame(a3, nodes@, rs, r2);
            assert(models(nodes@, ns, lft));
            lemma_bst_frame(a, nodes@, l.left());
            lemma_bst_frame(a3, nodes@, rs);
            lemma_children_sub(ns);
            assert(bst(nodes@, ns));
            assert(ns.idxs() =~= s.idxs().remove(root));
        }
        (lft, Ghost(ns))
    }
}

} // verus!
