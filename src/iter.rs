//! Stack-based in-order walk over arena nodes.
use vstd::prelude::*;
use crate::shape::{
    Node, NodeIndex, NULL_NODE, Shape, models, lemma_models_unfold, lemma_models_bounds,
};

verus! {

/// One stack entry: a subtree still to be walked, or a node ready to be emitted.
pub enum Visit {
    Elem(NodeIndex),
    Node(NodeIndex),
}

/// The node indices that a stack still has to emit, top of the stack first.
pub open spec fn pending(stack: Seq<Visit>, shapes: Seq<Shape>) -> Seq<NodeIndex>
    decreases stack.len(),
{
    if stack.len() == 0 || shapes.len() == 0 {
        Seq::empty()
    } else {
        let rest = pending(stack.drop_last(), shapes.drop_last());
        match stack.last() {
            Visit::Elem(i) => seq![i] + rest,
            Visit::Node(_) => shapes.last().inorder() + rest,
        }
    }
}

/// A measure that every step of the walk decreases.
pub open spec fn weight(stack: Seq<Visit>, shapes: Seq<Shape>) -> nat
    decreases stack.len(),
{
    if stack.len() == 0 || shapes.len() == 0 {
        0
    } else {
        let rest = weight(stack.drop_last(), shapes.drop_last());
        match stack.last() {
            Visit::Elem(_) => 1 + rest,
            Visit::Node(_) => 2 * shapes.last().size() + rest,
        }
    }
}

/// A lazy in-order walk: it emits the node indices of a tree in key order.
pub struct InOrderIter {
    stack: Vec<Visit>,
    shapes: Ghost<Seq<Shape>>,
}

impl InOrderIter {
    /// Each stack entry that names a subtree matches the arena.
    pub closed spec fn wf<V>(&self, nodes: Seq<Node<V>>) -> bool {
        &&& self.stack@.len() == self.shapes@.len()
        &&& forall|i: int|
            0 <= i < self.stack@.len() ==> match #[trigger] self.stack@[i] {
                Visit::Node(x) => models(nodes, self.shapes@[i], x) && self.shapes@[i].is_fork(),
                Visit::Elem(x) => true,
            }
    }

    /// What the walk has yet to emit.
    pub closed spec fn remaining(&self) -> Seq<NodeIndex> {
        pending(self.stack@, self.shapes@)
    }

    /// A walk over the tree of shape `t` whose root is `root`.
    pub fn new<V>(root: Option<NodeIndex>, nodes: &[Node<V>], Ghost(t): Ghost<Shape>) -> (it: Self)
        requires
            match root {
                Some(x) => models(nodes@, t, x) && t.is_fork(),
                None => t == Shape::Leaf,
            },
        ensures
            it.wf(nodes@),
            it.remaining() == t.inorder(),
    {
        let mut stack: Vec<Visit> = Vec::new();
        match root {
            Some(x) => {
                stack.push(Visit::Node(x));
                let it = InOrderIter { stack, shapes: Ghost(Seq::empty().push(t)) };
                proof {
                    let e = Seq::<Visit>::empty();
                    assert(it.stack@.drop_last() =~= e);
                    assert(it.shapes@.drop_last() =~= Seq::<Shape>::empty());
                    assert(pending(e, Seq::<Shape>::empty()) == Seq::<NodeIndex>::empty());
                    assert(t.inorder() + Seq::<NodeIndex>::empty() =~= t.inorder());
                }
                it
            },
            None => {
                let it = InOrderIter { stack, shapes: Ghost(Seq::empty()) };
                proof {
                    assert(Shape::Leaf.inorder() =~= Seq::<NodeIndex>::empty());
                }
                it
            },
        }
    }

    /// The next node index in key order, if any.
    pub fn next<V>(&mut self, nodes: &[Node<V>]) -> (r: Option<NodeIndex>)
        requires
            old(self).wf(nodes@),
        ensures
            final(self).wf(nodes@),
            r.is_none() == (old(self).remaining().len() == 0),
            r.is_none() ==> final(self).remaining() == old(self).remaining(),
            old(self).remaining().len() > 0 ==> r == Some(old(self).remaining()[0])
                && final(self).remaining() == old(self).remaining().drop_first(),
    {
        loop
            invariant
                self.wf(nodes@),
                self.remaining() == old(self).remaining(),
            decreases weight(self.stack@, self.shapes@),
        {
            let ghost st = self.stack@;
            let ghost sh = self.shapes@;
            match self.stack.pop() {
                None => {
                    return None;
                },
                Some(v) => {
                    let ghost rest_sh = sh.drop_last();
                    proof {
                        assert(self.stack@ =~= st.drop_last());
                    }
                    match v {
                        Visit::Elem(x) => {
                            proof {
                                self.shapes@ = rest_sh;
                                assert(seq![x] + pending(self.stack@, self.shapes@) == old(self).remaining());
                                assert((seq![x] + pending(self.stack@, self.shapes@)).drop_first()
                                    =~= pending(self.stack@, self.shapes@));
                            }
                            return Some(x);
                        },
                        Visit::Node(x) => {
                            let ghost t = sh.last();
                            proof {
                                assert(st[st.len() - 1] == Visit::Node(x));
                                lemma_models_unfold(nodes@, t, x);
                                lemma_models_bounds(nodes@, t.left(), nodes@[x as int].lft);
                                lemma_models_bounds(nodes@, t.right(), nodes@[x as int].rgt);
                                self.shapes@ = rest_sh;
                            }
                            let ghost base = pending(self.stack@, self.shapes@);
                            let ghost wbase = weight(self.stack@, self.shapes@);
                            proof {
                                assert(weight(st, sh) == 2 * t.size() + wbase);
                            }
                            let rgt = nodes[x as usize].rgt;
                            let lft = nodes[x as usize].lft;
                            if rgt != NULL_NODE {
                                self.stack.push(Visit::Node(rgt));
                                proof {
                                    self.shapes@ = self.shapes@.push(t.right());
                                    assert(self.stack@.drop_last() =~= st.drop_last());
                                    assert(self.shapes@.drop_last() =~= rest_sh);
                                }
                            }
                            let ghost s1 = self.stack@;
                            let ghost h1 = self.shapes@;
                            proof {
                                assert(pending(s1, h1) =~= t.right().inorder() + base) by {
                                    if rgt == NULL_NODE {
                                        assert(t.right().inorder() =~= Seq::<NodeIndex>::empty());
                                    }
                                }
                                assert(weight(s1, h1) == 2 * t.right().size() + wbase) by {
                                    if rgt == NULL_NODE {
                                        assert(t.right().size() == 0);
                                    }
                                }
                            }
                            self.stack.push(Visit::Elem(x));
                            proof {
                                self.shapes@ = self.shapes@.push(Shape::Leaf);
                                assert(self.stack@.drop_last() =~= s1);
                                assert(self.shapes@.drop_last() =~= h1);
                            }
                            let ghost s2 = self.stack@;
                            let ghost h2 = self.shapes@;
                            proof {
                                assert(pending(s2, h2) == seq![x] + pending(s1, h1));
                                assert(weight(s2, h2) == 1 + weight(s1, h1));
                            }
                            if lft != NULL_NODE {
                                self.stack.push(Visit::Node(lft));
                                proof {
                                    self.shapes@ = self.shapes@.push(t.left());
                                    assert(self.stack@.drop_last() =~= s2);
                                    assert(self.shapes@.drop_last() =~= h2);
                                }
                            }
                            proof {
                                assert(pending(self.stack@, self.shapes@) == t.left().inorder()
                                    + pending(s2, h2)) by {
                                    if lft == NULL_NODE {
                                        assert(t.left().inorder() =~= Seq::<NodeIndex>::empty());
                                        assert(t.left().inorder() + pending(s2, h2) =~= pending(s2, h2));
                                    }
                                }
                                assert(weight(self.stack@, self.shapes@) == 2 * t.left().size()
                                    + weight(s2, h2)) by {
                                    if lft == NULL_NODE {
                                        assert(t.left().size() == 0);
                                    }
                                }
                                assert(pending(self.stack@, self.shapes@) =~= t.left().inorder()
                                    + seq![x] + t.right().inorder() + base);
                                assert(t.inorder() == t.left().inorder().push(x) + t.right().inorder());
                                assert(t.left().inorder().push(x) =~= t.left().inorder() + seq![x]);
                                assert(self.remaining() =~= old(self).remaining());
                                assert forall|i: int| 0 <= i < self.stack@.len() implies match #[trigger] self.stack@[i] {
                                    Visit::Node(y) => models(nodes@, self.shapes@[i], y) && self.shapes@[i].is_fork(),
                                    Visit::Elem(y) => true,
                                } by {
                                    if i < st.len() - 1 {
                                        assert(self.stack@[i] == st[i]);
                                        assert(self.shapes@[i] == sh[i]);
                                    }
                                }
                                assert(t.size() == t.left().size() + 1 + t.right().size());
                                assert(weight(self.stack@, self.shapes@) < weight(st, sh));
                            }
                        },
                    }
                },
            }
        }
    }
}

} // verus!
