//! The tree capability contract and the depth-first iterator over it.

use vstd::prelude::*;
use crate::order::SpecTree;
use crate::order::df_order;
use crate::order::stack_order;
use crate::order::lemma_root_first;
use crate::order::lemma_stack_order_agree;
use crate::order::lemma_stack_order_append;

verus! {

/// The capability a type must supply to be traversable: a way to enumerate
/// references to its immediate children, together with a mathematical model
/// of the subtree hanging below each node. Implementing this trait is the
/// sole extension point; any type doing so can be walked by [`TreeIter`]
/// without further traversal logic.
pub trait Tree: Sized {
    /// The rose tree modelling the subtree rooted at this node: this node's
    /// value and, recursively, the models of its children in declared
    /// order. Being a well-founded datatype, the model guarantees the tree
    /// below any node is finite.
    spec fn model(&self) -> SpecTree<Self>;

    /// The model's root is the node itself.
    proof fn lemma_model_root(&self)
        ensures
            self.model().node == *self,
    ;

    /// Enumerate references to this node's immediate children, in their
    /// declared order: one reference per child of the model, each pointing
    /// at a node carrying the corresponding child model. A node with no
    /// children yields an empty sequence.
    fn children<'a>(&'a self) -> (r: Vec<&'a Self>)
        ensures
            r@.len() == self.model().kids.len(),
            forall|i: int|
                0 <= i < r@.len() ==> (#[trigger] r@[i]).model() == self.model().kids[i],
    ;
}

/// The traversal entry point, available on every [`Tree`] through the
/// blanket impl below. It stands in its own extension trait so that
/// [`Tree`]'s contract stays independent of the iterator: implementers
/// supply only the capability, and get `df_traverse` for free.
pub trait DfTraverse: Tree {
    /// Begin a depth-first traversal rooted at this node: the iterator will
    /// produce a reference to every node reachable from here, this node
    /// first, in the order `df_order` gives for the model.
    fn df_traverse<'a>(&'a self) -> (it: TreeIter<'a, Self>)
        ensures
            it.remaining() == df_order(self.model()),
    ;
}

impl<T: Tree> DfTraverse for T {
    fn df_traverse<'a>(&'a self) -> (it: TreeIter<'a, T>) {
        let mut stack: Vec<&'a T> = Vec::new();
        stack.push(self);
        let it = TreeIter { stack };
        proof {
            assert(it.models() =~= seq![self.model()]);
            assert(stack_order(it.models(), 0) =~= Seq::<T>::empty());
            assert(it.remaining() =~= df_order(self.model()));
        }
        it
    }
}

/// A lazy depth-first iterator over a borrowed tree. It owns only its
/// pending stack of not-yet-visited node references; every entry points
/// into the tree the iterator borrows, so the tree outlives the traversal.
/// Each advance pops the most recently pushed reference, pushes that node's
/// children in declared order, and produces the popped reference.
pub struct TreeIter<'a, T: Tree> {
    /// Not-yet-visited nodes; the last entry is popped next.
    stack: Vec<&'a T>,
}

impl<'a, T: Tree> TreeIter<'a, T> {
    /// The models of the pending nodes, bottom of the stack first.
    pub closed spec fn models(self) -> Seq<SpecTree<T>> {
        self.stack@.map_values(|r: &T| r.model())
    }

    /// The node values this iterator has yet to produce, in order: the
    /// pending subtrees, top of the stack first. A freshly constructed
    /// iterator's `remaining()` is the full traversal of its root; each
    /// advance removes the first element; an exhausted iterator's
    /// `remaining()` is empty and stays so.
    pub open spec fn remaining(self) -> Seq<T> {
        stack_order(self.models(), self.models().len() as int)
    }

    /// An exhausted iterator is one with nothing pending.
    proof fn lemma_remaining_empty(self)
        ensures
            self.remaining().len() == 0 <==> self.models().len() == 0,
    {
        if self.models().len() > 0 {
            lemma_root_first(self.models().last());
        }
    }

    /// Advance the traversal: produce the most recently pushed pending
    /// node, after pushing its children. Returns `None` exactly when the
    /// traversal is exhausted, and every later call returns `None` again
    /// with the state unchanged.
    pub fn next(&mut self) -> (r: Option<&'a T>)
        ensures
            old(self).remaining().len() == 0 ==> r is None && final(self).remaining()
                == old(self).remaining(),
            old(self).remaining().len() > 0 ==> (r matches Some(n)
                && *n == old(self).remaining()[0]
                && n.model() == old(self).models().last()
                && final(self).remaining() == old(self).remaining().drop_first()),
    {
        proof {
            old(self).lemma_remaining_empty();
        }
        let n: &'a T = match self.stack.pop() {
            Some(node) => node,
            None => {
                return None;
            },
        };
        let ghost popped: Seq<SpecTree<T>> = old(self).models();
        let ghost below: Seq<SpecTree<T>> = self.models();
        let mut kids = n.children();
        proof {
            assert(below =~= popped.drop_last());
            assert(kids@.map_values(|r: &T| r.model()) =~= n.model().kids);
        }
        self.stack.append(&mut kids);
        proof {
            n.lemma_model_root();
            let m = n.model();
            let kn = m.kids.len() as int;
            let bl = below.len() as int;
            assert(popped.len() == bl + 1);
            assert(popped[bl] == m);
            assert(old(self).remaining() == df_order(m) + stack_order(popped, bl));
            lemma_stack_order_agree(popped, below, bl);
            assert(df_order(m) == seq![m.node] + stack_order(m.kids, kn));
            assert(self.models() =~= below + m.kids);
            lemma_stack_order_append(below, m.kids, kn);
            assert(self.remaining() == stack_order(m.kids, kn) + stack_order(below, bl));
            assert(old(self).remaining().drop_first() =~= self.remaining());
            assert(old(self).remaining()[0] == m.node);
        }
        Some(n)
    }

    /// Consume the iterator, collecting every element it has yet to
    /// produce into a vector, in production order.
    pub fn collect_remaining(self) -> (out: Vec<&'a T>)
        ensures
            out@.len() == self.remaining().len(),
            forall|i: int| 0 <= i < out@.len() ==> *(#[trigger] out@[i]) == self.remaining()[i],
    {
        let ghost total: Seq<T> = self.remaining();
        let mut it = self;
        let mut out: Vec<&'a T> = Vec::new();
        while it.stack.len() != 0
            invariant
                out@.len() + it.remaining().len() == total.len(),
                forall|i: int| 0 <= i < out@.len() ==> *(#[trigger] out@[i]) == total[i],
                it.remaining() == total.skip(out@.len() as int),
            decreases it.remaining().len(),
        {
            proof {
                it.lemma_remaining_empty();
            }
            let n = it.next().unwrap();
            out.push(n);
            proof {
                assert(total.skip(out@.len() - 1).drop_first() =~= total.skip(
                    out@.len() as int,
                ));
            }
        }
        proof {
            it.lemma_remaining_empty();
        }
        out
    }
}

/// Restart independence: what a traversal will produce depends on its root
/// alone, so two iterators freshly constructed from the same root — each of
/// which `df_traverse` promises the full traversal of that root — produce
/// identical, order-matching sequences; and each iterator owns its pending
/// stack exclusively, so consuming one cannot affect the other.
pub proof fn lemma_restart_independence<'a, 'b, T: Tree>(
    root: &T,
    a: TreeIter<'a, T>,
    b: TreeIter<'b, T>,
)
    requires
        a.remaining() == df_order(root.model()),
        b.remaining() == df_order(root.model()),
    ensures
        a.remaining() == b.remaining(),
{
}

} // verus!
