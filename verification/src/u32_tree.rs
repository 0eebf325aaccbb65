//! A concrete traversable tree: owned nodes carrying a `u32` value and a
//! vector of children.

use vstd::prelude::*;
use crate::order::SpecTree;
use crate::traverse::Tree;

verus! {

/// An owned tree node holding a `u32` value and its children in declared
/// order. It implements the [`Tree`] capability, so a borrowed `U32Tree`
/// can be walked depth-first without further traversal logic.
pub struct U32Tree {
    /// The value stored at this node.
    pub value: u32,
    /// The immediate children, in declared order.
    pub children: Vec<U32Tree>,
}

/// The rose tree modelling the subtree rooted at `t`.
pub open spec fn u32_model(t: U32Tree) -> SpecTree<U32Tree>
    decreases t, 0int,
{
    SpecTree { node: t, kids: u32_kid_models(t.children@, t.children@.len() as int) }
}

/// The models of the trees `s[0], ..., s[k - 1]`, in order.
pub open spec fn u32_kid_models(s: Seq<U32Tree>, k: int) -> Seq<SpecTree<U32Tree>>
    decreases s, k,
{
    if 0 < k && k <= s.len() {
        u32_kid_models(s, k - 1).push(u32_model(s[k - 1]))
    } else {
        Seq::empty()
    }
}

/// `u32_kid_models(s, k)` maps each of `s[0], ..., s[k - 1]` to its model.
proof fn lemma_u32_kid_models(s: Seq<U32Tree>, k: int)
    requires
        0 <= k <= s.len(),
    ensures
        u32_kid_models(s, k).len() == k,
        forall|i: int| 0 <= i < k ==> u32_kid_models(s, k)[i] == u32_model(s[i]),
    decreases k,
{
    if 0 < k {
        lemma_u32_kid_models(s, k - 1);
    }
}

impl Tree for U32Tree {
    open spec fn model(&self) -> SpecTree<U32Tree> {
        u32_model(*self)
    }

    proof fn lemma_model_root(&self) {
    }

    fn children<'a>(&'a self) -> (r: Vec<&'a U32Tree>) {
        proof {
            lemma_u32_kid_models(self.children@, self.children@.len() as int);
        }
        let mut r: Vec<&U32Tree> = Vec::new();
        let mut i: usize = 0;
        while i < self.children.len()
            invariant
                i <= self.children@.len(),
                r@.len() == i,
                forall|j: int| 0 <= j < i ==> *(#[trigger] r@[j]) == self.children@[j],
            decreases self.children@.len() - i,
        {
            r.push(&self.children[i]);
            i = i + 1;
        }
        r
    }
}

} // verus!
