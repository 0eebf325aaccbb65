//! The mathematical model of a tree and of the order in which a
//! depth-first, stack-driven walk produces its nodes.

use vstd::prelude::*;
use vstd::multiset::Multiset;
use vstd::seq_lib::lemma_multiset_commutative;
use vstd::seq_lib::group_to_multiset_ensures;

verus! {

/// A finite rose tree over node values of type `T`: one node value and the
/// models of its children, in declared order. Every traversable type maps
/// each of its nodes to such a tree (see [`crate::traverse::Tree::model`]);
/// being an ordinary well-founded datatype, it is what the traversal
/// contracts and laws are stated over.
pub ghost struct SpecTree<T> {
    /// The value stored at this node.
    pub node: T,
    /// Models of the immediate children, in their declared order.
    pub kids: Seq<SpecTree<T>>,
}

/// The sequence of node values that the traversal produces for the tree `t`:
/// the root first, then the subtrees of the children, last-declared child
/// first, because children are pushed in declared order onto a
/// last-in-first-out stack.
pub open spec fn df_order<T>(t: SpecTree<T>) -> Seq<T>
    decreases t, 0int,
{
    seq![t.node] + stack_order(t.kids, t.kids.len() as int)
}

/// The sequence of node values still to come from a pending stack whose
/// entries `s[0], ..., s[k - 1]` wait bottom-to-top: the top entry
/// `s[k - 1]` is popped first, so its whole subtree is produced before
/// `s[k - 2]` is touched, and so on down to `s[0]`.
pub open spec fn stack_order<T>(s: Seq<SpecTree<T>>, k: int) -> Seq<T>
    decreases s, k,
{
    if 0 < k && k <= s.len() {
        df_order(s[k - 1]) + stack_order(s, k - 1)
    } else {
        Seq::empty()
    }
}

/// The traversal of any tree is non-empty and starts with the root.
pub proof fn lemma_root_first<T>(t: SpecTree<T>)
    ensures
        df_order(t).len() >= 1,
        df_order(t)[0] == t.node,
{
}

/// `stack_order(s, k)` reads only the entries `s[0], ..., s[k - 1]`: two
/// stacks that agree below height `k` promise the same output.
pub proof fn lemma_stack_order_agree<T>(s: Seq<SpecTree<T>>, t: Seq<SpecTree<T>>, k: int)
    requires
        0 <= k <= s.len(),
        0 <= k <= t.len(),
        forall|i: int| 0 <= i < k ==> s[i] == t[i],
    ensures
        stack_order(s, k) == stack_order(t, k),
    decreases k,
{
    if 0 < k {
        lemma_stack_order_agree(s, t, k - 1);
    }
}

/// Pushing the entries of `b` on top of a stack `a` prepends their output:
/// the whole of `b`'s contribution is produced before `a`'s.
pub proof fn lemma_stack_order_append<T>(a: Seq<SpecTree<T>>, b: Seq<SpecTree<T>>, j: int)
    requires
        0 <= j <= b.len(),
    ensures
        stack_order(a + b, a.len() + j) == stack_order(b, j) + stack_order(a, a.len() as int),
    decreases j,
{
    let ab = a + b;
    if j == 0 {
        lemma_stack_order_agree(ab, a, a.len() as int);
        assert(stack_order(b, 0) + stack_order(a, a.len() as int)
            =~= stack_order(a, a.len() as int));
    } else {
        lemma_stack_order_append(a, b, j - 1);
        assert(ab[a.len() + j - 1] == b[j - 1]);
        assert(df_order(b[j - 1]) + (stack_order(b, j - 1) + stack_order(a, a.len() as int))
            =~= (df_order(b[j - 1]) + stack_order(b, j - 1)) + stack_order(a, a.len() as int));
    }
}

/// All node values reachable in the tree `t` — the root plus every
/// descendant — counted with multiplicity.
pub open spec fn tree_nodes<T>(t: SpecTree<T>) -> Multiset<T>
    decreases t, 0int,
{
    Multiset::singleton(t.node).add(forest_nodes(t.kids, t.kids.len() as int))
}

/// All node values reachable from the trees `s[0], ..., s[k - 1]`, counted
/// with multiplicity.
pub open spec fn forest_nodes<T>(s: Seq<SpecTree<T>>, k: int) -> Multiset<T>
    decreases s, k,
{
    if 0 < k && k <= s.len() {
        tree_nodes(s[k - 1]).add(forest_nodes(s, k - 1))
    } else {
        Multiset::empty()
    }
}

/// Completeness: the traversal produces exactly the reachable node values —
/// as a multiset, its output equals the tree's nodes, so every reachable
/// node appears exactly as often as it occurs in the tree, and nothing else
/// appears. In particular the output's length is the number of reachable
/// nodes, and a value is produced if and only if it occurs in the tree.
pub proof fn lemma_complete<T>(t: SpecTree<T>)
    ensures
        df_order(t).to_multiset() == tree_nodes(t),
        df_order(t).len() == tree_nodes(t).len(),
        forall|x: T| df_order(t).contains(x) <==> tree_nodes(t).count(x) > 0,
    decreases t, 0int,
{
    broadcast use group_to_multiset_ensures;

    lemma_forest_complete(t.kids, t.kids.len() as int);
    lemma_multiset_commutative(seq![t.node], stack_order(t.kids, t.kids.len() as int));
    assert(seq![t.node] =~= Seq::empty().push(t.node));
    assert(seq![t.node].to_multiset() =~= Multiset::singleton(t.node));
    assert(df_order(t).to_multiset() =~= tree_nodes(t));
}

/// Completeness for a pending stack: popping `s[0], ..., s[k - 1]` to
/// exhaustion produces exactly the values of their trees, with multiplicity.
pub proof fn lemma_forest_complete<T>(s: Seq<SpecTree<T>>, k: int)
    ensures
        stack_order(s, k).to_multiset() == forest_nodes(s, k),
    decreases s, k,
{
    broadcast use group_to_multiset_ensures;

    if 0 < k && k <= s.len() {
        lemma_complete(s[k - 1]);
        lemma_forest_complete(s, k - 1);
        lemma_multiset_commutative(df_order(s[k - 1]), stack_order(s, k - 1));
        assert(stack_order(s, k).to_multiset() =~= forest_nodes(s, k));
    } else {
        assert(stack_order(s, k).to_multiset() =~= forest_nodes(s, k));
    }
}

/// Whether `s` is a subtree of `t`: either `t` itself, or a subtree of one
/// of `t`'s children. The nodes of subtrees of `t` are exactly the nodes
/// reachable from `t`'s root, so "`n`'s subtree is a subtree of `t`" reads
/// "`n` is a node of `t`".
pub open spec fn is_subtree<T>(t: SpecTree<T>, s: SpecTree<T>) -> bool
    decreases t, 0int,
{
    s == t || forest_has_subtree(t.kids, t.kids.len() as int, s)
}

/// Whether `s` is a subtree of one of the trees `ks[0], ..., ks[k - 1]`.
pub open spec fn forest_has_subtree<T>(ks: Seq<SpecTree<T>>, k: int, s: SpecTree<T>) -> bool
    decreases ks, k,
{
    if 0 < k && k <= ks.len() {
        is_subtree(ks[k - 1], s) || forest_has_subtree(ks, k - 1, s)
    } else {
        false
    }
}

/// Each subtree's traversal appears contiguously inside the whole
/// traversal: if `s` is a subtree of `t`, then `df_order(t)` contains
/// `df_order(s)` as a block, starting with `s`'s root. So `s`'s root is
/// produced, and is immediately followed by every one of its descendants
/// (see [`lemma_ancestor_before_descendant`]).
pub proof fn lemma_subtree_contiguous<T>(t: SpecTree<T>, s: SpecTree<T>) -> (i: int)
    requires
        is_subtree(t, s),
    ensures
        0 <= i,
        i + df_order(s).len() <= df_order(t).len(),
        df_order(t).subrange(i, i + df_order(s).len() as int) == df_order(s),
        df_order(t)[i] == s.node,
    decreases t, 0int,
{
    lemma_root_first(s);
    if s == t {
        assert(df_order(t).subrange(0, df_order(s).len() as int) =~= df_order(s));
        0
    } else {
        let tail = stack_order(t.kids, t.kids.len() as int);
        let j = lemma_forest_subtree_contiguous(t.kids, t.kids.len() as int, s);
        let m = df_order(s).len() as int;
        assert(df_order(t).subrange(1 + j, 1 + j + m) =~= tail.subrange(j, j + m));
        1 + j
    }
}

/// Each subtree's traversal appears contiguously inside the output of a
/// pending stack that holds an ancestor of it.
pub proof fn lemma_forest_subtree_contiguous<T>(
    ks: Seq<SpecTree<T>>,
    k: int,
    s: SpecTree<T>,
) -> (i: int)
    requires
        forest_has_subtree(ks, k, s),
    ensures
        0 <= i,
        i + df_order(s).len() <= stack_order(ks, k).len(),
        stack_order(ks, k).subrange(i, i + df_order(s).len() as int) == df_order(s),
    decreases ks, k,
{
    let m = df_order(s).len() as int;
    let top = df_order(ks[k - 1]);
    let rest = stack_order(ks, k - 1);
    if is_subtree(ks[k - 1], s) {
        let j = lemma_subtree_contiguous(ks[k - 1], s);
        assert(stack_order(ks, k).subrange(j, j + m) =~= top.subrange(j, j + m));
        j
    } else {
        let j = lemma_forest_subtree_contiguous(ks, k - 1, s);
        assert(stack_order(ks, k).subrange(top.len() + j, top.len() + j + m)
            =~= rest.subrange(j, j + m));
        top.len() + j
    }
}

/// Ancestor before descendant: if `n` is a node of `t` (given as the
/// subtree rooted at `n`), and `d` is any proper descendant of `n` — by
/// completeness ([`lemma_complete`]), the values `df_order(n)[k]` for
/// `k >= 1` are exactly the proper descendants of `n`, with multiplicity —
/// then the whole traversal of `t` produces `n` at some position strictly
/// before a position producing `d`.
pub proof fn lemma_ancestor_before_descendant<T>(t: SpecTree<T>, n: SpecTree<T>, k: int) -> (ij: (
    int,
    int,
))
    requires
        is_subtree(t, n),
        1 <= k < df_order(n).len(),
    ensures
        0 <= ij.0 < ij.1 < df_order(t).len(),
        df_order(t)[ij.0] == n.node,
        df_order(t)[ij.1] == df_order(n)[k],
{
    let i = lemma_subtree_contiguous(t, n);
    assert(df_order(t).subrange(i, i + df_order(n).len() as int)[k] == df_order(n)[k]);
    (i, i + k)
}

/// A root with no children produces exactly one element: the root itself.
pub proof fn lemma_leaf_order<T>(t: SpecTree<T>)
    requires
        t.kids.len() == 0,
    ensures
        df_order(t) == seq![t.node],
{
    assert(df_order(t) =~= seq![t.node]);
}

} // verus!
