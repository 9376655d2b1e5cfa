//! Insertion and removal strategies for the tree.

use vstd::prelude::*;
use vstd::multiset::Multiset;
use crate::geometry::Rect;
use crate::tree::mbr::leaf::MbrLeaf;
use crate::tree::mbr::leafgeometry::MbrLeafGeometry;
use crate::tree::mbr::node::{fold_env, RTreeNode};
use crate::tree::mbr::query::MbrQuery;

pub mod r;
pub mod rstar;

verus! {

/// Default maximum number of children per node.
pub const D_MAX: usize = 64;

/// The item of `f` maps to `false` on every call: such an item is never
/// retained by a removal predicate.
pub open spec fn must_false<T, F: Fn(&T) -> bool>(f: F, t: T) -> bool {
    forall|b: bool| call_ensures(f, (&t,), b) ==> !b
}

/// One kept leaf's reason to stay: the query does not accept it, or the
/// retain predicate can keep its item, or it is not robustly accepted.
pub open spec fn leaf_kept_ok<
    const DIM: usize,
    LG: MbrLeafGeometry<DIM>,
    T,
    Q: MbrQuery<DIM, LG, T>,
    F: Fn(&T) -> bool,
>(query: Q, f: F, l: MbrLeaf<DIM, LG, T>) -> bool {
    ||| !query.spec_accept_leaf(l)
    ||| call_ensures(f, (&l.item,), true)
    ||| !query.spec_surely(l)
}

/// Keeping every leaf for a reason keeps no robustly accepted leaf that
/// the predicate must drop.
pub proof fn lemma_kept_exact_implies_ok<
    const DIM: usize,
    LG: MbrLeafGeometry<DIM>,
    T,
    Q: MbrQuery<DIM, LG, T>,
    F: Fn(&T) -> bool,
>(query: Q, f: F, ms: Multiset<MbrLeaf<DIM, LG, T>>)
    requires
        query.q_wf(),
        kept_exact(query, f, ms),
    ensures
        kept_ok(query, f, ms),
{
    assert forall|l: MbrLeaf<DIM, LG, T>| #[trigger]
        ms.contains(l) implies !(query.spec_surely(l) && must_false(f, l.item)) by {
        if query.spec_surely(l) && must_false(f, l.item) {
            assert(crate::geometry::env_contained(l.envelope(), l.envelope(), DIM as nat));
            query.lemma_surely(l, l.envelope());
        }
    };
}

/// Each leaf of `ms` is kept for a reason: the query does not accept it,
/// or the retain predicate can keep its item, or it is not robustly
/// accepted (a level only touching the query box may be pruned unseen).
pub open spec fn kept_exact<
    const DIM: usize,
    LG: MbrLeafGeometry<DIM>,
    T,
    Q: MbrQuery<DIM, LG, T>,
    F: Fn(&T) -> bool,
>(query: Q, f: F, ms: Multiset<MbrLeaf<DIM, LG, T>>) -> bool {
    forall|l: MbrLeaf<DIM, LG, T>| #[trigger] ms.contains(l) ==> leaf_kept_ok(query, f, l)
}

/// No leaf of `ms` is both robustly accepted by the query and certain to
/// be dropped by the retain predicate: what condensation may reinsert and
/// what a removal leaves behind.
pub open spec fn kept_ok<
    const DIM: usize,
    LG: MbrLeafGeometry<DIM>,
    T,
    Q: MbrQuery<DIM, LG, T>,
    F: Fn(&T) -> bool,
>(query: Q, f: F, ms: Multiset<MbrLeaf<DIM, LG, T>>) -> bool {
    forall|l: MbrLeaf<DIM, LG, T>|
        #[trigger] ms.contains(l) ==> !(query.spec_surely(l) && must_false(f, l.item))
}

/// The leaves of an optional split sibling.
pub open spec fn opt_leaf_ms<const DIM: usize, LG, T>(o: Option<RTreeNode<DIM, LG, T>>) -> Multiset<
    MbrLeaf<DIM, LG, T>,
> {
    match o {
        Option::None => Multiset::empty(),
        Option::Some(n) => n.leaf_ms(),
    }
}

/// Insert the leaf into the root.
pub trait IndexInsert<const DIM: usize, LG: MbrLeafGeometry<DIM>, T>: Sized {
    /// The strategy's parameters are consistent.
    spec fn inv(&self) -> bool;

    /// The fan-out floor the strategy maintains on non-root nodes.
    spec fn spec_min(&self) -> int;

    /// The fan-out ceiling the strategy maintains.
    spec fn spec_max(&self) -> int;

    /// Insert `leaf` into the tree rooted at `root`, returning the new
    /// root: the same leaves plus exactly the one inserted, with all node
    /// invariants restored.
    fn insert_into_root(&self, root: RTreeNode<DIM, LG, T>, leaf: MbrLeaf<DIM, LG, T>) -> (r:
        RTreeNode<DIM, LG, T>)
        requires
            self.inv(),
            root.root_wf(self.spec_min(), self.spec_max()),
            leaf.geom_wf(),
        ensures
            r.root_wf(self.spec_min(), self.spec_max()),
            r.leaf_ms() == root.leaf_ms().insert(leaf),
    ;

    /// The fan-out floor, as the removal strategy must be given it.
    fn preferred_min(&self) -> (r: usize)
        requires
            self.inv(),
        ensures
            r as int == self.spec_min(),
    ;

    /// A fresh empty leaf-bearing root.
    fn new_leaves(&self) -> (r: RTreeNode<DIM, LG, T>)
        requires
            self.inv(),
        ensures
            r.is_leaves(),
            r.spec_len() == 0,
            r.leaf_ms() == Multiset::<MbrLeaf<DIM, LG, T>>::empty(),
            r.height() == 1,
            r.root_wf(self.spec_min(), self.spec_max()),
    ;

    /// A fresh empty leaf-bearing root with no capacity, used only for
    /// passing ownership of the root into the index functions.
    fn new_no_alloc_leaves(&self) -> (r: RTreeNode<DIM, LG, T>)
        requires
            self.inv(),
        ensures
            r.is_leaves(),
            r.spec_len() == 0,
            r.leaf_ms() == Multiset::<MbrLeaf<DIM, LG, T>>::empty(),
            r.height() == 1,
            r.root_wf(self.spec_min(), self.spec_max()),
    ;
}

/// Remove entries from the tree that match the query, but not the retain
/// function `f`.
pub trait IndexRemove<const DIM: usize, LG: MbrLeafGeometry<DIM>, T, I: IndexInsert<DIM, LG, T>>:
    Sized {
    /// The strategy's parameters are consistent.
    spec fn inv(&self) -> bool;

    /// The fan-out floor under which a node is condensed away.
    spec fn spec_min(&self) -> int;

    /// Remove every leaf that the query accepts and whose item `f` maps to
    /// `false`; under-full nodes are condensed and their remaining leaves
    /// reinserted through `insert_index`.  Returns the new root and the
    /// removed leaves.
    fn remove_from_root<Q: MbrQuery<DIM, LG, T>, F: Fn(&T) -> bool>(
        &self,
        root: RTreeNode<DIM, LG, T>,
        insert_index: &I,
        query: Q,
        f: F,
    ) -> (r: (RTreeNode<DIM, LG, T>, Vec<MbrLeaf<DIM, LG, T>>))
        requires
            self.inv(),
            insert_index.inv(),
            self.spec_min() == insert_index.spec_min(),
            root.root_wf(insert_index.spec_min(), insert_index.spec_max()),
            query.q_wf(),
            forall|t: &T| #[trigger] call_requires(f, (t,)),
        ensures
            r.0.root_wf(insert_index.spec_min(), insert_index.spec_max()),
            r.0.leaf_ms().add(r.1@.to_multiset()) == root.leaf_ms(),
            forall|i: int|
                0 <= i < r.1@.len() ==> query.spec_accept_leaf(#[trigger] r.1@[i]) && call_ensures(
                    f,
                    (&r.1@[i].item,),
                    false,
                ),
            kept_exact(query, f, r.0.leaf_ms()),
            kept_ok(query, f, r.0.leaf_ms()),
    ;
}

/// Generic trait for splitting an overflowing node's children in two.
pub trait MbrNodeSplit<const DIM: usize>: Sized {
    /// Split the children of a node in two parts, each holding at least
    /// `min` children, and recompute both bounds tightly.
    fn split<V: MbrLeafGeometry<DIM>>(
        &self,
        min: usize,
        mbr: &mut Rect<DIM>,
        children: &mut Vec<V>,
    ) -> (r: (Rect<DIM>, Vec<V>))
        requires
            old(mbr).wf(),
            old(children)@.len() >= 2,
            2 * min <= old(children)@.len(),
            forall|i: int| 0 <= i < old(children)@.len() ==> (#[trigger] old(children)@[i]).geom_wf(),
        ensures
            final(children)@.to_multiset().add(r.1@.to_multiset()) == old(children)@.to_multiset(),
            final(children)@.len() + r.1@.len() == old(children)@.len(),
            final(children)@.len() >= 1,
            r.1@.len() >= 1,
            final(children)@.len() >= min,
            r.1@.len() >= min,
            forall|i: int| 0 <= i < final(children)@.len() ==> (#[trigger] final(children)@[i]).geom_wf(),
            forall|i: int| 0 <= i < r.1@.len() ==> (#[trigger] r.1@[i]).geom_wf(),
            final(mbr).edges@ == fold_env(final(children)@),
            r.0.edges@ == fold_env(r.1@),
    ;
}

} // verus!
