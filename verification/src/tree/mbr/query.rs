//! Queries for navigating the tree.
//!
//! A query accepts leaves (for selection) and node envelopes (for
//! pruning).  `spec_surely` names the leaves that are robustly accepted:
//! accepted, and certain to be reached through any chain of bounding
//! rectangles that cover them — the completeness guarantees of traversal
//! and removal are stated over those leaves.

use vstd::prelude::*;
use crate::geometry::{env_contained, env_overlaps, Env, Rect};
use crate::tree::mbr::leaf::MbrLeaf;
use crate::tree::mbr::leafgeometry::MbrLeafGeometry;
use crate::tree::mbr::node::RTreeNode;

verus! {

/// Query trait for navigating the tree.
pub trait MbrQuery<const DIM: usize, LG: MbrLeafGeometry<DIM>, T>: Sized {
    /// The query itself is structurally sound.
    spec fn q_wf(&self) -> bool;

    /// Acceptance of a leaf.
    spec fn spec_accept_leaf(&self, leaf: MbrLeaf<DIM, LG, T>) -> bool;

    /// Acceptance of a node, by its bounding rectangle.
    spec fn spec_accept_env(&self, env: Env) -> bool;

    /// Robust acceptance of a leaf: the leaf is accepted and every box
    /// covering its envelope is accepted too.
    spec fn spec_surely(&self, leaf: MbrLeaf<DIM, LG, T>) -> bool;

    /// A robustly accepted leaf is accepted, and any box covering its
    /// envelope is accepted as a node bound.
    proof fn lemma_surely(&self, leaf: MbrLeaf<DIM, LG, T>, env: Env)
        requires
            self.q_wf(),
            self.spec_surely(leaf),
            env_contained(leaf.envelope(), env, DIM as nat),
        ensures
            self.spec_accept_leaf(leaf),
            self.spec_accept_env(env),
    ;

    /// Returns true if the leaf matches the query.
    fn accept_leaf(&self, leaf: &MbrLeaf<DIM, LG, T>) -> (r: bool)
        requires
            self.q_wf(),
            leaf.geom_wf(),
        ensures
            r == self.spec_accept_leaf(*leaf),
    ;

    /// Returns true if the level matches the query.
    fn accept_level(&self, level: &RTreeNode<DIM, LG, T>) -> (r: bool)
        requires
            self.q_wf(),
            level.env().len() == DIM,
        ensures
            r == self.spec_accept_env(level.env()),
    ;
}

/// Rect based query.
#[derive(Debug, Clone)]
pub enum MbrRectQuery<const DIM: usize> {
    /// Matching leaves are ones that are completely contained by this rect
    ContainedBy(Rect<DIM>),
    /// Matching leaves are ones that overlap this rect
    Overlaps(Rect<DIM>),
}

impl<const DIM: usize> MbrRectQuery<DIM> {
    /// The query's rectangle.
    pub open spec fn rect_env(&self) -> Env {
        match *self {
            MbrRectQuery::ContainedBy(ref query) => query.edges@,
            MbrRectQuery::Overlaps(ref query) => query.edges@,
        }
    }
}

impl<const DIM: usize, LG: MbrLeafGeometry<DIM>, T> MbrQuery<DIM, LG, T> for MbrRectQuery<DIM> {
    open spec fn q_wf(&self) -> bool {
        self.rect_env().len() == DIM
    }

    open spec fn spec_accept_leaf(&self, leaf: MbrLeaf<DIM, LG, T>) -> bool {
        match *self {
            MbrRectQuery::ContainedBy(ref query) => env_contained(
                leaf.envelope(),
                query.edges@,
                DIM as nat,
            ),
            MbrRectQuery::Overlaps(ref query) => leaf.spec_overlapped(query.edges@),
        }
    }

    open spec fn spec_accept_env(&self, env: Env) -> bool {
        env_overlaps(env, self.rect_env(), DIM as nat)
    }

    open spec fn spec_surely(&self, leaf: MbrLeaf<DIM, LG, T>) -> bool {
        self.spec_accept_leaf(leaf) && env_overlaps(leaf.envelope(), self.rect_env(), DIM as nat)
    }

    proof fn lemma_surely(&self, leaf: MbrLeaf<DIM, LG, T>, env: Env) {
        let le = leaf.envelope();
        let q = self.rect_env();
        assert forall|d: int| #![trigger env[d], q[d]] 0 <= d < DIM implies env[d].0 < q[d].1
            && q[d].0 < env[d].1 by {
            assert(le[d].0 < q[d].1 && q[d].0 < le[d].1);
            assert(env[d].0 <= le[d].0 && le[d].1 <= env[d].1);
        };
    }

    fn accept_leaf(&self, leaf: &MbrLeaf<DIM, LG, T>) -> (r: bool) {
        match *self {
            MbrRectQuery::ContainedBy(ref query) => leaf.contained_by_mbr(query),
            MbrRectQuery::Overlaps(ref query) => leaf.overlapped_by_mbr(query),
        }
    }

    fn accept_level(&self, level: &RTreeNode<DIM, LG, T>) -> (r: bool) {
        match *self {
            MbrRectQuery::ContainedBy(ref query) => level.overlapped_by_mbr(query),
            MbrRectQuery::Overlaps(ref query) => level.overlapped_by_mbr(query),
        }
    }
}

} // verus!
