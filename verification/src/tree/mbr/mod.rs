//! Collection of minimum bounding rectangle spatial trees.

pub mod index;
mod leaf;
mod leafgeometry;
mod map;
mod node;
mod query;

use vstd::prelude::*;
use vstd::multiset::Multiset;
use crate::tree::mbr::index::r::{Linear, Quadratic, RInsert, RRemove, SeedSplit};
use crate::tree::mbr::index::rstar::{rstar_opts_ok, RStarInsert, D_REINSERT_PCT, D_SPLIT_PCT};
use crate::tree::mbr::index::{IndexInsert, D_MAX};

pub use crate::tree::mbr::index::{kept_exact, kept_ok, leaf_kept_ok, lemma_kept_exact_implies_ok, must_false, IndexRemove, MbrNodeSplit};
pub use crate::tree::mbr::leaf::MbrLeaf;
pub use crate::tree::mbr::leafgeometry::MbrLeafGeometry;
pub use crate::tree::mbr::map::{
    lemma_insert_order_insensitive, lemma_insert_remove_roundtrip, lemma_insert_visible,
    lemma_inserts_add, lemma_iter_counts_all, lemma_pruning_sound, lemma_retain_drop_all_is_remove,
    lemma_retain_keep_all, ms_after_inserts, pair_ms, ref_pair_ms, update_pairing, updated_ok, MbrMap,
};
pub use crate::tree::mbr::node::RTreeNode;
pub use crate::tree::mbr::query::{MbrQuery, MbrRectQuery};

verus! {

/// R tree with quadratic seed splitting.
pub type RQuadraticTree<const DIM: usize, LG, T> = MbrMap<
    DIM,
    LG,
    T,
    RInsert<DIM, SeedSplit<DIM, Quadratic>>,
    RRemove<DIM>,
>;

/// R tree with linear seed splitting.
pub type RLinearTree<const DIM: usize, LG, T> = MbrMap<
    DIM,
    LG,
    T,
    RInsert<DIM, SeedSplit<DIM, Linear>>,
    RRemove<DIM>,
>;

/// R* tree.
pub type RStarTree<const DIM: usize, LG, T> = MbrMap<DIM, LG, T, RStarInsert<DIM>, RRemove<DIM>>;

/// Convenience struct for creating a new R tree.
pub struct RTree;

impl RTree {
    /// Create a new R tree using the linear splitting algorithm with the
    /// default maximum fan-out.
    pub fn new_linear<const DIM: usize, LG: MbrLeafGeometry<DIM>, T>() -> (r: RLinearTree<
        DIM,
        LG,
        T,
    >)
        ensures
            r.inv(),
            r.leaves() == Multiset::<MbrLeaf<DIM, LG, T>>::empty(),
            r.spec_len() == 0,
    {
        RTree::new_linear_with_max(D_MAX)
    }

    /// Create a new R tree using the linear splitting algorithm with the
    /// given maximum fan-out; the floor is three tenths of it.
    pub fn new_linear_with_max<const DIM: usize, LG: MbrLeafGeometry<DIM>, T>(max: usize) -> (r:
        RLinearTree<DIM, LG, T>)
        requires
            4 <= max < usize::MAX,
        ensures
            r.inv(),
            r.leaves() == Multiset::<MbrLeaf<DIM, LG, T>>::empty(),
            r.spec_len() == 0,
    {
        proof {
            assert(3 * (max as int) / 10 >= 1) by (nonlinear_arith)
                requires
                    4 <= max as int,
            ;
        }
        let insert = RInsert::new_with_max(SeedSplit::<DIM, Linear>::linear(), max);
        let min = IndexInsert::<DIM, LG, T>::preferred_min(&insert);
        MbrMap::new(insert, RRemove::with_min(min))
    }

    /// Create a new R tree using the quadratic splitting algorithm with
    /// the default maximum fan-out.
    pub fn new_quadratic<const DIM: usize, LG: MbrLeafGeometry<DIM>, T>() -> (r: RQuadraticTree<
        DIM,
        LG,
        T,
    >)
        ensures
            r.inv(),
            r.leaves() == Multiset::<MbrLeaf<DIM, LG, T>>::empty(),
            r.spec_len() == 0,
    {
        RTree::new_quadratic_with_max(D_MAX)
    }

    /// Create a new R tree using the quadratic splitting algorithm with
    /// the given maximum fan-out; the floor is three tenths of it.
    pub fn new_quadratic_with_max<const DIM: usize, LG: MbrLeafGeometry<DIM>, T>(max: usize) -> (r:
        RQuadraticTree<DIM, LG, T>)
        requires
            4 <= max < usize::MAX,
        ensures
            r.inv(),
            r.leaves() == Multiset::<MbrLeaf<DIM, LG, T>>::empty(),
            r.spec_len() == 0,
    {
        proof {
            assert(3 * (max as int) / 10 >= 1) by (nonlinear_arith)
                requires
                    4 <= max as int,
            ;
        }
        let insert = RInsert::new_with_max(SeedSplit::<DIM, Quadratic>::quadratic(), max);
        let min = IndexInsert::<DIM, LG, T>::preferred_min(&insert);
        MbrMap::new(insert, RRemove::with_min(min))
    }
}

/// Convenience struct for creating a new R* tree.
pub struct RStar;

impl RStar {
    /// Create a new R* tree with the default options.
    pub fn new<const DIM: usize, LG: MbrLeafGeometry<DIM>, T>() -> (r: RStarTree<DIM, LG, T>)
        requires
            0 < DIM,
        ensures
            r.inv(),
            r.leaves() == Multiset::<MbrLeaf<DIM, LG, T>>::empty(),
            r.spec_len() == 0,
    {
        let insert = RStarInsert::new();
        let min = IndexInsert::<DIM, LG, T>::preferred_min(&insert);
        MbrMap::new(insert, RRemove::with_min(min))
    }

    /// Create a new R* tree with the given maximum fan-out and default
    /// fractions.
    pub fn new_with_max<const DIM: usize, LG: MbrLeafGeometry<DIM>, T>(max: usize) -> (r:
        RStarTree<DIM, LG, T>)
        requires
            0 < DIM,
            rstar_opts_ok(max as int, D_REINSERT_PCT as int, D_SPLIT_PCT as int, 32),
        ensures
            r.inv(),
            r.leaves() == Multiset::<MbrLeaf<DIM, LG, T>>::empty(),
            r.spec_len() == 0,
    {
        let insert = RStarInsert::new_with_max(max);
        let min = IndexInsert::<DIM, LG, T>::preferred_min(&insert);
        MbrMap::new(insert, RRemove::with_min(min))
    }

    /// Create a new R* tree with the options as provided: the maximum
    /// fan-out, the reinsertion and split fractions in percent, and the
    /// subtree-choice bound.
    pub fn new_with_options<const DIM: usize, LG: MbrLeafGeometry<DIM>, T>(
        max: usize,
        reinsert_pct: u32,
        split_pct: u32,
        choose_subtree_p: usize,
    ) -> (r: RStarTree<DIM, LG, T>)
        requires
            0 < DIM,
            rstar_opts_ok(
                max as int,
                reinsert_pct as int,
                split_pct as int,
                choose_subtree_p as int,
            ),
        ensures
            r.inv(),
            r.leaves() == Multiset::<MbrLeaf<DIM, LG, T>>::empty(),
            r.spec_len() == 0,
    {
        let insert = RStarInsert::new_with_options(max, reinsert_pct, split_pct, choose_subtree_p);
        let min = IndexInsert::<DIM, LG, T>::preferred_min(&insert);
        MbrMap::new(insert, RRemove::with_min(min))
    }
}

} // verus!
