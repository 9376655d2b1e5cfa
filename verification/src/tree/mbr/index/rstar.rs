//! The R*-tree: forced reinsertion and axis-choice splitting.

use vstd::prelude::*;
use vstd::multiset::Multiset;
use vstd::seq_lib::group_to_multiset_ensures;
use vstd::seq_lib::lemma_multiset_commutative;
use crate::arith::{clamp64, sat_add, sat_sub};
use crate::geometry::{area_fold, dist2_fold, env_union, margin_fold, overlap_area_fold, Env, Rect};
use crate::tree::mbr::index::{IndexInsert, D_MAX};
use crate::tree::mbr::leaf::MbrLeaf;
use crate::tree::mbr::leafgeometry::MbrLeafGeometry;
use crate::tree::mbr::node::{
    fold_env, nodes_leaf_ms, lemma_env_union_assoc, lemma_fold_env_concat, lemma_fold_env_len, lemma_fold_env_perm,
    lemma_fold_env_push, lemma_fold_env_remove, lemma_nodes_leaf_ms_concat, lemma_nodes_leaf_ms_perm, lemma_nodes_leaf_ms_push,
    lemma_nodes_leaf_ms_remove, RTreeNode,
};

verus! {

broadcast use group_to_multiset_ensures, vstd::multiset::group_multiset_axioms;

/// The sum of all of the shape's edge widths. Used in the R* algorithm.
pub trait Margin: Sized {
    /// The shape is structurally sound.
    spec fn margin_wf(&self) -> bool;

    /// The margin as a saturating fold over the edges.
    spec fn spec_margin(&self) -> int;

    /// Compute the margin.
    fn margin(&self) -> (r: i64)
        requires
            self.margin_wf(),
        ensures
            r as int == self.spec_margin(),
    ;
}

impl<const DIM: usize> Margin for Rect<DIM> {
    open spec fn margin_wf(&self) -> bool {
        self.wf()
    }

    open spec fn spec_margin(&self) -> int {
        margin_fold(self.edges@)
    }

    fn margin(&self) -> (r: i64) {
        let mut acc: i64 = 0;
        let mut d: usize = 0;
        while d < DIM
            invariant
                self.wf(),
                0 <= d <= DIM,
                acc as int == margin_fold(self.edges@.subrange(0, d as int)),
            decreases DIM - d,
        {
            let (x, y) = self.edges[d];
            acc = sat_add(acc, sat_sub(y, x));
            d += 1;
            proof {
                let e = self.edges@.subrange(0, d as int);
                assert(e.drop_last() =~= self.edges@.subrange(0, d as int - 1));
            }
        }
        proof {
            assert(self.edges@.subrange(0, DIM as int) =~= self.edges@);
        }
        acc
    }
}

/// What one level hands back to the level above it.
#[must_use]
enum InsertResult<const DIM: usize, LG, T> {
    Placed,
    Reinsert(Vec<MbrLeaf<DIM, LG, T>>),
    Split(RTreeNode<DIM, LG, T>),
}

impl<const DIM: usize, LG, T> InsertResult<DIM, LG, T> {
    /// The leaves still owed to the tree by this result.
    spec fn result_ms(self) -> Multiset<MbrLeaf<DIM, LG, T>> {
        match self {
            InsertResult::Placed => Multiset::empty(),
            InsertResult::Reinsert(v) => v@.to_multiset(),
            InsertResult::Split(n) => n.leaf_ms(),
        }
    }

    fn is_reinsert(&self) -> (r: bool)
        ensures
            r == (self is Reinsert),
    {
        match *self {
            InsertResult::Reinsert(_) => true,
            _ => false,
        }
    }
}

/// Default fraction reinserted on a non-root overflow, in percent.
pub const D_REINSERT_PCT: u32 = 30;

/// Default split-window fraction, in percent.
pub const D_SPLIT_PCT: u32 = 40;

/// Default bound over which subtree choice pre-sorts by area cost.
pub const D_CHOOSE_SUBTREE_P: usize = 32;

/// The larger of two values.
pub open spec fn max_i(a: int, b: int) -> int {
    if a >= b {
        a
    } else {
        b
    }
}

/// The fan-out floor derived from the reinsertion and split fractions.
pub open spec fn st_pm(max: int, rp: int, sp: int) -> int {
    max_i(
        max * (if rp <= sp {
            rp
        } else {
            sp
        }) / 100,
        1,
    )
}

/// How many leaves stay in a node on forced reinsertion: the fraction
/// reinserted is rounded up.
pub open spec fn st_rm(max: int, rp: int) -> int {
    max - max_i((max * rp + 99) / 100, 1)
}

/// The lower end of the axis-choice split window: rounded up.
pub open spec fn st_min_k(max: int, sp: int) -> int {
    max_i((max * sp + 99) / 100, 1)
}

/// The upper end (exclusive) of the axis-choice split window.
pub open spec fn st_max_k(max: int, sp: int) -> int {
    max_i(max - 2 * st_min_k(max, sp) + 1, st_min_k(max, sp) + 1)
}

/// The options describe a strategy whose splits and reinsertions always
/// leave every node with at least the derived fan-out floor.
pub open spec fn rstar_opts_ok(max: int, rp: int, sp: int, p: int) -> bool {
    &&& 2 <= max < usize::MAX
    &&& 0 <= rp <= 100
    &&& 0 <= sp <= 100
    &&& 1 <= p
    &&& 1 <= st_pm(max, rp, sp)
    &&& st_pm(max, rp, sp) <= st_min_k(max, sp)
    &&& st_min_k(max, sp) < st_max_k(max, sp)
    &&& st_max_k(max, sp) < max
    &&& max + 2 - st_max_k(max, sp) >= st_pm(max, rp, sp)
    &&& st_pm(max, rp, sp) <= st_rm(max, rp) <= max
}

/// Forced-reinsertion insertion with axis-choice splitting.
#[derive(Debug)]
pub struct RStarInsert<const DIM: usize> {
    max: usize,
    preferred_min: usize,
    reinsert_m: usize,
    choose_subtree_p: usize,
    min_k: usize,
    max_k: usize,
}

impl<const DIM: usize> RStarInsert<DIM> {
    /// The strategy's parameters are consistent.
    pub closed spec fn spec_inv(&self) -> bool {
        &&& 0 < DIM
        &&& 2 <= self.max < usize::MAX
        &&& 1 <= self.preferred_min
        &&& self.preferred_min <= self.min_k
        &&& self.min_k < self.max_k
        &&& self.max_k < self.max
        &&& self.max + 2 - self.max_k >= self.preferred_min
        &&& self.preferred_min <= self.reinsert_m <= self.max
        &&& 1 <= self.choose_subtree_p
    }

    /// The bound over which subtree choice pre-sorts by area cost.
    pub closed spec fn spec_p(&self) -> int {
        self.choose_subtree_p as int
    }

    /// The fan-out floor the strategy maintains.
    pub closed spec fn smin(&self) -> int {
        self.preferred_min as int
    }

    /// The fan-out ceiling the strategy maintains.
    pub closed spec fn smax(&self) -> int {
        self.max as int
    }

    /// New strategy with all defaults.
    pub fn new() -> (r: RStarInsert<DIM>)
        requires
            0 < DIM,
        ensures
            r.spec_inv(),
            r.smin() >= 1,
            r.smax() == 64,
            r.smin() == st_pm(64, D_REINSERT_PCT as int, D_SPLIT_PCT as int),
            r.spec_reinsert_m() == st_rm(64, D_REINSERT_PCT as int),
            r.spec_min_k() == st_min_k(64, D_SPLIT_PCT as int),
            r.spec_max_k() == st_max_k(64, D_SPLIT_PCT as int),
    {
        RStarInsert::new_with_options(D_MAX, D_REINSERT_PCT, D_SPLIT_PCT, D_CHOOSE_SUBTREE_P)
    }

    /// New strategy with the given maximum fan-out and default fractions.
    pub fn new_with_max(max: usize) -> (r: RStarInsert<DIM>)
        requires
            0 < DIM,
            rstar_opts_ok(max as int, D_REINSERT_PCT as int, D_SPLIT_PCT as int, 32),
        ensures
            r.spec_inv(),
            r.smin() >= 1,
            r.smax() == max,
            r.smin() == st_pm(max as int, D_REINSERT_PCT as int, D_SPLIT_PCT as int),
            r.spec_reinsert_m() == st_rm(max as int, D_REINSERT_PCT as int),
            r.spec_min_k() == st_min_k(max as int, D_SPLIT_PCT as int),
            r.spec_max_k() == st_max_k(max as int, D_SPLIT_PCT as int),
    {
        RStarInsert::new_with_options(max, D_REINSERT_PCT, D_SPLIT_PCT, D_CHOOSE_SUBTREE_P)
    }

    /// New strategy from the maximum fan-out, the reinsertion and split
    /// fractions (in percent) and the subtree-choice bound.
    pub fn new_with_options(max: usize, reinsert_pct: u32, split_pct: u32, choose_subtree_p: usize)
        -> (r: RStarInsert<DIM>)
        requires
            0 < DIM,
            rstar_opts_ok(max as int, reinsert_pct as int, split_pct as int, choose_subtree_p as int),
        ensures
            r.spec_inv(),
            r.smin() >= 1,
            r.smax() == max,
            r.smin() == st_pm(max as int, reinsert_pct as int, split_pct as int),
            r.spec_reinsert_m() == st_rm(max as int, reinsert_pct as int),
            r.spec_min_k() == st_min_k(max as int, split_pct as int),
            r.spec_max_k() == st_max_k(max as int, split_pct as int),
    {
        let low_pct: u32 = if reinsert_pct <= split_pct {
            reinsert_pct
        } else {
            split_pct
        };
        let pm_raw: u128 = max as u128 * low_pct as u128 / 100;
        let preferred_min: usize = if pm_raw >= 1 {
            pm_raw as usize
        } else {
            1
        };
        let rs_raw: u128 = (max as u128 * reinsert_pct as u128 + 99) / 100;
        let reinsert_size: usize = if rs_raw >= 1 {
            rs_raw as usize
        } else {
            1
        };
        let reinsert_m: usize = max - reinsert_size;
        let mk_raw: u128 = (max as u128 * split_pct as u128 + 99) / 100;
        let min_k: usize = if mk_raw >= 1 {
            mk_raw as usize
        } else {
            1
        };
        let wide: i128 = max as i128 - 2 * min_k as i128 + 1;
        let max_k: usize = if wide >= min_k as i128 + 1 {
            wide as usize
        } else {
            min_k + 1
        };
        RStarInsert { max, preferred_min, reinsert_m, choose_subtree_p, min_k, max_k }
    }

    /// Expansion cost of fitting `leaf` into `mbr`: the area increase,
    /// then the current area as a tie breaker.
    fn area_cost<LG: MbrLeafGeometry<DIM>, T>(
        &self,
        mbr: &Rect<DIM>,
        leaf: &MbrLeaf<DIM, LG, T>,
    ) -> (r: (i64, i64))
        requires
            mbr.wf(),
            leaf.geom_wf(),
        ensures
            (r.0 as int, r.1 as int) == spec_area_cost(mbr.edges@, leaf.envelope()),
    {
        let mut expanded = mbr.duplicate();
        leaf.expand_mbr_to_fit(&mut expanded);
        let mbr_area = MbrLeafGeometry::<DIM>::area(mbr);
        let expanded_area = MbrLeafGeometry::<DIM>::area(&expanded);
        let area_cost = sat_sub(expanded_area, mbr_area);
        (area_cost, mbr_area)
    }

    /// Overlap cost of placing `leaf` under `mbr`: the part of the leaf's
    /// area the bound does not already share with it.
    fn overlap_cost<LG: MbrLeafGeometry<DIM>, T>(
        &self,
        mbr: &Rect<DIM>,
        leaf: &MbrLeaf<DIM, LG, T>,
    ) -> (r: i64)
        requires
            mbr.wf(),
            leaf.geom_wf(),
        ensures
            r as int == spec_overlap_cost(*leaf, mbr.edges@),
    {
        let overlap = leaf.area_overlapped_with_mbr(mbr);
        sat_sub(leaf.area(), overlap)
    }
}

/// Lexicographic order on `(cost, tie)` pairs.
pub open spec fn lex2_le(a: (int, int), b: (int, int)) -> bool {
    a.0 < b.0 || (a.0 == b.0 && a.1 <= b.1)
}

/// The area-expansion cost of fitting the envelope `le` under the bound
/// `e`, with the bound's own area as tie breaker.
pub open spec fn spec_area_cost(e: Env, le: Env) -> (int, int) {
    (clamp64(area_fold(env_union(e, le)) - area_fold(e)), area_fold(e))
}

/// The overlap cost of placing `leaf` under the bound `e`: the part of
/// the leaf's area the bound does not already share with it.
pub open spec fn spec_overlap_cost<const DIM: usize, LG: MbrLeafGeometry<DIM>, T>(
    leaf: MbrLeaf<DIM, LG, T>,
    e: Env,
) -> int {
    clamp64(leaf.spec_area() - leaf.spec_overlap_area(e))
}

/// Lexicographic order on `(overlap, cost, tie)` triples.
pub open spec fn lex3_le(a: (int, int, int), b: (int, int, int)) -> bool {
    a.0 < b.0 || (a.0 == b.0 && (a.1 < b.1 || (a.1 == b.1 && a.2 <= b.2)))
}

/// Non-decreasing minimum extents on `axis`.
pub open spec fn sorted_by_axis_min<const DIM: usize, V: MbrLeafGeometry<DIM>>(
    s: Seq<V>,
    axis: int,
) -> bool {
    forall|i: int, j: int|
        #![trigger s[i], s[j]]
        0 <= i <= j < s.len() ==> s[i].envelope()[axis].0 <= s[j].envelope()[axis].0
}

/// Non-decreasing maximum extents on `axis`.
pub open spec fn sorted_by_axis_max<const DIM: usize, V: MbrLeafGeometry<DIM>>(
    s: Seq<V>,
    axis: int,
) -> bool {
    forall|i: int, j: int|
        #![trigger s[i], s[j]]
        0 <= i <= j < s.len() ==> s[i].envelope()[axis].1 <= s[j].envelope()[axis].1
}

/// Non-decreasing center distance from the box `e`.
pub open spec fn sorted_by_center_distance<const DIM: usize, LG: MbrLeafGeometry<DIM>, T>(
    s: Seq<MbrLeaf<DIM, LG, T>>,
    e: Env,
) -> bool {
    forall|i: int, j: int|
        #![trigger s[i], s[j]]
        0 <= i <= j < s.len() ==> dist2_fold(e, s[i].center2()) <= dist2_fold(e, s[j].center2())
}

/// Non-decreasing area-expansion cost of fitting `le` under each bound.
pub open spec fn sorted_by_area_cost<const DIM: usize, LG, T>(
    s: Seq<RTreeNode<DIM, LG, T>>,
    le: Env,
) -> bool {
    forall|i: int, j: int|
        #![trigger s[i], s[j]]
        0 <= i <= j < s.len() ==> lex2_le(spec_area_cost(s[i].env(), le), spec_area_cost(s[j].env(), le))
}

/// The bound of the first `k` elements.
pub open spec fn prefix_env<const DIM: usize, V: MbrLeafGeometry<DIM>>(s: Seq<V>, k: int) -> Env {
    fold_env::<DIM, V>(s.subrange(0, k))
}

/// The bound of the elements from `k` on.
pub open spec fn suffix_env<const DIM: usize, V: MbrLeafGeometry<DIM>>(s: Seq<V>, k: int) -> Env {
    fold_env::<DIM, V>(s.subrange(k, s.len() as int))
}

/// The `(overlap, joint area)` cost of splitting `s` before position `k`.
pub open spec fn split_cost<const DIM: usize, V: MbrLeafGeometry<DIM>>(s: Seq<V>, k: int) -> (
    int,
    int,
) {
    (
        overlap_area_fold(prefix_env(s, k), suffix_env(s, k)),
        clamp64(area_fold(prefix_env(s, k)) + area_fold(suffix_env(s, k))),
    )
}

/// The margins of both sides of every split position in `[lo, hi)`,
/// accumulated onto `acc` with saturation.
pub open spec fn margin_acc<const DIM: usize, V: MbrLeafGeometry<DIM>>(
    s: Seq<V>,
    lo: int,
    hi: int,
    acc: int,
) -> int
    decreases hi - lo,
{
    if lo >= hi {
        acc
    } else {
        margin_acc(
            s,
            lo + 1,
            hi,
            clamp64(acc + clamp64(margin_fold(prefix_env(s, lo)) + margin_fold(suffix_env(s, lo)))),
        )
    }
}

/// Relies on `slice::sort_by` from std: sorting reorders the elements of
/// the vector — it neither drops nor invents any — and leaves them
/// ordered by the comparator, which here is the verified center-distance
/// measure against `mbr`, a total order on integers.
#[verifier::external_body]
fn sort_leaves_by_center_distance<const DIM: usize, LG: MbrLeafGeometry<DIM>, T>(
    children: &mut Vec<MbrLeaf<DIM, LG, T>>,
    mbr: &Rect<DIM>,
)
    requires
        mbr.wf(),
        forall|i: int| 0 <= i < old(children)@.len() ==> (#[trigger] old(children)@[i]).geom_wf(),
    ensures
        final(children)@.to_multiset() == old(children)@.to_multiset(),
        final(children)@.len() == old(children)@.len(),
        sorted_by_center_distance(final(children)@, mbr.edges@),
{
    children.sort_by(|a, b| {
        a.distance_from_mbr_center(mbr).cmp(&b.distance_from_mbr_center(mbr))
    });
}

/// Relies on `slice::sort_by` from std: sorting reorders the elements of
/// the vector — it neither drops nor invents any — and leaves them
/// ordered by the comparator, which here is the verified minimum extent
/// on `axis`, a total order on integers.
#[verifier::external_body]
fn sort_by_axis_min<const DIM: usize, V: MbrLeafGeometry<DIM>>(children: &mut Vec<V>, axis: usize)
    requires
        axis < DIM,
        forall|i: int| 0 <= i < old(children)@.len() ==> (#[trigger] old(children)@[i]).geom_wf(),
    ensures
        final(children)@.to_multiset() == old(children)@.to_multiset(),
        final(children)@.len() == old(children)@.len(),
        sorted_by_axis_min(final(children)@, axis as int),
{
    children.sort_by(|a, b| a.min_for_axis(axis).cmp(&b.min_for_axis(axis)));
}

/// Relies on `slice::sort_by` from std: sorting reorders the elements of
/// the vector — it neither drops nor invents any — and leaves them
/// ordered by the comparator, which here is the verified maximum extent
/// on `axis`, a total order on integers.
#[verifier::external_body]
fn sort_by_axis_max<const DIM: usize, V: MbrLeafGeometry<DIM>>(children: &mut Vec<V>, axis: usize)
    requires
        axis < DIM,
        forall|i: int| 0 <= i < old(children)@.len() ==> (#[trigger] old(children)@[i]).geom_wf(),
    ensures
        final(children)@.to_multiset() == old(children)@.to_multiset(),
        final(children)@.len() == old(children)@.len(),
        sorted_by_axis_max(final(children)@, axis as int),
{
    children.sort_by(|a, b| a.max_for_axis(axis).cmp(&b.max_for_axis(axis)));
}

/// Relies on `slice::sort_by` from std: sorting reorders the elements of
/// the vector — it neither drops nor invents any — and leaves them
/// ordered by the comparator, which here is the verified area-expansion
/// cost of fitting `leaf` under each bound, a total order on integer
/// pairs.
#[verifier::external_body]
fn sort_nodes_by_area_cost<const DIM: usize, LG: MbrLeafGeometry<DIM>, T>(
    strategy: &RStarInsert<DIM>,
    level: &mut Vec<RTreeNode<DIM, LG, T>>,
    leaf: &MbrLeaf<DIM, LG, T>,
)
    requires
        strategy.spec_inv(),
        leaf.geom_wf(),
        forall|i: int| 0 <= i < old(level)@.len() ==> (#[trigger] old(level)@[i]).env().len() == DIM,
    ensures
        final(level)@.to_multiset() == old(level)@.to_multiset(),
        final(level)@.len() == old(level)@.len(),
        sorted_by_area_cost(final(level)@, leaf.envelope()),
{
    level.sort_by(|a, b| {
        let ca = strategy.area_cost(a.mbr(), leaf);
        let cb = strategy.area_cost(b.mbr(), leaf);
        ca.cmp(&cb)
    });
}

impl<const DIM: usize> RStarInsert<DIM> {
    /// Choose the child to descend into: overlap cost among leaf-bearing
    /// children (pre-sorted by area cost when there are many), area cost
    /// among interior ones.  May reorder the children.
    #[verifier::loop_isolation(false)]
    fn choose_subnode<LG: MbrLeafGeometry<DIM>, T>(
        &self,
        level: &mut Vec<RTreeNode<DIM, LG, T>>,
        leaf: &MbrLeaf<DIM, LG, T>,
    ) -> (r: usize)
        requires
            self.spec_inv(),
            old(level)@.len() >= 1,
            leaf.geom_wf(),
            forall|i: int|
                0 <= i < old(level)@.len() ==> (#[trigger] old(level)@[i]).env().len() == DIM,
        ensures
            r < final(level)@.len(),
            final(level)@.to_multiset() == old(level)@.to_multiset(),
            final(level)@.len() == old(level)@.len(),
            forall|i: int|
                0 <= i < final(level)@.len() ==> (#[trigger] final(level)@[i]).env().len() == DIM,
            old(level)@[0].is_leaves() && old(level)@.len() > self.spec_p() ==> {
                &&& sorted_by_area_cost(final(level)@, leaf.envelope())
                &&& r < self.spec_p()
                &&& forall|j: int|
                    0 <= j < self.spec_p() ==> spec_overlap_cost(
                        *leaf,
                        final(level)@[r as int].env(),
                    ) <= spec_overlap_cost(*leaf, (#[trigger] final(level)@[j]).env())
            },
            old(level)@[0].is_leaves() && old(level)@.len() <= self.spec_p() ==> {
                &&& final(level)@ == old(level)@
                &&& forall|j: int|
                    0 <= j < final(level)@.len() ==> lex3_le(
                        (
                            spec_overlap_cost(*leaf, final(level)@[r as int].env()),
                            spec_area_cost(final(level)@[r as int].env(), leaf.envelope()).0,
                            spec_area_cost(final(level)@[r as int].env(), leaf.envelope()).1,
                        ),
                        (
                            spec_overlap_cost(*leaf, (#[trigger] final(level)@[j]).env()),
                            spec_area_cost(final(level)@[j].env(), leaf.envelope()).0,
                            spec_area_cost(final(level)@[j].env(), leaf.envelope()).1,
                        ),
                    )
            },
            !old(level)@[0].is_leaves() ==> {
                &&& final(level)@ == old(level)@
                &&& forall|j: int|
                    0 <= j < final(level)@.len() ==> lex2_le(
                        spec_area_cost(final(level)@[r as int].env(), leaf.envelope()),
                        spec_area_cost((#[trigger] final(level)@[j]).env(), leaf.envelope()),
                    )
            },
    {
        let ghost l0 = level@;
        let ghost le = leaf.envelope();
        if level[0].has_leaves() {
            if level.len() > self.choose_subtree_p {
                sort_nodes_by_area_cost(self, level, leaf);
                proof {
                    l0.to_multiset_ensures();
                    level@.to_multiset_ensures();
                    assert forall|i: int|
                        0 <= i < level@.len() implies (#[trigger] level@[i]).env().len()
                        == DIM by {
                        assert(level@.contains(level@[i]));
                        assert(level@.to_multiset().count(level@[i]) > 0);
                        assert(l0.to_multiset().count(level@[i]) > 0);
                        assert(l0.contains(level@[i]));
                    };
                }
                let mut best: usize = 0;
                let mut best_c = self.overlap_cost(level[0].mbr(), leaf);
                let mut i: usize = 1;
                while i < self.choose_subtree_p
                    invariant
                        best < i,
                        best < level@.len(),
                        1 <= i <= self.spec_p(),
                        self.choose_subtree_p < level@.len(),
                        forall|j: int|
                            0 <= j < level@.len() ==> (#[trigger] level@[j]).env().len() == DIM,
                        best_c as int == spec_overlap_cost(*leaf, level@[best as int].env()),
                        forall|j: int|
                            0 <= j < i ==> spec_overlap_cost(*leaf, level@[best as int].env())
                                <= spec_overlap_cost(*leaf, (#[trigger] level@[j]).env()),
                    decreases self.choose_subtree_p - i,
                {
                    let c = self.overlap_cost(level[i].mbr(), leaf);
                    if c < best_c {
                        best = i;
                        best_c = c;
                    }
                    i += 1;
                }
                best
            } else {
                let mut best: usize = 0;
                let (mut best_a, mut best_m) = self.area_cost(level[0].mbr(), leaf);
                let mut best_o = self.overlap_cost(level[0].mbr(), leaf);
                let mut i: usize = 1;
                while i < level.len()
                    invariant
                        level@ == l0,
                        best < level@.len(),
                        1 <= i,
                        best_o as int == spec_overlap_cost(*leaf, level@[best as int].env()),
                        (best_a as int, best_m as int) == spec_area_cost(
                            level@[best as int].env(),
                            le,
                        ),
                        forall|j: int|
                            0 <= j < i ==> lex3_le(
                                (
                                    spec_overlap_cost(*leaf, level@[best as int].env()),
                                    spec_area_cost(level@[best as int].env(), le).0,
                                    spec_area_cost(level@[best as int].env(), le).1,
                                ),
                                (
                                    spec_overlap_cost(*leaf, (#[trigger] level@[j]).env()),
                                    spec_area_cost(level@[j].env(), le).0,
                                    spec_area_cost(level@[j].env(), le).1,
                                ),
                            ),
                    decreases level@.len() - i,
                {
                    let (a, m) = self.area_cost(level[i].mbr(), leaf);
                    let o = self.overlap_cost(level[i].mbr(), leaf);
                    let better = if o != best_o {
                        o < best_o
                    } else if a != best_a {
                        a < best_a
                    } else {
                        m < best_m
                    };
                    if better {
                        best = i;
                        best_a = a;
                        best_m = m;
                        best_o = o;
                    }
                    i += 1;
                }
                best
            }
        } else {
            let mut best: usize = 0;
            let (mut best_a, mut best_m) = self.area_cost(level[0].mbr(), leaf);
            let mut i: usize = 1;
            while i < level.len()
                invariant
                    level@ == l0,
                    best < level@.len(),
                    1 <= i,
                    (best_a as int, best_m as int) == spec_area_cost(level@[best as int].env(), le),
                    forall|j: int|
                        0 <= j < i ==> lex2_le(
                            spec_area_cost(level@[best as int].env(), le),
                            spec_area_cost((#[trigger] level@[j]).env(), le),
                        ),
                decreases level@.len() - i,
            {
                let (a, m) = self.area_cost(level[i].mbr(), leaf);
                let better = if a != best_a {
                    a < best_a
                } else {
                    m < best_m
                };
                if better {
                    best = i;
                    best_a = a;
                    best_m = m;
                }
                i += 1;
            }
            best
        }
    }

    /// Forced reinsertion at the leaf level: split off the leaves furthest
    /// from the node's center and recompute the bound tightly.
    #[verifier::loop_isolation(false)]
    fn split_for_reinsert<LG: MbrLeafGeometry<DIM>, T>(
        &self,
        mbr: &mut Rect<DIM>,
        children: &mut Vec<MbrLeaf<DIM, LG, T>>,
    ) -> (r: Vec<MbrLeaf<DIM, LG, T>>)
        requires
            self.spec_inv(),
            old(mbr).wf(),
            old(children)@.len() == self.smax() + 1,
            forall|i: int|
                0 <= i < old(children)@.len() ==> (#[trigger] old(children)@[i]).geom_wf(),
        ensures
            final(children)@.to_multiset().add(r@.to_multiset()) == old(children)@.to_multiset(),
            final(children)@.len() == self.spec_reinsert_m(),
            r@.len() >= 1,
            forall|i: int|
                0 <= i < final(children)@.len() ==> (#[trigger] final(children)@[i]).geom_wf(),
            forall|i: int| 0 <= i < r@.len() ==> (#[trigger] r@[i]).geom_wf(),
            final(mbr).wf(),
            final(mbr).edges@ == fold_env(final(children)@),
            forall|i: int, j: int|
                #![trigger final(children)@[i], r@[j]]
                0 <= i < final(children)@.len() && 0 <= j < r@.len() ==> dist2_fold(
                    old(mbr).edges@,
                    final(children)@[i].center2(),
                ) <= dist2_fold(old(mbr).edges@, r@[j].center2()),
    {
        let ghost c0 = children@;
        sort_leaves_by_center_distance(children, mbr);
        let ghost sorted = children@;
        proof {
            c0.to_multiset_ensures();
            sorted.to_multiset_ensures();
            assert forall|i: int|
                0 <= i < sorted.len() implies (#[trigger] sorted[i]).geom_wf() by {
                assert(sorted.contains(sorted[i]));
                assert(sorted.to_multiset().count(sorted[i]) > 0);
                assert(c0.to_multiset().count(sorted[i]) > 0);
                assert(c0.contains(sorted[i]));
            };
        }
        let split = children.split_off(self.reinsert_m);
        proof {
            assert(sorted =~= children@ + split@);
            lemma_multiset_commutative(children@, split@);
        }
        let mut new_mbr = Rect::max_inverted();
        let mut i: usize = 0;
        while i < children.len()
            invariant
                0 <= i <= children@.len(),
                new_mbr.wf(),
                new_mbr.edges@ == fold_env(children@.subrange(0, i as int)),
            decreases children@.len() - i,
        {
            let ghost before = children@.subrange(0, i as int);
            children[i].expand_mbr_to_fit(&mut new_mbr);
            i += 1;
            proof {
                let now = children@.subrange(0, i as int);
                assert(now.drop_last() =~= before);
                assert(now.last() == children@[i - 1]);
            }
        }
        proof {
            assert(children@.subrange(0, children@.len() as int) =~= children@);
        }
        *mbr = new_mbr;
        split
    }

    /// How many leaves stay behind on a forced reinsertion.
    pub closed spec fn spec_reinsert_m(&self) -> int {
        self.reinsert_m as int
    }

    /// For one axis: the margins of both sortings accumulated over every
    /// split position in the window, and the best `(edge, position)` by
    /// lexicographic `(overlap, area)` over everything considered.
    #[verifier::loop_isolation(false)]
    #[verifier::rlimit(60)]
    fn best_split_position_for_axis<V: MbrLeafGeometry<DIM>>(
        &self,
        axis: usize,
        children: &mut Vec<V>,
    ) -> (r: (i64, usize, usize))
        requires
            self.spec_inv(),
            axis < DIM,
            old(children)@.len() == self.smax() + 1,
            forall|i: int|
                0 <= i < old(children)@.len() ==> (#[trigger] old(children)@[i]).geom_wf(),
        ensures
            final(children)@.to_multiset() == old(children)@.to_multiset(),
            final(children)@.len() == old(children)@.len(),
            forall|i: int|
                0 <= i < final(children)@.len() ==> (#[trigger] final(children)@[i]).geom_wf(),
            r.1 <= 1,
            self.spec_min_k() <= r.2 < self.spec_max_k(),
            sorted_by_axis_max(final(children)@, axis as int),
            exists|a: Seq<V>|
                #![trigger sorted_by_axis_min(a, axis as int)]
                {
                    let best = if r.1 == 0 {
                        split_cost(a, r.2 as int)
                    } else {
                        split_cost(final(children)@, r.2 as int)
                    };
                    &&& a.to_multiset() == old(children)@.to_multiset()
                    &&& sorted_by_axis_min(a, axis as int)
                    &&& r.0 as int == margin_acc(
                        final(children)@,
                        self.spec_min_k(),
                        self.spec_max_k(),
                        margin_acc(a, self.spec_min_k(), self.spec_max_k(), 0),
                    )
                    &&& best == (if r.1 == 0 {
                        split_cost(a, r.2 as int)
                    } else {
                        split_cost(final(children)@, r.2 as int)
                    })
                    &&& forall|k2: int|
                        self.spec_min_k() <= k2 < self.spec_max_k() ==> lex2_le(
                            best,
                            #[trigger] split_cost(a, k2),
                        )
                    &&& forall|k2: int|
                        self.spec_min_k() <= k2 < self.spec_max_k() ==> lex2_le(
                            best,
                            #[trigger] split_cost(final(children)@, k2),
                        )
                },
    {
        let ghost c0 = children@;
        let mut margin: i64 = 0;
        let mut d_overlap: i64 = i64::MAX;
        let mut d_area: i64 = i64::MAX;
        let mut d_edge: usize = 0;
        let mut d_index: usize = self.min_k;

        sort_by_axis_min(children, axis);
        let ghost aseq = children@;
        proof {
            c0.to_multiset_ensures();
            aseq.to_multiset_ensures();
            assert forall|i: int|
                0 <= i < children@.len() implies (#[trigger] children@[i]).geom_wf() by {
                assert(children@.contains(children@[i]));
                assert(children@.to_multiset().count(children@[i]) > 0);
                assert(c0.to_multiset().count(children@[i]) > 0);
                assert(c0.contains(children@[i]));
            };
        }
        let mut k: usize = self.min_k;
        while k < self.max_k
            invariant
                children@ == aseq,
                self.spec_min_k() <= k <= self.spec_max_k(),
                margin_acc(aseq, k as int, self.spec_max_k(), margin as int) == margin_acc(
                    aseq,
                    self.spec_min_k(),
                    self.spec_max_k(),
                    0,
                ),
                d_edge == 0,
                self.spec_min_k() <= d_index < self.spec_max_k(),
                (d_overlap as int, d_area as int) == split_cost(aseq, d_index as int) || (k
                    == self.spec_min_k() && d_overlap == i64::MAX && d_area == i64::MAX && d_index
                    == self.spec_min_k()),
                forall|k2: int|
                    self.spec_min_k() <= k2 < k ==> lex2_le(
                        (d_overlap as int, d_area as int),
                        #[trigger] split_cost(aseq, k2),
                    ),
            decreases self.spec_max_k() - k,
        {
            let (overlap, area, m) = self.split_position_cost(k, children);
            margin = sat_add(margin, m);
            if overlap < d_overlap || (overlap == d_overlap && area < d_area) {
                d_overlap = overlap;
                d_area = area;
                d_edge = 0;
                d_index = k;
            }
            proof {
                if !((d_overlap as int, d_area as int) == split_cost(aseq, d_index as int)) {
                    assert(split_cost(aseq, k as int).0 == i64::MAX as int);
                    assert(split_cost(aseq, k as int).1 == i64::MAX as int);
                    assert(false);
                }
            }
            k += 1;
        }
        let ghost after_a = margin as int;
        proof {
            assert(after_a == margin_acc(aseq, self.spec_min_k(), self.spec_max_k(), 0));
        }

        sort_by_axis_max(children, axis);
        let ghost bseq = children@;
        proof {
            aseq.to_multiset_ensures();
            bseq.to_multiset_ensures();
            assert forall|i: int|
                0 <= i < children@.len() implies (#[trigger] children@[i]).geom_wf() by {
                assert(children@.contains(children@[i]));
                assert(children@.to_multiset().count(children@[i]) > 0);
                assert(aseq.to_multiset().count(children@[i]) > 0);
                assert(aseq.contains(children@[i]));
            };
        }
        let mut k2: usize = self.min_k;
        while k2 < self.max_k
            invariant
                children@ == bseq,
                self.spec_min_k() <= k2 <= self.spec_max_k(),
                margin_acc(bseq, k2 as int, self.spec_max_k(), margin as int) == margin_acc(
                    bseq,
                    self.spec_min_k(),
                    self.spec_max_k(),
                    after_a,
                ),
                d_edge <= 1,
                self.spec_min_k() <= d_index < self.spec_max_k(),
                d_edge == 0 ==> (d_overlap as int, d_area as int) == split_cost(
                    aseq,
                    d_index as int,
                ),
                d_edge == 1 ==> (d_overlap as int, d_area as int) == split_cost(
                    bseq,
                    d_index as int,
                ),
                forall|j: int|
                    self.spec_min_k() <= j < self.spec_max_k() ==> lex2_le(
                        (d_overlap as int, d_area as int),
                        #[trigger] split_cost(aseq, j),
                    ),
                forall|j: int|
                    self.spec_min_k() <= j < k2 ==> lex2_le(
                        (d_overlap as int, d_area as int),
                        #[trigger] split_cost(bseq, j),
                    ),
            decreases self.spec_max_k() - k2,
        {
            let (overlap, area, m) = self.split_position_cost(k2, children);
            margin = sat_add(margin, m);
            if overlap < d_overlap || (overlap == d_overlap && area < d_area) {
                d_overlap = overlap;
                d_area = area;
                d_edge = 1;
                d_index = k2;
            }
            k2 += 1;
        }
        proof {
            assert(sorted_by_axis_min(aseq, axis as int));
        }
        (margin, d_edge, d_index)
    }

    /// The `(overlap, joint area, joint margin)` of splitting the
    /// children before position `k`.
    #[verifier::loop_isolation(false)]
    fn split_position_cost<V: MbrLeafGeometry<DIM>>(&self, k: usize, children: &Vec<V>) -> (r: (
        i64,
        i64,
        i64,
    ))
        requires
            k <= children@.len(),
            forall|i: int| 0 <= i < children@.len() ==> (#[trigger] children@[i]).geom_wf(),
        ensures
            r.0 as int == split_cost(children@, k as int).0,
            r.1 as int == split_cost(children@, k as int).1,
            r.2 as int == clamp64(
                margin_fold(prefix_env(children@, k as int)) + margin_fold(
                    suffix_env(children@, k as int),
                ),
            ),
    {
        let mut r1 = Rect::max_inverted();
        let mut i: usize = 0;
        while i < k
            invariant
                0 <= i <= k,
                r1.wf(),
                r1.edges@ == fold_env(children@.subrange(0, i as int)),
            decreases k - i,
        {
            let ghost before = children@.subrange(0, i as int);
            children[i].expand_mbr_to_fit(&mut r1);
            i += 1;
            proof {
                let now = children@.subrange(0, i as int);
                assert(now.drop_last() =~= before);
                assert(now.last() == children@[i - 1]);
            }
        }
        let mut r2 = Rect::max_inverted();
        let mut j: usize = k;
        while j < children.len()
            invariant
                k <= j <= children@.len(),
                r2.wf(),
                r2.edges@ == fold_env(children@.subrange(k as int, j as int)),
            decreases children@.len() - j,
        {
            let ghost before = children@.subrange(k as int, j as int);
            children[j].expand_mbr_to_fit(&mut r2);
            j += 1;
            proof {
                let now = children@.subrange(k as int, j as int);
                assert(now.drop_last() =~= before);
                assert(now.last() == children@[j - 1]);
            }
        }
        let area = sat_add(
            MbrLeafGeometry::<DIM>::area(&r1),
            MbrLeafGeometry::<DIM>::area(&r2),
        );
        let m = sat_add(r1.margin(), r2.margin());
        let overlap = MbrLeafGeometry::<DIM>::area_overlapped_with_mbr(&r1, &r2);
        (overlap, area, m)
    }

    /// The lower end of the axis-choice split window.
    pub closed spec fn spec_min_k(&self) -> int {
        self.min_k as int
    }

    /// The upper end (exclusive) of the axis-choice split window.
    pub closed spec fn spec_max_k(&self) -> int {
        self.max_k as int
    }

    /// Axis-choice split: the axis with the smallest accumulated margin,
    /// the position with the smallest `(overlap, area)` on it.
    #[verifier::loop_isolation(false)]
    fn split<V: MbrLeafGeometry<DIM>>(&self, mbr: &mut Rect<DIM>, children: &mut Vec<V>) -> (r: (
        Rect<DIM>,
        Vec<V>,
    ))
        requires
            self.spec_inv(),
            old(mbr).wf(),
            old(children)@.len() == self.smax() + 1,
            forall|i: int|
                0 <= i < old(children)@.len() ==> (#[trigger] old(children)@[i]).geom_wf(),
        ensures
            final(children)@.to_multiset().add(r.1@.to_multiset()) == old(children)@.to_multiset(),
            final(children)@.len() + r.1@.len() == old(children)@.len(),
            self.smin() <= final(children)@.len() <= self.smax(),
            self.smin() <= r.1@.len() <= self.smax(),
            forall|i: int|
                0 <= i < final(children)@.len() ==> (#[trigger] final(children)@[i]).geom_wf(),
            forall|i: int| 0 <= i < r.1@.len() ==> (#[trigger] r.1@[i]).geom_wf(),
            final(mbr).wf(),
            final(mbr).edges@ == fold_env(final(children)@),
            r.0.wf(),
            r.0.edges@ == fold_env(r.1@),
    {
        let ghost c0 = children@;
        let mut s_axis: usize = 0;
        let mut s_edge: usize = 0;
        let mut s_index: usize = self.min_k;
        let mut best_margin: i64 = 0;
        let mut first: bool = true;
        let mut axis: usize = 0;
        while axis < DIM
            invariant
                children@.to_multiset() == c0.to_multiset(),
                children@.len() == c0.len(),
                forall|i: int|
                    0 <= i < children@.len() ==> (#[trigger] children@[i]).geom_wf(),
                s_edge <= 1,
                self.spec_min_k() <= s_index < self.spec_max_k(),
                s_axis < DIM,
            decreases DIM - axis,
        {
            let (m, e, idx) = self.best_split_position_for_axis(axis, children);
            if first || m < best_margin {
                best_margin = m;
                s_axis = axis;
                s_edge = e;
                s_index = idx;
                first = false;
            }
            axis += 1;
        }
        if s_edge == 0 {
            sort_by_axis_min(children, s_axis);
        } else {
            sort_by_axis_max(children, s_axis);
        }
        let ghost sorted = children@;
        proof {
            c0.to_multiset_ensures();
            sorted.to_multiset_ensures();
            assert forall|i: int|
                0 <= i < sorted.len() implies (#[trigger] sorted[i]).geom_wf() by {
                assert(sorted.contains(sorted[i]));
                assert(sorted.to_multiset().count(sorted[i]) > 0);
                assert(c0.to_multiset().count(sorted[i]) > 0);
                assert(c0.contains(sorted[i]));
            };
        }
        let split_children = children.split_off(s_index);
        proof {
            assert(sorted =~= children@ + split_children@);
            lemma_multiset_commutative(children@, split_children@);
        }
        let mut new_mbr = Rect::max_inverted();
        let mut i: usize = 0;
        while i < children.len()
            invariant
                0 <= i <= children@.len(),
                new_mbr.wf(),
                new_mbr.edges@ == fold_env(children@.subrange(0, i as int)),
            decreases children@.len() - i,
        {
            let ghost before = children@.subrange(0, i as int);
            children[i].expand_mbr_to_fit(&mut new_mbr);
            i += 1;
            proof {
                let now = children@.subrange(0, i as int);
                assert(now.drop_last() =~= before);
                assert(now.last() == children@[i - 1]);
            }
        }
        let mut split_mbr = Rect::max_inverted();
        let mut j: usize = 0;
        while j < split_children.len()
            invariant
                0 <= j <= split_children@.len(),
                split_mbr.wf(),
                split_mbr.edges@ == fold_env(split_children@.subrange(0, j as int)),
            decreases split_children@.len() - j,
        {
            let ghost before = split_children@.subrange(0, j as int);
            split_children[j].expand_mbr_to_fit(&mut split_mbr);
            j += 1;
            proof {
                let now = split_children@.subrange(0, j as int);
                assert(now.drop_last() =~= before);
                assert(now.last() == split_children@[j - 1]);
            }
        }
        proof {
            assert(children@.subrange(0, children@.len() as int) =~= children@);
            assert(split_children@.subrange(0, split_children@.len() as int) =~= split_children@);
        }
        *mbr = new_mbr;
        (split_mbr, split_children)
    }
}

impl<const DIM: usize> RStarInsert<DIM> {
    /// Handle an overflowing node: forced reinsertion for a first
    /// leaf-level overflow below the root, an axis-choice split otherwise.
    #[verifier::loop_isolation(false)]
    fn handle_overflow<LG: MbrLeafGeometry<DIM>, T>(
        &self,
        level: RTreeNode<DIM, LG, T>,
        at_root: bool,
        force_split: bool,
    ) -> (r: (RTreeNode<DIM, LG, T>, InsertResult<DIM, LG, T>))
        requires
            self.spec_inv(),
            level.wf_children(self.smin(), self.smax()),
            level.spec_len() == self.smax() + 1,
        ensures
            r.0.is_leaves() == level.is_leaves(),
            r.0.height() == level.height(),
            r.0.leaf_ms().add(r.1.result_ms()) == level.leaf_ms(),
            !(r.1 is Placed),
            force_split ==> !(r.1 is Reinsert),
            at_root ==> !(r.1 is Reinsert),
            !at_root && !force_split && level.is_leaves() ==> r.1 is Reinsert,
            r.1 is Reinsert ==> r.0.wf_node(self.smin(), self.smin(), self.smax()),
            r.1 matches InsertResult::Reinsert(v) ==> forall|i: int|
                0 <= i < v@.len() ==> (#[trigger] v@[i]).geom_wf(),
            r.1 matches InsertResult::Split(s) ==> {
                &&& r.0.wf_node(self.smin(), self.smin(), self.smax())
                &&& s.wf_node(self.smin(), self.smin(), self.smax())
                &&& s.height() == level.height()
                &&& s.is_leaves() == level.is_leaves()
                &&& env_union(r.0.env(), s.env()) == level.env()
            },
    {
        let ghost lvl = level;
        match level {
            RTreeNode::Leaves { mut mbr, mut children } => {
                let ghost orig = children@;
                proof {
                    lemma_fold_env_len::<DIM, MbrLeaf<DIM, LG, T>>(orig);
                }
                if !at_root && !force_split {
                    let reins = self.split_for_reinsert(&mut mbr, &mut children);
                    let node = RTreeNode::Leaves { mbr, children };
                    (node, InsertResult::Reinsert(reins))
                } else {
                    let (split_mbr, split_children) = self.split(&mut mbr, &mut children);
                    let node = RTreeNode::Leaves { mbr, children };
                    let sib = RTreeNode::Leaves { mbr: split_mbr, children: split_children };
                    proof {
                        lemma_fold_env_concat::<DIM, MbrLeaf<DIM, LG, T>>(children@, split_children@);
                        lemma_multiset_commutative(children@, split_children@);
                        lemma_fold_env_perm::<DIM, MbrLeaf<DIM, LG, T>>(
                            children@ + split_children@,
                            orig,
                        );
                    }
                    (node, InsertResult::Split(sib))
                }
            },
            RTreeNode::Level { mut mbr, mut children } => {
                let ghost orig = children@;
                let ghost h = lvl.height();
                proof {
                    assert(h == 1 + orig[0].height());
                    assert forall|i: int| 0 <= i < orig.len() implies (#[trigger] orig[i]).geom_wf() by {
                        orig[i].lemma_wf_covers(self.smin(), self.smin(), self.smax());
                    };
                    lemma_fold_env_len::<DIM, RTreeNode<DIM, LG, T>>(orig);
                }
                let (split_mbr, split_children) = self.split(&mut mbr, &mut children);
                proof {
                    lemma_fold_env_concat::<DIM, RTreeNode<DIM, LG, T>>(children@, split_children@);
                    lemma_multiset_commutative(children@, split_children@);
                    lemma_fold_env_perm::<DIM, RTreeNode<DIM, LG, T>>(
                        children@ + split_children@,
                        orig,
                    );
                    lemma_nodes_leaf_ms_perm(children@ + split_children@, orig);
                    lemma_nodes_leaf_ms_concat(children@, split_children@);
                    orig.to_multiset_ensures();
                    (children@ + split_children@).to_multiset_ensures();
                    assert forall|i: int|
                        0 <= i < children@.len() implies (#[trigger] children@[i]).wf_node(
                        self.smin(),
                        self.smin(),
                        self.smax(),
                    ) && children@[i].height() == orig[0].height() by {
                        assert((children@ + split_children@)[i] == children@[i]);
                        assert((children@ + split_children@).contains(children@[i]));
                        assert((children@ + split_children@).to_multiset().count(children@[i])
                            > 0);
                        assert(orig.to_multiset().count(children@[i]) > 0);
                        assert(orig.contains(children@[i]));
                        let j = choose|j: int| 0 <= j < orig.len() && orig[j] == children@[i];
                        assert(orig[j].wf_node(self.smin(), self.smin(), self.smax()));
                    };
                    assert forall|i: int|
                        0 <= i < split_children@.len() implies (
                    #[trigger] split_children@[i]).wf_node(
                        self.smin(),
                        self.smin(),
                        self.smax(),
                    ) && split_children@[i].height() == orig[0].height() by {
                        let n = children@.len();
                        assert((children@ + split_children@)[n + i] == split_children@[i]);
                        assert((children@ + split_children@).contains(split_children@[i]));
                        assert((children@ + split_children@).to_multiset().count(
                            split_children@[i],
                        ) > 0);
                        assert(orig.to_multiset().count(split_children@[i]) > 0);
                        assert(orig.contains(split_children@[i]));
                        let j = choose|j: int|
                            0 <= j < orig.len() && orig[j] == split_children@[i];
                        assert(orig[j].wf_node(self.smin(), self.smin(), self.smax()));
                    };
                }
                let node = RTreeNode::Level { mbr, children };
                let sib = RTreeNode::Level { mbr: split_mbr, children: split_children };
                (node, InsertResult::Split(sib))
            },
        }
    }

    /// Descend to the leaf level, growing every bound on the way; handle
    /// overflow by forced reinsertion once per insertion, else by split.
    #[verifier::loop_isolation(false)]
    #[verifier::rlimit(60)]
    fn insert_into_level<LG: MbrLeafGeometry<DIM>, T>(
        &self,
        level: RTreeNode<DIM, LG, T>,
        leaf: MbrLeaf<DIM, LG, T>,
        at_root: bool,
        force_split: bool,
        Ghost(lo): Ghost<int>,
    ) -> (r: (RTreeNode<DIM, LG, T>, InsertResult<DIM, LG, T>))
        requires
            self.spec_inv(),
            0 <= lo,
            !at_root ==> lo == self.smin(),
            level.wf_node(lo, self.smin(), self.smax()),
            leaf.geom_wf(),
        ensures
            r.0.is_leaves() == level.is_leaves(),
            r.0.height() == level.height(),
            r.0.leaf_ms().add(r.1.result_ms()) == level.leaf_ms().insert(leaf),
            force_split ==> !(r.1 is Reinsert),
            r.1 is Placed ==> r.0.wf_node(
                if lo > 1 {
                    lo
                } else {
                    1
                },
                self.smin(),
                self.smax(),
            ) && r.0.env() == env_union(level.env(), leaf.envelope()),
            r.1 is Reinsert ==> r.0.wf_node(
                if lo > 1 {
                    lo
                } else {
                    1
                },
                self.smin(),
                self.smax(),
            ),
            r.1 matches InsertResult::Reinsert(v) ==> forall|i: int|
                0 <= i < v@.len() ==> (#[trigger] v@[i]).geom_wf(),
            r.1 matches InsertResult::Split(s) ==> {
                &&& r.0.wf_node(self.smin(), self.smin(), self.smax())
                &&& s.wf_node(self.smin(), self.smin(), self.smax())
                &&& s.height() == level.height()
                &&& s.is_leaves() == level.is_leaves()
                &&& env_union(r.0.env(), s.env()) == env_union(level.env(), leaf.envelope())
            },
        decreases level.height(),
    {
        let ghost lvl = level;
        let ghost min = self.smin();
        let ghost max = self.smax();
        match level {
            RTreeNode::Leaves { mut mbr, mut children } => {
                let ghost ch0 = children@;
                let ghost m0 = mbr.edges@;
                proof {
                    lemma_fold_env_len::<DIM, MbrLeaf<DIM, LG, T>>(ch0);
                }
                leaf.geometry.expand_mbr_to_fit(&mut mbr);
                children.push(leaf);
                proof {
                    lemma_fold_env_push::<DIM, MbrLeaf<DIM, LG, T>>(ch0, leaf);
                    assert(ch0.push(leaf).to_multiset() =~= ch0.to_multiset().insert(leaf));
                    assert(leaf.geometry.envelope() == MbrLeafGeometry::<DIM>::envelope(&leaf));
                }
                if children.len() > self.max {
                    let node = RTreeNode::Leaves { mbr, children };
                    self.handle_overflow(node, at_root, force_split)
                } else {
                    (RTreeNode::Leaves { mbr, children }, InsertResult::Placed)
                }
            },
            RTreeNode::Level { mut mbr, mut children } => {
                let ghost ch0 = children@;
                let ghost m0 = mbr.edges@;
                let ghost h = lvl.height();
                proof {
                    lemma_fold_env_len::<DIM, RTreeNode<DIM, LG, T>>(ch0);
                    assert forall|i: int| 0 <= i < ch0.len() implies (#[trigger] ch0[i]).env().len()
                        == DIM by {
                        ch0[i].lemma_wf_covers(min, min, max);
                    };
                    assert(h == 1 + ch0[0].height());
                }
                leaf.geometry.expand_mbr_to_fit(&mut mbr);
                let idx = self.choose_subnode(&mut children, &leaf);
                let ghost ch1 = children@;
                proof {
                    ch0.to_multiset_ensures();
                    ch1.to_multiset_ensures();
                    lemma_fold_env_perm::<DIM, RTreeNode<DIM, LG, T>>(ch1, ch0);
                    lemma_nodes_leaf_ms_perm(ch1, ch0);
                    assert forall|i: int|
                        0 <= i < ch1.len() implies (#[trigger] ch1[i]).wf_node(min, min, max)
                        && ch1[i].height() + 1 == h by {
                        assert(ch1.contains(ch1[i]));
                        assert(ch1.to_multiset().count(ch1[i]) > 0);
                        assert(ch0.to_multiset().count(ch1[i]) > 0);
                        assert(ch0.contains(ch1[i]));
                        let j = choose|j: int| 0 <= j < ch0.len() && ch0[j] == ch1[i];
                        assert(ch0[j].wf_node(min, min, max));
                    };
                }
                let child = children.remove(idx);
                let ghost rest = children@;
                proof {
                    lemma_fold_env_remove::<DIM, RTreeNode<DIM, LG, T>>(ch1, idx as int);
                    lemma_nodes_leaf_ms_remove(ch1, idx as int);
                    lemma_fold_env_len::<DIM, RTreeNode<DIM, LG, T>>(rest);
                    assert(child.height() + 1 == h);
                    assert(child.height() < lvl.height());
                }
                let (new_child, inner) = self.insert_into_level(
                    child,
                    leaf,
                    false,
                    force_split,
                    Ghost(min),
                );
                let ghost nc = new_child;
                let ghost inr = inner;
                children.push(new_child);
                let ghost fr = fold_env::<DIM, RTreeNode<DIM, LG, T>>(rest);
                proof {
                    lemma_fold_env_push::<DIM, RTreeNode<DIM, LG, T>>(rest, nc);
                    lemma_nodes_leaf_ms_push(rest, nc);
                    lemma_env_union_assoc(fr, child.env(), leaf.envelope());
                }
                match inner {
                    InsertResult::Split(sib) => {
                        let ghost sb = sib;
                        let ghost rest2 = children@;
                        children.push(sib);
                        proof {
                            assert(inr == InsertResult::Split(sb));
                            assert(inr.result_ms() == sb.leaf_ms());
                            nc.lemma_wf_covers(min, min, max);
                            sb.lemma_wf_covers(min, min, max);
                            lemma_fold_env_push::<DIM, RTreeNode<DIM, LG, T>>(rest2, sb);
                            lemma_nodes_leaf_ms_push(rest2, sb);
                            lemma_env_union_assoc(fr, nc.env(), sb.env());
                            assert(fold_env::<DIM, RTreeNode<DIM, LG, T>>(children@) == env_union(
                                m0,
                                leaf.envelope(),
                            ));
                            assert(nc.leaf_ms().add(sb.leaf_ms()) == child.leaf_ms().insert(leaf));
                            assert(nodes_leaf_ms(rest).add(nc.leaf_ms()).add(sb.leaf_ms())
                                =~= nodes_leaf_ms(rest).add(nc.leaf_ms().add(sb.leaf_ms())));
                            assert(nodes_leaf_ms(rest).add(child.leaf_ms()).insert(leaf)
                                =~= nodes_leaf_ms(rest).add(child.leaf_ms().insert(leaf)));
                            assert(nodes_leaf_ms(children@) =~= nodes_leaf_ms(ch0).insert(leaf));
                            assert forall|i: int|
                                0 <= i < children@.len() implies (#[trigger] children@[i]).wf_node(
                                min,
                                min,
                                max,
                            ) && children@[i].height() + 1 == h by {
                                if i < rest.len() {
                                    assert(children@[i] == rest[i]);
                                    assert(rest =~= ch1.subrange(0, idx as int) + ch1.subrange(
                                        idx as int + 1,
                                        ch1.len() as int,
                                    ));
                                    if i < idx {
                                        assert(rest[i] == ch1[i]);
                                    } else {
                                        assert(rest[i] == ch1[i + 1]);
                                    }
                                } else if i == rest.len() {
                                    assert(children@[i] == nc);
                                } else {
                                    assert(i == rest.len() + 1);
                                }
                            };
                            assert forall|i: int|
                                0 <= i < children@.len() implies (#[trigger] children@[i]).height()
                                == children@[0].height() by {};
                        }
                        if children.len() > self.max {
                            let node = RTreeNode::Level { mbr, children };
                            proof {
                                assert(node.height() == h);
                            }
                            self.handle_overflow(node, at_root, force_split)
                        } else {
                            (RTreeNode::Level { mbr, children }, InsertResult::Placed)
                        }
                    },
                    InsertResult::Reinsert(v) => {
                        let ghost vv = v;
                        proof {
                            assert(inr == InsertResult::Reinsert(vv));
                            assert(inr.result_ms() == vv@.to_multiset());
                            assert(nc.wf_node(min, min, max));
                            assert forall|i: int|
                                0 <= i < children@.len() implies (#[trigger] children@[i]).wf_node(
                                min,
                                min,
                                max,
                            ) && children@[i].height() + 1 == h by {
                                if i < rest.len() {
                                    assert(children@[i] == rest[i]);
                                    assert(rest =~= ch1.subrange(0, idx as int) + ch1.subrange(
                                        idx as int + 1,
                                        ch1.len() as int,
                                    ));
                                    if i < idx {
                                        assert(rest[i] == ch1[i]);
                                    } else {
                                        assert(rest[i] == ch1[i + 1]);
                                    }
                                } else {
                                    assert(children@[i] == nc);
                                }
                            };
                            assert forall|i: int|
                                0 <= i < children@.len() implies (#[trigger] children@[i]).height()
                                == children@[0].height() by {};
                            assert forall|j: int|
                                0 <= j < children@.len() implies (#[trigger] children@[j]).geom_wf() by {
                                children@[j].lemma_wf_covers(min, min, max);
                            };
                        }
                        let mut new_mbr = Rect::max_inverted();
                        let mut i: usize = 0;
                        while i < children.len()
                            invariant
                                0 <= i <= children@.len(),
                                new_mbr.wf(),
                                new_mbr.edges@ == fold_env(children@.subrange(0, i as int)),
                            decreases children@.len() - i,
                        {
                            let ghost before = children@.subrange(0, i as int);
                            MbrLeafGeometry::<DIM>::expand_mbr_to_fit(&children[i], &mut new_mbr);
                            i += 1;
                            proof {
                                let now = children@.subrange(0, i as int);
                                assert(now.drop_last() =~= before);
                                assert(now.last() == children@[i - 1]);
                            }
                        }
                        proof {
                            assert(children@.subrange(0, children@.len() as int) =~= children@);
                        }
                        let node = RTreeNode::Level { mbr: new_mbr, children };
                        proof {
                            assert(node.height() == h);
                            assert(nc.leaf_ms().add(vv@.to_multiset()) == child.leaf_ms().insert(
                                leaf,
                            ));
                            assert(nodes_leaf_ms(rest).add(nc.leaf_ms()).add(vv@.to_multiset())
                                =~= nodes_leaf_ms(rest).add(nc.leaf_ms().add(vv@.to_multiset())));
                            assert(nodes_leaf_ms(rest).add(child.leaf_ms()).insert(leaf)
                                =~= nodes_leaf_ms(rest).add(child.leaf_ms().insert(leaf)));
                            assert(node.leaf_ms() == nodes_leaf_ms(children@));
                            assert(node.leaf_ms().add(vv@.to_multiset()) =~= nodes_leaf_ms(
                                ch0,
                            ).insert(leaf));
                        }
                        (node, InsertResult::Reinsert(v))
                    },
                    InsertResult::Placed => {
                        proof {
                            assert(inr is Placed);
                            assert(inr.result_ms() == Multiset::<MbrLeaf<DIM, LG, T>>::empty());
                            assert(fold_env::<DIM, RTreeNode<DIM, LG, T>>(children@) == env_union(
                                m0,
                                leaf.envelope(),
                            ));
                            assert(nc.leaf_ms() =~= child.leaf_ms().insert(leaf));
                            assert(nodes_leaf_ms(children@) =~= nodes_leaf_ms(ch0).insert(leaf));
                            assert forall|i: int|
                                0 <= i < children@.len() implies (#[trigger] children@[i]).wf_node(
                                min,
                                min,
                                max,
                            ) && children@[i].height() + 1 == h by {
                                if i < rest.len() {
                                    assert(children@[i] == rest[i]);
                                    assert(rest =~= ch1.subrange(0, idx as int) + ch1.subrange(
                                        idx as int + 1,
                                        ch1.len() as int,
                                    ));
                                    if i < idx {
                                        assert(rest[i] == ch1[i]);
                                    } else {
                                        assert(rest[i] == ch1[i + 1]);
                                    }
                                } else {
                                    assert(children@[i] == nc);
                                }
                            };
                            assert forall|i: int|
                                0 <= i < children@.len() implies (#[trigger] children@[i]).height()
                                == children@[0].height() by {};
                        }
                        (RTreeNode::Level { mbr, children }, InsertResult::Placed)
                    },
                }
            },
        }
    }

    /// Create a new root whose two children are the old root and the
    /// piece split off it.
    fn handle_split_root<LG: MbrLeafGeometry<DIM>, T>(
        &self,
        root: RTreeNode<DIM, LG, T>,
        split: RTreeNode<DIM, LG, T>,
    ) -> (r: RTreeNode<DIM, LG, T>)
        requires
            self.spec_inv(),
            root.wf_node(self.smin(), self.smin(), self.smax()),
            split.wf_node(self.smin(), self.smin(), self.smax()),
            split.height() == root.height(),
        ensures
            r.root_wf(self.smin(), self.smax()),
            r.leaf_ms() == root.leaf_ms().add(split.leaf_ms()),
    {
        let ghost rt = root;
        let ghost sp = split;
        proof {
            rt.lemma_wf_covers(self.smin(), self.smin(), self.smax());
            sp.lemma_wf_covers(self.smin(), self.smin(), self.smax());
        }
        let mut mbr = root.mbr().duplicate();
        MbrLeafGeometry::<DIM>::expand_mbr_to_fit(&split, &mut mbr);
        let mut children: Vec<RTreeNode<DIM, LG, T>> = Vec::new();
        children.push(root);
        children.push(split);
        proof {
            lemma_fold_env_push::<DIM, RTreeNode<DIM, LG, T>>(Seq::empty(), rt);
            lemma_fold_env_push::<DIM, RTreeNode<DIM, LG, T>>(Seq::empty().push(rt), sp);
            assert(children@ =~= Seq::empty().push(rt).push(sp));
            assert(env_union(crate::geometry::env_inverted(DIM as nat), rt.env()) =~= rt.env());
            lemma_nodes_leaf_ms_push(Seq::empty(), rt);
            lemma_nodes_leaf_ms_push(Seq::empty().push(rt), sp);
            assert(nodes_leaf_ms(Seq::<RTreeNode<DIM, LG, T>>::empty()).add(rt.leaf_ms())
                =~= rt.leaf_ms());
            assert(nodes_leaf_ms(children@) =~= rt.leaf_ms().add(sp.leaf_ms()));
        }
        RTreeNode::Level { mbr, children }
    }
}

impl<const DIM: usize, LG: MbrLeafGeometry<DIM>, T> IndexInsert<DIM, LG, T> for RStarInsert<
    DIM,
> {
    open spec fn inv(&self) -> bool {
        self.spec_inv()
    }

    open spec fn spec_min(&self) -> int {
        self.smin()
    }

    open spec fn spec_max(&self) -> int {
        self.smax()
    }

    #[verifier::loop_isolation(false)]
    fn insert_into_root(&self, root: RTreeNode<DIM, LG, T>, leaf: MbrLeaf<DIM, LG, T>) -> (r:
        RTreeNode<DIM, LG, T>) {
        let ghost rt0 = root;
        let ghost lo: int = if root.is_leaves() {
            0
        } else {
            1
        };
        let (root2, res) = self.insert_into_level(root, leaf, true, false, Ghost(lo));
        let ghost rss = res;
        match res {
            InsertResult::Split(child) => {
                proof {
                    assert(rss == InsertResult::Split(child));
                }
                self.handle_split_root(root2, child)
            },
            InsertResult::Reinsert(mut leaves) => {
                let ghost vv = leaves;
                proof {
                    assert(rss == InsertResult::Reinsert(vv));
                    assert(rss.result_ms() == vv@.to_multiset());
                }
                let mut new_root = root2;
                while leaves.len() > 0
                    invariant
                        new_root.root_wf(self.smin(), self.smax()),
                        new_root.leaf_ms().add(leaves@.to_multiset()) == rt0.leaf_ms().insert(
                            leaf,
                        ),
                        forall|i: int| 0 <= i < leaves@.len() ==> (#[trigger] leaves@[i]).geom_wf(),
                    decreases leaves@.len(),
                {
                    let ghost lprev = leaves@;
                    let l = leaves.pop().unwrap();
                    proof {
                        assert(lprev.drop_last() =~= lprev.remove(lprev.len() - 1));
                        assert(l == lprev[lprev.len() - 1]);
                    }
                    let ghost lo2: int = if new_root.is_leaves() {
                        0
                    } else {
                        1
                    };
                    let ghost prev_root = new_root;
                    let (r2, res2) = self.insert_into_level(new_root, l, true, true, Ghost(lo2));
                    let ghost rs2 = res2;
                    match res2 {
                        InsertResult::Split(c) => {
                            proof {
                                assert(rs2 == InsertResult::Split(c));
                                assert(rs2.result_ms() == c.leaf_ms());
                                assert(r2.leaf_ms().add(c.leaf_ms()) == prev_root.leaf_ms().insert(
                                    l,
                                ));
                            }
                            new_root = self.handle_split_root(r2, c);
                            proof {
                                assert(new_root.leaf_ms() =~= prev_root.leaf_ms().insert(l));
                            }
                        },
                        InsertResult::Reinsert(_) => {
                            proof {
                                assert(false);
                            }
                            new_root = r2;
                        },
                        InsertResult::Placed => {
                            proof {
                                assert(rs2 is Placed);
                                assert(rs2.result_ms() == Multiset::<MbrLeaf<DIM, LG, T>>::empty());
                                assert(r2.leaf_ms().add(Multiset::<MbrLeaf<DIM, LG, T>>::empty())
                                    =~= r2.leaf_ms());
                                assert(r2.leaf_ms() =~= prev_root.leaf_ms().insert(l));
                            }
                            new_root = r2;
                        },
                    }
                    proof {
                        assert(new_root.leaf_ms() == prev_root.leaf_ms().insert(l));
                        assert(lprev.to_multiset() =~= leaves@.to_multiset().insert(l));
                        assert(prev_root.leaf_ms().insert(l).add(leaves@.to_multiset())
                            =~= prev_root.leaf_ms().add(leaves@.to_multiset().insert(l)));
                        assert(new_root.leaf_ms().add(leaves@.to_multiset()) =~= rt0.leaf_ms().insert(
                            leaf,
                        ));
                    }
                }
                proof {
                    assert(leaves@.to_multiset() =~= Multiset::<MbrLeaf<DIM, LG, T>>::empty());
                    assert(new_root.leaf_ms() =~= rt0.leaf_ms().insert(leaf));
                }
                new_root
            },
            InsertResult::Placed => {
                proof {
                    assert(rss is Placed);
                    assert(rss.result_ms() == Multiset::<MbrLeaf<DIM, LG, T>>::empty());
                    assert(root2.leaf_ms() =~= rt0.leaf_ms().insert(leaf));
                }
                root2
            },
        }
    }

    fn preferred_min(&self) -> (r: usize) {
        self.preferred_min
    }

    fn new_leaves(&self) -> (r: RTreeNode<DIM, LG, T>) {
        RTreeNode::new_leaves()
    }

    fn new_no_alloc_leaves(&self) -> (r: RTreeNode<DIM, LG, T>) {
        RTreeNode::new_no_alloc()
    }
}

} // verus!
