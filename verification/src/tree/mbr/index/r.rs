//! The classical R-tree: seed-driven splitting, least-expansion insertion
//! and condense-on-removal.

use vstd::prelude::*;
use vstd::multiset::Multiset;
use vstd::seq_lib::group_to_multiset_ensures;
use vstd::seq_lib::lemma_multiset_commutative;
use crate::arith::sat_sub;
use crate::geometry::{area_fold, env_inverted, env_union, Env, Rect};
use crate::tree::mbr::index::rstar::lex2_le;
use crate::arith::clamp64;
use crate::tree::mbr::index::{kept_exact, leaf_kept_ok, lemma_kept_exact_implies_ok, must_false, opt_leaf_ms, IndexInsert, IndexRemove, MbrNodeSplit};
use crate::tree::mbr::query::MbrQuery;
use crate::tree::mbr::leaf::MbrLeaf;
use crate::tree::mbr::leafgeometry::MbrLeafGeometry;
use crate::tree::mbr::node::{
    fold_env, nodes_leaf_ms, lemma_env_union_assoc, lemma_fold_env_concat, lemma_fold_env_len,
    lemma_fold_env_perm, lemma_fold_env_push, lemma_fold_env_remove, lemma_nodes_leaf_ms_concat,
    lemma_nodes_leaf_ms_perm, lemma_nodes_leaf_ms_push, lemma_nodes_leaf_ms_remove, RTreeNode,
};

verus! {

broadcast use group_to_multiset_ensures, vstd::multiset::group_multiset_axioms;

/// Adding the same multiset on both sides of an equation cancels.
proof fn lemma_ms_cancel<A>(base: Multiset<A>, x: Multiset<A>, y: Multiset<A>)
    requires
        base.add(x) == base.add(y),
    ensures
        x == y,
{
    assert forall|a: A| x.count(a) == y.count(a) by {
        vstd::multiset::axiom_multiset_add(base, x, a);
        vstd::multiset::axiom_multiset_add(base, y, a);
        assert(base.add(x).count(a) == base.add(y).count(a));
    };
    assert(x =~= y);
}

/// Compare two separations normalized by positive axis widths:
/// `n1 / w1 > n2 / w2`, decided exactly by cross multiplication.
fn frac_gt(n1: i64, w1: i64, n2: i64, w2: i64) -> (r: bool)
    requires
        w1 > 0,
        w2 > 0,
    ensures
        r == ((n1 as int) * (w2 as int) > (n2 as int) * (w1 as int)),
{
    proof {
        assert(i128::MIN <= (n1 as int) * (w2 as int) <= i128::MAX) by (nonlinear_arith)
            requires
                i64::MIN <= n1 as int <= i64::MAX,
                i64::MIN <= w2 as int <= i64::MAX,
        ;
        assert(i128::MIN <= (n2 as int) * (w1 as int) <= i128::MAX) by (nonlinear_arith)
            requires
                i64::MIN <= n2 as int <= i64::MAX,
                i64::MIN <= w1 as int <= i64::MAX,
        ;
    }
    let a: i128 = n1 as i128 * w2 as i128;
    let b: i128 = n2 as i128 * w1 as i128;
    a > b
}

/// The waste of keeping children `a` and `b` together: the area of
/// their joint bound less each child's own area, with the same
/// saturating arithmetic the picker computes with.
pub open spec fn pair_waste<const DIM: usize, V: MbrLeafGeometry<DIM>>(
    children: Seq<V>,
    a: int,
    b: int,
) -> int {
    let u = env_union(
        env_union(env_inverted(DIM as nat), children[a].envelope()),
        children[b].envelope(),
    );
    clamp64(clamp64(area_fold(u) - children[a].spec_area()) - children[b].spec_area())
}

/// The greatest minimum extent on `axis` among the children.
pub open spec fn greatest_min<const DIM: usize, V: MbrLeafGeometry<DIM>>(
    children: Seq<V>,
    axis: int,
) -> int
    decreases children.len(),
{
    if children.len() <= 1 {
        children[0].envelope()[axis].0 as int
    } else {
        let rest = greatest_min(children.drop_last(), axis);
        let last = children.last().envelope()[axis].0 as int;
        if last > rest {
            last
        } else {
            rest
        }
    }
}

/// The least maximum extent on `axis` among the children.
pub open spec fn least_max<const DIM: usize, V: MbrLeafGeometry<DIM>>(
    children: Seq<V>,
    axis: int,
) -> int
    decreases children.len(),
{
    if children.len() <= 1 {
        children[0].envelope()[axis].1 as int
    } else {
        let rest = least_max(children.drop_last(), axis);
        let last = children.last().envelope()[axis].1 as int;
        if last < rest {
            last
        } else {
            rest
        }
    }
}

/// The separation between the greatest minimum and the least maximum on
/// `axis`, saturating.
pub open spec fn separation<const DIM: usize, V: MbrLeafGeometry<DIM>>(
    children: Seq<V>,
    axis: int,
) -> int {
    clamp64(greatest_min(children, axis) - least_max(children, axis))
}

/// The width of the bound on `axis`, clamped to 1 to avoid a zero
/// division in the normalized separation.
pub open spec fn norm_width(e: Env, axis: int) -> int {
    if clamp64(e[axis].1 - e[axis].0) <= 0 {
        1
    } else {
        clamp64(e[axis].1 - e[axis].0)
    }
}

/// Chooses the two children an overflowing node is split around.  Each
/// picker states its own selection rule as further `ensures` clauses on
/// its implementation.
pub trait PickSeed<const DIM: usize>: Sized {
    /// Pick two seed positions among the children; the first returned
    /// position is never after the second.
    fn pick_seed<V: MbrLeafGeometry<DIM>>(&self, mbr: &Rect<DIM>, children: &Vec<V>) -> (r: (
        usize,
        usize,
    ))
        requires
            children@.len() >= 2,
            mbr.wf(),
            forall|i: int| 0 <= i < children@.len() ==> (#[trigger] children@[i]).geom_wf(),
        ensures
            r.0 < children@.len(),
            r.1 < children@.len(),
            r.0 <= r.1,
    ;
}

/// Quadratic seed picking: the pair of children that would waste the most
/// area if kept together.
pub struct Quadratic;

impl<const DIM: usize> PickSeed<DIM> for Quadratic {
    /// The returned pair is the most wasteful one to keep together: its
    /// waste is at least the waste of every index pair.
    #[verifier::loop_isolation(false)]
    fn pick_seed<V: MbrLeafGeometry<DIM>>(&self, mbr: &Rect<DIM>, children: &Vec<V>) -> (r: (
        usize,
        usize,
    ))
        ensures
            r.0 < r.1,
            forall|a: int, b: int|
                0 <= a < b < children@.len() ==> #[trigger] pair_waste(children@, a, b)
                    <= pair_waste(children@, r.0 as int, r.1 as int),
    {
        let mut best_k: usize = 0;
        let mut best_l: usize = 1;
        let mut best_waste: i64 = i64::MIN;
        let mut first: bool = true;
        let mut k: usize = 0;
        while k < children.len()
            invariant
                best_k < best_l < children@.len(),
                k <= children@.len(),
                first ==> k == 0,
                !first ==> best_waste as int == pair_waste(
                    children@,
                    best_k as int,
                    best_l as int,
                ),
                forall|a: int, b: int|
                    0 <= a < b < children@.len() && a < k ==> #[trigger] pair_waste(
                        children@,
                        a,
                        b,
                    ) <= best_waste as int,
            decreases children@.len() - k,
        {
            let mut l: usize = k + 1;
            while l < children.len()
                invariant
                    best_k < best_l < children@.len(),
                    k < l <= children@.len(),
                    first ==> k == 0 && l == 1,
                    !first ==> best_waste as int == pair_waste(
                        children@,
                        best_k as int,
                        best_l as int,
                    ),
                    forall|a: int, b: int|
                        0 <= a < b < children@.len() && (a < k || (a == k && b < l))
                            ==> #[trigger] pair_waste(children@, a, b) <= best_waste as int,
                decreases children@.len() - l,
            {
                let mut pair_mbr = Rect::max_inverted();
                children[k].expand_mbr_to_fit(&mut pair_mbr);
                children[l].expand_mbr_to_fit(&mut pair_mbr);
                let waste = sat_sub(
                    sat_sub(
                        MbrLeafGeometry::<DIM>::area(&pair_mbr),
                        children[k].area(),
                    ),
                    children[l].area(),
                );
                proof {
                    assert(waste as int == pair_waste(children@, k as int, l as int));
                }
                if first || waste > best_waste {
                    best_k = k;
                    best_l = l;
                    best_waste = waste;
                    first = false;
                }
                l += 1;
            }
            k += 1;
        }
        (best_k, best_l)
    }
}

/// Linear seed picking: on the axis with the greatest normalized
/// separation, the child with the greatest minimum and the child with the
/// smallest maximum.
pub struct Linear;

impl<const DIM: usize> PickSeed<DIM> for Linear {
    /// On an axis whose width-normalized separation is greatest (compared
    /// exactly by cross multiplication), the pair holds the child with
    /// the greatest minimum and the child with the least maximum.  With
    /// no axes there is nothing to select by.
    #[verifier::loop_isolation(false)]
    fn pick_seed<V: MbrLeafGeometry<DIM>>(&self, mbr: &Rect<DIM>, children: &Vec<V>) -> (r: (
        usize,
        usize,
    ))
        ensures
            DIM == 0 || exists|axis: int|
                #![trigger separation(children@, axis)]
                {
                    &&& 0 <= axis < DIM
                    &&& forall|a2: int|
                        0 <= a2 < DIM ==> #[trigger] separation(children@, a2) * norm_width(
                            mbr.edges@,
                            axis,
                        ) <= separation(children@, axis) * norm_width(mbr.edges@, a2)
                    &&& exists|p: int, q: int|
                        {
                            &&& ((p == r.0 as int && q == r.1 as int) || (p == r.1 as int && q
                                == r.0 as int))
                            &&& 0 <= p < children@.len()
                            &&& 0 <= q < children@.len()
                            &&& (#[trigger] children@[p]).envelope()[axis].0 == greatest_min(
                                children@,
                                axis,
                            )
                            &&& (#[trigger] children@[q]).envelope()[axis].1 == least_max(
                                children@,
                                axis,
                            )
                        }
                },
    {
        let ghost e = mbr.edges@;
        let mut best_k: usize = 0;
        let mut best_l: usize = 0;
        let mut best_sep: i64 = 0;
        let mut best_width: i64 = 1;
        let mut first: bool = true;
        let ghost mut best_axis: int = 0;
        let mut d: usize = 0;
        while d < DIM
            invariant
                best_k < children@.len(),
                best_l < children@.len(),
                best_width > 0,
                d <= DIM,
                first ==> d == 0,
                !first ==> {
                    &&& 0 <= best_axis < DIM
                    &&& best_sep as int == separation(children@, best_axis)
                    &&& best_width as int == norm_width(e, best_axis)
                    &&& children@[best_k as int].envelope()[best_axis].0 == greatest_min(
                        children@,
                        best_axis,
                    )
                    &&& children@[best_l as int].envelope()[best_axis].1 == least_max(
                        children@,
                        best_axis,
                    )
                    &&& forall|a2: int|
                        0 <= a2 < d ==> #[trigger] separation(children@, a2) * norm_width(
                            e,
                            best_axis,
                        ) <= separation(children@, best_axis) * norm_width(e, a2)
                },
            decreases DIM - d,
        {
            // the axis width, clamped to 1 to avoid a zero division
            let (lo, hi) = mbr.edges[d];
            let mut width = sat_sub(hi, lo);
            if width <= 0 {
                width = 1;
            }
            proof {
                assert(width as int == norm_width(e, d as int));
            }
            // the greatest minimum and the smallest maximum over children
            let mut hl: i64 = children[0].min_for_axis(d);
            let mut hi_idx: usize = 0;
            let mut lh: i64 = children[0].max_for_axis(d);
            let mut lo_idx: usize = 0;
            let mut i: usize = 1;
            while i < children.len()
                invariant
                    d < DIM,
                    1 <= i <= children@.len(),
                    hi_idx < children@.len(),
                    lo_idx < children@.len(),
                    hl as int == greatest_min(children@.subrange(0, i as int), d as int),
                    lh as int == least_max(children@.subrange(0, i as int), d as int),
                    children@[hi_idx as int].envelope()[d as int].0 == hl as int,
                    children@[lo_idx as int].envelope()[d as int].1 == lh as int,
                decreases children@.len() - i,
            {
                let ghost pre = children@.subrange(0, i as int);
                let mn = children[i].min_for_axis(d);
                let mx = children[i].max_for_axis(d);
                if mn > hl {
                    hl = mn;
                    hi_idx = i;
                }
                if mx < lh {
                    lh = mx;
                    lo_idx = i;
                }
                i += 1;
                proof {
                    let now = children@.subrange(0, i as int);
                    assert(now.drop_last() =~= pre);
                    assert(now.last() == children@[i - 1]);
                }
            }
            proof {
                assert(children@.subrange(0, children@.len() as int) =~= children@);
            }
            let sep = sat_sub(hl, lh);
            if first || frac_gt(sep, width, best_sep, best_width) {
                proof {
                    if !first {
                        assert forall|a2: int|
                            0 <= a2 < d + 1 implies #[trigger] separation(children@, a2)
                            * norm_width(e, d as int) <= separation(children@, d as int)
                            * norm_width(e, a2) by {
                            if a2 < d {
                                let sa = separation(children@, a2);
                                let wa = norm_width(e, a2);
                                let sb = separation(children@, best_axis);
                                let wb = norm_width(e, best_axis);
                                let sn = separation(children@, d as int);
                                let wn = norm_width(e, d as int);
                                assert(sa * wn <= sn * wa) by (nonlinear_arith)
                                    requires
                                        sa * wb <= sb * wa,
                                        sb * wn < sn * wb,
                                        wa >= 1,
                                        wb >= 1,
                                        wn >= 1,
                                ;
                            }
                        };
                    }
                }
                best_k = hi_idx;
                best_l = lo_idx;
                best_sep = sep;
                best_width = width;
                first = false;
                proof {
                    best_axis = d as int;
                }
            } else {
                proof {
                    assert forall|a2: int|
                        0 <= a2 < d + 1 implies #[trigger] separation(children@, a2) * norm_width(
                        e,
                        best_axis,
                    ) <= separation(children@, best_axis) * norm_width(e, a2) by {};
                }
            }
            d += 1;
        }
        proof {
            if DIM > 0 {
                assert(!first);
            }
        }
        if best_k > best_l {
            let t = best_k;
            best_k = best_l;
            best_l = t;
        }
        (best_k, best_l)
    }
}

/// The greedy assignment takes the next child on the first side: fitting
/// it there grows the area less, ties broken by the smaller current area,
/// then by the smaller side.
pub open spec fn greedy_takes_first<const DIM: usize, V: MbrLeafGeometry<DIM>>(
    k_env: Env,
    k_len: int,
    l_env: Env,
    l_len: int,
    c: V,
) -> bool {
    let k_area = area_fold(k_env);
    let l_area = area_fold(l_env);
    let k_cost = clamp64(area_fold(env_union(k_env, c.envelope())) - k_area);
    let l_cost = clamp64(area_fold(env_union(l_env, c.envelope())) - l_area);
    if k_cost != l_cost {
        k_cost < l_cost
    } else if k_area != l_area {
        k_area < l_area
    } else {
        k_len < l_len
    }
}

/// One side swallowing the rest, last child first.
pub open spec fn drained<const DIM: usize, V: MbrLeafGeometry<DIM>>(side: Seq<V>, rem: Seq<V>) -> Seq<
    V,
>
    decreases rem.len(),
{
    if rem.len() == 0 {
        side
    } else {
        drained(side.push(rem.last()), rem.drop_last())
    }
}

/// The seed split's assignment of the remaining children, last first:
/// when one side is short by exactly the number of remaining children it
/// takes them all; otherwise the next child joins by the greedy rule.
pub open spec fn seed_assign<const DIM: usize, V: MbrLeafGeometry<DIM>>(
    k_ch: Seq<V>,
    l_ch: Seq<V>,
    rem: Seq<V>,
    min: int,
) -> (Seq<V>, Seq<V>)
    decreases rem.len(),
{
    if rem.len() == 0 {
        (k_ch, l_ch)
    } else if k_ch.len() + rem.len() == min {
        (drained(k_ch, rem), l_ch)
    } else if l_ch.len() + rem.len() == min {
        (k_ch, drained(l_ch, rem))
    } else {
        let c = rem.last();
        if greedy_takes_first(fold_env(k_ch), k_ch.len() as int, fold_env(l_ch), l_ch.len() as int, c) {
            seed_assign(k_ch.push(c), l_ch, rem.drop_last(), min)
        } else {
            seed_assign(k_ch, l_ch.push(c), rem.drop_last(), min)
        }
    }
}

/// Seed-driven node splitting: two seed children start the two sides and
/// the rest are assigned one at a time to whichever side least expands.
pub struct SeedSplit<const DIM: usize, PS> {
    pick_seed: PS,
}

impl<const DIM: usize, PS: PickSeed<DIM>> SeedSplit<DIM, PS> {
    /// A seed split driven by linear seed picking.
    pub fn linear() -> SeedSplit<DIM, Linear> {
        SeedSplit { pick_seed: Linear }
    }

    /// A seed split driven by quadratic seed picking.
    pub fn quadratic() -> SeedSplit<DIM, Quadratic> {
        SeedSplit { pick_seed: Quadratic }
    }
}

impl<const DIM: usize, PS: PickSeed<DIM>> MbrNodeSplit<DIM> for SeedSplit<DIM, PS> {
    /// Two seed children (adjusted apart on a tie) start the two sides,
    /// and the rest are assigned by the greedy rule, last first.
    fn split<V: MbrLeafGeometry<DIM>>(
        &self,
        min: usize,
        mbr: &mut Rect<DIM>,
        children: &mut Vec<V>,
    ) -> (r: (Rect<DIM>, Vec<V>))
        ensures
            exists|k0: int, l0: int|
                #![trigger old(children)@[k0], old(children)@[l0]]
                {
                    &&& 0 <= k0 < l0 < old(children)@.len()
                    &&& {
                        let t = seed_assign(
                            seq![old(children)@[k0]],
                            seq![old(children)@[l0]],
                            old(children)@.remove(k0).remove(l0 - 1),
                            min as int,
                        );
                        final(children)@ == t.0 && r.1@ == t.1
                    }
                },
    {
        let ghost orig = children@;
        let total = children.len();
        proof {
            assert(orig.len() == total as int);
        }
        let (k0, l0) = self.pick_seed.pick_seed(mbr, children);
        let mut k = k0;
        let mut l = l0;
        // in the unlikely scenario of a tie, just pick something
        if k == l {
            if k < children.len() - 1 {
                l = l + 1;
            } else {
                k = k - 1;
            }
        }
        let k_child = children.remove(k);
        let mut k_mbr = Rect::max_inverted();
        k_child.expand_mbr_to_fit(&mut k_mbr);
        let mut k_children: Vec<V> = Vec::new();
        k_children.push(k_child);

        let l_child = children.remove(l - 1);
        let mut l_mbr = Rect::max_inverted();
        l_child.expand_mbr_to_fit(&mut l_mbr);
        let mut l_children: Vec<V> = Vec::new();
        l_children.push(l_child);

        let ghost kinit = k_children@;
        let ghost linit = l_children@;
        let ghost rem0 = children@;
        proof {
            lemma_fold_env_push::<DIM, V>(Seq::empty(), k_child);
            lemma_fold_env_push::<DIM, V>(Seq::empty(), l_child);
            assert(k_children@ =~= Seq::empty().push(k_child));
            assert(l_children@ =~= Seq::empty().push(l_child));
            assert(kinit =~= seq![orig[k as int]]);
            assert(linit =~= seq![orig[l as int]]);
            assert(rem0 == orig.remove(k as int).remove(l as int - 1));
            assert(k_mbr.edges@ == fold_env(k_children@));
            assert(l_mbr.edges@ == fold_env(l_children@));
            assert(children@.to_multiset().add(k_children@.to_multiset()).add(
                l_children@.to_multiset(),
            ) =~= orig.to_multiset()) by {
                assert(orig.remove(k as int).to_multiset() == orig.to_multiset().remove(
                    orig[k as int],
                ));
                assert(children@.to_multiset() == orig.remove(k as int).to_multiset().remove(
                    orig.remove(k as int)[l - 1],
                ));
                assert(orig.remove(k as int)[l - 1] == orig[l as int]);
                assert(orig.remove(k as int).to_multiset().contains(orig[l as int]));
                assert(Seq::empty().push(k_child).to_multiset() =~= Multiset::empty().insert(
                    k_child,
                ));
                assert(Seq::empty().push(l_child).to_multiset() =~= Multiset::empty().insert(
                    l_child,
                ));
            };
        }

        while children.len() > 0
            invariant
                2 <= orig.len(),
                orig.len() <= usize::MAX,
                2 * min <= orig.len(),
                k_mbr.wf(),
                l_mbr.wf(),
                k_children@.len() >= 1,
                l_children@.len() >= 1,
                k_children@.len() + l_children@.len() + children@.len() == orig.len(),
                k_children@.len() + children@.len() >= min,
                l_children@.len() + children@.len() >= min,
                children@.to_multiset().add(k_children@.to_multiset()).add(
                    l_children@.to_multiset(),
                ) == orig.to_multiset(),
                k_mbr.edges@ == fold_env(k_children@),
                l_mbr.edges@ == fold_env(l_children@),
                forall|i: int| 0 <= i < children@.len() ==> (#[trigger] children@[i]).geom_wf(),
                forall|i: int|
                    0 <= i < k_children@.len() ==> (#[trigger] k_children@[i]).geom_wf(),
                forall|i: int|
                    0 <= i < l_children@.len() ==> (#[trigger] l_children@[i]).geom_wf(),
                seed_assign(k_children@, l_children@, children@, min as int) == seed_assign(
                    kinit,
                    linit,
                    rem0,
                    min as int,
                ),
            decreases children@.len(),
        {
            if k_children.len() + children.len() == min {
                let ghost k_entry = k_children@;
                let ghost l_at = l_children@;
                let ghost rem_entry = children@;
                proof {
                    assert(seed_assign(k_entry, l_at, rem_entry, min as int) == (
                    drained(k_entry, rem_entry),
                    l_at,
                    ));
                }
                while children.len() > 0
                    invariant
                        orig.len() <= usize::MAX,
                        k_mbr.wf(),
                        l_mbr.wf(),
                        l_children@ == l_at,
                        drained(k_children@, children@) == drained(k_entry, rem_entry),
                        k_children@.len() + children@.len() == min,
                        l_children@.len() >= 1,
                        k_children@.len() + l_children@.len() + children@.len() == orig.len(),
                        children@.to_multiset().add(k_children@.to_multiset()).add(
                            l_children@.to_multiset(),
                        ) == orig.to_multiset(),
                        k_mbr.edges@ == fold_env(k_children@),
                        l_mbr.edges@ == fold_env(l_children@),
                        forall|i: int|
                            0 <= i < children@.len() ==> (#[trigger] children@[i]).geom_wf(),
                        forall|i: int|
                            0 <= i < k_children@.len() ==> (#[trigger] k_children@[i]).geom_wf(),
                        forall|i: int|
                            0 <= i < l_children@.len() ==> (#[trigger] l_children@[i]).geom_wf(),
                    decreases children@.len(),
                {
                    let ghost prev = children@;
                    let child = children.pop().unwrap();
                    child.expand_mbr_to_fit(&mut k_mbr);
                    let ghost kprev = k_children@;
                    k_children.push(child);
                    proof {
                        lemma_fold_env_push::<DIM, V>(kprev, child);
                        assert(prev.drop_last() =~= prev.remove(prev.len() - 1));
                        assert(child == prev.last());
                        assert(drained(k_children@, children@) == drained(kprev, prev));
                        assert(children@.to_multiset().add(k_children@.to_multiset()).add(
                            l_children@.to_multiset(),
                        ) =~= orig.to_multiset());
                    }
                }
                proof {
                    assert(k_children@ == drained(k_entry, rem_entry));
                    assert(seed_assign(k_children@, l_children@, children@, min as int)
                        == seed_assign(kinit, linit, rem0, min as int));
                }
            } else if l_children.len() + children.len() == min {
                let ghost l_entry = l_children@;
                let ghost k_at = k_children@;
                let ghost rem_entry = children@;
                proof {
                    assert(k_children@.len() + children@.len() != min);
                    assert(seed_assign(k_at, l_entry, rem_entry, min as int) == (
                    k_at,
                    drained(l_entry, rem_entry),
                    ));
                }
                while children.len() > 0
                    invariant
                        orig.len() <= usize::MAX,
                        k_mbr.wf(),
                        l_mbr.wf(),
                        k_children@ == k_at,
                        drained(l_children@, children@) == drained(l_entry, rem_entry),
                        l_children@.len() + children@.len() == min,
                        k_children@.len() >= 1,
                        k_children@.len() + l_children@.len() + children@.len() == orig.len(),
                        children@.to_multiset().add(k_children@.to_multiset()).add(
                            l_children@.to_multiset(),
                        ) == orig.to_multiset(),
                        k_mbr.edges@ == fold_env(k_children@),
                        l_mbr.edges@ == fold_env(l_children@),
                        forall|i: int|
                            0 <= i < children@.len() ==> (#[trigger] children@[i]).geom_wf(),
                        forall|i: int|
                            0 <= i < k_children@.len() ==> (#[trigger] k_children@[i]).geom_wf(),
                        forall|i: int|
                            0 <= i < l_children@.len() ==> (#[trigger] l_children@[i]).geom_wf(),
                    decreases children@.len(),
                {
                    let ghost prev = children@;
                    let child = children.pop().unwrap();
                    child.expand_mbr_to_fit(&mut l_mbr);
                    let ghost lprev = l_children@;
                    l_children.push(child);
                    proof {
                        lemma_fold_env_push::<DIM, V>(lprev, child);
                        assert(prev.drop_last() =~= prev.remove(prev.len() - 1));
                        assert(child == prev.last());
                        assert(drained(l_children@, children@) == drained(lprev, prev));
                        assert(children@.to_multiset().add(k_children@.to_multiset()).add(
                            l_children@.to_multiset(),
                        ) =~= orig.to_multiset());
                    }
                }
                proof {
                    assert(l_children@ == drained(l_entry, rem_entry));
                    assert(seed_assign(k_children@, l_children@, children@, min as int)
                        == seed_assign(kinit, linit, rem0, min as int));
                }
            } else {
                let ghost prev = children@;
                let ghost kb = k_children@;
                let ghost lb = l_children@;
                let child = children.pop().unwrap();
                let mut k_expanded = k_mbr.duplicate();
                child.expand_mbr_to_fit(&mut k_expanded);
                let mut l_expanded = l_mbr.duplicate();
                child.expand_mbr_to_fit(&mut l_expanded);
                let k_area = MbrLeafGeometry::<DIM>::area(&k_mbr);
                let l_area = MbrLeafGeometry::<DIM>::area(&l_mbr);
                let k_cost = sat_sub(MbrLeafGeometry::<DIM>::area(&k_expanded), k_area);
                let l_cost = sat_sub(MbrLeafGeometry::<DIM>::area(&l_expanded), l_area);
                let choose_k = if k_cost != l_cost {
                    k_cost < l_cost
                } else if k_area != l_area {
                    k_area < l_area
                } else {
                    k_children.len() < l_children.len()
                };
                if choose_k {
                    k_mbr = k_expanded;
                    let ghost kprev = k_children@;
                    k_children.push(child);
                    proof {
                        lemma_fold_env_push::<DIM, V>(kprev, child);
                    }
                } else {
                    l_mbr = l_expanded;
                    let ghost lprev = l_children@;
                    l_children.push(child);
                    proof {
                        lemma_fold_env_push::<DIM, V>(lprev, child);
                    }
                }
                proof {
                    assert(prev.drop_last() =~= prev.remove(prev.len() - 1));
                    assert(child == prev.last());
                    assert(choose_k == greedy_takes_first(
                        fold_env(kb),
                        kb.len() as int,
                        fold_env(lb),
                        lb.len() as int,
                        child,
                    ));
                    assert(seed_assign(kb, lb, prev, min as int) == seed_assign(
                        k_children@,
                        l_children@,
                        children@,
                        min as int,
                    ));
                    assert(children@.to_multiset().add(k_children@.to_multiset()).add(
                        l_children@.to_multiset(),
                    ) =~= orig.to_multiset());
                }
            }
        }
        let ghost k_seq = k_children@;
        *mbr = k_mbr;
        children.append(&mut k_children);
        proof {
            assert(children@ =~= k_seq);
            let t = seed_assign(
                seq![orig[k as int]],
                seq![orig[l as int]],
                orig.remove(k as int).remove(l as int - 1),
                min as int,
            );
            assert(seed_assign(kinit, linit, rem0, min as int) == t);
            assert(children@ == t.0 && l_children@ == t.1);
            assert(orig[k as int] == orig[k as int] && orig[l as int] == orig[l as int]);
        }
        (l_mbr, l_children)
    }
}

/// The area-expansion cost of fitting the envelope `le` under the bound
/// `e`, with the expanded area as tie breaker.
pub open spec fn r_area_cost(e: Env, le: Env) -> (int, int) {
    (
        clamp64(area_fold(env_union(e, le)) - area_fold(e)),
        area_fold(env_union(e, le)),
    )
}

/// Least-expansion insertion with seed-driven splitting.
pub struct RInsert<const DIM: usize, NS> {
    preferred_min: usize,
    max: usize,
    splitter: NS,
}

impl<const DIM: usize, NS: MbrNodeSplit<DIM>> RInsert<DIM, NS> {
    /// The strategy's parameters are consistent: both sides of a split of
    /// `max + 1` children can reach the fan-out floor.
    pub closed spec fn spec_inv(&self) -> bool {
        &&& 2 <= self.max < usize::MAX
        &&& 2 * self.preferred_min <= self.max + 1
    }

    /// The fan-out floor the strategy maintains.
    pub closed spec fn smin(&self) -> int {
        self.preferred_min as int
    }

    /// The fan-out ceiling the strategy maintains.
    pub closed spec fn smax(&self) -> int {
        self.max as int
    }

    /// New insertion strategy with the default maximum fan-out.
    pub fn new(splitter: NS) -> (r: RInsert<DIM, NS>)
        ensures
            r.spec_inv(),
            r.smin() == 19,
            r.smax() == 64,
    {
        RInsert::new_with_max(splitter, crate::tree::mbr::index::D_MAX)
    }

    /// New insertion strategy with the given maximum fan-out; the fan-out
    /// floor is three tenths of it.
    pub fn new_with_max(splitter: NS, max: usize) -> (r: RInsert<DIM, NS>)
        requires
            2 <= max < usize::MAX,
        ensures
            r.spec_inv(),
            r.smin() == 3 * (max as int) / 10,
            r.smax() == max,
    {
        proof {
            assert(3 * (max as int) / 10 <= max && 2 * (3 * (max as int) / 10) <= max + 1)
                by (nonlinear_arith)
                requires
                    2 <= max as int,
            ;
        }
        let min: usize = ((max as u128 * 3) / 10) as usize;
        RInsert { preferred_min: min, max, splitter }
    }

    /// Expansion cost of fitting `leaf` into `mbr`: the area increase, then
    /// the expanded area as a tie breaker.
    fn area_cost<LG: MbrLeafGeometry<DIM>, T>(
        &self,
        mbr: &Rect<DIM>,
        leaf: &MbrLeaf<DIM, LG, T>,
    ) -> (r: (i64, i64))
        requires
            mbr.wf(),
            leaf.geom_wf(),
        ensures
            (r.0 as int, r.1 as int) == r_area_cost(mbr.edges@, leaf.envelope()),
    {
        let mut expanded = mbr.duplicate();
        leaf.expand_mbr_to_fit(&mut expanded);
        let mbr_area = MbrLeafGeometry::<DIM>::area(mbr);
        let expanded_area = MbrLeafGeometry::<DIM>::area(&expanded);
        let area_cost = sat_sub(expanded_area, mbr_area);
        (area_cost, expanded_area)
    }

    /// The child whose bound expands least to fit the leaf; ties broken by
    /// the smaller expanded area.
    fn choose_subnode<LG: MbrLeafGeometry<DIM>, T>(
        &self,
        level: &Vec<RTreeNode<DIM, LG, T>>,
        leaf: &MbrLeaf<DIM, LG, T>,
    ) -> (r: usize)
        requires
            level@.len() >= 1,
            leaf.geom_wf(),
            forall|i: int| 0 <= i < level@.len() ==> (#[trigger] level@[i]).env().len() == DIM,
        ensures
            r < level@.len(),
            forall|j: int|
                0 <= j < level@.len() ==> lex2_le(
                    r_area_cost(level@[r as int].env(), leaf.envelope()),
                    r_area_cost((#[trigger] level@[j]).env(), leaf.envelope()),
                ),
    {
        let ghost le = leaf.envelope();
        let mut best: usize = 0;
        let (mut best_cost, mut best_area) = self.area_cost(level[0].mbr(), leaf);
        let mut i: usize = 1;
        #[verifier::loop_isolation(false)]
        while i < level.len()
            invariant
                best < level@.len(),
                1 <= i,
                (best_cost as int, best_area as int) == r_area_cost(level@[best as int].env(), le),
                forall|j: int|
                    0 <= j < i ==> lex2_le(
                        r_area_cost(level@[best as int].env(), le),
                        r_area_cost((#[trigger] level@[j]).env(), le),
                    ),
            decreases level@.len() - i,
        {
            let (cost, area) = self.area_cost(level[i].mbr(), leaf);
            if cost < best_cost || (cost == best_cost && area < best_area) {
                best = i;
                best_cost = cost;
                best_area = area;
            }
            i += 1;
        }
        best
    }

    /// Split an overflowing node in two; both sides reach the fan-out
    /// floor and carry tight bounds.
    fn handle_overflow<LG: MbrLeafGeometry<DIM>, T>(&self, level: RTreeNode<DIM, LG, T>) -> (r: (
        RTreeNode<DIM, LG, T>,
        RTreeNode<DIM, LG, T>,
    ))
        requires
            self.spec_inv(),
            level.wf_children(self.preferred_min as int, self.max as int),
            level.spec_len() == self.max as int + 1,
        ensures
            r.0.is_leaves() == level.is_leaves(),
            r.1.is_leaves() == level.is_leaves(),
            r.0.height() == level.height(),
            r.1.height() == level.height(),
            r.0.wf_node(self.preferred_min as int, self.preferred_min as int, self.max as int),
            r.1.wf_node(self.preferred_min as int, self.preferred_min as int, self.max as int),
            r.0.leaf_ms().add(r.1.leaf_ms()) == level.leaf_ms(),
            env_union(r.0.env(), r.1.env()) == level.env(),
    {
        match level {
            RTreeNode::Leaves { mut mbr, mut children } => {
                let ghost orig = children@;
                proof {
                    lemma_fold_env_len::<DIM, MbrLeaf<DIM, LG, T>>(orig);
                }
                let (split_mbr, split_children) = self.splitter.split(
                    self.preferred_min,
                    &mut mbr,
                    &mut children,
                );
                proof {
                    lemma_fold_env_concat::<DIM, MbrLeaf<DIM, LG, T>>(children@, split_children@);
                    lemma_multiset_commutative(children@, split_children@);
                    lemma_fold_env_perm::<DIM, MbrLeaf<DIM, LG, T>>(children@ + split_children@, orig);
                    assert(children@.to_multiset().add(split_children@.to_multiset())
                        =~= orig.to_multiset());
                    assert forall|i: int| 0 <= i < children@.len() implies (#[trigger] children@[i]).geom_wf() by {}
                }
                let left = RTreeNode::Leaves { mbr, children };
                let right = RTreeNode::Leaves { mbr: split_mbr, children: split_children };
                (left, right)
            },
            RTreeNode::Level { mut mbr, mut children } => {
                let ghost orig = children@;
                proof {
                    assert forall|i: int| 0 <= i < orig.len() implies (#[trigger] orig[i]).geom_wf() by {
                        orig[i].lemma_wf_covers(
                            self.preferred_min as int,
                            self.preferred_min as int,
                            self.max as int,
                        );
                    };
                    lemma_fold_env_len::<DIM, RTreeNode<DIM, LG, T>>(orig);
                }
                let (split_mbr, split_children) = self.splitter.split(
                    self.preferred_min,
                    &mut mbr,
                    &mut children,
                );
                proof {
                    lemma_fold_env_concat::<DIM, RTreeNode<DIM, LG, T>>(children@, split_children@);
                    lemma_multiset_commutative(children@, split_children@);
                    lemma_fold_env_perm::<DIM, RTreeNode<DIM, LG, T>>(
                        children@ + split_children@,
                        orig,
                    );
                    lemma_nodes_leaf_ms_perm(children@ + split_children@, orig);
                    lemma_nodes_leaf_ms_concat(children@, split_children@);
                    orig.to_multiset_ensures();
                    (children@ + split_children@).to_multiset_ensures();
                    assert forall|i: int| 0 <= i < children@.len() implies (#[trigger] children@[i]).wf_node(
                        self.preferred_min as int,
                        self.preferred_min as int,
                        self.max as int,
                    ) && children@[i].height() == orig[0].height() by {
                        assert((children@ + split_children@).to_multiset().contains(children@[i]))
                            by {
                            assert((children@ + split_children@)[i] == children@[i]);
                        };
                        assert(orig.contains(children@[i]));
                        let j = choose|j: int| 0 <= j < orig.len() && orig[j] == children@[i];
                        assert(orig[j].wf_node(
                            self.preferred_min as int,
                            self.preferred_min as int,
                            self.max as int,
                        ));
                    };
                    assert forall|i: int| 0 <= i < split_children@.len() implies (
                    #[trigger] split_children@[i]).wf_node(
                        self.preferred_min as int,
                        self.preferred_min as int,
                        self.max as int,
                    ) && split_children@[i].height() == orig[0].height() by {
                        let n = children@.len();
                        assert((children@ + split_children@).to_multiset().contains(
                            split_children@[i],
                        )) by {
                            assert((children@ + split_children@)[n + i] == split_children@[i]);
                        };
                        assert(orig.contains(split_children@[i]));
                        let j = choose|j: int| 0 <= j < orig.len() && orig[j] == split_children@[i];
                        assert(orig[j].wf_node(
                            self.preferred_min as int,
                            self.preferred_min as int,
                            self.max as int,
                        ));
                    };
                }
                let left = RTreeNode::Level { mbr, children };
                let right = RTreeNode::Level { mbr: split_mbr, children: split_children };
                (left, right)
            },
        }
    }

    /// Descend to the leaf level along least-expansion children, append
    /// the leaf, expand every bound on the way and split on overflow.
    fn insert_into_level<LG: MbrLeafGeometry<DIM>, T>(
        &self,
        level: RTreeNode<DIM, LG, T>,
        leaf: MbrLeaf<DIM, LG, T>,
        Ghost(lo): Ghost<int>,
    ) -> (r: (RTreeNode<DIM, LG, T>, Option<RTreeNode<DIM, LG, T>>))
        requires
            self.spec_inv(),
            0 <= lo,
            level.wf_node(lo, self.smin(), self.smax()),
            leaf.geom_wf(),
        ensures
            r.0.is_leaves() == level.is_leaves(),
            r.0.height() == level.height(),
            r.0.leaf_ms().add(opt_leaf_ms(r.1)) == level.leaf_ms().insert(leaf),
            r.1 is None ==> r.0.wf_node(
                if lo > 1 {
                    lo
                } else {
                    1
                },
                self.smin(),
                self.smax(),
            ),
            r.1 is None ==> r.0.env() == env_union(level.env(), leaf.envelope()),
            r.1 matches Some(s) ==> {
                &&& r.0.wf_node(self.smin(), self.smin(), self.smax())
                &&& s.wf_node(self.smin(), self.smin(), self.smax())
                &&& s.height() == level.height()
                &&& s.is_leaves() == level.is_leaves()
                &&& env_union(r.0.env(), s.env()) == env_union(level.env(), leaf.envelope())
            },
        decreases level.height(),
    {
        let ghost lvl = level;
        match level {
            RTreeNode::Leaves { mut mbr, mut children } => {
                let ghost ch0 = children@;
                let ghost m0 = mbr.edges@;
                proof {
                    lemma_fold_env_len::<DIM, MbrLeaf<DIM, LG, T>>(ch0);
                }
                leaf.geometry.expand_mbr_to_fit(&mut mbr);
                children.push(leaf);
                proof {
                    lemma_fold_env_push::<DIM, MbrLeaf<DIM, LG, T>>(ch0, leaf);
                    assert(ch0.push(leaf).to_multiset() =~= ch0.to_multiset().insert(leaf));
                    assert(leaf.geometry.envelope() == MbrLeafGeometry::<DIM>::envelope(&leaf));
                }
                if children.len() > self.max {
                    let node = RTreeNode::Leaves { mbr, children };
                    let (left, right) = self.handle_overflow(node);
                    (left, Some(right))
                } else {
                    (RTreeNode::Leaves { mbr, children }, None)
                }
            },
            RTreeNode::Level { mut mbr, mut children } => {
                let ghost ch0 = children@;
                let ghost m0 = mbr.edges@;
                let ghost min = self.smin();
                let ghost max = self.smax();
                let ghost h = lvl.height();
                proof {
                    lemma_fold_env_len::<DIM, RTreeNode<DIM, LG, T>>(ch0);
                    assert forall|i: int| 0 <= i < ch0.len() implies (#[trigger] ch0[i]).env().len()
                        == DIM by {
                        ch0[i].lemma_wf_covers(min, min, max);
                    };
                    assert(h == 1 + ch0[0].height());
                }
                leaf.geometry.expand_mbr_to_fit(&mut mbr);
                let idx = self.choose_subnode(&children, &leaf);
                let child = children.remove(idx);
                let ghost rest = children@;
                proof {
                    lemma_fold_env_remove::<DIM, RTreeNode<DIM, LG, T>>(ch0, idx as int);
                    lemma_nodes_leaf_ms_remove(ch0, idx as int);
                    lemma_fold_env_len::<DIM, RTreeNode<DIM, LG, T>>(rest);
                    assert(child.height() + 1 == h);
                    assert(child.height() < lvl.height());
                }
                let (new_child, maybe_split) = self.insert_into_level(
                    child,
                    leaf,
                    Ghost(self.smin()),
                );
                let ghost nc = new_child;
                let ghost msp = maybe_split;
                children.push(new_child);
                let ghost fr = fold_env::<DIM, RTreeNode<DIM, LG, T>>(rest);
                proof {
                    lemma_fold_env_push::<DIM, RTreeNode<DIM, LG, T>>(rest, nc);
                    lemma_nodes_leaf_ms_push(rest, nc);
                    nc.lemma_wf_covers(min, min, max);
                    // the bound over the old children, with the leaf folded in
                    lemma_env_union_assoc(fr, child.env(), leaf.envelope());
                }
                match maybe_split {
                    Some(sib) => {
                        let ghost sb = sib;
                        let ghost rest2 = children@;
                        children.push(sib);
                        proof {
                            assert(msp == Option::Some(sb));
                            assert(opt_leaf_ms(msp) == sb.leaf_ms());
                            lemma_fold_env_push::<DIM, RTreeNode<DIM, LG, T>>(rest2, sb);
                            lemma_nodes_leaf_ms_push(rest2, sb);
                            sb.lemma_wf_covers(min, min, max);
                            lemma_env_union_assoc(fr, nc.env(), sb.env());
                            assert(fold_env::<DIM, RTreeNode<DIM, LG, T>>(children@) == env_union(
                                m0,
                                leaf.envelope(),
                            ));
                            assert(nc.leaf_ms().add(sb.leaf_ms()) == child.leaf_ms().insert(leaf));
                            assert(nodes_leaf_ms(rest2) == nodes_leaf_ms(rest).add(nc.leaf_ms()));
                            assert(nodes_leaf_ms(children@) == nodes_leaf_ms(rest2).add(
                                sb.leaf_ms(),
                            ));
                            assert(nodes_leaf_ms(ch0) == nodes_leaf_ms(rest).add(child.leaf_ms()));
                            assert(nodes_leaf_ms(rest).add(nc.leaf_ms()).add(sb.leaf_ms())
                                =~= nodes_leaf_ms(rest).add(nc.leaf_ms().add(sb.leaf_ms())));
                            assert(nodes_leaf_ms(rest).add(child.leaf_ms()).insert(leaf)
                                =~= nodes_leaf_ms(rest).add(child.leaf_ms().insert(leaf)));
                            assert(nodes_leaf_ms(children@) =~= nodes_leaf_ms(ch0).insert(leaf));
                        }
                    },
                    None => {
                        proof {
                            assert(fold_env::<DIM, RTreeNode<DIM, LG, T>>(children@) == env_union(
                                m0,
                                leaf.envelope(),
                            ));
                            assert(nc.leaf_ms() =~= child.leaf_ms().insert(leaf));
                            assert(nodes_leaf_ms(children@) =~= nodes_leaf_ms(ch0).insert(leaf));
                        }
                    },
                }
                proof {
                    assert forall|i: int|
                        0 <= i < children@.len() implies (#[trigger] children@[i]).wf_node(
                        min,
                        min,
                        max,
                    ) && children@[i].height() + 1 == h by {
                        if i < rest.len() {
                            assert(children@[i] == rest[i]);
                            assert(rest =~= ch0.subrange(0, idx as int) + ch0.subrange(
                                idx as int + 1,
                                ch0.len() as int,
                            ));
                            if i < idx {
                                assert(rest[i] == ch0[i]);
                            } else {
                                assert(rest[i] == ch0[i + 1]);
                            }
                        } else if i == rest.len() {
                            assert(children@[i] == nc);
                        } else {
                            assert(i == rest.len() + 1);
                        }
                    };
                    assert forall|i: int|
                        0 <= i < children@.len() implies (#[trigger] children@[i]).height()
                        == children@[0].height() by {};
                }
                if children.len() > self.max {
                    let node = RTreeNode::Level { mbr, children };
                    proof {
                        assert(node.height() == h);
                    }
                    let (left, right) = self.handle_overflow(node);
                    (left, Some(right))
                } else {
                    (RTreeNode::Level { mbr, children }, None)
                }
            },
        }
    }
}

impl<
    const DIM: usize,
    LG: MbrLeafGeometry<DIM>,
    T,
    NS: MbrNodeSplit<DIM>,
> IndexInsert<DIM, LG, T> for RInsert<DIM, NS> {
    open spec fn inv(&self) -> bool {
        self.spec_inv()
    }

    open spec fn spec_min(&self) -> int {
        self.smin()
    }

    open spec fn spec_max(&self) -> int {
        self.smax()
    }

    fn insert_into_root(&self, root: RTreeNode<DIM, LG, T>, leaf: MbrLeaf<DIM, LG, T>) -> (r:
        RTreeNode<DIM, LG, T>) {
        let ghost r0 = root;
        let ghost lo: int = if root.is_leaves() {
            0
        } else {
            1
        };
        let (new_root, maybe_split) = self.insert_into_level(root, leaf, Ghost(lo));
        let ghost nr = new_root;
        match maybe_split {
            Some(split) => {
                let ghost sp = split;
                proof {
                    nr.lemma_wf_covers(self.smin(), self.smin(), self.smax());
                    sp.lemma_wf_covers(self.smin(), self.smin(), self.smax());
                }
                let mut mbr = new_root.mbr().duplicate();
                MbrLeafGeometry::<DIM>::expand_mbr_to_fit(&split, &mut mbr);
                let mut children: Vec<RTreeNode<DIM, LG, T>> = Vec::new();
                children.push(new_root);
                children.push(split);
                proof {
                    lemma_fold_env_push::<DIM, RTreeNode<DIM, LG, T>>(Seq::empty(), nr);
                    lemma_fold_env_push::<DIM, RTreeNode<DIM, LG, T>>(Seq::empty().push(nr), sp);
                    assert(children@ =~= Seq::empty().push(nr).push(sp));
                    assert(env_union(env_inverted(DIM as nat), nr.env()) =~= nr.env());
                    lemma_nodes_leaf_ms_push(Seq::empty(), nr);
                    lemma_nodes_leaf_ms_push(Seq::empty().push(nr), sp);
                    assert(nodes_leaf_ms(Seq::<RTreeNode<DIM, LG, T>>::empty()).add(nr.leaf_ms())
                        =~= nr.leaf_ms());
                    assert(nodes_leaf_ms(children@) =~= r0.leaf_ms().insert(leaf));
                }
                RTreeNode::Level { mbr, children }
            },
            None => new_root,
        }
    }

    fn preferred_min(&self) -> (r: usize) {
        self.preferred_min
    }

    fn new_leaves(&self) -> (r: RTreeNode<DIM, LG, T>) {
        RTreeNode::new_leaves()
    }

    fn new_no_alloc_leaves(&self) -> (r: RTreeNode<DIM, LG, T>) {
        RTreeNode::new_no_alloc()
    }
}

/// Query-guided removal with condense-and-reinsert.
pub struct RRemove<const DIM: usize> {
    min: usize,
}

impl<const DIM: usize> RRemove<DIM> {
    /// The condensation threshold is positive.
    pub closed spec fn spec_inv(&self) -> bool {
        self.min >= 1
    }

    /// The fan-out floor under which a node is condensed away.
    pub closed spec fn sm(&self) -> int {
        self.min as int
    }

    /// New removal strategy with the given fan-out floor.
    pub fn with_min(min: usize) -> (r: RRemove<DIM>)
        requires
            min >= 1,
        ensures
            r.spec_inv(),
            r.sm() == min,
    {
        RRemove { min }
    }

    /// Queue every leaf under `node` for reinsertion.
    #[verifier::loop_isolation(false)]
    fn consume_node<LG: MbrLeafGeometry<DIM>, T>(
        &self,
        node: RTreeNode<DIM, LG, T>,
        to_reinsert: &mut Vec<MbrLeaf<DIM, LG, T>>,
        Ghost(min): Ghost<int>,
        Ghost(maxg): Ghost<int>,
    )
        requires
            node.wf_children(min, maxg),
        ensures
            old(to_reinsert)@.is_prefix_of(final(to_reinsert)@),
            final(to_reinsert)@.to_multiset() == old(to_reinsert)@.to_multiset().add(
                node.leaf_ms(),
            ),
            forall|i: int|
                old(to_reinsert)@.len() <= i < final(to_reinsert)@.len() ==> (
                #[trigger] final(to_reinsert)@[i]).geom_wf(),
        decreases node.height(),
    {
        let ghost nd = node;
        let ghost ri0 = to_reinsert@;
        match node {
            RTreeNode::Leaves { children: mut children, .. } => {
                let ghost ch0 = children@;
                while children.len() > 0
                    invariant
                        forall|i: int|
                            0 <= i < ch0.len() ==> (#[trigger] ch0[i]).geom_wf(),
                        children@ == ch0.subrange(0, children@.len() as int),
                        children@.len() <= ch0.len(),
                        ri0.is_prefix_of(to_reinsert@),
                        to_reinsert@.to_multiset().add(children@.to_multiset())
                            == ri0.to_multiset().add(ch0.to_multiset()),
                        forall|i: int|
                            ri0.len() <= i < to_reinsert@.len() ==> (
                            #[trigger] to_reinsert@[i]).geom_wf(),
                    decreases children@.len(),
                {
                    let ghost prev = children@;
                    let x = children.pop().unwrap();
                    proof {
                        assert(prev.drop_last() =~= prev.remove(prev.len() - 1));
                        assert(children@ =~= ch0.subrange(0, children@.len() as int));
                        assert(x == ch0[children@.len() as int]);
                    }
                    to_reinsert.push(x);
                    proof {
                        assert(to_reinsert@.to_multiset().add(children@.to_multiset())
                            =~= ri0.to_multiset().add(ch0.to_multiset()));
                    }
                }
                proof {
                    assert(to_reinsert@.to_multiset() =~= ri0.to_multiset().add(nd.leaf_ms()));
                }
            },
            RTreeNode::Level { children: mut children, .. } => {
                let ghost ch0 = children@;
                let ghost h = nd.height();
                proof {
                    assert(h == 1 + ch0[0].height());
                }
                while children.len() > 0
                    invariant
                        forall|i: int|
                            0 <= i < ch0.len() ==> (#[trigger] ch0[i]).wf_node(min, min, maxg)
                                && ch0[i].height() + 1 == h,
                        children@ == ch0.subrange(0, children@.len() as int),
                        children@.len() <= ch0.len(),
                        ri0.is_prefix_of(to_reinsert@),
                        to_reinsert@.to_multiset().add(nodes_leaf_ms(children@))
                            == ri0.to_multiset().add(nodes_leaf_ms(ch0)),
                        forall|i: int|
                            ri0.len() <= i < to_reinsert@.len() ==> (
                            #[trigger] to_reinsert@[i]).geom_wf(),
                    decreases children@.len(),
                {
                    let ghost prev = children@;
                    let x = children.pop().unwrap();
                    proof {
                        assert(prev.drop_last() =~= prev.remove(prev.len() - 1));
                        assert(children@ =~= ch0.subrange(0, children@.len() as int));
                        assert(x == ch0[children@.len() as int]);
                        lemma_nodes_leaf_ms_push(children@, x);
                        assert(prev =~= children@.push(x));
                        assert(nodes_leaf_ms(prev) == nodes_leaf_ms(children@).add(x.leaf_ms()));
                        assert(ch0[children@.len() as int].height() + 1 == h);
                        assert(x.height() < nd.height());
                    }
                    let ghost prev_rein = to_reinsert@;
                    self.consume_node(x, to_reinsert, Ghost(min), Ghost(maxg));
                    proof {
                        assert(to_reinsert@.to_multiset().add(nodes_leaf_ms(children@))
                            =~= ri0.to_multiset().add(nodes_leaf_ms(ch0)));
                        assert forall|i: int|
                            ri0.len() <= i < to_reinsert@.len() implies (
                        #[trigger] to_reinsert@[i]).geom_wf() by {
                            if i < prev_rein.len() {
                                assert(to_reinsert@[i] == prev_rein[i]);
                            }
                        };
                    }
                }
                proof {
                    assert(to_reinsert@.to_multiset() =~= ri0.to_multiset().add(nd.leaf_ms()));
                }
            },
        }
    }
}

impl<const DIM: usize> RRemove<DIM> {
    /// Recursively remove matching leaves from a level.  Returns the
    /// retained level, or `None` when the level fell under the fan-out
    /// floor and its remaining leaves moved to the reinsertion queue.
    #[verifier::loop_isolation(false)]
    #[verifier::rlimit(60)]
    fn remove_leaves_from_level<
        LG: MbrLeafGeometry<DIM>,
        T,
        Q: MbrQuery<DIM, LG, T>,
        F: Fn(&T) -> bool,
    >(
        &self,
        query: &Q,
        level: RTreeNode<DIM, LG, T>,
        removed: &mut Vec<MbrLeaf<DIM, LG, T>>,
        to_reinsert: &mut Vec<MbrLeaf<DIM, LG, T>>,
        f: &F,
        at_root: bool,
        Ghost(lo): Ghost<int>,
        Ghost(maxg): Ghost<int>,
    ) -> (r: Option<RTreeNode<DIM, LG, T>>)
        requires
            self.spec_inv(),
            query.q_wf(),
            0 <= lo,
            !at_root ==> lo == self.sm(),
            level.wf_node(lo, self.sm(), maxg),
            forall|t: &T| #[trigger] call_requires(*f, (t,)),
        ensures
            old(removed)@.is_prefix_of(final(removed)@),
            old(to_reinsert)@.is_prefix_of(final(to_reinsert)@),
            opt_leaf_ms(r).add(final(removed)@.to_multiset()).add(final(to_reinsert)@.to_multiset())
                == level.leaf_ms().add(old(removed)@.to_multiset()).add(
                old(to_reinsert)@.to_multiset(),
            ),
            forall|i: int|
                old(removed)@.len() <= i < final(removed)@.len() ==> query.spec_accept_leaf(
                    #[trigger] final(removed)@[i],
                ) && call_ensures(*f, (&final(removed)@[i].item,), false),
            forall|i: int|
                old(to_reinsert)@.len() <= i < final(to_reinsert)@.len() ==> (
                #[trigger] final(to_reinsert)@[i]).geom_wf() && leaf_kept_ok(*query, *f, final(to_reinsert)@[i]),
            forall|l: MbrLeaf<DIM, LG, T>|
                #[trigger] opt_leaf_ms(r).contains(l) ==> leaf_kept_ok(*query, *f, l),
            r matches Some(n) ==> {
                &&& n.is_leaves() == level.is_leaves()
                &&& n.spec_len() <= maxg
                &&& (n.is_leaves() ==> n.wf_node(0, self.sm(), maxg))
                &&& (!n.is_leaves() && n.spec_len() >= 1 ==> n.wf_node(1, self.sm(), maxg))
                &&& (!at_root ==> n.height() == level.height() && n.wf_node(
                    self.sm(),
                    self.sm(),
                    maxg,
                ))
            },
            at_root ==> r is Some,
        decreases level.height(),
    {
        let ghost lvl = level;
        let ghost min = self.sm();
        let ghost rm0 = removed@;
        let ghost ri0 = to_reinsert@;
        proof {
            lvl.lemma_wf_covers(lo, min, maxg);
        }
        if !query.accept_level(&level) {
            proof {
                assert forall|l: MbrLeaf<DIM, LG, T>| #[trigger]
                    lvl.leaf_ms().contains(l) implies leaf_kept_ok(*query, *f, l) by {
                    if query.spec_surely(l) {
                        query.lemma_surely(l, lvl.env());
                    }
                };
            }
            return Some(level);
        }
        match level {
            RTreeNode::Leaves { children: mut children, .. } => {
                let ghost ch0 = children@;
                let mut kept: Vec<MbrLeaf<DIM, LG, T>> = Vec::new();
                while children.len() > 0
                    invariant
                        children@ == ch0.subrange(0, children@.len() as int),
                        children@.len() <= ch0.len(),
                        kept@.len() + children@.len() + removed@.len() == ch0.len() + rm0.len(),
                        kept@.to_multiset().add(children@.to_multiset()).add(
                            removed@.to_multiset(),
                        ) == ch0.to_multiset().add(rm0.to_multiset()),
                        to_reinsert@ == ri0,
                        rm0.is_prefix_of(removed@),
                        forall|i: int|
                            rm0.len() <= i < removed@.len() ==> query.spec_accept_leaf(
                                #[trigger] removed@[i],
                            ) && call_ensures(*f, (&removed@[i].item,), false),
                        forall|i: int|
                            0 <= i < kept@.len() ==> (#[trigger] kept@[i]).geom_wf() && (
                            !query.spec_accept_leaf(kept@[i]) || call_ensures(
                                *f,
                                (&kept@[i].item,),
                                true,
                            )),
                    decreases children@.len(),
                {
                    let ghost prev = children@;
                    let x = children.pop().unwrap();
                    proof {
                        assert(prev.drop_last() =~= prev.remove(prev.len() - 1));
                        assert(children@ =~= ch0.subrange(0, children@.len() as int));
                        assert(x == ch0[children@.len() as int]);
                    }
                    let acc = query.accept_leaf(&x);
                    let keep = if !acc {
                        true
                    } else {
                        (*f)(&x.item)
                    };
                    if keep {
                        kept.push(x);
                    } else {
                        removed.push(x);
                    }
                    proof {
                        assert(kept@.to_multiset().add(children@.to_multiset()).add(
                            removed@.to_multiset(),
                        ) =~= ch0.to_multiset().add(rm0.to_multiset()));
                    }
                }
                if kept.len() < self.min && !at_root {
                    let ghost kseq = kept@;
                    to_reinsert.append(&mut kept);
                    proof {
                        assert(to_reinsert@ =~= ri0 + kseq);
                        lemma_multiset_commutative(ri0, kseq);
                        assert forall|i: int|
                            ri0.len() <= i < to_reinsert@.len() implies (
                        #[trigger] to_reinsert@[i]).geom_wf() && leaf_kept_ok(*query, *f, to_reinsert@[i]) by {
                            let l = to_reinsert@[i];
                            assert(l == kseq[i - ri0.len()]);
                        };
                        assert(opt_leaf_ms(Option::<RTreeNode<DIM, LG, T>>::None).add(
                            removed@.to_multiset(),
                        ).add(to_reinsert@.to_multiset()) =~= lvl.leaf_ms().add(
                            rm0.to_multiset(),
                        ).add(ri0.to_multiset()));
                    }
                    return None;
                }
                let ghost kseq2 = kept@;
                children.append(&mut kept);
                proof {
                    assert(children@ =~= kseq2);
                }
                let mut new_mbr = Rect::max_inverted();
                let mut i: usize = 0;
                while i < children.len()
                    invariant
                        children@ == kseq2,
                        0 <= i <= children@.len(),
                        new_mbr.wf(),
                        new_mbr.edges@ == fold_env(children@.subrange(0, i as int)),
                    decreases children@.len() - i,
                {
                    let ghost before = children@.subrange(0, i as int);
                    children[i].expand_mbr_to_fit(&mut new_mbr);
                    i += 1;
                    proof {
                        let now = children@.subrange(0, i as int);
                        assert(now.drop_last() =~= before);
                        assert(now.last() == children@[i - 1]);
                    }
                }
                proof {
                    assert(children@.subrange(0, children@.len() as int) =~= children@);
                }
                let node = RTreeNode::Leaves { mbr: new_mbr, children };
                proof {
                    assert(node.leaf_ms() == kseq2.to_multiset());
                    assert(opt_leaf_ms(Option::Some(node)).add(removed@.to_multiset()).add(
                        to_reinsert@.to_multiset(),
                    ) =~= lvl.leaf_ms().add(rm0.to_multiset()).add(ri0.to_multiset()));
                    assert forall|l: MbrLeaf<DIM, LG, T>| #[trigger]
                        node.leaf_ms().contains(l) implies leaf_kept_ok(*query, *f, l) by {
                        assert(kseq2.contains(l));
                        let i = choose|i: int| 0 <= i < kseq2.len() && kseq2[i] == l;
                        if query.spec_surely(l) {
                            assert(crate::geometry::env_contained(
                                l.envelope(),
                                l.envelope(),
                                DIM as nat,
                            ));
                            query.lemma_surely(l, l.envelope());
                        }
                    };
                    assert(kseq2.len() <= ch0.len());
                    assert(node.wf_node(0, min, maxg));
                    assert(!at_root ==> node.wf_node(min, min, maxg));
                }
                Some(node)
            },
            RTreeNode::Level { children: mut children, .. } => {
                let ghost ch0 = children@;
                let ghost h = lvl.height();
                proof {
                    assert(h == 1 + ch0[0].height());
                }
                let mut survivors: Vec<RTreeNode<DIM, LG, T>> = Vec::new();
                while children.len() > 0
                    invariant
                        children@ == ch0.subrange(0, children@.len() as int),
                        children@.len() <= ch0.len(),
                        nodes_leaf_ms(survivors@).add(nodes_leaf_ms(children@)).add(
                            removed@.to_multiset(),
                        ).add(to_reinsert@.to_multiset()) == nodes_leaf_ms(ch0).add(
                            rm0.to_multiset(),
                        ).add(ri0.to_multiset()),
                        rm0.is_prefix_of(removed@),
                        ri0.is_prefix_of(to_reinsert@),
                        forall|i: int|
                            rm0.len() <= i < removed@.len() ==> query.spec_accept_leaf(
                                #[trigger] removed@[i],
                            ) && call_ensures(*f, (&removed@[i].item,), false),
                        forall|i: int|
                            ri0.len() <= i < to_reinsert@.len() ==> (
                            #[trigger] to_reinsert@[i]).geom_wf() && leaf_kept_ok(*query, *f, to_reinsert@[i]),
                        survivors@.len() + children@.len() <= ch0.len(),
                        forall|i: int|
                            0 <= i < survivors@.len() ==> (#[trigger] survivors@[i]).wf_node(
                                min,
                                min,
                                maxg,
                            ) && survivors@[i].height() + 1 == h,
                        forall|l: MbrLeaf<DIM, LG, T>|
                            #[trigger] nodes_leaf_ms(survivors@).contains(l) ==> leaf_kept_ok(*query, *f, l),
                    decreases children@.len(),
                {
                    let ghost prev = children@;
                    let child = children.pop().unwrap();
                    proof {
                        assert(prev.drop_last() =~= prev.remove(prev.len() - 1));
                        assert(children@ =~= ch0.subrange(0, children@.len() as int));
                        assert(child == ch0[children@.len() as int]);
                        lemma_nodes_leaf_ms_push(children@, child);
                        assert(prev =~= children@.push(child));
                        assert(nodes_leaf_ms(prev) == nodes_leaf_ms(children@).add(
                            child.leaf_ms(),
                        ));
                        assert(child.height() < lvl.height());
                    }
                    let ghost rme = removed@;
                    let ghost rie = to_reinsert@;
                    let res = self.remove_leaves_from_level(
                        query,
                        child,
                        removed,
                        to_reinsert,
                        f,
                        false,
                        Ghost(min),
                        Ghost(maxg),
                    );
                    let ghost rss = res;
                    proof {
                        assert(opt_leaf_ms(rss).add(removed@.to_multiset()).add(
                            to_reinsert@.to_multiset(),
                        ) == child.leaf_ms().add(rme.to_multiset()).add(rie.to_multiset()));
                        assert forall|i: int|
                            rm0.len() <= i < removed@.len() implies query.spec_accept_leaf(
                            #[trigger] removed@[i],
                        ) && call_ensures(*f, (&removed@[i].item,), false) by {
                            if i < rme.len() {
                                assert(removed@[i] == rme[i]);
                            }
                        };
                        assert forall|i: int|
                            ri0.len() <= i < to_reinsert@.len() implies (
                        #[trigger] to_reinsert@[i]).geom_wf() && leaf_kept_ok(*query, *f, to_reinsert@[i]) by {
                            if i < rie.len() {
                                assert(to_reinsert@[i] == rie[i]);
                            }
                        };
                    }
                    match res {
                        Some(n) => {
                            let ghost nn = n;
                            let ghost sprev = survivors@;
                            survivors.push(n);
                            proof {
                                assert(rss == Option::Some(nn));
                                assert(opt_leaf_ms(rss) == nn.leaf_ms());
                                lemma_nodes_leaf_ms_push(sprev, nn);
                                assert forall|x: MbrLeaf<DIM, LG, T>|
                                    #[trigger] nodes_leaf_ms(survivors@).add(
                                    nodes_leaf_ms(children@),
                                ).add(removed@.to_multiset()).add(to_reinsert@.to_multiset()).count(
                                    x,
                                ) == nodes_leaf_ms(ch0).add(rm0.to_multiset()).add(
                                    ri0.to_multiset(),
                                ).count(x) by {
                                    assert(opt_leaf_ms(rss).add(removed@.to_multiset()).add(
                                        to_reinsert@.to_multiset(),
                                    ).count(x) == child.leaf_ms().add(rme.to_multiset()).add(
                                        rie.to_multiset(),
                                    ).count(x));
                                    assert(nodes_leaf_ms(prev).count(x) == nodes_leaf_ms(
                                        children@,
                                    ).add(child.leaf_ms()).count(x));
                                    assert(nodes_leaf_ms(sprev).add(nodes_leaf_ms(prev)).add(
                                        rme.to_multiset(),
                                    ).add(rie.to_multiset()).count(x) == nodes_leaf_ms(ch0).add(
                                        rm0.to_multiset(),
                                    ).add(ri0.to_multiset()).count(x));
                                    assert(nodes_leaf_ms(survivors@).count(x) == nodes_leaf_ms(
                                        sprev,
                                    ).add(nn.leaf_ms()).count(x));
                                };
                                assert(nodes_leaf_ms(survivors@).add(nodes_leaf_ms(children@)).add(
                                    removed@.to_multiset(),
                                ).add(to_reinsert@.to_multiset()) =~= nodes_leaf_ms(ch0).add(
                                    rm0.to_multiset(),
                                ).add(ri0.to_multiset()));
                                assert forall|l: MbrLeaf<DIM, LG, T>| #[trigger]
                                    nodes_leaf_ms(survivors@).contains(l) implies leaf_kept_ok(*query, *f, l) by {
                                    assert(nodes_leaf_ms(survivors@).count(l) == nodes_leaf_ms(
                                        sprev,
                                    ).add(nn.leaf_ms()).count(l));
                                    if !nodes_leaf_ms(sprev).contains(l) {
                                        assert(nn.leaf_ms().count(l) > 0);
                                        assert(opt_leaf_ms(rss).contains(l));
                                    }
                                };
                            }
                        },
                        None => {
                            proof {
                                assert(rss is None);
                                assert(opt_leaf_ms(rss) == Multiset::<MbrLeaf<DIM, LG, T>>::empty());
                                assert forall|x: MbrLeaf<DIM, LG, T>|
                                    #[trigger] nodes_leaf_ms(survivors@).add(
                                    nodes_leaf_ms(children@),
                                ).add(removed@.to_multiset()).add(to_reinsert@.to_multiset()).count(
                                    x,
                                ) == nodes_leaf_ms(ch0).add(rm0.to_multiset()).add(
                                    ri0.to_multiset(),
                                ).count(x) by {
                                    assert(opt_leaf_ms(rss).add(removed@.to_multiset()).add(
                                        to_reinsert@.to_multiset(),
                                    ).count(x) == child.leaf_ms().add(rme.to_multiset()).add(
                                        rie.to_multiset(),
                                    ).count(x));
                                    assert(nodes_leaf_ms(prev).count(x) == nodes_leaf_ms(
                                        children@,
                                    ).add(child.leaf_ms()).count(x));
                                    assert(nodes_leaf_ms(survivors@).add(nodes_leaf_ms(prev)).add(
                                        rme.to_multiset(),
                                    ).add(rie.to_multiset()).count(x) == nodes_leaf_ms(ch0).add(
                                        rm0.to_multiset(),
                                    ).add(ri0.to_multiset()).count(x));
                                };
                                assert(nodes_leaf_ms(survivors@).add(nodes_leaf_ms(children@)).add(
                                    removed@.to_multiset(),
                                ).add(to_reinsert@.to_multiset()) =~= nodes_leaf_ms(ch0).add(
                                    rm0.to_multiset(),
                                ).add(ri0.to_multiset()));
                            }
                        },
                    }
                }
                if survivors.len() < self.min && !at_root {
                    while survivors.len() > 0
                        invariant
                            nodes_leaf_ms(survivors@).add(removed@.to_multiset()).add(
                                to_reinsert@.to_multiset(),
                            ) == nodes_leaf_ms(ch0).add(rm0.to_multiset()).add(ri0.to_multiset()),
                            rm0.is_prefix_of(removed@),
                            ri0.is_prefix_of(to_reinsert@),
                            forall|i: int|
                                rm0.len() <= i < removed@.len() ==> query.spec_accept_leaf(
                                    #[trigger] removed@[i],
                                ) && call_ensures(*f, (&removed@[i].item,), false),
                            forall|i: int|
                                ri0.len() <= i < to_reinsert@.len() ==> (
                                #[trigger] to_reinsert@[i]).geom_wf() && leaf_kept_ok(*query, *f, to_reinsert@[i]),
                            forall|i: int|
                                0 <= i < survivors@.len() ==> (#[trigger] survivors@[i]).wf_node(
                                    min,
                                    min,
                                    maxg,
                                ),
                            forall|l: MbrLeaf<DIM, LG, T>|
                                #[trigger] nodes_leaf_ms(survivors@).contains(l) ==> leaf_kept_ok(*query, *f, l),
                        decreases survivors@.len(),
                    {
                        let ghost sprev = survivors@;
                        let nsv = survivors.pop().unwrap();
                        proof {
                            assert(sprev.drop_last() =~= sprev.remove(sprev.len() - 1));
                            lemma_nodes_leaf_ms_push(survivors@, nsv);
                            assert(sprev =~= survivors@.push(nsv));
                            assert(nodes_leaf_ms(sprev) == nodes_leaf_ms(survivors@).add(
                                nsv.leaf_ms(),
                            ));
                            assert(sprev[sprev.len() - 1] == nsv);
                            assert(nsv.wf_node(min, min, maxg));
                            assert forall|l: MbrLeaf<DIM, LG, T>| #[trigger]
                                nodes_leaf_ms(survivors@).contains(l) implies leaf_kept_ok(*query, *f, l) by {
                                assert(nodes_leaf_ms(sprev).count(l) == nodes_leaf_ms(
                                    survivors@,
                                ).add(nsv.leaf_ms()).count(l));
                                assert(nodes_leaf_ms(sprev).contains(l));
                            };
                        }
                        let ghost rprev = to_reinsert@;
                        self.consume_node(nsv, to_reinsert, Ghost(min), Ghost(maxg));
                        proof {
                            let delta = to_reinsert@.subrange(
                                rprev.len() as int,
                                to_reinsert@.len() as int,
                            );
                            assert(to_reinsert@ =~= rprev + delta);
                            lemma_multiset_commutative(rprev, delta);
                            assert(to_reinsert@.to_multiset() == rprev.to_multiset().add(
                                delta.to_multiset(),
                            ));
                            assert(to_reinsert@.to_multiset() == rprev.to_multiset().add(
                                nsv.leaf_ms(),
                            ));
                            lemma_ms_cancel(rprev.to_multiset(), delta.to_multiset(), nsv.leaf_ms());
                            assert forall|i: int|
                                ri0.len() <= i < to_reinsert@.len() implies (
                            #[trigger] to_reinsert@[i]).geom_wf() && leaf_kept_ok(*query, *f, to_reinsert@[i]) by {
                                if i < rprev.len() {
                                    assert(to_reinsert@[i] == rprev[i]);
                                } else {
                                    let l = to_reinsert@[i];
                                    assert(delta[i - rprev.len()] == l);
                                    assert(delta.contains(l));
                                    assert(nsv.leaf_ms().contains(l));
                                    assert(nodes_leaf_ms(sprev).contains(l));
                                }
                            };
                            assert(nodes_leaf_ms(survivors@).add(removed@.to_multiset()).add(
                                to_reinsert@.to_multiset(),
                            ) =~= nodes_leaf_ms(ch0).add(rm0.to_multiset()).add(
                                ri0.to_multiset(),
                            ));
                        }
                    }
                    return None;
                }
                let mut new_mbr = Rect::max_inverted();
                let mut i: usize = 0;
                proof {
                    assert forall|j: int|
                        0 <= j < survivors@.len() implies (#[trigger] survivors@[j]).geom_wf() by {
                        survivors@[j].lemma_wf_covers(min, min, maxg);
                    };
                }
                while i < survivors.len()
                    invariant
                        0 <= i <= survivors@.len(),
                        new_mbr.wf(),
                        new_mbr.edges@ == fold_env(survivors@.subrange(0, i as int)),
                    decreases survivors@.len() - i,
                {
                    let ghost before = survivors@.subrange(0, i as int);
                    MbrLeafGeometry::<DIM>::expand_mbr_to_fit(&survivors[i], &mut new_mbr);
                    i += 1;
                    proof {
                        let now = survivors@.subrange(0, i as int);
                        assert(now.drop_last() =~= before);
                        assert(now.last() == survivors@[i - 1]);
                    }
                }
                proof {
                    assert(survivors@.subrange(0, survivors@.len() as int) =~= survivors@);
                }
                let node = RTreeNode::Level { mbr: new_mbr, children: survivors };
                proof {
                    assert(node.leaf_ms() == nodes_leaf_ms(node->Level_children@));
                    assert forall|x: MbrLeaf<DIM, LG, T>|
                        #[trigger] opt_leaf_ms(Option::Some(node)).add(removed@.to_multiset()).add(
                        to_reinsert@.to_multiset(),
                    ).count(x) == lvl.leaf_ms().add(rm0.to_multiset()).add(
                        ri0.to_multiset(),
                    ).count(x) by {
                        assert(nodes_leaf_ms(Seq::<RTreeNode<DIM, LG, T>>::empty()).count(x) == 0);
                    };
                    assert(opt_leaf_ms(Option::Some(node)).add(removed@.to_multiset()).add(
                        to_reinsert@.to_multiset(),
                    ) =~= lvl.leaf_ms().add(rm0.to_multiset()).add(ri0.to_multiset()));
                    if node.spec_len() >= 1 {
                        assert(node.height() == h);
                        assert(node.wf_node(1, min, maxg));
                    }
                    assert(!at_root ==> node.wf_node(min, min, maxg));
                    assert forall|l: MbrLeaf<DIM, LG, T>| #[trigger]
                        opt_leaf_ms(Option::Some(node)).contains(l) implies leaf_kept_ok(*query, *f, l) by {
                        assert(node.leaf_ms().contains(l));
                    };
                }
                Some(node)
            },
        }
    }
}

impl<
    const DIM: usize,
    LG: MbrLeafGeometry<DIM>,
    T,
    I: IndexInsert<DIM, LG, T>,
> IndexRemove<DIM, LG, T, I> for RRemove<DIM> {
    open spec fn inv(&self) -> bool {
        self.spec_inv()
    }

    open spec fn spec_min(&self) -> int {
        self.sm()
    }

    #[verifier::loop_isolation(false)]
    fn remove_from_root<Q: MbrQuery<DIM, LG, T>, F: Fn(&T) -> bool>(
        &self,
        root: RTreeNode<DIM, LG, T>,
        insert_index: &I,
        query: Q,
        f: F,
    ) -> (r: (RTreeNode<DIM, LG, T>, Vec<MbrLeaf<DIM, LG, T>>)) {
        let ghost rt0 = root;
        let ghost min = insert_index.spec_min();
        let ghost maxg = insert_index.spec_max();
        if root.is_empty() {
            proof {
                assert(root.is_leaves());
                assert(root.leaf_ms() =~= Multiset::<MbrLeaf<DIM, LG, T>>::empty());
            }
            let out: Vec<MbrLeaf<DIM, LG, T>> = Vec::new();
            proof {
                assert(out@.to_multiset() =~= Multiset::<MbrLeaf<DIM, LG, T>>::empty());
                assert(root.leaf_ms().add(out@.to_multiset()) =~= rt0.leaf_ms());
            }
            return (root, out);
        }
        let mut removed: Vec<MbrLeaf<DIM, LG, T>> = Vec::new();
        let mut to_reinsert: Vec<MbrLeaf<DIM, LG, T>> = Vec::new();
        let ghost rm_init = removed@;
        let ghost ri_init = to_reinsert@;
        let ghost lo: int = if root.is_leaves() {
            0
        } else {
            1
        };
        let res = self.remove_leaves_from_level(
            &query,
            root,
            &mut removed,
            &mut to_reinsert,
            &f,
            true,
            Ghost(lo),
            Ghost(maxg),
        );
        let ghost rss = res;
        let mut new_root = match res {
            Some(n) => n,
            None => {
                proof {
                    assert(false);
                }
                insert_index.new_leaves()
            },
        };
        proof {
            assert(rss == Option::Some(new_root));
            assert(opt_leaf_ms(rss) == new_root.leaf_ms());
        }
        if new_root.is_empty() && new_root.has_levels() {
            proof {
                assert(new_root.leaf_ms() =~= Multiset::<MbrLeaf<DIM, LG, T>>::empty());
            }
            new_root = insert_index.new_leaves();
        }
        proof {
            assert forall|x: MbrLeaf<DIM, LG, T>|
                #[trigger] new_root.leaf_ms().add(to_reinsert@.to_multiset()).add(
                removed@.to_multiset(),
            ).count(x) == rt0.leaf_ms().count(x) by {
                assert(opt_leaf_ms(rss).add(removed@.to_multiset()).add(
                    to_reinsert@.to_multiset(),
                ).count(x) == rt0.leaf_ms().add(rm_init.to_multiset()).add(
                    ri_init.to_multiset(),
                ).count(x));
                assert(rm_init.to_multiset().len() == 0);
                assert(rm_init.to_multiset().count(x) == 0);
                assert(ri_init.to_multiset().len() == 0);
                assert(ri_init.to_multiset().count(x) == 0);
            };
            assert(new_root.leaf_ms().add(to_reinsert@.to_multiset()).add(removed@.to_multiset())
                =~= rt0.leaf_ms());
        }
        while to_reinsert.len() > 0
            invariant
                new_root.root_wf(min, maxg),
                new_root.leaf_ms().add(to_reinsert@.to_multiset()).add(removed@.to_multiset())
                    == rt0.leaf_ms(),
                forall|i: int|
                    0 <= i < removed@.len() ==> query.spec_accept_leaf(#[trigger] removed@[i])
                        && call_ensures(f, (&removed@[i].item,), false),
                forall|i: int|
                    0 <= i < to_reinsert@.len() ==> (#[trigger] to_reinsert@[i]).geom_wf() && leaf_kept_ok(query, f, to_reinsert@[i]),
                forall|l: MbrLeaf<DIM, LG, T>|
                    #[trigger] new_root.leaf_ms().contains(l) ==> leaf_kept_ok(query, f, l),
            decreases to_reinsert@.len(),
        {
            let ghost rprev = to_reinsert@;
            let ghost root_prev = new_root;
            let leaf = to_reinsert.pop().unwrap();
            proof {
                assert(rprev.drop_last() =~= rprev.remove(rprev.len() - 1));
                assert(leaf == rprev[rprev.len() - 1]);
            }
            new_root = insert_index.insert_into_root(new_root, leaf);
            proof {
                assert(new_root.leaf_ms().add(to_reinsert@.to_multiset()).add(
                    removed@.to_multiset(),
                ) =~= rt0.leaf_ms());
                assert forall|l: MbrLeaf<DIM, LG, T>| #[trigger]
                    new_root.leaf_ms().contains(l) implies leaf_kept_ok(query, f, l) by {
                    assert(new_root.leaf_ms().count(l) == root_prev.leaf_ms().insert(leaf).count(
                        l,
                    ));
                    if !root_prev.leaf_ms().contains(l) {
                        assert(l == leaf);
                    }
                };
            }
        }
        proof {
            assert(to_reinsert@.to_multiset() =~= Multiset::<MbrLeaf<DIM, LG, T>>::empty());
            assert(new_root.leaf_ms().add(removed@.to_multiset()) =~= rt0.leaf_ms());
            assert(kept_exact(query, f, new_root.leaf_ms()));
            lemma_kept_exact_implies_ok(query, f, new_root.leaf_ms());
        }
        (new_root, removed)
    }
}

} // verus!
