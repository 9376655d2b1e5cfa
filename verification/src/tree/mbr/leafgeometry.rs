//! The capability every geometric leaf exposes to the tree.
//!
//! The spec side models a shape by its envelope (one closed coordinate
//! interval per axis), its doubled representative coordinates (for center
//! distances), its area, and its two acceptance predicates.  The exec side
//! mirrors the methods of the spec model; every cost the tree computes is
//! pinned to a saturating fold over the envelope.

use vstd::prelude::*;
use crate::arith::{clamp64, sat_add, sat_mul, sat_sub};
use crate::geometry::{
    area_fold, dist2_fold, env_contained, env_has_point, env_overlaps, env_union,
    overlap_area_fold, Env, LineSegment, Point, Rect, Shapes,
};

verus! {

/// The minimum functionality required to insert leaf geometry into `MbrMap`.
///
/// The parameter `mbr` of the methods represents a minimum bounding
/// rectangle; all operations assume one edge per dimension.
pub trait MbrLeafGeometry<const DIM: usize>: Sized {
    /// The geometry is structurally sound: one coordinate interval per axis.
    spec fn geom_wf(&self) -> bool;

    /// The per-axis closed interval the geometry occupies.
    spec fn envelope(&self) -> Env;

    /// Doubled representative coordinates, used for center distances.
    spec fn center2(&self) -> Seq<int>;

    /// The geometry's area: 0 for thin shapes, the saturating product of
    /// the edge widths for a box.
    spec fn spec_area(&self) -> int;

    /// The geometry is overlapped by the box `q` (shape-specific meaning).
    spec fn spec_overlapped(&self, q: Env) -> bool;

    /// The area the geometry shares with the box `q`; 0 for thin shapes.
    spec fn spec_overlap_area(&self, q: Env) -> int;

    /// The envelope and the doubled center both hold one entry per axis.
    proof fn envelope_props(&self)
        requires
            self.geom_wf(),
        ensures
            self.envelope().len() == DIM,
            self.center2().len() == DIM,
    ;

    /// The geometry's dimension count.
    fn dim(&self) -> (r: usize)
        ensures
            r == DIM,
    ;

    /// Determine the area of the geometry.
    fn area(&self) -> (r: i64)
        requires
            self.geom_wf(),
        ensures
            r as int == self.spec_area(),
    ;

    /// The minimum extent for the given axis.
    fn min_for_axis(&self, d: usize) -> (r: i64)
        requires
            self.geom_wf(),
            d < DIM,
        ensures
            r == self.envelope()[d as int].0,
    ;

    /// The maximum extent for the given axis.
    fn max_for_axis(&self, d: usize) -> (r: i64)
        requires
            self.geom_wf(),
            d < DIM,
        ensures
            r == self.envelope()[d as int].1,
    ;

    /// Expand the mbr to minimally fit the geometry.
    fn expand_mbr_to_fit(&self, mbr: &mut Rect<DIM>)
        requires
            self.geom_wf(),
            old(mbr).wf(),
        ensures
            final(mbr).wf(),
            final(mbr).edges@ == env_union(old(mbr).edges@, self.envelope()),
    ;

    /// The squared distance between the doubled center of `mbr` and the
    /// geometry's doubled representative point, summed with saturation.  It
    /// orders shapes by their distance from the mbr's center.
    fn distance_from_mbr_center(&self, mbr: &Rect<DIM>) -> (r: i64)
        requires
            self.geom_wf(),
            mbr.wf(),
        ensures
            r as int == dist2_fold(mbr.edges@, self.center2()),
    ;

    /// Determine if the geometry is completely contained in the mbr.
    fn contained_by_mbr(&self, mbr: &Rect<DIM>) -> (r: bool)
        requires
            self.geom_wf(),
            mbr.wf(),
        ensures
            r == env_contained(self.envelope(), mbr.edges@, DIM as nat),
    ;

    /// Determine if the geometry overlaps the mbr.
    fn overlapped_by_mbr(&self, mbr: &Rect<DIM>) -> (r: bool)
        requires
            self.geom_wf(),
            mbr.wf(),
        ensures
            r == self.spec_overlapped(mbr.edges@),
    ;

    /// Determine the area the geometry shares with the mbr.
    fn area_overlapped_with_mbr(&self, mbr: &Rect<DIM>) -> (r: i64)
        requires
            self.geom_wf(),
            mbr.wf(),
        ensures
            r as int == self.spec_overlap_area(mbr.edges@),
    ;
}

impl<const DIM: usize> MbrLeafGeometry<DIM> for Point<DIM> {
    open spec fn geom_wf(&self) -> bool {
        self.wf()
    }

    open spec fn envelope(&self) -> Env {
        Seq::new(DIM as nat, |d: int| (self.coords@[d], self.coords@[d]))
    }

    open spec fn center2(&self) -> Seq<int> {
        Seq::new(DIM as nat, |d: int| clamp64(self.coords@[d] + self.coords@[d]))
    }

    open spec fn spec_area(&self) -> int {
        0
    }

    open spec fn spec_overlapped(&self, q: Env) -> bool {
        env_has_point(q, self.coords@, DIM as nat)
    }

    open spec fn spec_overlap_area(&self, q: Env) -> int {
        0
    }

    proof fn envelope_props(&self) {
    }

    fn dim(&self) -> (r: usize) {
        DIM
    }

    fn area(&self) -> (r: i64) {
        0
    }

    fn min_for_axis(&self, d: usize) -> (r: i64) {
        self.coords[d]
    }

    fn max_for_axis(&self, d: usize) -> (r: i64) {
        self.coords[d]
    }

    fn expand_mbr_to_fit(&self, mbr: &mut Rect<DIM>) {
        let ghost m0 = mbr.edges@;
        let mut d: usize = 0;
        while d < DIM
            invariant
                self.geom_wf(),
                m0.len() == DIM,
                mbr.edges@.len() == DIM,
                0 <= d <= DIM,
                forall|j: int|
                    0 <= j < d ==> #[trigger] mbr.edges@[j] == env_union(m0, self.envelope())[j],
                forall|j: int| d <= j < DIM ==> #[trigger] mbr.edges@[j] == m0[j],
            decreases DIM - d,
        {
            let (x, y) = mbr.edges[d];
            let z = self.coords[d];
            let nx = if z < x {
                z
            } else {
                x
            };
            let ny = if z > y {
                z
            } else {
                y
            };
            mbr.edges[d] = (nx, ny);
            d += 1;
        }
        proof {
            assert(mbr.edges@ =~= env_union(m0, self.envelope()));
        }
    }

    fn distance_from_mbr_center(&self, mbr: &Rect<DIM>) -> (r: i64) {
        let mut acc: i64 = 0;
        let mut d: usize = 0;
        while d < DIM
            invariant
                self.geom_wf(),
                mbr.edges@.len() == DIM,
                0 <= d <= DIM,
                acc as int == dist2_fold(
                    mbr.edges@.subrange(0, d as int),
                    self.center2().subrange(0, d as int),
                ),
            decreases DIM - d,
        {
            let (x, y) = mbr.edges[d];
            let c = sat_add(self.coords[d], self.coords[d]);
            let diff = sat_sub(sat_add(x, y), c);
            let sq = sat_mul(diff, diff);
            acc = sat_add(acc, sq);
            d += 1;
            proof {
                let e = mbr.edges@.subrange(0, d as int);
                let cs = self.center2().subrange(0, d as int);
                assert(e.drop_last() =~= mbr.edges@.subrange(0, d as int - 1));
                assert(cs.subrange(0, d as int - 1) =~= self.center2().subrange(0, d as int - 1));
            }
        }
        proof {
            assert(mbr.edges@.subrange(0, DIM as int) =~= mbr.edges@);
            assert(self.center2().subrange(0, DIM as int) =~= self.center2());
        }
        acc
    }

    fn contained_by_mbr(&self, mbr: &Rect<DIM>) -> (r: bool) {
        let r = self.overlapped_by_mbr(mbr);
        proof {
            let q = mbr.edges@;
            let env = self.envelope();
            if env_has_point(q, self.coords@, DIM as nat) {
                assert forall|d: int| #![trigger env[d], q[d]] 0 <= d < DIM implies q[d].0
                    <= env[d].0 && env[d].1 <= q[d].1 by {
                    assert(q[d].0 <= self.coords@[d] && self.coords@[d] <= q[d].1);
                };
                assert(env_contained(env, q, DIM as nat));
            } else if env_contained(env, q, DIM as nat) {
                assert forall|d: int| #![trigger q[d], self.coords@[d]] 0 <= d < DIM implies q[d].0
                    <= self.coords@[d] && self.coords@[d] <= q[d].1 by {
                    assert(q[d].0 <= env[d].0 && env[d].1 <= q[d].1);
                };
                assert(env_has_point(q, self.coords@, DIM as nat));
            }
        }
        r
    }

    fn overlapped_by_mbr(&self, mbr: &Rect<DIM>) -> (r: bool) {
        let mut d: usize = 0;
        while d < DIM
            invariant
                self.geom_wf(),
                mbr.edges@.len() == DIM,
                0 <= d <= DIM,
                forall|j: int|
                    #![trigger mbr.edges@[j]]
                    0 <= j < d ==> mbr.edges@[j].0 <= self.coords@[j] && self.coords@[j]
                        <= mbr.edges@[j].1,
            decreases DIM - d,
        {
            let (x, y) = mbr.edges[d];
            let z = self.coords[d];
            if z < x || y < z {
                return false;
            }
            d += 1;
        }
        true
    }

    fn area_overlapped_with_mbr(&self, mbr: &Rect<DIM>) -> (r: i64) {
        0
    }
}

impl<const DIM: usize> MbrLeafGeometry<DIM> for LineSegment<DIM> {
    open spec fn geom_wf(&self) -> bool {
        self.wf()
    }

    open spec fn envelope(&self) -> Env {
        Seq::new(
            DIM as nat,
            |d: int|
                (
                    if self.x.coords@[d] <= self.y.coords@[d] {
                        self.x.coords@[d]
                    } else {
                        self.y.coords@[d]
                    },
                    if self.x.coords@[d] >= self.y.coords@[d] {
                        self.x.coords@[d]
                    } else {
                        self.y.coords@[d]
                    },
                ),
        )
    }

    open spec fn center2(&self) -> Seq<int> {
        Seq::new(DIM as nat, |d: int| clamp64(self.x.coords@[d] + self.y.coords@[d]))
    }

    open spec fn spec_area(&self) -> int {
        0
    }

    open spec fn spec_overlapped(&self, q: Env) -> bool {
        env_has_point(q, self.x.coords@, DIM as nat) || env_has_point(q, self.y.coords@, DIM as nat)
    }

    open spec fn spec_overlap_area(&self, q: Env) -> int {
        0
    }

    proof fn envelope_props(&self) {
    }

    fn dim(&self) -> (r: usize) {
        DIM
    }

    fn area(&self) -> (r: i64) {
        0
    }

    fn min_for_axis(&self, d: usize) -> (r: i64) {
        let a = self.x.coords[d];
        let b = self.y.coords[d];
        if a <= b {
            a
        } else {
            b
        }
    }

    fn max_for_axis(&self, d: usize) -> (r: i64) {
        let a = self.x.coords[d];
        let b = self.y.coords[d];
        if a >= b {
            a
        } else {
            b
        }
    }

    fn expand_mbr_to_fit(&self, mbr: &mut Rect<DIM>) {
        let ghost m0 = mbr.edges@;
        self.x.expand_mbr_to_fit(mbr);
        self.y.expand_mbr_to_fit(mbr);
        proof {
            assert(mbr.edges@ =~= env_union(m0, self.envelope()));
        }
    }

    fn distance_from_mbr_center(&self, mbr: &Rect<DIM>) -> (r: i64) {
        let mut acc: i64 = 0;
        let mut d: usize = 0;
        while d < DIM
            invariant
                self.geom_wf(),
                mbr.edges@.len() == DIM,
                0 <= d <= DIM,
                acc as int == dist2_fold(
                    mbr.edges@.subrange(0, d as int),
                    self.center2().subrange(0, d as int),
                ),
            decreases DIM - d,
        {
            let (x, y) = mbr.edges[d];
            let c = sat_add(self.x.coords[d], self.y.coords[d]);
            let diff = sat_sub(sat_add(x, y), c);
            let sq = sat_mul(diff, diff);
            acc = sat_add(acc, sq);
            d += 1;
            proof {
                let e = mbr.edges@.subrange(0, d as int);
                let cs = self.center2().subrange(0, d as int);
                assert(e.drop_last() =~= mbr.edges@.subrange(0, d as int - 1));
                assert(cs.subrange(0, d as int - 1) =~= self.center2().subrange(0, d as int - 1));
            }
        }
        proof {
            assert(mbr.edges@.subrange(0, DIM as int) =~= mbr.edges@);
            assert(self.center2().subrange(0, DIM as int) =~= self.center2());
        }
        acc
    }

    fn contained_by_mbr(&self, mbr: &Rect<DIM>) -> (r: bool) {
        let r = self.x.contained_by_mbr(mbr) && self.y.contained_by_mbr(mbr);
        proof {
            let q = mbr.edges@;
            let env = self.envelope();
            let ex = self.x.envelope();
            let ey = self.y.envelope();
            if env_contained(ex, q, DIM as nat) && env_contained(ey, q, DIM as nat) {
                assert forall|d: int| #![trigger env[d], q[d]] 0 <= d < DIM implies q[d].0
                    <= env[d].0 && env[d].1 <= q[d].1 by {
                    assert(q[d].0 <= ex[d].0 && ex[d].1 <= q[d].1);
                    assert(q[d].0 <= ey[d].0 && ey[d].1 <= q[d].1);
                };
                assert(env_contained(env, q, DIM as nat));
            } else if env_contained(env, q, DIM as nat) {
                assert forall|d: int| #![trigger ex[d], q[d]] 0 <= d < DIM implies q[d].0
                    <= ex[d].0 && ex[d].1 <= q[d].1 by {
                    assert(q[d].0 <= env[d].0 && env[d].1 <= q[d].1);
                };
                assert forall|d: int| #![trigger ey[d], q[d]] 0 <= d < DIM implies q[d].0
                    <= ey[d].0 && ey[d].1 <= q[d].1 by {
                    assert(q[d].0 <= env[d].0 && env[d].1 <= q[d].1);
                };
                assert(env_contained(ex, q, DIM as nat));
                assert(env_contained(ey, q, DIM as nat));
            }
        }
        r
    }

    fn overlapped_by_mbr(&self, mbr: &Rect<DIM>) -> (r: bool) {
        self.x.overlapped_by_mbr(mbr) || self.y.overlapped_by_mbr(mbr)
    }

    fn area_overlapped_with_mbr(&self, mbr: &Rect<DIM>) -> (r: i64) {
        0
    }
}

impl<const DIM: usize> MbrLeafGeometry<DIM> for Rect<DIM> {
    open spec fn geom_wf(&self) -> bool {
        self.wf()
    }

    open spec fn envelope(&self) -> Env {
        self.edges@
    }

    open spec fn center2(&self) -> Seq<int> {
        Seq::new(DIM as nat, |d: int| clamp64(self.edges@[d].0 + self.edges@[d].1))
    }

    open spec fn spec_area(&self) -> int {
        area_fold(self.edges@)
    }

    open spec fn spec_overlapped(&self, q: Env) -> bool {
        env_overlaps(self.edges@, q, DIM as nat)
    }

    open spec fn spec_overlap_area(&self, q: Env) -> int {
        overlap_area_fold(self.edges@, q)
    }

    proof fn envelope_props(&self) {
    }

    fn dim(&self) -> (r: usize) {
        DIM
    }

    fn area(&self) -> (r: i64) {
        let mut acc: i64 = 1;
        let mut d: usize = 0;
        while d < DIM
            invariant
                self.geom_wf(),
                0 <= d <= DIM,
                acc as int == area_fold(self.edges@.subrange(0, d as int)),
            decreases DIM - d,
        {
            let (x, y) = self.edges[d];
            acc = sat_mul(acc, sat_sub(y, x));
            d += 1;
            proof {
                let e = self.edges@.subrange(0, d as int);
                assert(e.drop_last() =~= self.edges@.subrange(0, d as int - 1));
            }
        }
        proof {
            assert(self.edges@.subrange(0, DIM as int) =~= self.edges@);
            assert(acc as int == area_fold(self.edges@));
            assert(MbrLeafGeometry::<DIM>::spec_area(self) == area_fold(self.edges@));
        }
        acc
    }

    fn min_for_axis(&self, d: usize) -> (r: i64) {
        self.edges[d].0
    }

    fn max_for_axis(&self, d: usize) -> (r: i64) {
        self.edges[d].1
    }

    fn expand_mbr_to_fit(&self, mbr: &mut Rect<DIM>) {
        let ghost m0 = mbr.edges@;
        let mut d: usize = 0;
        while d < DIM
            invariant
                self.geom_wf(),
                m0.len() == DIM,
                mbr.edges@.len() == DIM,
                0 <= d <= DIM,
                forall|j: int|
                    0 <= j < d ==> #[trigger] mbr.edges@[j] == env_union(m0, self.envelope())[j],
                forall|j: int| d <= j < DIM ==> #[trigger] mbr.edges@[j] == m0[j],
            decreases DIM - d,
        {
            let (x1, y1) = mbr.edges[d];
            let (x2, y2) = self.edges[d];
            let nx = if x2 < x1 {
                x2
            } else {
                x1
            };
            let ny = if y2 > y1 {
                y2
            } else {
                y1
            };
            mbr.edges[d] = (nx, ny);
            d += 1;
        }
        proof {
            assert(mbr.edges@ =~= env_union(m0, self.envelope()));
        }
    }

    fn distance_from_mbr_center(&self, mbr: &Rect<DIM>) -> (r: i64) {
        let mut acc: i64 = 0;
        let mut d: usize = 0;
        while d < DIM
            invariant
                self.geom_wf(),
                mbr.edges@.len() == DIM,
                0 <= d <= DIM,
                acc as int == dist2_fold(
                    mbr.edges@.subrange(0, d as int),
                    self.center2().subrange(0, d as int),
                ),
            decreases DIM - d,
        {
            let (x1, y1) = mbr.edges[d];
            let (x2, y2) = self.edges[d];
            let c = sat_add(x2, y2);
            let diff = sat_sub(sat_add(x1, y1), c);
            let sq = sat_mul(diff, diff);
            acc = sat_add(acc, sq);
            d += 1;
            proof {
                let e = mbr.edges@.subrange(0, d as int);
                let cs = self.center2().subrange(0, d as int);
                assert(e.drop_last() =~= mbr.edges@.subrange(0, d as int - 1));
                assert(cs.subrange(0, d as int - 1) =~= self.center2().subrange(0, d as int - 1));
            }
        }
        proof {
            assert(mbr.edges@.subrange(0, DIM as int) =~= mbr.edges@);
            assert(self.center2().subrange(0, DIM as int) =~= self.center2());
        }
        acc
    }

    fn contained_by_mbr(&self, mbr: &Rect<DIM>) -> (r: bool) {
        let mut d: usize = 0;
        while d < DIM
            invariant
                self.geom_wf(),
                mbr.edges@.len() == DIM,
                0 <= d <= DIM,
                forall|j: int|
                    #![trigger self.edges@[j], mbr.edges@[j]]
                    0 <= j < d ==> mbr.edges@[j].0 <= self.edges@[j].0 && self.edges@[j].1
                        <= mbr.edges@[j].1,
            decreases DIM - d,
        {
            let (x1, y1) = mbr.edges[d];
            let (x2, y2) = self.edges[d];
            if x2 < x1 || y1 < y2 {
                proof {
                    assert(!(mbr.edges@[d as int].0 <= self.edges@[d as int].0
                        && self.edges@[d as int].1 <= mbr.edges@[d as int].1));
                    assert(!env_contained(self.envelope(), mbr.edges@, DIM as nat));
                }
                return false;
            }
            d += 1;
        }
        true
    }

    fn overlapped_by_mbr(&self, mbr: &Rect<DIM>) -> (r: bool) {
        let mut d: usize = 0;
        while d < DIM
            invariant
                self.geom_wf(),
                mbr.edges@.len() == DIM,
                0 <= d <= DIM,
                forall|j: int|
                    #![trigger self.edges@[j], mbr.edges@[j]]
                    0 <= j < d ==> self.edges@[j].0 < mbr.edges@[j].1 && mbr.edges@[j].0
                        < self.edges@[j].1,
            decreases DIM - d,
        {
            let (x1, y1) = mbr.edges[d];
            let (x2, y2) = self.edges[d];
            if !(x1 < y2) || !(x2 < y1) {
                proof {
                    assert(!(self.edges@[d as int].0 < mbr.edges@[d as int].1
                        && mbr.edges@[d as int].0 < self.edges@[d as int].1));
                    assert(!env_overlaps(self.edges@, mbr.edges@, DIM as nat));
                }
                return false;
            }
            d += 1;
        }
        true
    }

    fn area_overlapped_with_mbr(&self, mbr: &Rect<DIM>) -> (r: i64) {
        let mut acc: i64 = 1;
        let mut d: usize = 0;
        while d < DIM
            invariant
                self.geom_wf(),
                mbr.edges@.len() == DIM,
                0 <= d <= DIM,
                acc as int == overlap_area_fold(
                    self.edges@.subrange(0, d as int),
                    mbr.edges@.subrange(0, d as int),
                ),
            decreases DIM - d,
        {
            let (x1, y1) = mbr.edges[d];
            let (x2, y2) = self.edges[d];
            let lo = if x2 >= x1 {
                x2
            } else {
                x1
            };
            let hi = if y2 <= y1 {
                y2
            } else {
                y1
            };
            let mut w = sat_sub(hi, lo);
            if w < 0 {
                w = 0;
            }
            acc = sat_mul(acc, w);
            d += 1;
            proof {
                let a = self.edges@.subrange(0, d as int);
                let b = mbr.edges@.subrange(0, d as int);
                assert(a.drop_last() =~= self.edges@.subrange(0, d as int - 1));
                assert(b.subrange(0, d as int - 1) =~= mbr.edges@.subrange(0, d as int - 1));
            }
        }
        proof {
            assert(self.edges@.subrange(0, DIM as int) =~= self.edges@);
            assert(mbr.edges@.subrange(0, DIM as int) =~= mbr.edges@);
        }
        acc
    }
}

impl<const DIM: usize> MbrLeafGeometry<DIM> for Shapes<DIM> {
    open spec fn geom_wf(&self) -> bool {
        self.wf()
    }

    open spec fn envelope(&self) -> Env {
        match *self {
            Shapes::Point(ref point) => point.envelope(),
            Shapes::LineSegment(ref line) => line.envelope(),
            Shapes::Rect(ref rect) => MbrLeafGeometry::<DIM>::envelope(rect),
        }
    }

    open spec fn center2(&self) -> Seq<int> {
        match *self {
            Shapes::Point(ref point) => point.center2(),
            Shapes::LineSegment(ref line) => line.center2(),
            Shapes::Rect(ref rect) => MbrLeafGeometry::<DIM>::center2(rect),
        }
    }

    open spec fn spec_area(&self) -> int {
        match *self {
            Shapes::Point(ref point) => point.spec_area(),
            Shapes::LineSegment(ref line) => line.spec_area(),
            Shapes::Rect(ref rect) => MbrLeafGeometry::<DIM>::spec_area(rect),
        }
    }

    open spec fn spec_overlapped(&self, q: Env) -> bool {
        match *self {
            Shapes::Point(ref point) => point.spec_overlapped(q),
            Shapes::LineSegment(ref line) => line.spec_overlapped(q),
            Shapes::Rect(ref rect) => MbrLeafGeometry::<DIM>::spec_overlapped(rect, q),
        }
    }

    open spec fn spec_overlap_area(&self, q: Env) -> int {
        match *self {
            Shapes::Point(ref point) => point.spec_overlap_area(q),
            Shapes::LineSegment(ref line) => line.spec_overlap_area(q),
            Shapes::Rect(ref rect) => MbrLeafGeometry::<DIM>::spec_overlap_area(rect, q),
        }
    }

    proof fn envelope_props(&self) {
        match *self {
            Shapes::Point(ref point) => point.envelope_props(),
            Shapes::LineSegment(ref line) => line.envelope_props(),
            Shapes::Rect(ref rect) => MbrLeafGeometry::<DIM>::envelope_props(rect),
        }
    }

    fn dim(&self) -> (r: usize) {
        DIM
    }

    fn area(&self) -> (r: i64) {
        match *self {
            Shapes::Point(ref point) => point.area(),
            Shapes::LineSegment(ref line) => line.area(),
            Shapes::Rect(ref rect) => MbrLeafGeometry::<DIM>::area(rect),
        }
    }

    fn min_for_axis(&self, d: usize) -> (r: i64) {
        match *self {
            Shapes::Point(ref point) => point.min_for_axis(d),
            Shapes::LineSegment(ref line) => line.min_for_axis(d),
            Shapes::Rect(ref rect) => MbrLeafGeometry::<DIM>::min_for_axis(rect, d),
        }
    }

    fn max_for_axis(&self, d: usize) -> (r: i64) {
        match *self {
            Shapes::Point(ref point) => point.max_for_axis(d),
            Shapes::LineSegment(ref line) => line.max_for_axis(d),
            Shapes::Rect(ref rect) => MbrLeafGeometry::<DIM>::max_for_axis(rect, d),
        }
    }

    fn expand_mbr_to_fit(&self, mbr: &mut Rect<DIM>) {
        match *self {
            Shapes::Point(ref point) => point.expand_mbr_to_fit(mbr),
            Shapes::LineSegment(ref line) => line.expand_mbr_to_fit(mbr),
            Shapes::Rect(ref rect) => MbrLeafGeometry::<DIM>::expand_mbr_to_fit(rect, mbr),
        }
    }

    fn distance_from_mbr_center(&self, mbr: &Rect<DIM>) -> (r: i64) {
        match *self {
            Shapes::Point(ref point) => point.distance_from_mbr_center(mbr),
            Shapes::LineSegment(ref line) => line.distance_from_mbr_center(mbr),
            Shapes::Rect(ref rect) => MbrLeafGeometry::<DIM>::distance_from_mbr_center(rect, mbr),
        }
    }

    fn contained_by_mbr(&self, mbr: &Rect<DIM>) -> (r: bool) {
        match *self {
            Shapes::Point(ref point) => point.contained_by_mbr(mbr),
            Shapes::LineSegment(ref line) => line.contained_by_mbr(mbr),
            Shapes::Rect(ref rect) => MbrLeafGeometry::<DIM>::contained_by_mbr(rect, mbr),
        }
    }

    fn overlapped_by_mbr(&self, mbr: &Rect<DIM>) -> (r: bool) {
        match *self {
            Shapes::Point(ref point) => point.overlapped_by_mbr(mbr),
            Shapes::LineSegment(ref line) => line.overlapped_by_mbr(mbr),
            Shapes::Rect(ref rect) => MbrLeafGeometry::<DIM>::overlapped_by_mbr(rect, mbr),
        }
    }

    fn area_overlapped_with_mbr(&self, mbr: &Rect<DIM>) -> (r: i64) {
        match *self {
            Shapes::Point(ref point) => point.area_overlapped_with_mbr(mbr),
            Shapes::LineSegment(ref line) => line.area_overlapped_with_mbr(mbr),
            Shapes::Rect(ref rect) => MbrLeafGeometry::<DIM>::area_overlapped_with_mbr(rect, mbr),
        }
    }
}

} // verus!
