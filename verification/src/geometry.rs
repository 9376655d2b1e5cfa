//! Geometric shapes to insert into spatial trees.
//!
//! Coordinates are `i64` values; a shape in `DIM` dimensions occupies, on
//! each axis, a closed interval.  The per-axis intervals of a shape form
//! its envelope, the spec-level model every tree operation is stated over.

use vstd::prelude::*;
use crate::arith::clamp64;

verus! {

/// Per-axis interval `(lo, hi)` of an axis-aligned box.
pub type Env = Seq<(i64, i64)>;

/// `inner` lies completely inside `outer` (closed comparison on every axis).
pub open spec fn env_contained(inner: Env, outer: Env, dim: nat) -> bool {
    forall|d: int|
        #![trigger inner[d], outer[d]]
        0 <= d < dim ==> outer[d].0 <= inner[d].0 && inner[d].1 <= outer[d].1
}

/// The interiors of `a` and `b` intersect (strict comparison on every axis).
pub open spec fn env_overlaps(a: Env, b: Env, dim: nat) -> bool {
    forall|d: int| #![trigger a[d], b[d]] 0 <= d < dim ==> a[d].0 < b[d].1 && b[d].0 < a[d].1
}

/// The point with coordinates `p` lies in `e` (closed comparison).
pub open spec fn env_has_point(e: Env, p: Seq<i64>, dim: nat) -> bool {
    forall|d: int| #![trigger e[d], p[d]] 0 <= d < dim ==> e[d].0 <= p[d] && p[d] <= e[d].1
}

/// Smallest box covering both `a` and `b`.
pub open spec fn env_union(a: Env, b: Env) -> Env {
    Seq::new(
        a.len(),
        |d: int|
            (
                if a[d].0 <= b[d].0 {
                    a[d].0
                } else {
                    b[d].0
                },
                if a[d].1 >= b[d].1 {
                    a[d].1
                } else {
                    b[d].1
                },
            ),
    )
}

/// The identity of `env_union`: every axis holds `(i64::MAX, i64::MIN)`.
pub open spec fn env_inverted(dim: nat) -> Env {
    Seq::new(dim, |d: int| (i64::MAX, i64::MIN))
}

/// The whole coordinate space: every axis holds `(i64::MIN, i64::MAX)`.
pub open spec fn env_universe(dim: nat) -> Env {
    Seq::new(dim, |d: int| (i64::MIN, i64::MAX))
}

/// Saturating product of the axis widths of `e`, folded left to right.
pub open spec fn area_fold(e: Env) -> int
    decreases e.len(),
{
    if e.len() == 0 {
        1
    } else {
        clamp64(area_fold(e.drop_last()) * clamp64(e.last().1 - e.last().0))
    }
}

/// Saturating sum of the axis widths of `e`, folded left to right.
pub open spec fn margin_fold(e: Env) -> int
    decreases e.len(),
{
    if e.len() == 0 {
        0
    } else {
        clamp64(margin_fold(e.drop_last()) + clamp64(e.last().1 - e.last().0))
    }
}

/// One axis of the shared area of two boxes: the overlap width, at least 0.
pub open spec fn overlap_width(a: (i64, i64), b: (i64, i64)) -> int {
    let lo = if a.0 >= b.0 {
        a.0
    } else {
        b.0
    };
    let hi = if a.1 <= b.1 {
        a.1
    } else {
        b.1
    };
    if clamp64(hi - lo) >= 0 {
        clamp64(hi - lo)
    } else {
        0
    }
}

/// Saturating product of the per-axis overlap widths of `a` and `b`.
pub open spec fn overlap_area_fold(a: Env, b: Env) -> int
    decreases a.len(),
{
    if a.len() == 0 {
        1
    } else {
        clamp64(
            overlap_area_fold(a.drop_last(), b.subrange(0, b.len() - 1)) * overlap_width(
                a.last(),
                b[a.len() - 1],
            ),
        )
    }
}

/// Saturating sum of squared per-axis distances between the doubled center
/// of the box `e` and the doubled representative coordinates `c`.
pub open spec fn dist2_fold(e: Env, c: Seq<int>) -> int
    decreases e.len(),
{
    if e.len() == 0 {
        0
    } else {
        let diff = clamp64(clamp64(e.last().0 + e.last().1) - c[e.len() - 1]);
        clamp64(dist2_fold(e.drop_last(), c.subrange(0, e.len() - 1)) + clamp64(diff * diff))
    }
}

/// An n-dimensional point.
#[derive(Debug, Clone)]
pub struct Point<const DIM: usize> {
    pub coords: Vec<i64>,
}

impl<const DIM: usize> Point<DIM> {
    /// The point holds one coordinate per dimension.
    pub open spec fn wf(&self) -> bool {
        self.coords@.len() == DIM
    }

    /// New point from its coordinates.
    pub fn new(coords: Vec<i64>) -> (r: Point<DIM>)
        requires
            coords@.len() == DIM,
        ensures
            r.coords == coords,
            r.wf(),
    {
        Point { coords }
    }

    /// New point from a coordinate slice.
    pub fn from_slice(slice: &[i64]) -> (r: Point<DIM>)
        requires
            slice@.len() == DIM,
        ensures
            r.coords@ == slice@,
            r.wf(),
    {
        let mut coords: Vec<i64> = Vec::new();
        let mut d: usize = 0;
        while d < slice.len()
            invariant
                slice@.len() == DIM,
                0 <= d <= DIM,
                coords@ == slice@.subrange(0, d as int),
            decreases slice@.len() - d,
        {
            coords.push(slice[d]);
            d += 1;
        }
        proof {
            assert(coords@ =~= slice@);
        }
        Point { coords }
    }
}

/// An n-dimensional line segment.
#[derive(Debug, Clone)]
pub struct LineSegment<const DIM: usize> {
    pub x: Point<DIM>,
    pub y: Point<DIM>,
}

impl<const DIM: usize> LineSegment<DIM> {
    /// Both endpoints hold one coordinate per dimension.
    pub open spec fn wf(&self) -> bool {
        self.x.wf() && self.y.wf()
    }

    /// New line segment from the coordinates of its two endpoints.
    pub fn new(x: Vec<i64>, y: Vec<i64>) -> (r: LineSegment<DIM>)
        requires
            x@.len() == DIM,
            y@.len() == DIM,
        ensures
            r.x.coords == x,
            r.y.coords == y,
            r.wf(),
    {
        LineSegment { x: Point::new(x), y: Point::new(y) }
    }

    /// New line segment from two coordinate slices.
    pub fn from_slices(x: &[i64], y: &[i64]) -> (r: LineSegment<DIM>)
        requires
            x@.len() == DIM,
            y@.len() == DIM,
        ensures
            r.x.coords@ == x@,
            r.y.coords@ == y@,
            r.wf(),
    {
        LineSegment { x: Point::from_slice(x), y: Point::from_slice(y) }
    }
}

/// An n-dimensional axis-aligned rectangle.
#[derive(Debug, Clone)]
pub struct Rect<const DIM: usize> {
    pub edges: Vec<(i64, i64)>,
}

impl<const DIM: usize> Rect<DIM> {
    /// The rectangle holds one edge per dimension.
    pub open spec fn wf(&self) -> bool {
        self.edges@.len() == DIM
    }

    /// New rect from its edges; a swapped edge is put into `(lo, hi)` order.
    pub fn new(edges: Vec<(i64, i64)>) -> (r: Rect<DIM>)
        requires
            edges@.len() == DIM,
        ensures
            r.wf(),
            forall|d: int|
                0 <= d < DIM ==> #[trigger] r.edges@[d] == (
                    if edges@[d].0 <= edges@[d].1 {
                        edges@[d]
                    } else {
                        (edges@[d].1, edges@[d].0)
                    }
                ),
            forall|d: int| 0 <= d < DIM ==> #[trigger] r.edges@[d].0 <= r.edges@[d].1,
    {
        let mut out: Vec<(i64, i64)> = Vec::new();
        let mut d: usize = 0;
        while d < edges.len()
            invariant
                edges@.len() == DIM,
                0 <= d <= DIM,
                out@.len() == d,
                forall|j: int|
                    0 <= j < d ==> #[trigger] out@[j] == (
                        if edges@[j].0 <= edges@[j].1 {
                            edges@[j]
                        } else {
                            (edges@[j].1, edges@[j].0)
                        }
                    ),
                forall|j: int| 0 <= j < d ==> #[trigger] out@[j].0 <= out@[j].1,
            decreases edges@.len() - d,
        {
            let (a, b) = edges[d];
            if a <= b {
                out.push((a, b));
            } else {
                out.push((b, a));
            }
            d += 1;
        }
        Rect { edges: out }
    }

    /// New rect minimally covering the two corner points.
    pub fn from_corners(x: Vec<i64>, y: Vec<i64>) -> (r: Rect<DIM>)
        requires
            x@.len() == DIM,
            y@.len() == DIM,
        ensures
            r.wf(),
            forall|d: int|
                0 <= d < DIM ==> #[trigger] r.edges@[d] == (
                    if x@[d] <= y@[d] {
                        (x@[d], y@[d])
                    } else {
                        (y@[d], x@[d])
                    }
                ),
    {
        let mut edges: Vec<(i64, i64)> = Vec::new();
        let mut d: usize = 0;
        while d < x.len()
            invariant
                x@.len() == DIM,
                y@.len() == DIM,
                0 <= d <= DIM,
                edges@.len() == d,
                forall|j: int|
                    0 <= j < d ==> #[trigger] edges@[j] == (
                        if x@[j] <= y@[j] {
                            (x@[j], y@[j])
                        } else {
                            (y@[j], x@[j])
                        }
                    ),
            decreases x@.len() - d,
        {
            let a = x[d];
            let b = y[d];
            if a <= b {
                edges.push((a, b));
            } else {
                edges.push((b, a));
            }
            d += 1;
        }
        Rect { edges }
    }

    /// An inverted rect where every axis holds `(i64::MAX, i64::MIN)`: the
    /// identity for expanding a bound to fit a set of shapes.
    pub fn max_inverted() -> (r: Rect<DIM>)
        ensures
            r.wf(),
            r.edges@ == env_inverted(DIM as nat),
    {
        let mut edges: Vec<(i64, i64)> = Vec::new();
        let mut d: usize = 0;
        while d < DIM
            invariant
                0 <= d <= DIM,
                edges@.len() == d,
                forall|j: int| 0 <= j < d ==> #[trigger] edges@[j] == (i64::MAX, i64::MIN),
            decreases DIM - d,
        {
            edges.push((i64::MAX, i64::MIN));
            d += 1;
        }
        let r = Rect { edges };
        proof {
            assert(r.edges@ =~= env_inverted(DIM as nat));
        }
        r
    }

    /// A verified copy of the rect, edge for edge.
    pub fn duplicate(&self) -> (r: Rect<DIM>)
        ensures
            r.edges@ == self.edges@,
    {
        let mut edges: Vec<(i64, i64)> = Vec::new();
        let mut d: usize = 0;
        while d < self.edges.len()
            invariant
                0 <= d <= self.edges@.len(),
                edges@ == self.edges@.subrange(0, d as int),
            decreases self.edges@.len() - d,
        {
            let e = self.edges[d];
            edges.push(e);
            d += 1;
        }
        proof {
            assert(edges@ =~= self.edges@);
        }
        Rect { edges }
    }

    /// The largest possible rect.
    pub fn max() -> (r: Rect<DIM>)
        ensures
            r.wf(),
            r.edges@ == env_universe(DIM as nat),
    {
        let mut edges: Vec<(i64, i64)> = Vec::new();
        let mut d: usize = 0;
        while d < DIM
            invariant
                0 <= d <= DIM,
                edges@.len() == d,
                forall|j: int| 0 <= j < d ==> #[trigger] edges@[j] == (i64::MIN, i64::MAX),
            decreases DIM - d,
        {
            edges.push((i64::MIN, i64::MAX));
            d += 1;
        }
        let r = Rect { edges };
        proof {
            assert(r.edges@ =~= env_universe(DIM as nat));
        }
        r
    }
}

/// A convenience enum that contains `Point`, `LineSegment`, and `Rect`.
#[derive(Debug, Clone)]
pub enum Shapes<const DIM: usize> {
    Point(Point<DIM>),
    LineSegment(LineSegment<DIM>),
    Rect(Rect<DIM>),
}

impl<const DIM: usize> Shapes<DIM> {
    /// The inner shape holds one coordinate interval per dimension.
    pub open spec fn wf(&self) -> bool {
        match *self {
            Shapes::Point(ref point) => point.wf(),
            Shapes::LineSegment(ref line) => line.wf(),
            Shapes::Rect(ref rect) => rect.wf(),
        }
    }
}

} // verus!
