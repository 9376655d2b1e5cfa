//! A tree leaf: user geometry paired with an opaque item.

use vstd::prelude::*;
use crate::geometry::{Env, Rect};
use crate::tree::mbr::leafgeometry::MbrLeafGeometry;

verus! {

/// A tree leaf.
#[derive(Debug, Clone)]
pub struct MbrLeaf<const DIM: usize, LG, T> {
    pub geometry: LG,
    pub item: T,
}

impl<const DIM: usize, LG: MbrLeafGeometry<DIM>, T> MbrLeaf<DIM, LG, T> {
    /// New leaf from geometry and item.
    pub fn new(geometry: LG, item: T) -> (r: MbrLeaf<DIM, LG, T>)
        ensures
            r.geometry == geometry,
            r.item == item,
    {
        MbrLeaf { geometry, item }
    }

    /// Consumes self, returning the geometry and item.
    pub fn extract(self) -> (r: (LG, T))
        ensures
            r.0 == self.geometry,
            r.1 == self.item,
    {
        (self.geometry, self.item)
    }

    /// Borrow the geometry and item.
    pub fn as_tuple(&self) -> (r: (&LG, &T))
        ensures
            *r.0 == self.geometry,
            *r.1 == self.item,
    {
        (&self.geometry, &self.item)
    }

    /// Borrow the geometry, and the item mutably.
    pub fn as_mut_tuple(&mut self) -> (r: (&LG, &mut T))
        ensures
            *r.0 == old(self).geometry,
    {
        (&self.geometry, &mut self.item)
    }
}

impl<const DIM: usize, LG: MbrLeafGeometry<DIM>, T> MbrLeafGeometry<DIM> for MbrLeaf<
    DIM,
    LG,
    T,
> {
    open spec fn geom_wf(&self) -> bool {
        self.geometry.geom_wf()
    }

    open spec fn envelope(&self) -> Env {
        self.geometry.envelope()
    }

    open spec fn center2(&self) -> Seq<int> {
        self.geometry.center2()
    }

    open spec fn spec_area(&self) -> int {
        self.geometry.spec_area()
    }

    open spec fn spec_overlapped(&self, q: Env) -> bool {
        self.geometry.spec_overlapped(q)
    }

    open spec fn spec_overlap_area(&self, q: Env) -> int {
        self.geometry.spec_overlap_area(q)
    }

    proof fn envelope_props(&self) {
        self.geometry.envelope_props();
    }

    fn dim(&self) -> (r: usize) {
        self.geometry.dim()
    }

    fn area(&self) -> (r: i64) {
        self.geometry.area()
    }

    fn min_for_axis(&self, d: usize) -> (r: i64) {
        self.geometry.min_for_axis(d)
    }

    fn max_for_axis(&self, d: usize) -> (r: i64) {
        self.geometry.max_for_axis(d)
    }

    fn expand_mbr_to_fit(&self, mbr: &mut Rect<DIM>) {
        self.geometry.expand_mbr_to_fit(mbr)
    }

    fn distance_from_mbr_center(&self, mbr: &Rect<DIM>) -> (r: i64) {
        self.geometry.distance_from_mbr_center(mbr)
    }

    fn contained_by_mbr(&self, mbr: &Rect<DIM>) -> (r: bool) {
        self.geometry.contained_by_mbr(mbr)
    }

    fn overlapped_by_mbr(&self, mbr: &Rect<DIM>) -> (r: bool) {
        self.geometry.overlapped_by_mbr(mbr)
    }

    fn area_overlapped_with_mbr(&self, mbr: &Rect<DIM>) -> (r: i64) {
        self.geometry.area_overlapped_with_mbr(mbr)
    }
}

} // verus!
