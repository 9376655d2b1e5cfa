use spatial::geometry::{LineSegment, Point, Rect, Shapes};
use spatial::tree::mbr::index::rstar::Margin;
use spatial::tree::mbr::MbrLeafGeometry;

const ONE: [i64; 3] = [1, 1, 1];
const ZERO: [i64; 3] = [0, 0, 0];
const NEG_ONE: [i64; 3] = [-1, -1, -1];
const NEG_TWO: [i64; 3] = [-2, -2, -2];

// squared distance between the doubled center of [0,1]^3 and the doubled
// origin: three axes of (0 + 1 - 0)^2
const EXPECTED_DISTANCE: i64 = 3;

#[test]
fn shapes_point() {
    let point: Point<3> = Point::new(vec![0, 0, 0]);
    for i in point.coords.iter() {
        assert_eq!(0, *i);
    }

    let zero: Shapes<3> = Shapes::Point(Point::from_slice(&ZERO));
    let one: Shapes<3> = Shapes::Point(Point::from_slice(&ONE));
    let neg_one: Shapes<3> = Shapes::Point(Point::from_slice(&NEG_ONE));

    // dim
    assert_eq!(ZERO.len(), zero.dim());
    // area
    assert_eq!(0, zero.area());
    // min/max for axis
    for (i, item) in ZERO.iter().enumerate() {
        assert_eq!(*item, zero.min_for_axis(i));
        assert_eq!(*item, zero.max_for_axis(i));
    }
    let mut bounding_rect = Rect::max_inverted();
    // expand_mbr_to_fit
    zero.expand_mbr_to_fit(&mut bounding_rect);
    one.expand_mbr_to_fit(&mut bounding_rect);
    for (i, (x, y)) in ZERO.iter().zip(ONE.iter()).enumerate() {
        assert_eq!(*x, bounding_rect.min_for_axis(i));
        assert_eq!(*y, bounding_rect.max_for_axis(i));
    }

    // distance_from_mbr_center
    assert_eq!(EXPECTED_DISTANCE, zero.distance_from_mbr_center(&bounding_rect));

    // contained_by_mbr
    assert!(zero.contained_by_mbr(&bounding_rect));
    assert!(one.contained_by_mbr(&bounding_rect));
    assert!(!neg_one.contained_by_mbr(&bounding_rect));

    // overlapped_by_mbr
    assert!(zero.overlapped_by_mbr(&bounding_rect));
    assert!(one.overlapped_by_mbr(&bounding_rect));
    assert!(!neg_one.overlapped_by_mbr(&bounding_rect));

    // area_overlapped_with_mbr
    assert_eq!(0, zero.area_overlapped_with_mbr(&bounding_rect));
}

#[test]
fn shapes_line_segment() {
    // contained
    let zero_one: Shapes<3> = Shapes::LineSegment(LineSegment::from_slices(&ZERO, &ONE));
    // overlap
    let neg_one_one: Shapes<3> = Shapes::LineSegment(LineSegment::from_slices(&NEG_ONE, &ONE));
    // outside
    let neg_two_neg_one: Shapes<3> =
        Shapes::LineSegment(LineSegment::from_slices(&NEG_TWO, &NEG_ONE));

    // dim
    assert_eq!(ZERO.len(), zero_one.dim());

    // area
    assert_eq!(0, zero_one.area());

    // min/max for axis
    for (i, (x, y)) in ZERO.iter().zip(ONE.iter()).enumerate() {
        assert_eq!(*x, zero_one.min_for_axis(i));
        assert_eq!(*y, zero_one.max_for_axis(i));
    }

    let mut bounding_rect = Rect::max_inverted();

    // expand_mbr_to_fit
    zero_one.expand_mbr_to_fit(&mut bounding_rect);
    for (i, (x, y)) in ZERO.iter().zip(ONE.iter()).enumerate() {
        assert_eq!(*x, bounding_rect.min_for_axis(i));
        assert_eq!(*y, bounding_rect.max_for_axis(i));
    }

    // distance_from_mbr_center: the doubled center of the segment from
    // -1 to 1 sits at the origin, one unit of doubled distance per axis
    assert_eq!(EXPECTED_DISTANCE, neg_one_one.distance_from_mbr_center(&bounding_rect));

    // contained_by_mbr
    assert!(zero_one.contained_by_mbr(&bounding_rect));
    assert!(!neg_one_one.contained_by_mbr(&bounding_rect));
    assert!(!neg_two_neg_one.contained_by_mbr(&bounding_rect));

    // overlapped_by_mbr
    assert!(zero_one.overlapped_by_mbr(&bounding_rect));
    assert!(neg_one_one.overlapped_by_mbr(&bounding_rect));
    assert!(!neg_two_neg_one.overlapped_by_mbr(&bounding_rect));

    // area_overlapped_with_mbr
    assert_eq!(0, zero_one.area_overlapped_with_mbr(&bounding_rect));
}

#[test]
fn shapes_rect() {
    let one: Point<3> = Point::from_slice(&ONE);

    // contained
    let zero_one: Rect<3> = Rect::from_corners(ZERO.to_vec(), ONE.to_vec());
    // overlapped
    let neg_one_one: Rect<3> = Rect::from_corners(NEG_ONE.to_vec(), ONE.to_vec());
    // outside
    let neg_two_neg_one: Rect<3> = Rect::from_corners(NEG_TWO.to_vec(), NEG_ONE.to_vec());

    // dim
    assert_eq!(one.dim(), zero_one.dim());

    // area
    assert_eq!(1, zero_one.area());

    // min/max for axis
    for (i, (x, y)) in ZERO.iter().zip(ONE.iter()).enumerate() {
        assert_eq!(*x, zero_one.min_for_axis(i));
        assert_eq!(*y, zero_one.max_for_axis(i));
    }

    let mut bounding_rect = Rect::max_inverted();
    // expand_mbr_to_fit
    zero_one.expand_mbr_to_fit(&mut bounding_rect);
    for (i, (x, y)) in ZERO.iter().zip(ONE.iter()).enumerate() {
        assert_eq!(*x, bounding_rect.min_for_axis(i));
        assert_eq!(*y, bounding_rect.max_for_axis(i));
    }

    // distance_from_mbr_center
    assert_eq!(EXPECTED_DISTANCE, neg_one_one.distance_from_mbr_center(&bounding_rect));

    // contained_by_mbr
    assert!(zero_one.contained_by_mbr(&bounding_rect));
    assert!(!neg_one_one.contained_by_mbr(&bounding_rect));
    assert!(!neg_two_neg_one.contained_by_mbr(&bounding_rect));

    // overlapped_by_mbr
    assert!(zero_one.overlapped_by_mbr(&bounding_rect));
    assert!(neg_one_one.overlapped_by_mbr(&bounding_rect));
    assert!(!neg_two_neg_one.overlapped_by_mbr(&bounding_rect));

    // area_overlapped_with_mbr
    assert_eq!(1, zero_one.area_overlapped_with_mbr(&bounding_rect));
    assert_eq!(1, neg_one_one.area_overlapped_with_mbr(&bounding_rect));

    // margin
    assert_eq!(3, zero_one.margin());
}

#[test]
fn leafgeometry_point() {
    let zero: Point<3> = Point::from_slice(&ZERO);
    let one: Point<3> = Point::from_slice(&ONE);
    let neg_one: Point<3> = Point::from_slice(&NEG_ONE);

    assert_eq!(ZERO.len(), zero.dim());
    assert_eq!(0, zero.area());
    for (i, item) in ZERO.iter().enumerate() {
        assert_eq!(*item, zero.min_for_axis(i));
        assert_eq!(*item, zero.max_for_axis(i));
    }
    let mut bounding_rect = Rect::max_inverted();
    zero.expand_mbr_to_fit(&mut bounding_rect);
    one.expand_mbr_to_fit(&mut bounding_rect);
    for (i, (x, y)) in ZERO.iter().zip(ONE.iter()).enumerate() {
        assert_eq!(*x, bounding_rect.min_for_axis(i));
        assert_eq!(*y, bounding_rect.max_for_axis(i));
    }
    assert_eq!(EXPECTED_DISTANCE, zero.distance_from_mbr_center(&bounding_rect));
    assert!(zero.contained_by_mbr(&bounding_rect));
    assert!(one.contained_by_mbr(&bounding_rect));
    assert!(!neg_one.contained_by_mbr(&bounding_rect));
    assert!(zero.overlapped_by_mbr(&bounding_rect));
    assert!(one.overlapped_by_mbr(&bounding_rect));
    assert!(!neg_one.overlapped_by_mbr(&bounding_rect));
    assert_eq!(0, zero.area_overlapped_with_mbr(&bounding_rect));
}

#[test]
fn leafgeometry_line_segment() {
    let zero_one: LineSegment<3> = LineSegment::from_slices(&ZERO, &ONE);
    let neg_one_one: LineSegment<3> = LineSegment::from_slices(&NEG_ONE, &ONE);
    let neg_two_neg_one: LineSegment<3> = LineSegment::from_slices(&NEG_TWO, &NEG_ONE);

    assert_eq!(ZERO.len(), zero_one.dim());
    assert_eq!(0, zero_one.area());
    for (i, (x, y)) in ZERO.iter().zip(ONE.iter()).enumerate() {
        assert_eq!(*x, zero_one.min_for_axis(i));
        assert_eq!(*y, zero_one.max_for_axis(i));
    }
    let mut bounding_rect = Rect::max_inverted();
    zero_one.expand_mbr_to_fit(&mut bounding_rect);
    for (i, (x, y)) in ZERO.iter().zip(ONE.iter()).enumerate() {
        assert_eq!(*x, bounding_rect.min_for_axis(i));
        assert_eq!(*y, bounding_rect.max_for_axis(i));
    }
    assert_eq!(EXPECTED_DISTANCE, neg_one_one.distance_from_mbr_center(&bounding_rect));
    assert!(zero_one.contained_by_mbr(&bounding_rect));
    assert!(!neg_one_one.contained_by_mbr(&bounding_rect));
    assert!(!neg_two_neg_one.contained_by_mbr(&bounding_rect));
    assert!(zero_one.overlapped_by_mbr(&bounding_rect));
    assert!(neg_one_one.overlapped_by_mbr(&bounding_rect));
    assert!(!neg_two_neg_one.overlapped_by_mbr(&bounding_rect));
    assert_eq!(0, zero_one.area_overlapped_with_mbr(&bounding_rect));
}

#[test]
fn leafgeometry_rect() {
    let zero_one: Rect<3> = Rect::from_corners(ZERO.to_vec(), ONE.to_vec());
    let neg_one_one: Rect<3> = Rect::from_corners(NEG_ONE.to_vec(), ONE.to_vec());
    let neg_two_neg_one: Rect<3> = Rect::from_corners(NEG_TWO.to_vec(), NEG_ONE.to_vec());

    assert_eq!(ZERO.len(), zero_one.dim());
    assert_eq!(1, zero_one.area());
    for (i, (x, y)) in ZERO.iter().zip(ONE.iter()).enumerate() {
        assert_eq!(*x, zero_one.min_for_axis(i));
        assert_eq!(*y, zero_one.max_for_axis(i));
    }
    let mut bounding_rect = Rect::max_inverted();
    zero_one.expand_mbr_to_fit(&mut bounding_rect);
    for (i, (x, y)) in ZERO.iter().zip(ONE.iter()).enumerate() {
        assert_eq!(*x, bounding_rect.min_for_axis(i));
        assert_eq!(*y, bounding_rect.max_for_axis(i));
    }
    assert_eq!(EXPECTED_DISTANCE, neg_one_one.distance_from_mbr_center(&bounding_rect));
    assert!(zero_one.contained_by_mbr(&bounding_rect));
    assert!(!neg_one_one.contained_by_mbr(&bounding_rect));
    assert!(!neg_two_neg_one.contained_by_mbr(&bounding_rect));
    assert!(zero_one.overlapped_by_mbr(&bounding_rect));
    assert!(neg_one_one.overlapped_by_mbr(&bounding_rect));
    assert!(!neg_two_neg_one.overlapped_by_mbr(&bounding_rect));
    assert_eq!(1, zero_one.area_overlapped_with_mbr(&bounding_rect));
    assert_eq!(1, neg_one_one.area_overlapped_with_mbr(&bounding_rect));
}

#[test]
fn margin() {
    // the unit cube at the origin: edge lengths 1 + 1 + 1
    let zero_one: Rect<3> = Rect::from_corners(vec![0, 0, 0], vec![1, 1, 1]);
    assert_eq!(3, zero_one.margin());
}
