use spatial::geometry::{LineSegment, Point, Rect, Shapes};
use spatial::tree::mbr::MbrRectQuery;
use spatial::{RStar, RStarTree, RTree};

fn items_of(pairs: &Vec<(&Point<2>, &i32)>) -> Vec<i32> {
    let mut out: Vec<i32> = Vec::new();
    for p in pairs {
        out.push(*p.1);
    }
    out.sort();
    out
}

#[test]
fn empty_map() {
    let mut map: RStarTree<2, Point<2>, i32> = RStar::new_with_max(16);
    assert!(map.is_empty());
    assert_eq!(0, map.len());
    assert_eq!(0, map.iter().len());
    let removed = map.remove(MbrRectQuery::Overlaps(Rect::max()));
    assert_eq!(0, removed.len());
    assert_eq!(0, map.len());
}

#[test]
fn duplicate_insert_no_dedup() {
    let mut map: RStarTree<2, Point<2>, i32> = RStar::new_with_max(16);
    map.insert(Point::new(vec![5, 5]), 1);
    map.insert(Point::new(vec![5, 5]), 1);
    assert_eq!(2, map.len());
    assert_eq!(2, map.iter().len());
}

#[test]
fn retain_keep_all_removes_nothing() {
    let mut map: RStarTree<2, Point<2>, i32> = RStar::new_with_max(16);
    for i in 0..40 {
        let c = i as i64;
        map.insert(Point::new(vec![c, 2 * c]), i);
    }
    let removed = map.retain(MbrRectQuery::Overlaps(Rect::max()), |_| true);
    assert!(removed.is_empty());
    assert_eq!(40, map.len());
    assert_eq!(40, map.iter().len());
}

#[test]
fn retain_drop_all_matches_remove() {
    let mut a: RStarTree<2, Point<2>, i32> = RStar::new_with_max(16);
    let mut b: RStarTree<2, Point<2>, i32> = RStar::new_with_max(16);
    for i in 0..40 {
        let c = i as i64;
        a.insert(Point::new(vec![c, c + 1]), i);
        b.insert(Point::new(vec![c, c + 1]), i);
    }
    let q = Rect::from_corners(vec![3, 3], vec![20, 20]);
    let mut ra: Vec<i32> = a
        .retain(MbrRectQuery::ContainedBy(q.duplicate()), |_| false)
        .iter()
        .map(|p| p.1)
        .collect();
    let mut rb: Vec<i32> = b
        .remove(MbrRectQuery::ContainedBy(q))
        .iter()
        .map(|p| p.1)
        .collect();
    ra.sort();
    rb.sort();
    assert_eq!(ra, rb);
    assert_eq!(a.len(), b.len());
}

#[test]
fn insert_remove_roundtrip() {
    let mut map: RStarTree<2, Point<2>, i32> = RStar::new_with_max(16);
    for i in 0..20 {
        let c = i as i64;
        map.insert(Point::new(vec![c + 100, c + 100]), i);
    }
    let before = map.len();
    map.insert(Point::new(vec![3, 3]), 777);
    let removed = map.remove(MbrRectQuery::ContainedBy(Rect::from_corners(
        vec![0, 0],
        vec![10, 10],
    )));
    assert_eq!(1, removed.len());
    assert_eq!(777, removed[0].1);
    assert_eq!(before, map.len());
}

#[test]
fn permutation_insensitive_membership() {
    let mut a: RStarTree<2, Point<2>, i32> = RStar::new_with_max(16);
    let mut b: RStarTree<2, Point<2>, i32> = RStar::new_with_max(16);
    for i in 0..60 {
        let c = i as i64;
        a.insert(Point::new(vec![c % 7, c]), i);
    }
    let mut rev: Vec<i32> = (0..60).collect();
    rev.reverse();
    for i in rev {
        let c = i as i64;
        b.insert(Point::new(vec![c % 7, c]), i);
    }
    assert_eq!(items_of(&a.iter()), items_of(&b.iter()));
}

#[test]
fn rtree_linear_bulk() {
    let mut map = RTree::new_linear_with_max::<2, Point<2>, i32>(5);
    for i in 0..100 {
        let c = i as i64;
        map.insert(Point::new(vec![2 * (c % 10), 2 * (c / 10)]), i);
    }
    assert_eq!(100, map.len());
    assert_eq!(100, map.iter().len());
    let removed = map.remove(MbrRectQuery::ContainedBy(Rect::from_corners(
        vec![-1, -1],
        vec![9, 9],
    )));
    assert_eq!(25, removed.len());
    assert_eq!(75, map.len());
    assert_eq!(75, map.iter().len());
}

#[test]
fn rtree_quadratic_bulk() {
    let mut map = RTree::new_quadratic_with_max::<2, Point<2>, i32>(5);
    for i in 0..100 {
        let c = i as i64;
        map.insert(Point::new(vec![2 * (c % 10), 2 * (c / 10)]), i);
    }
    assert_eq!(100, map.len());
    assert_eq!(100, map.iter().len());
    let removed = map.remove(MbrRectQuery::Overlaps(Rect::from_corners(
        vec![-1, -1],
        vec![9, 9],
    )));
    assert_eq!(25, removed.len());
    assert_eq!(75, map.len());
    assert_eq!(75, map.iter().len());
}

#[test]
fn mixed_shapes_queries() {
    let mut map: RStarTree<2, Shapes<2>, i32> = RStar::new_with_max(16);
    map.insert(Shapes::Point(Point::new(vec![1, 1])), 0);
    map.insert(Shapes::LineSegment(LineSegment::new(vec![0, 0], vec![4, 4])), 1);
    map.insert(Shapes::Rect(Rect::from_corners(vec![2, 2], vec![3, 3])), 2);
    map.insert(Shapes::Point(Point::new(vec![50, 50])), 3);
    assert_eq!(4, map.len());

    // everything inside the box from the origin to (10, 10)
    let contained = map.iter_query(MbrRectQuery::ContainedBy(Rect::from_corners(
        vec![0, 0],
        vec![10, 10],
    )));
    let mut got: Vec<i32> = contained.iter().map(|p| *p.1).collect();
    got.sort();
    assert_eq!(vec![0, 1, 2], got);

    // the far point is still found by an overlap query around it
    let near_far = map.iter_query(MbrRectQuery::Overlaps(Rect::from_corners(
        vec![49, 49],
        vec![51, 51],
    )));
    assert_eq!(1, near_far.len());
    assert_eq!(3, *near_far[0].1);
}

#[test]
fn clear_resets() {
    let mut map: RStarTree<2, Point<2>, i32> = RStar::new_with_max(16);
    for i in 0..30 {
        let c = i as i64;
        map.insert(Point::new(vec![c, c]), i);
    }
    assert_eq!(30, map.len());
    map.clear();
    assert!(map.is_empty());
    assert_eq!(0, map.iter().len());
    map.insert(Point::new(vec![1, 2]), 9);
    assert_eq!(1, map.len());
}

#[test]
fn rstar_with_options() {
    let mut map: RStarTree<2, Point<2>, i32> =
        spatial::RStar::new_with_options(16, 30, 40, 32);
    for i in 0..50 {
        let c = i as i64;
        map.insert(Point::new(vec![c, -c]), i);
    }
    assert_eq!(50, map.len());
    assert_eq!(50, map.iter().len());
    let removed = map.remove(MbrRectQuery::Overlaps(Rect::from_corners(
        vec![-1, -100],
        vec![100, 1],
    )));
    assert_eq!(50, removed.len());
    assert!(map.is_empty());
}

#[test]
fn update_query_rewrites_items() {
    let mut map: RStarTree<2, Point<2>, i32> = RStar::new_with_max(16);
    for i in 0..30 {
        let c = i as i64;
        map.insert(Point::new(vec![c, 0]), i);
    }
    // negate every item at an x coordinate up to 10
    map.update_query(
        MbrRectQuery::ContainedBy(Rect::from_corners(vec![-1, -1], vec![10, 1])),
        |_g: &Point<2>, t: &i32| -*t,
    );
    assert_eq!(30, map.len());
    let mut got: Vec<i32> = map.iter().iter().map(|p| *p.1).collect();
    got.sort();
    let mut want: Vec<i32> = (0..30).map(|i| if i <= 10 { -i } else { i }).collect();
    want.sort();
    assert_eq!(want, got);
}
