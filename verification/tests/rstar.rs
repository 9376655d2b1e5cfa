use spatial::geometry::{Point, Rect};
use spatial::tree::mbr::MbrRectQuery;
use spatial::{RStar, RStarTree};

#[test]
fn rstar_integration() {
    let mut tree_map: RStarTree<3, Point<3>, i32> = RStar::new_with_max(16);
    for i in 0..32 {
        let c = i as i64;
        tree_map.insert(Point::new(vec![c, c, c]), i);
        println!("i: {:?}", i);
    }
    assert_eq!(32, tree_map.len());
    assert_eq!(tree_map.len(), tree_map.iter().len());

    println!("Remove query");
    let removed = tree_map.remove(MbrRectQuery::ContainedBy(Rect::from_corners(
        vec![0, 0, 0],
        vec![9, 9, 9],
    )));
    assert_eq!(10, removed.len());
    assert_eq!(22, tree_map.len());
    assert_eq!(tree_map.len(), tree_map.iter().len());

    println!("Retain query");
    let removed_retain = tree_map.retain(MbrRectQuery::ContainedBy(Rect::max()), |x: &i32| *x >= 20);
    assert_eq!(10, removed_retain.len());
    assert_eq!(12, tree_map.len());
    assert_eq!(tree_map.len(), tree_map.iter().len());

    println!("Remove all");
    let retain_none = tree_map.remove(MbrRectQuery::ContainedBy(Rect::max()));
    assert_eq!(12, retain_none.len());
    assert_eq!(0, tree_map.len());
    assert_eq!(tree_map.len(), tree_map.iter().len());

    for i in 0..32 {
        let c = i as i64;
        tree_map.insert(Point::new(vec![c, c, c]), i);
        println!("i: {:?}", i);
    }
    assert_eq!(32, tree_map.len());
    assert_eq!(tree_map.len(), tree_map.iter().len());
}
