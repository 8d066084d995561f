use delaunay_mesh::geo::{Bbox, Vec2};

fn bbox(x0: i64, y0: i64, x1: i64, y1: i64) -> Bbox {
    let mut b = Bbox::new(Vec2::new(x0, y0));
    b.expand(Vec2::new(x1, y1));
    b
}

#[test]
fn zero_is_the_origin() {
    assert_eq!(Vec2::zero(), Vec2::new(0, 0));
    assert_eq!(Vec2::new(3, -4).x, 3);
    assert_eq!(Vec2::new(3, -4).y, -4);
}

#[test]
fn new_box_holds_its_point_alone() {
    let b = Bbox::new(Vec2::new(2, 3));
    assert_eq!(b.min(), Vec2::new(2, 3));
    assert_eq!(b.max(), Vec2::new(2, 3));
    assert!(b.contains(Vec2::new(2, 3)));
    assert!(!b.contains(Vec2::new(2, 4)));
    assert!(!b.contains(Vec2::new(1, 3)));
}

#[test]
fn expand_grows_towards_the_point() {
    let mut b = Bbox::new(Vec2::new(0, 0));
    b.expand(Vec2::new(5, -2));
    assert_eq!(b.min(), Vec2::new(0, -2));
    assert_eq!(b.max(), Vec2::new(5, 0));
    b.expand(Vec2::new(-1, 7));
    assert_eq!(b.min(), Vec2::new(-1, -2));
    assert_eq!(b.max(), Vec2::new(5, 7));
    // a point inside changes nothing
    b.expand(Vec2::new(1, 1));
    assert_eq!(b, bbox(-1, -2, 5, 7));
}

#[test]
fn contains_includes_the_border() {
    let b = bbox(0, 0, 10, 20);
    for p in [(0, 0), (10, 20), (0, 20), (10, 0), (5, 5), (0, 7), (10, 7)] {
        assert!(b.contains(Vec2::new(p.0, p.1)), "{:?}", p);
    }
    for p in [(-1, 0), (11, 5), (5, 21), (5, -1), (11, 21)] {
        assert!(!b.contains(Vec2::new(p.0, p.1)), "{:?}", p);
    }
}

#[test]
fn intersection_is_the_shared_part() {
    let a = bbox(0, 0, 10, 10);
    assert_eq!(a.intersection(bbox(5, 5, 20, 20)), Some(bbox(5, 5, 10, 10)));
    assert_eq!(a.intersection(bbox(2, 3, 4, 5)), Some(bbox(2, 3, 4, 5)));
    assert_eq!(a.intersection(a), Some(a));
    // boxes that touch share their border
    assert_eq!(a.intersection(bbox(10, 0, 20, 10)), Some(bbox(10, 0, 10, 10)));
    assert_eq!(a.intersection(bbox(10, 10, 20, 20)), Some(Bbox::new(Vec2::new(10, 10))));
    assert_eq!(a.intersection(bbox(11, 0, 20, 10)), None);
    assert_eq!(a.intersection(bbox(0, -5, 10, -1)), None);
}

#[test]
fn split_gives_the_four_quadrants_in_order() {
    let b = bbox(0, 0, 10, 20);
    let q = b.split(Vec2::new(4, 5));
    assert_eq!(q[0], bbox(0, 0, 4, 5));
    assert_eq!(q[1], bbox(4, 0, 10, 5));
    assert_eq!(q[2], bbox(0, 5, 4, 20));
    assert_eq!(q[3], bbox(4, 5, 10, 20));
}

#[test]
fn quadrants_tile_the_box() {
    let b = bbox(-3, -2, 6, 5);
    let pivot = Vec2::new(1, 2);
    let quads = b.split(pivot);
    for child in quads.iter() {
        assert_eq!(b.intersection(*child), Some(*child));
        assert!(b.contains(child.min()));
        assert!(b.contains(child.max()));
    }
    for x in -5..9 {
        for y in -4..8 {
            let p = Vec2::new(x, y);
            let holders = quads.iter().filter(|q| q.contains(p)).count();
            assert_eq!(b.contains(p), holders > 0);
            if holders > 1 {
                assert!(p.x == pivot.x || p.y == pivot.y);
            }
        }
    }
}
