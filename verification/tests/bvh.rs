use delaunay_mesh::bvh::{Bvh, SplitPolicy, LEAF_SIZE};
use delaunay_mesh::geo::{Bbox, Vec2};

/// Cuts a box at its midpoint as long as its area is above one unit.
struct Midpoint;

impl SplitPolicy for Midpoint {
    fn pivot(&self, bbox: &Bbox) -> Option<Vec2> {
        let w = bbox.max().x as i128 - bbox.min().x as i128;
        let h = bbox.max().y as i128 - bbox.min().y as i128;
        if w * h > 1 {
            Some(center(bbox))
        } else {
            None
        }
    }
}

fn center(b: &Bbox) -> Vec2 {
    Vec2::new(
        ((b.min().x as i128 + b.max().x as i128) / 2) as i64,
        ((b.min().y as i128 + b.max().y as i128) / 2) as i64,
    )
}

fn enlarged(p: Vec2, amount: i64) -> Bbox {
    let mut b = Bbox::new(Vec2::new(p.x - amount, p.y - amount));
    b.expand(Vec2::new(p.x + amount, p.y + amount));
    b
}

#[test]
fn bvh_test_basic() {
    let bbox = enlarged(Vec2::zero(), LEAF_SIZE as i64 * 20);

    let mut bvh = Bvh::new(bbox);

    for y in 0..LEAF_SIZE {
        for x in 0..LEAF_SIZE {
            let ip = (x, y);

            let x = x as i64 * 20;
            let y = y as i64 * 20;

            let b = enlarged(Vec2::new(x, y), 10);

            bvh.insert(ip, b, &Midpoint);

            assert!(bvh
                .enclosing(center(&b), |(x, y), p| {
                    enlarged(Vec2::new(*x as i64, *y as i64), 10).contains(p)
                })
                .iter()
                .all(|ipp| *ipp == ip));
        }
    }

    let b = enlarged(Vec2::zero(), 10);
    bvh.remove(&(0, 0), b);
    assert!(!bvh
        .enclosing(center(&b), |(x, y), p| {
            enlarged(Vec2::new(*x as i64, *y as i64), 10).contains(p)
        })
        .iter()
        .any(|ipp| *ipp == (0, 0)));
}

/// A small generator of numbers that look random and are the same in every run.
struct Lcg(u64);

impl Lcg {
    fn below(&mut self, n: u64) -> i64 {
        self.0 = self.0.wrapping_mul(6364136223846793005).wrapping_add(1442695040888963407);
        ((self.0 >> 33) % n) as i64
    }
}

#[test]
fn enclosing_finds_what_a_scan_of_all_entries_finds() {
    let mut rng = Lcg(7);
    for round in 0..5 {
        let count = 150 + round * 100;
        let pts: Vec<(i64, i64)> =
            (0..count).map(|_| (rng.below(3_000), rng.below(3_000))).collect();
        let mut world = Bbox::new(Vec2::new(pts[0].0, pts[0].1));
        for &(x, y) in &pts[1..] {
            world.expand(Vec2::new(x, y));
        }

        let mut bvh = Bvh::new(world);
        for &(x, y) in &pts {
            bvh.insert((x, y), enlarged(Vec2::new(x, y), 5), &Midpoint);
        }
        assert!(bvh.len() >= pts.len());
        assert!(bvh.depth() > 1);

        let mut queries = pts.clone();
        queries.extend((0..100).map(|_| (rng.below(3_000), rng.below(3_000))));
        for &(x, y) in &queries {
            let p = Vec2::new(x, y);
            if !world.contains(p) {
                continue;
            }
            let contains = |e: &(i64, i64), q: Vec2| enlarged(Vec2::new(e.0, e.1), 5).contains(q);
            let mut found = bvh.enclosing(p, contains);
            found.sort();
            found.dedup();
            let mut scanned: Vec<(i64, i64)> =
                pts.iter().copied().filter(|e| contains(e, p)).collect();
            scanned.sort();
            scanned.dedup();
            assert_eq!(found, scanned);
        }
    }
}

#[test]
fn leaf_is_cut_when_it_holds_more_than_its_size() {
    let world = enlarged(Vec2::zero(), 100);
    let mut bvh = Bvh::new(world);
    for i in 0..LEAF_SIZE as i64 {
        bvh.insert(i, Bbox::new(Vec2::new(i - 64, 0)), &Midpoint);
    }
    assert_eq!((bvh.depth(), bvh.len()), (1, LEAF_SIZE));
    // one more entry fills the leaf beyond its size
    bvh.insert(-1, Bbox::new(Vec2::new(50, 50)), &Midpoint);
    assert_eq!(bvh.depth(), 2);
    // the entries on the line through the pivot sit in two quadrants each,
    // the one at the pivot in all four
    assert_eq!(bvh.len(), 2 * LEAF_SIZE + 2 + 1);
    assert_eq!(bvh.enclosing(Vec2::new(50, 50), |e, _| *e == -1), vec![-1]);
    assert_eq!(bvh.enclosing(Vec2::zero(), |e, _| *e == 64), vec![64, 64, 64, 64]);
    assert_eq!(bvh.enclosing(Vec2::zero(), |e, _| *e == 70), vec![70, 70]);
    // a branch is entered only for a point of its box
    assert!(bvh.enclosing(Vec2::new(101, 0), |_, _| true).is_empty());
    assert_eq!(bvh.enclosing(Vec2::new(100, 0), |_, _| true).len(), bvh.len());
}

/// Never names a pivot.
struct Whole;

impl SplitPolicy for Whole {
    fn pivot(&self, _: &Bbox) -> Option<Vec2> {
        None
    }
}

/// Names a corner of the box, which cuts nothing off.
struct Corner;

impl SplitPolicy for Corner {
    fn pivot(&self, bbox: &Bbox) -> Option<Vec2> {
        Some(bbox.min())
    }
}

/// Names a point outside the box.
struct Outside;

impl SplitPolicy for Outside {
    fn pivot(&self, bbox: &Bbox) -> Option<Vec2> {
        Some(Vec2::new(bbox.max().x + 1, bbox.max().y))
    }
}

#[test]
fn leaf_stays_whole_without_a_pivot_that_cuts_it() {
    let world = enlarged(Vec2::zero(), 100);
    let mut whole = Bvh::new(world);
    let mut corner = Bvh::new(world);
    let mut outside = Bvh::new(world);
    for i in 0..3 * LEAF_SIZE as i64 {
        let b = Bbox::new(Vec2::new(i % 50, i % 30));
        whole.insert(i, b, &Whole);
        corner.insert(i, b, &Corner);
        outside.insert(i, b, &Outside);
    }
    for bvh in [&whole, &corner, &outside] {
        assert_eq!((bvh.depth(), bvh.len()), (1, 3 * LEAF_SIZE));
    }
}

#[test]
fn remove_takes_the_element_out_of_every_leaf_it_sits_in() {
    let world = enlarged(Vec2::zero(), 100);
    let mut bvh = Bvh::new(world);
    for i in 0..200_i64 {
        bvh.insert(i, enlarged(Vec2::new(i - 100, 0), 2), &Midpoint);
    }
    assert!(bvh.depth() > 1);
    let before = bvh.len();
    // this one lies across the pivot and sits in more than one leaf
    let across = enlarged(Vec2::zero(), 2);
    let copies = bvh.enclosing(Vec2::zero(), |e, _| *e == 100).len();
    assert!(copies > 1);
    bvh.remove(&100, across);
    assert_eq!(bvh.len(), before - copies);
    assert!(bvh.enclosing(Vec2::zero(), |e, _| *e == 100).is_empty());
    assert!(!bvh.enclosing(Vec2::zero(), |_, _| true).is_empty());
    // removing what is not there changes nothing
    bvh.remove(&100, across);
    bvh.remove(&1000, world);
    assert_eq!(bvh.len(), before - copies);
}

#[test]
fn empty_index_is_one_empty_leaf() {
    let bvh: Bvh<u8> = Bvh::new(enlarged(Vec2::zero(), 10));
    assert_eq!((bvh.depth(), bvh.len()), (1, 0));
    assert!(bvh.enclosing(Vec2::zero(), |_, _| true).is_empty());
}
