use delaunay_mesh::arena::ArenaId;
use delaunay_mesh::bvh::SplitPolicy;
use delaunay_mesh::geo::{Bbox, Vec2};
use delaunay_mesh::mesh::{
    DelaunayMesh, FaceHandle, HalfEdgeHandle, InsertError, Kernel, VertexHandle,
};

const EPS: f64 = 1e-4;

/// A kernel that reads coordinates as numbers and computes in double precision.
struct Plane;

fn xy(p: Vec2) -> (f64, f64) {
    (p.x as f64, p.y as f64)
}

fn circumcircle(a: Vec2, b: Vec2, c: Vec2) -> ((f64, f64), f64) {
    let (ax, ay) = xy(a);
    let (bx, by) = (b.x as f64 - ax, b.y as f64 - ay);
    let (cx, cy) = (c.x as f64 - ax, c.y as f64 - ay);
    let d = 2.0 * (bx * cy - by * cx);
    let x = (cy * (bx * bx + by * by) - by * (cx * cx + cy * cy)) / d;
    let y = (bx * (cx * cx + cy * cy) - cx * (bx * bx + by * by)) / d;
    ((ax + x, ay + y), (x * x + y * y).sqrt())
}

fn dist(a: (f64, f64), b: (f64, f64)) -> f64 {
    ((a.0 - b.0).powi(2) + (a.1 - b.1).powi(2)).sqrt()
}

fn bary(a: Vec2, b: Vec2, c: Vec2, p: Vec2) -> Option<(f64, f64, f64)> {
    let ((ax, ay), (bx, by), (cx, cy), (px, py)) = (xy(a), xy(b), xy(c), xy(p));
    let d = (by - cy) * (ax - cx) + (cx - bx) * (ay - cy);
    if d == 0.0 {
        return None;
    }
    let w0 = ((by - cy) * (px - cx) + (cx - bx) * (py - cy)) / d;
    let w1 = ((cy - ay) * (px - cx) + (ax - cx) * (py - cy)) / d;
    Some((w0, w1, 1.0 - w0 - w1))
}

impl SplitPolicy for Plane {
    fn pivot(&self, bbox: &Bbox) -> Option<Vec2> {
        let (lo, hi) = (xy(bbox.min()), xy(bbox.max()));
        if (hi.0 - lo.0) * (hi.1 - lo.1) > 1.0 {
            Some(Vec2::new(((lo.0 + hi.0) / 2.0) as i64, ((lo.1 + hi.1) / 2.0) as i64))
        } else {
            None
        }
    }
}

impl Kernel for Plane {
    fn super_triangle(&self, world: &Bbox) -> [Vec2; 3] {
        let (lo, hi) = (xy(world.min()), xy(world.max()));
        let center = ((lo.0 + hi.0) / 2.0, (lo.1 + hi.1) / 2.0);
        let r = 10.0 * dist(lo, hi).max(1.0);
        let at = |deg: f64| {
            let t = deg.to_radians();
            Vec2::new(
                (center.0 + r * t.cos()).round() as i64,
                (center.1 + r * t.sin()).round() as i64,
            )
        };
        [at(90.0), at(210.0), at(330.0)]
    }

    fn in_triangle(&self, a: Vec2, b: Vec2, c: Vec2, p: Vec2) -> bool {
        match bary(a, b, c, p) {
            Some((w0, w1, w2)) => {
                [w0, w1, w2].iter().all(|w| -EPS <= *w && *w <= 1.0 + EPS)
            }
            None => false,
        }
    }

    fn in_circumcircle(&self, a: Vec2, b: Vec2, c: Vec2, p: Vec2) -> Option<bool> {
        let (center, radius) = circumcircle(a, b, c);
        if center.0.is_finite() && center.1.is_finite() && radius.is_finite() {
            Some(dist(center, xy(p)) - radius <= EPS)
        } else {
            None
        }
    }

    fn coincide(&self, a: Vec2, b: Vec2) -> bool {
        dist(xy(a), xy(b)) <= EPS
    }
}

fn mesh_over(x0: i64, y0: i64, x1: i64, y1: i64) -> DelaunayMesh<Plane> {
    let mut bbox = Bbox::new(Vec2::new(x0, y0));
    bbox.expand(Vec2::new(x1, y1));
    DelaunayMesh::new(bbox, Plane)
}

fn sorted(mut v: Vec<Vec2>) -> Vec<(i64, i64)> {
    let mut out: Vec<(i64, i64)> = v.drain(..).map(|p| (p.x, p.y)).collect();
    out.sort();
    out
}

/// Walks the whole structure and checks what must hold of every half-edge,
/// face and vertex.
fn assert_sound(mesh: &DelaunayMesh<Plane>) {
    let (nv, ne, nf) = mesh.counts();
    for i in 0..ne {
        let e: HalfEdgeHandle = ArenaId::new(i);
        let x = mesh.half_edge(e);
        assert!(x.twin.slot() < ne && x.next.slot() < ne && x.origin.slot() < nv);
        assert_ne!(x.twin, e);
        assert_eq!(mesh.half_edge(x.twin).twin, e);
        let n1 = mesh.half_edge(x.next);
        let n2 = mesh.half_edge(n1.next);
        assert_eq!(n2.next, e);
        assert_eq!(n1.face, x.face);
        assert_eq!(n2.face, x.face);
        assert_eq!(mesh.half_edge(x.twin).origin, n1.origin);
        assert_ne!(n1.origin, x.origin);
        if let Some(f) = x.face {
            assert!(f.slot() < nf);
        }
    }
    for i in 0..nf {
        let f: FaceHandle = ArenaId::new(i);
        let e = mesh.face(f).edge;
        assert_eq!(mesh.half_edge(e).face, Some(f));
    }
    for i in 0..nv {
        let v: VertexHandle = ArenaId::new(i);
        if let Some(e) = mesh.vertex(v).edge {
            assert_eq!(mesh.half_edge(e).origin, v);
        }
    }
}

/// No inserted point lies inside the circle of a triangle, up to the tolerance.
fn assert_delaunay(mesh: &DelaunayMesh<Plane>) {
    let points = mesh.vertices();
    for (f, corners) in mesh.triangles() {
        let [a, b, c] = mesh.triangle_vertices(f);
        assert!(corners[0] != corners[1] && corners[1] != corners[2] && corners[2] != corners[0]);
        assert!(corners.iter().all(|v| v.slot() >= 3));
        let (center, radius) = circumcircle(a, b, c);
        for p in points.iter() {
            if *p == a || *p == b || *p == c {
                continue;
            }
            assert!(
                dist(center, xy(*p)) - radius >= -EPS,
                "{:?} lies in the circle of {:?} {:?} {:?}",
                p,
                a,
                b,
                c
            );
        }
    }
}

/// Twice the area of the triangles, summed.
fn doubled_area(mesh: &DelaunayMesh<Plane>) -> i64 {
    mesh.triangles()
        .iter()
        .map(|(f, _)| {
            let [a, b, c] = mesh.triangle_vertices(*f);
            let d = (b.x - a.x) * (c.y - a.y) - (b.y - a.y) * (c.x - a.x);
            assert!(d >= 0, "a triangle is clockwise");
            d
        })
        .sum()
}

#[test]
fn empty_mesh_has_no_vertices_and_no_triangles() {
    let mesh = mesh_over(0, 0, 100, 100);
    assert!(mesh.vertices().is_empty());
    assert!(mesh.triangles().is_empty());
    assert_eq!(mesh.counts(), (3, 6, 1));
    assert_eq!(mesh.bbox().min(), Vec2::new(0, 0));
    assert_eq!(mesh.bbox().max(), Vec2::new(100, 100));
    assert_sound(&mesh);
}

#[test]
fn single_point_has_no_triangle() {
    let mut mesh = mesh_over(0, 0, 100, 100);
    let v = mesh.insert(Vec2::new(50, 50)).unwrap();
    assert_eq!(v.slot(), 3);
    assert_eq!(mesh.vertices(), vec![Vec2::new(50, 50)]);
    assert!(mesh.triangles().is_empty());
    assert_eq!(mesh.counts(), (4, 12, 3));
    assert_sound(&mesh);
}

#[test]
fn three_points_make_one_triangle() {
    let mut mesh = mesh_over(0, 0, 100, 100);
    let pts = [Vec2::new(10, 10), Vec2::new(90, 10), Vec2::new(50, 90)];
    for p in pts.iter() {
        mesh.insert(*p).unwrap();
    }
    let tris = mesh.triangles();
    assert_eq!(tris.len(), 1);
    let [a, b, c] = mesh.triangle_vertices(tris[0].0);
    assert_eq!(sorted(vec![a, b, c]), sorted(pts.to_vec()));
    // counter-clockwise, so one of the three rotations of the input
    assert!([[a, b, c], [b, c, a], [c, a, b]].contains(&pts));
    assert_sound(&mesh);
    assert_delaunay(&mesh);
}

#[test]
fn square_is_cut_along_one_diagonal() {
    let mut mesh = mesh_over(-5, -5, 15, 15);
    for (x, y) in [(0, 0), (10, 0), (10, 10), (0, 10)] {
        mesh.insert(Vec2::new(x, y)).unwrap();
    }
    let tris = mesh.triangles();
    assert_eq!(tris.len(), 2);
    let shared: Vec<VertexHandle> =
        tris[0].1.iter().copied().filter(|v| tris[1].1.contains(v)).collect();
    assert_eq!(shared.len(), 2);
    let ends = sorted(shared.iter().map(|v| mesh.vertex(*v).pos).collect());
    assert!(ends == vec![(0, 0), (10, 10)] || ends == vec![(0, 10), (10, 0)]);
    assert_eq!(doubled_area(&mesh), 200);
    assert_sound(&mesh);
    assert_delaunay(&mesh);
}

#[test]
fn quincunx_has_four_triangles_around_the_center() {
    let mut mesh = mesh_over(-100, -100, 100, 100);
    for (x, y) in [(0, 10), (10, 0), (0, -10), (-10, 0), (0, 0)] {
        mesh.insert(Vec2::new(x, y)).unwrap();
    }
    let tris = mesh.triangles();
    assert_eq!(tris.len(), 4);
    for (f, _) in tris.iter() {
        assert!(mesh.triangle_vertices(*f).contains(&Vec2::new(0, 0)));
    }
    assert_eq!(doubled_area(&mesh), 400);
    assert_sound(&mesh);
    assert_delaunay(&mesh);
}

/// A small generator of numbers that look random and are the same in every run.
struct Lcg(u64);

impl Lcg {
    fn below(&mut self, n: u64) -> i64 {
        self.0 = self.0.wrapping_mul(6364136223846793005).wrapping_add(1442695040888963407);
        ((self.0 >> 33) % n) as i64
    }
}

#[test]
fn two_hundred_points_are_delaunay() {
    let mut mesh = mesh_over(0, 0, 800, 800);
    let mut rng = Lcg(2024);
    let mut seen = Vec::new();
    for _ in 0..200 {
        let p = Vec2::new(rng.below(801), rng.below(801));
        let before = mesh.counts();
        let v = mesh.insert(p).unwrap();
        if seen.contains(&p) {
            assert_eq!(mesh.counts(), before);
            assert_eq!(mesh.vertex(v).pos, p);
        } else {
            assert_eq!(mesh.counts(), (before.0 + 1, before.1 + 6, before.2 + 2));
            seen.push(p);
        }
    }
    assert_eq!(mesh.vertices(), seen);
    assert_sound(&mesh);
    assert_delaunay(&mesh);
}

#[test]
fn corners_of_the_box_can_be_inserted() {
    let mut mesh = mesh_over(0, 0, 100, 100);
    assert!(mesh.insert(mesh.bbox().min()).is_ok());
    assert!(mesh.insert(mesh.bbox().max()).is_ok());
    assert_eq!(mesh.vertices(), vec![Vec2::new(0, 0), Vec2::new(100, 100)]);
    assert_sound(&mesh);
}

#[test]
fn point_outside_the_box_is_out_of_bounds() {
    let mut mesh = mesh_over(0, 0, 100, 100);
    mesh.insert(Vec2::new(50, 50)).unwrap();
    let before = mesh.counts();
    assert_eq!(mesh.insert(Vec2::new(101, 50)), Err(InsertError::OutOfBounds));
    assert_eq!(mesh.insert(Vec2::new(50, -1)), Err(InsertError::OutOfBounds));
    assert_eq!(mesh.counts(), before);
    assert_eq!(mesh.vertices(), vec![Vec2::new(50, 50)]);
}

#[test]
fn same_point_twice_changes_nothing() {
    let mut mesh = mesh_over(0, 0, 100, 100);
    for (x, y) in [(10, 10), (90, 10), (50, 90)] {
        mesh.insert(Vec2::new(x, y)).unwrap();
    }
    let first = mesh.insert(Vec2::new(40, 40)).unwrap();
    let counts = mesh.counts();
    let vertices = mesh.vertices();
    let triangles = mesh.triangles();
    for _ in 0..3 {
        assert_eq!(mesh.insert(Vec2::new(40, 40)), Ok(first));
        assert_eq!(mesh.counts(), counts);
        assert_eq!(mesh.vertices(), vertices);
        assert_eq!(mesh.triangles(), triangles);
    }
    // a corner of the triangulation is found again as well
    let corner = mesh.insert(Vec2::new(10, 10)).unwrap();
    assert_eq!(corner.slot(), 3);
    assert_eq!(mesh.counts(), counts);
}

#[test]
fn points_on_a_line_keep_the_mesh_sound() {
    let mut mesh = mesh_over(0, 0, 100, 100);
    for x in [10, 30, 50, 70, 90, 20, 40, 60, 80] {
        mesh.insert(Vec2::new(x, 50)).unwrap();
        assert_sound(&mesh);
    }
    assert_eq!(mesh.vertices().len(), 9);
    // points on one line span no triangle
    assert_eq!(doubled_area(&mesh), 0);
    mesh.insert(Vec2::new(50, 80)).unwrap();
    assert_sound(&mesh);
    assert_eq!(doubled_area(&mesh), 80 * 30);
    assert_delaunay(&mesh);
}

#[test]
fn flip_swaps_the_diagonal_and_back() {
    let mut mesh = mesh_over(-5, -5, 15, 15);
    for (x, y) in [(0, 0), (10, 0), (10, 10), (0, 10)] {
        mesh.insert(Vec2::new(x, y)).unwrap();
    }
    let tris = mesh.triangles();
    let shared: Vec<VertexHandle> =
        tris[0].1.iter().copied().filter(|v| tris[1].1.contains(v)).collect();
    // the half-edge of the first triangle that runs along the diagonal
    let mut e = mesh.face(tris[0].0).edge;
    while !(shared.contains(&mesh.half_edge(e).origin)
        && shared.contains(&mesh.half_edge(mesh.half_edge(e).next).origin))
    {
        e = mesh.half_edge(e).next;
    }
    assert!(mesh.can_flip(e));
    let counts = mesh.counts();
    mesh.flip(e);
    assert_sound(&mesh);
    assert_eq!(mesh.counts(), counts);
    let after = mesh.triangles();
    assert_eq!(after.len(), 2);
    let now: Vec<VertexHandle> =
        after[0].1.iter().copied().filter(|v| after[1].1.contains(v)).collect();
    assert_eq!(now.len(), 2);
    assert!(now.iter().all(|v| !shared.contains(v)));
    assert_eq!(doubled_area(&mesh), 200);
    // the half-edge now runs along the other diagonal; flipping it again
    // brings the first diagonal back
    assert!(mesh.can_flip(e));
    mesh.flip(e);
    assert_sound(&mesh);
    let back = mesh.triangles();
    let again: Vec<VertexHandle> =
        back[0].1.iter().copied().filter(|v| back[1].1.contains(v)).collect();
    assert!(again.iter().all(|v| shared.contains(v)));
}

#[test]
fn boundary_half_edge_cannot_be_flipped() {
    let mesh = mesh_over(0, 0, 100, 100);
    for i in 0..6 {
        assert!(!mesh.can_flip(ArenaId::new(i)));
    }
    assert!(!mesh.can_flip(ArenaId::new(6)));
}

#[test]
fn split_face_makes_three_faces_around_the_new_vertex() {
    let mut mesh = mesh_over(0, 0, 100, 100);
    let f: FaceHandle = ArenaId::new(0);
    let [a, b, c] = mesh.triangle_vertices(f);
    let v = mesh.split_face(f, Vec2::new(50, 50));
    assert_eq!(v.slot(), 3);
    assert_eq!(mesh.counts(), (4, 12, 3));
    let p = Vec2::new(50, 50);
    assert_eq!(mesh.triangle_vertices(ArenaId::new(0)), [a, b, p]);
    assert_eq!(mesh.triangle_vertices(ArenaId::new(1)), [b, c, p]);
    assert_eq!(mesh.triangle_vertices(ArenaId::new(2)), [c, a, p]);
    assert_eq!(mesh.vertex(v).edge, Some(ArenaId::new(7)));
    assert_eq!(mesh.half_edge(ArenaId::new(7)).next, ArenaId::new(0));
    assert_sound(&mesh);
}

#[test]
fn flips_beyond_the_ceiling_are_degenerate_geometry() {
    let mut mesh = mesh_over(0, 0, 100, 100);
    for (x, y) in [(10, 10), (90, 10), (50, 90)] {
        mesh.insert(Vec2::new(x, y)).unwrap();
    }
    let before = mesh.counts();
    // no step is allowed: the point is put in, and the flips are given up
    assert_eq!(
        mesh.insert_within(Vec2::new(50, 30), 0),
        Err(InsertError::DegenerateGeometry)
    );
    assert_eq!(mesh.counts(), (before.0 + 1, before.1 + 6, before.2 + 2));
    assert_eq!(mesh.vertices().len(), 4);
    assert_sound(&mesh);
    // with steps enough the same insertion goes through
    let mut again = mesh_over(0, 0, 100, 100);
    for (x, y) in [(10, 10), (90, 10), (50, 90)] {
        again.insert(Vec2::new(x, y)).unwrap();
    }
    assert!(again.insert_within(Vec2::new(50, 30), 1000).is_ok());
    assert_delaunay(&again);
}

#[test]
fn inserting_twice_is_inserting_once() {
    let pts = [(10, 10), (90, 10), (50, 90), (40, 40), (60, 20), (30, 70)];
    let mut once = mesh_over(0, 0, 100, 100);
    let mut twice = mesh_over(0, 0, 100, 100);
    for (x, y) in pts {
        let a = once.insert(Vec2::new(x, y)).unwrap();
        let b = twice.insert(Vec2::new(x, y)).unwrap();
        let c = twice.insert(Vec2::new(x, y)).unwrap();
        assert_eq!(a, b);
        assert_eq!(b, c);
    }
    assert_eq!(once.counts(), twice.counts());
    assert_eq!(once.vertices(), twice.vertices());
    assert_eq!(once.triangles(), twice.triangles());
}

/// A kernel that cannot tell of any circle.
struct Blind;

impl SplitPolicy for Blind {
    fn pivot(&self, bbox: &Bbox) -> Option<Vec2> {
        Plane.pivot(bbox)
    }
}

impl Kernel for Blind {
    fn super_triangle(&self, world: &Bbox) -> [Vec2; 3] {
        Plane.super_triangle(world)
    }

    fn in_triangle(&self, a: Vec2, b: Vec2, c: Vec2, p: Vec2) -> bool {
        Plane.in_triangle(a, b, c, p)
    }

    fn in_circumcircle(&self, _: Vec2, _: Vec2, _: Vec2, _: Vec2) -> Option<bool> {
        None
    }

    fn coincide(&self, a: Vec2, b: Vec2) -> bool {
        Plane.coincide(a, b)
    }
}

#[test]
fn circle_that_cannot_be_told_is_degenerate_geometry() {
    let mut bbox = Bbox::new(Vec2::new(0, 0));
    bbox.expand(Vec2::new(100, 100));
    let mut mesh = DelaunayMesh::new(bbox, Blind);
    // around the first point lie only half-edges of the outermost triangle,
    // of which no flip is asked
    assert!(mesh.insert(Vec2::new(50, 50)).is_ok());
    assert_eq!(mesh.insert(Vec2::new(20, 30)), Err(InsertError::DegenerateGeometry));
    assert_eq!(mesh.counts(), (5, 18, 5));
    assert_eq!(mesh.vertices(), vec![Vec2::new(50, 50), Vec2::new(20, 30)]);
    // the point is in, and is found again
    assert_eq!(mesh.insert(Vec2::new(20, 30)).map(|v| v.slot()), Ok(4));
}

#[test]
fn point_on_an_edge_splits_the_faces_on_both_sides() {
    let mut mesh = mesh_over(0, 0, 100, 100);
    for (x, y) in [(10, 10), (90, 10), (50, 90), (50, 30)] {
        mesh.insert(Vec2::new(x, y)).unwrap();
    }
    let before = mesh.triangles().len();
    // on the edge from (10, 10) to (90, 10)
    mesh.insert(Vec2::new(50, 10)).unwrap();
    assert_sound(&mesh);
    assert_delaunay(&mesh);
    assert_eq!(mesh.triangles().len(), before + 1);
    assert_eq!(doubled_area(&mesh), 80 * 80);
    for (f, _) in mesh.triangles() {
        let [a, b, c] = mesh.triangle_vertices(f);
        assert_ne!((b.x - a.x) * (c.y - a.y) - (b.y - a.y) * (c.x - a.x), 0);
    }
}

/// A kernel for which points closer than two units are one point.
struct Coarse;

impl SplitPolicy for Coarse {
    fn pivot(&self, bbox: &Bbox) -> Option<Vec2> {
        Plane.pivot(bbox)
    }
}

impl Kernel for Coarse {
    fn super_triangle(&self, world: &Bbox) -> [Vec2; 3] {
        Plane.super_triangle(world)
    }

    fn in_triangle(&self, a: Vec2, b: Vec2, c: Vec2, p: Vec2) -> bool {
        Plane.in_triangle(a, b, c, p)
    }

    fn in_circumcircle(&self, a: Vec2, b: Vec2, c: Vec2, p: Vec2) -> Option<bool> {
        Plane.in_circumcircle(a, b, c, p)
    }

    fn coincide(&self, a: Vec2, b: Vec2) -> bool {
        dist(xy(a), xy(b)) < 2.0
    }
}

#[test]
fn point_that_the_kernel_takes_for_a_vertex_is_not_inserted() {
    let mut bbox = Bbox::new(Vec2::new(0, 0));
    bbox.expand(Vec2::new(100, 100));
    let mut mesh = DelaunayMesh::new(bbox, Coarse);
    let first = mesh.insert(Vec2::new(40, 40)).unwrap();
    let counts = mesh.counts();
    assert_eq!(mesh.insert(Vec2::new(41, 40)), Ok(first));
    assert_eq!(mesh.insert(Vec2::new(40, 39)), Ok(first));
    assert_eq!(mesh.counts(), counts);
    assert_eq!(mesh.vertices(), vec![Vec2::new(40, 40)]);
    // two units away it is another point
    let second = mesh.insert(Vec2::new(42, 40)).unwrap();
    assert_ne!(second, first);
    assert_eq!(mesh.vertices(), vec![Vec2::new(40, 40), Vec2::new(42, 40)]);
}

#[test]
fn every_triangle_is_found_when_a_point_in_it_is_inserted() {
    let mut mesh = mesh_over(0, 0, 3000, 3000);
    let mut rng = Lcg(5);
    for _ in 0..300 {
        mesh.insert(Vec2::new(rng.below(1001) * 3, rng.below(1001) * 3)).unwrap();
    }
    assert_sound(&mesh);
    // the centroid of a triangle with corners on multiples of three is a
    // point of the grid, and lies in the triangle and in no other
    let centers: Vec<Vec2> = mesh
        .triangles()
        .iter()
        .map(|(f, _)| mesh.triangle_vertices(*f))
        .filter(|[a, b, c]| (b.x - a.x) * (c.y - a.y) != (b.y - a.y) * (c.x - a.x))
        .map(|[a, b, c]| Vec2::new((a.x + b.x + c.x) / 3, (a.y + b.y + c.y) / 3))
        .collect();
    assert!(centers.len() > 300);
    for p in centers {
        let before = mesh.counts();
        let v = mesh.insert(p).unwrap();
        assert_eq!(v.slot(), before.0);
        assert_eq!(mesh.counts(), (before.0 + 1, before.1 + 6, before.2 + 2));
    }
    assert_sound(&mesh);
    assert_delaunay(&mesh);
}
