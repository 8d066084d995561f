//! Points and axis-aligned boxes. A coordinate is an integer that stands for a
//! position on its axis: everything in this module depends on the order of
//! coordinates alone, never on distances between them.

use vstd::prelude::*;

verus! {

/// A point of the plane.
#[derive(Debug, Copy, Clone, PartialEq, Eq, Hash, Structural)]
pub struct Vec2 {
    pub x: i64,
    pub y: i64,
}

/// An axis-aligned rectangle, its border included.
#[derive(Debug, Copy, Clone, PartialEq, Eq, Hash, Structural)]
pub struct Bbox {
    pub min: Vec2,
    pub max: Vec2,
}

/// The smaller of two coordinates.
pub open spec fn lower(a: i64, b: i64) -> i64 {
    if a <= b {
        a
    } else {
        b
    }
}

/// The larger of two coordinates.
pub open spec fn upper(a: i64, b: i64) -> i64 {
    if a >= b {
        a
    } else {
        b
    }
}

fn lower_of(a: i64, b: i64) -> (r: i64)
    ensures
        r == lower(a, b),
{
    if a <= b {
        a
    } else {
        b
    }
}

fn upper_of(a: i64, b: i64) -> (r: i64)
    ensures
        r == upper(a, b),
{
    if a >= b {
        a
    } else {
        b
    }
}

impl Vec2 {
    /// The origin.
    pub fn zero() -> (p: Self)
        ensures
            p == (Vec2 { x: 0, y: 0 }),
    {
        Vec2::new(0, 0)
    }

    /// The point with the given coordinates.
    pub fn new(x: i64, y: i64) -> (p: Self)
        ensures
            p == (Vec2 { x, y }),
    {
        Vec2 { x, y }
    }
}

impl Bbox {
    /// Neither axis is inverted, so the box holds at least one point.
    pub open spec fn wf(self) -> bool {
        self.min.x <= self.max.x && self.min.y <= self.max.y
    }

    /// Whether `p` lies in the box or on its border.
    pub open spec fn covers(self, p: Vec2) -> bool {
        self.min.x <= p.x && self.min.y <= p.y && self.max.x >= p.x && self.max.y >= p.y
    }

    /// The box of the points that lie in both boxes; inverted when there are none.
    pub open spec fn overlap(self, other: Bbox) -> Bbox {
        Bbox {
            min: Vec2 { x: upper(self.min.x, other.min.x), y: upper(self.min.y, other.min.y) },
            max: Vec2 { x: lower(self.max.x, other.max.x), y: lower(self.max.y, other.max.y) },
        }
    }

    /// Whether the two boxes share a point.
    pub open spec fn meets(self, other: Bbox) -> bool {
        self.overlap(other).wf()
    }

    /// Whether the box lies in `other`, borders included.
    pub open spec fn within(self, other: Bbox) -> bool {
        &&& other.min.x <= self.min.x
        &&& other.min.y <= self.min.y
        &&& self.max.x <= other.max.x
        &&& self.max.y <= other.max.y
    }

    /// The smallest box that holds the box and `p`.
    pub open spec fn expanded(self, p: Vec2) -> Bbox {
        Bbox {
            min: Vec2 { x: lower(self.min.x, p.x), y: lower(self.min.y, p.y) },
            max: Vec2 { x: upper(self.max.x, p.x), y: upper(self.max.y, p.y) },
        }
    }

    /// The four quadrants around `p`: the one at the box's `min` corner, the one
    /// beside it along x, the one beside it along y, and the one at the `max` corner.
    pub open spec fn quadrants(self, p: Vec2) -> Seq<Bbox> {
        seq![
            Bbox { min: self.min, max: p },
            Bbox { min: Vec2 { x: p.x, y: self.min.y }, max: Vec2 { x: self.max.x, y: p.y } },
            Bbox { min: Vec2 { x: self.min.x, y: p.y }, max: Vec2 { x: p.x, y: self.max.y } },
            Bbox { min: p, max: self.max },
        ]
    }

    /// The box that holds `p` alone.
    pub fn new(p: Vec2) -> (b: Self)
        ensures
            b == (Bbox { min: p, max: p }),
            b.wf(),
    {
        Bbox { min: p, max: p }
    }

    /// The corner with the smallest coordinates.
    pub fn min(&self) -> (p: Vec2)
        ensures
            p == self.min,
    {
        self.min
    }

    /// The corner with the largest coordinates.
    pub fn max(&self) -> (p: Vec2)
        ensures
            p == self.max,
    {
        self.max
    }

    /// Cuts the box at `p` into its four quadrants.
    pub fn split(&self, p: Vec2) -> (quads: [Bbox; 4])
        requires
            self.covers(p),
        ensures
            quads@ == self.quadrants(p),
    {
        let quads = [
            Bbox { min: self.min, max: p },
            Bbox { min: Vec2::new(p.x, self.min.y), max: Vec2::new(self.max.x, p.y) },
            Bbox { min: Vec2::new(self.min.x, p.y), max: Vec2::new(p.x, self.max.y) },
            Bbox { min: p, max: self.max },
        ];
        assert(quads@ =~= self.quadrants(p));
        quads
    }

    /// Grows the box until it holds `p`.
    pub fn expand(&mut self, p: Vec2)
        ensures
            *final(self) == old(self).expanded(p),
    {
        self.min.x = lower_of(self.min.x, p.x);
        self.min.y = lower_of(self.min.y, p.y);

        self.max.x = upper_of(self.max.x, p.x);
        self.max.y = upper_of(self.max.y, p.y);
    }

    /// Whether `p` lies in the box or on its border.
    pub fn contains(&self, p: Vec2) -> (r: bool)
        ensures
            r == self.covers(p),
    {
        self.min.x <= p.x && self.min.y <= p.y && self.max.x >= p.x && self.max.y >= p.y
    }

    /// The box of the points that the two boxes share, if they share any.
    pub fn intersection(&self, other: Bbox) -> (r: Option<Bbox>)
        ensures
            r == (if self.meets(other) {
                Some(self.overlap(other))
            } else {
                None
            }),
    {
        let min_x = upper_of(self.min.x, other.min.x);
        let min_y = upper_of(self.min.y, other.min.y);
        let max_x = lower_of(self.max.x, other.max.x);
        let max_y = lower_of(self.max.y, other.max.y);

        if min_x > max_x || min_y > max_y {
            None
        } else {
            Some(Bbox { min: Vec2::new(min_x, min_y), max: Vec2::new(max_x, max_y) })
        }
    }

    /// The overlap of two boxes holds exactly the points that both hold.
    pub proof fn lemma_overlap_covers(self, other: Bbox, p: Vec2)
        ensures
            self.overlap(other).covers(p) <==> self.covers(p) && other.covers(p),
    {
    }

    /// Two boxes meet exactly when some point lies in both.
    pub proof fn lemma_meets_iff_common_point(self, other: Bbox)
        ensures
            self.meets(other) <==> exists|p: Vec2| self.covers(p) && other.covers(p),
    {
        if self.meets(other) {
            let p = self.overlap(other).min;
            assert(self.covers(p) && other.covers(p));
        }
    }

    /// Growing a box keeps what it held and takes the new point in; on a box
    /// that is not inverted the result is the smallest such box.
    pub proof fn lemma_expanded(self, p: Vec2, q: Vec2)
        requires
            self.wf(),
        ensures
            self.expanded(p).wf(),
            self.expanded(p).covers(p),
            self.covers(q) ==> self.expanded(p).covers(q),
    {
    }

    /// The quadrants around a point of the box tile it: each lies in the box,
    /// every point of the box lies in one of them, and two of them share no
    /// more than points on the lines through the pivot.
    pub proof fn lemma_quadrants_tile(self, p: Vec2, q: Vec2)
        requires
            self.covers(p),
        ensures
            self.quadrants(p).len() == 4,
            forall|i: int| 0 <= i < 4 ==> (#[trigger] self.quadrants(p)[i]).wf(),
            forall|i: int|
                0 <= i < 4 && (#[trigger] self.quadrants(p)[i]).covers(q) ==> self.covers(q),
            self.covers(q) ==> exists|i: int| 0 <= i < 4 && (#[trigger] self.quadrants(p)[i]).covers(q),
            forall|i: int, j: int|
                0 <= i < j < 4 && (#[trigger] self.quadrants(p)[i]).covers(q)
                    && (#[trigger] self.quadrants(p)[j]).covers(q) ==> q.x == p.x || q.y == p.y,
    {
        let qs = self.quadrants(p);
        if self.covers(q) {
            if q.x <= p.x && q.y <= p.y {
                assert(qs[0].covers(q));
            } else if q.x >= p.x && q.y <= p.y {
                assert(qs[1].covers(q));
            } else if q.x <= p.x && q.y >= p.y {
                assert(qs[2].covers(q));
            } else {
                assert(qs[3].covers(q));
            }
        }
    }
}

} // verus!
