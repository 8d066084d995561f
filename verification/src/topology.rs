//! The half-edge structure as a mathematical object: vertices, half-edges and
//! faces in three sequences that refer to each other by position, together
//! with the two local changes that an insertion is made of.

use crate::geo::{Bbox, Vec2};
use vstd::prelude::*;

verus! {

/// A vertex: where it lies, and one half-edge that leaves it.
pub struct VertexModel {
    pub pos: Vec2,
    pub edge: Option<int>,
}

/// A half-edge: the vertex it leaves, the half-edge that runs the other way,
/// the half-edge that follows it around its face, and the face to its left
/// (`None` outside the outermost triangle).
pub struct EdgeModel {
    pub origin: int,
    pub twin: int,
    pub next: int,
    pub face: Option<int>,
}

/// The whole structure. A face is given by one of its half-edges.
pub struct Topology {
    pub vertices: Seq<VertexModel>,
    pub edges: Seq<EdgeModel>,
    pub faces: Seq<int>,
}

impl Topology {
    /// Whether there is a vertex at position `v` of the sequence of vertices.
    pub open spec fn has_vertex(self, v: int) -> bool {
        0 <= v < self.vertices.len()
    }

    /// Whether there is a half-edge at position `e` of the sequence of half-edges.
    pub open spec fn has_edge(self, e: int) -> bool {
        0 <= e < self.edges.len()
    }

    /// Whether there is a face at position `f` of the sequence of faces.
    pub open spec fn has_face(self, f: int) -> bool {
        0 <= f < self.faces.len()
    }

    /// The vertex that the half-edge `e` leaves.
    pub open spec fn origin(self, e: int) -> int {
        self.edges[e].origin
    }

    /// The half-edge that runs along `e` the other way.
    pub open spec fn twin(self, e: int) -> int {
        self.edges[e].twin
    }

    /// The half-edge that follows `e` around its face.
    pub open spec fn next(self, e: int) -> int {
        self.edges[e].next
    }

    /// The face that `e` runs around, if it has one.
    pub open spec fn face(self, e: int) -> Option<int> {
        self.edges[e].face
    }

    /// The vertex across the face from `e`: the one that `e` does not touch.
    pub open spec fn apex(self, e: int) -> int {
        self.origin(self.next(self.next(e)))
    }

    /// The three vertices of a face, counter-clockwise from the origin of its half-edge.
    pub open spec fn corners(self, f: int) -> (int, int, int) {
        let e = self.faces[f];
        (self.origin(e), self.origin(self.next(e)), self.apex(e))
    }

    /// The positions of the three vertices of a face.
    pub open spec fn triangle(self, f: int) -> (Vec2, Vec2, Vec2) {
        let c = self.corners(f);
        (self.vertices[c.0].pos, self.vertices[c.1].pos, self.vertices[c.2].pos)
    }

    /// The smallest box around a face.
    pub open spec fn face_box(self, f: int) -> Bbox {
        let t = self.triangle(f);
        (Bbox { min: t.0, max: t.0 }).expanded(t.1).expanded(t.2)
    }

    /// The positions of all vertices, the three outermost first.
    pub open spec fn positions(self) -> Seq<Vec2> {
        Seq::new(self.vertices.len(), |v: int| self.vertices[v].pos)
    }

    /// Whether `v` is one of the three vertices of the outermost triangle.
    pub open spec fn is_super(v: int) -> bool {
        v < 3
    }

    /// Whether none of the face's vertices belongs to the outermost triangle.
    pub open spec fn finite(self, f: int) -> bool {
        let c = self.corners(f);
        !Self::is_super(c.0) && !Self::is_super(c.1) && !Self::is_super(c.2)
    }

    /// Whether `e` is one of the three half-edges that are reached from the
    /// half-edge of the face `f`.
    pub open spec fn around(self, f: int, e: int) -> bool {
        let e0 = self.faces[f];
        e == e0 || e == self.next(e0) || e == self.next(self.next(e0))
    }

    /// The faces below `n` that touch none of the three outermost vertices, in
    /// ascending order.
    pub open spec fn finite_below(self, n: int) -> Seq<int>
        decreases n,
    {
        if n <= 0 {
            Seq::empty()
        } else if self.finite(n - 1) {
            self.finite_below(n - 1).push(n - 1)
        } else {
            self.finite_below(n - 1)
        }
    }

    /// The faces of the triangulation proper: those that touch none of the
    /// three outermost vertices, in ascending order.
    pub open spec fn finite_faces(self) -> Seq<int> {
        self.finite_below(self.faces.len() as int)
    }

    /// `finite_below(n)` lists exactly the faces below `n` that are finite.
    pub proof fn lemma_finite_below(self, n: int)
        requires
            0 <= n <= self.faces.len(),
        ensures
            forall|j: int|
                0 <= j < self.finite_below(n).len() ==> 0 <= (#[trigger] self.finite_below(n)[j])
                    < n && self.finite(self.finite_below(n)[j]),
            forall|f: int| 0 <= f < n && self.finite(f) ==> self.finite_below(n).contains(f),
        decreases n,
    {
        if n > 0 {
            self.lemma_finite_below(n - 1);
            let before = self.finite_below(n - 1);
            let now = self.finite_below(n);
            assert forall|f: int| 0 <= f < n && self.finite(f) implies now.contains(f) by {
                if f < n - 1 {
                    let j = choose|j: int| 0 <= j < before.len() && before[j] == f;
                    assert(now[j] == f);
                } else {
                    assert(now[now.len() - 1] == f);
                }
            }
        }
    }

    /// What holds of every half-edge: what it refers to exists; its face, if it
    /// has one, has it among its three half-edges; its twin is another
    /// half-edge whose twin it is; three steps of `next` lead back to it and
    /// stay on its face; it ends where its twin starts; and it does not end
    /// where it starts.
    pub open spec fn edge_ok(self, e: int) -> bool {
        let x = self.edges[e];
        &&& self.has_vertex(x.origin)
        &&& self.has_edge(x.twin)
        &&& self.has_edge(x.next)
        &&& (x.face is Some ==> self.has_face(x.face->0) && self.around(x.face->0, e))
        &&& x.twin != e
        &&& self.twin(x.twin) == e
        &&& self.next(self.next(x.next)) == e
        &&& self.face(x.next) == x.face
        &&& self.origin(x.twin) == self.origin(x.next)
        &&& self.origin(x.next) != x.origin
    }

    /// What holds of every face: its half-edge exists and lies on it.
    pub open spec fn face_ok(self, f: int) -> bool {
        &&& self.has_edge(self.faces[f])
        &&& self.face(self.faces[f]) == Some(f)
    }

    /// What holds of every vertex: its half-edge, if it has one, exists and leaves it.
    pub open spec fn vertex_ok(self, v: int) -> bool {
        self.vertices[v].edge is Some ==> {
            &&& self.has_edge(self.vertices[v].edge->0)
            &&& self.origin(self.vertices[v].edge->0) == v
        }
    }

    /// The rim of the structure is the outermost triangle: its three outer
    /// half-edges are where the seed put them, and they alone have no face.
    pub open spec fn rim_ok(self) -> bool {
        &&& self.edges.len() >= 6
        &&& self.edges[3] == (EdgeModel { origin: 1, twin: 0, next: 5, face: None })
        &&& self.edges[4] == (EdgeModel { origin: 2, twin: 1, next: 3, face: None })
        &&& self.edges[5] == (EdgeModel { origin: 0, twin: 2, next: 4, face: None })
        &&& forall|e: int|
            self.has_edge(e) && !(3 <= e < 6) ==> (#[trigger] self.edges[e]).face is Some
    }

    /// The structure is sound: the three outermost vertices are there; there
    /// are as many half-edges and faces as a triangle has that was split once
    /// for every further vertex; the rim is the outermost triangle; and
    /// every half-edge, face and vertex is as it should be.
    pub open spec fn wf(self) -> bool {
        &&& self.vertices.len() >= 3
        &&& self.edges.len() == 6 * self.vertices.len() - 12
        &&& self.faces.len() == 2 * self.vertices.len() - 5
        &&& self.rim_ok()
        &&& forall|e: int| self.has_edge(e) ==> #[trigger] self.edge_ok(e)
        &&& forall|f: int| self.has_face(f) ==> #[trigger] self.face_ok(f)
        &&& forall|v: int| self.has_vertex(v) ==> #[trigger] self.vertex_ok(v)
    }

    /// The structure made of one triangle over three vertices at the given
    /// positions: three half-edges around its face and their three twins
    /// around its outside.
    pub open spec fn seed(a: Vec2, b: Vec2, c: Vec2) -> Topology {
        Topology {
            vertices: seq![
                VertexModel { pos: a, edge: Some(0) },
                VertexModel { pos: b, edge: Some(1) },
                VertexModel { pos: c, edge: Some(2) },
            ],
            edges: seq![
                EdgeModel { origin: 0, twin: 3, next: 1, face: Some(0) },
                EdgeModel { origin: 1, twin: 4, next: 2, face: Some(0) },
                EdgeModel { origin: 2, twin: 5, next: 0, face: Some(0) },
                EdgeModel { origin: 1, twin: 0, next: 5, face: None },
                EdgeModel { origin: 2, twin: 1, next: 3, face: None },
                EdgeModel { origin: 0, twin: 2, next: 4, face: None },
            ],
            faces: seq![0],
        }
    }

    /// The seed is sound, and its one face is the outermost triangle.
    pub proof fn lemma_seed_wf(a: Vec2, b: Vec2, c: Vec2)
        ensures
            Self::seed(a, b, c).wf(),
            Self::seed(a, b, c).corners(0) == (0int, 1int, 2int),
            Self::seed(a, b, c).positions() == seq![a, b, c],
            !Self::seed(a, b, c).finite(0),
    {
        let t = Self::seed(a, b, c);
        assert forall|e: int| t.has_edge(e) implies #[trigger] t.edge_ok(e) by {
            assert(t.edges.len() == 6);
            if e == 0 {
            } else if e == 1 {
            } else if e == 2 {
            } else if e == 3 {
            } else if e == 4 {
            } else {
            }
        }
        assert(t.positions() =~= seq![a, b, c]);
    }

    /// The structure after the face `f` was split at a new vertex at `p`. The
    /// vertex takes the next free position. Each half-edge of `f` keeps its
    /// twin and gets a face of its own: the first keeps `f`, the other two get
    /// the next two free positions. Six new half-edges, in three pairs of
    /// twins, join the corners of `f` to the new vertex.
    pub open spec fn split(self, f: int, p: Vec2) -> Topology {
        let e0 = self.faces[f];
        let e1 = self.next(e0);
        let e2 = self.next(e1);
        let n = self.edges.len() as int;
        let v = self.vertices.len() as int;
        let f1 = self.faces.len() as int;
        let f2 = f1 + 1;
        Topology {
            vertices: self.vertices.push(VertexModel { pos: p, edge: Some(n + 1) }),
            edges: self.edges.update(e0, EdgeModel { next: n, face: Some(f), ..self.edges[e0] }).update(
                e1,
                EdgeModel { next: n + 2, face: Some(f1), ..self.edges[e1] },
            ).update(e2, EdgeModel { next: n + 4, face: Some(f2), ..self.edges[e2] }).push(
                EdgeModel { origin: self.origin(e1), twin: n + 3, next: n + 1, face: Some(f) },
            ).push(EdgeModel { origin: v, twin: n + 4, next: e0, face: Some(f) }).push(
                EdgeModel { origin: self.origin(e2), twin: n + 5, next: n + 3, face: Some(f1) },
            ).push(EdgeModel { origin: v, twin: n, next: e1, face: Some(f1) }).push(
                EdgeModel { origin: self.origin(e0), twin: n + 1, next: n + 5, face: Some(f2) },
            ).push(EdgeModel { origin: v, twin: n + 2, next: e2, face: Some(f2) }),
            faces: self.faces.update(f, e0).push(e1).push(e2),
        }
    }

    /// Whether the half-edge `e` can be flipped: it has a face on either side,
    /// and the two vertices across from it are two vertices.
    pub open spec fn can_flip(self, e: int) -> bool {
        &&& self.has_edge(e)
        &&& self.face(e) is Some
        &&& self.face(self.twin(e)) is Some
        &&& self.apex(e) != self.apex(self.twin(e))
    }

    /// The structure after the half-edge `e` was flipped: `e` and its twin
    /// now join the two vertices that lay across from them, and the two
    /// faces beside them are the two triangles on either side of the new diagonal.
    pub open spec fn flip(self, e: int) -> Topology {
        let t = self.twin(e);
        let a1 = self.next(e);
        let a2 = self.next(a1);
        let b1 = self.next(t);
        let b2 = self.next(b1);
        let x = self.origin(e);
        let y = self.origin(t);
        let v = self.origin(a2);
        let w = self.origin(b2);
        let f1 = self.face(e);
        let f2 = self.face(t);
        Topology {
            vertices: self.vertices.update(x, VertexModel { edge: Some(b1), ..self.vertices[x] }).update(
                y,
                VertexModel { edge: Some(a1), ..self.vertices[y] },
            ),
            edges: self.edges.update(e, EdgeModel { origin: w, next: a2, ..self.edges[e] }).update(
                t,
                EdgeModel { origin: v, next: b2, ..self.edges[t] },
            ).update(a1, EdgeModel { next: t, face: f2, ..self.edges[a1] }).update(
                a2,
                EdgeModel { next: b1, ..self.edges[a2] },
            ).update(b1, EdgeModel { next: e, face: f1, ..self.edges[b1] }).update(
                b2,
                EdgeModel { next: a1, ..self.edges[b2] },
            ),
            faces: self.faces.update(f1->0, e).update(f2->0, t),
        }
    }

    /// In a sound structure the three half-edges around a face are three
    /// half-edges, all on that face, and its three corners are three vertices.
    pub proof fn lemma_face_cycle(self, f: int)
        requires
            self.wf(),
            self.has_face(f),
        ensures
            ({
                let e0 = self.faces[f];
                let e1 = self.next(e0);
                let e2 = self.next(e1);
                &&& self.has_edge(e0) && self.has_edge(e1) && self.has_edge(e2)
                &&& self.edge_ok(e0) && self.edge_ok(e1) && self.edge_ok(e2)
                &&& self.next(e2) == e0
                &&& e0 != e1 && e1 != e2 && e2 != e0
                &&& self.face(e0) == Some(f) && self.face(e1) == Some(f) && self.face(e2) == Some(f)
                &&& self.has_vertex(self.corners(f).0)
                &&& self.has_vertex(self.corners(f).1)
                &&& self.has_vertex(self.corners(f).2)
                &&& self.corners(f).0 != self.corners(f).1
                &&& self.corners(f).1 != self.corners(f).2
                &&& self.corners(f).2 != self.corners(f).0
            }),
    {
        let e0 = self.faces[f];
        assert(self.face_ok(f));
        assert(self.edge_ok(e0));
        let e1 = self.next(e0);
        assert(self.edge_ok(e1));
        let e2 = self.next(e1);
        assert(self.edge_ok(e2));
    }

    /// In a sound structure the twin of the twin of a half-edge is the
    /// half-edge itself, three steps of `next` lead around its face and back
    /// to it, and the three half-edges on the way are three half-edges.
    pub proof fn lemma_edge_cycle(self, e: int)
        requires
            self.wf(),
            self.has_edge(e),
        ensures
            self.has_edge(self.twin(e)),
            self.twin(e) != e,
            self.twin(self.twin(e)) == e,
            ({
                let e1 = self.next(e);
                let e2 = self.next(e1);
                &&& self.has_edge(e1) && self.has_edge(e2)
                &&& self.edge_ok(e) && self.edge_ok(e1) && self.edge_ok(e2)
                &&& self.next(e2) == e
                &&& e != e1 && e1 != e2 && e2 != e
                &&& self.face(e1) == self.face(e) && self.face(e2) == self.face(e)
            }),
    {
        assert(self.edge_ok(e));
        let e1 = self.next(e);
        assert(self.edge_ok(e1));
        let e2 = self.next(e1);
        assert(self.edge_ok(e2));
    }

    /// Splitting a face of a sound structure leaves a sound structure.
    pub proof fn lemma_split_wf(self, f: int, p: Vec2)
        requires
            self.wf(),
            self.has_face(f),
        ensures
            self.split(f, p).wf(),
    {
        let after = self.split(f, p);
        let e0 = self.faces[f];
        let e1 = self.next(e0);
        let e2 = self.next(e1);
        let n = self.edges.len() as int;
        self.lemma_face_cycle(f);
        assert(after.edges.len() == n + 6);
        assert(after.faces.len() == self.faces.len() + 2);
        assert(after.vertices.len() == self.vertices.len() + 1);
        assert forall|e: int| after.has_edge(e) implies #[trigger] after.edge_ok(e) by {
            if e < n {
                self.lemma_edge_cycle(e);
                let g1 = self.next(e);
                let g2 = self.next(g1);
                assert(self.edge_ok(self.twin(e)));
                if e == e0 || e == e1 || e == e2 {
                } else {
                    assert(g1 != e0 && g1 != e1 && g1 != e2);
                    assert(g2 != e0 && g2 != e1 && g2 != e2);
                }
            }
        }
        assert forall|g: int| after.has_face(g) implies #[trigger] after.face_ok(g) by {
            if g < self.faces.len() && g != f {
                assert(self.face_ok(g));
            }
        }
        assert forall|v: int| after.has_vertex(v) implies #[trigger] after.vertex_ok(v) by {
            if v < self.vertices.len() {
                assert(self.vertex_ok(v));
            }
        }
    }

    /// Around a half-edge that can be flipped lie six half-edges, three on
    /// each of two faces, between four vertices.
    pub proof fn lemma_flip_site(self, e: int)
        requires
            self.wf(),
            self.can_flip(e),
        ensures
            ({
                let t = self.twin(e);
                let a1 = self.next(e);
                let a2 = self.next(a1);
                let b1 = self.next(t);
                let b2 = self.next(b1);
                &&& self.has_edge(t) && self.has_edge(a1) && self.has_edge(a2)
                &&& self.has_edge(b1) && self.has_edge(b2)
                &&& self.next(a2) == e && self.next(b2) == t
                &&& self.twin(t) == e
                &&& e != t && e != a1 && e != a2 && e != b1 && e != b2
                &&& t != a1 && t != a2 && t != b1 && t != b2
                &&& a1 != a2 && a1 != b1 && a1 != b2
                &&& a2 != b1 && a2 != b2
                &&& b1 != b2
                &&& self.face(e)->0 != self.face(t)->0
                &&& self.has_face(self.face(e)->0) && self.has_face(self.face(t)->0)
                &&& self.face(a1) == self.face(e) && self.face(a2) == self.face(e)
                &&& self.face(b1) == self.face(t) && self.face(b2) == self.face(t)
                &&& self.origin(a1) == self.origin(t) && self.origin(b1) == self.origin(e)
                &&& self.origin(e) != self.origin(t)
                &&& self.origin(e) != self.apex(e) && self.origin(t) != self.apex(e)
                &&& self.origin(e) != self.apex(t) && self.origin(t) != self.apex(t)
                &&& self.has_vertex(self.origin(e)) && self.has_vertex(self.origin(t))
                &&& self.has_vertex(self.apex(e)) && self.has_vertex(self.apex(t))
            }),
    {
        let t = self.twin(e);
        self.lemma_edge_cycle(e);
        assert(self.has_edge(t));
        self.lemma_edge_cycle(t);
        let a1 = self.next(e);
        let a2 = self.next(a1);
        let b1 = self.next(t);
        let b2 = self.next(b1);
        if self.face(e) == self.face(t) {
            // `t` would be a half-edge of the face of `e`; the half-edges of that
            // face are found by walking from any half-edge of it
            let f = self.face(e)->0;
            assert(self.has_face(f));
            self.lemma_face_cycle(f);
        }
    }

    /// After a flip every face is as it should be.
    proof fn lemma_flip_faces(self, e: int)
        requires
            self.wf(),
            self.can_flip(e),
        ensures
            forall|g: int| self.flip(e).has_face(g) ==> #[trigger] self.flip(e).face_ok(g),
    {
        let after = self.flip(e);
        let t = self.twin(e);
        let f1 = self.face(e)->0;
        let f2 = self.face(t)->0;
        self.lemma_flip_site(e);
        assert forall|g: int| after.has_face(g) implies #[trigger] after.face_ok(g) by {
            assert(self.face_ok(g));
            if g != f1 && g != f2 {
                let h = self.faces[g];
                assert(self.face(h) == Some(g));
            }
        }
    }

    /// After a flip every vertex is as it should be.
    proof fn lemma_flip_vertices(self, e: int)
        requires
            self.wf(),
            self.can_flip(e),
        ensures
            forall|v: int| self.flip(e).has_vertex(v) ==> #[trigger] self.flip(e).vertex_ok(v),
    {
        let after = self.flip(e);
        self.lemma_flip_site(e);
        assert forall|v: int| after.has_vertex(v) implies #[trigger] after.vertex_ok(v) by {
            assert(self.vertex_ok(v));
        }
    }

    /// After a flip each of the six half-edges around it is as it should be.
    proof fn lemma_flip_edges_near(self, e: int, g: int)
        requires
            self.wf(),
            self.can_flip(e),
            g == e || g == self.twin(e) || g == self.next(e) || g == self.next(self.next(e)) || g
                == self.next(self.twin(e)) || g == self.next(self.next(self.twin(e))),
        ensures
            self.flip(e).edge_ok(g),
    {
        let t = self.twin(e);
        let f1 = self.face(e)->0;
        let f2 = self.face(t)->0;
        self.lemma_flip_site(e);
        self.lemma_edge_cycle(e);
        self.lemma_edge_cycle(t);
        self.lemma_face_cycle(f1);
        self.lemma_face_cycle(f2);
        assert(self.edge_ok(g));
        assert(self.edge_ok(self.twin(g)));
    }

    /// After a flip every other half-edge is as it was.
    proof fn lemma_flip_edges_far(self, e: int, g: int)
        requires
            self.wf(),
            self.can_flip(e),
            self.has_edge(g),
            !(g == e || g == self.twin(e) || g == self.next(e) || g == self.next(self.next(e)) || g
                == self.next(self.twin(e)) || g == self.next(self.next(self.twin(e)))),
        ensures
            self.flip(e).edge_ok(g),
    {
        let after = self.flip(e);
        let t = self.twin(e);
        let a1 = self.next(e);
        let a2 = self.next(a1);
        let b1 = self.next(t);
        let b2 = self.next(b1);
        let f1 = self.face(e)->0;
        let f2 = self.face(t)->0;
        self.lemma_flip_site(e);
        self.lemma_edge_cycle(g);
        let g1 = self.next(g);
        let g2 = self.next(g1);
        assert(self.edge_ok(self.twin(g)));
        assert(g1 != e && g1 != t && g1 != a1 && g1 != a2 && g1 != b1 && g1 != b2);
        assert(g2 != e && g2 != t && g2 != a1 && g2 != a2 && g2 != b1 && g2 != b2);
        assert(self.twin(g) != e && self.twin(g) != t);
        assert(after.edges[g] == self.edges[g]);
        assert(after.edges[g1] == self.edges[g1]);
        assert(after.edges[g2] == self.edges[g2]);
        assert(after.twin(self.twin(g)) == g);
        assert(after.origin(self.twin(g)) == self.origin(self.twin(g)));
        if self.face(g) is Some {
            let k = self.face(g)->0;
            assert(self.face_ok(k));
            self.lemma_face_cycle(k);
            self.lemma_edge_cycle(e);
            self.lemma_edge_cycle(t);
            assert(self.around(f1, e) && self.around(f2, t));
            assert(self.around(k, g));
            assert(k != f1);
            assert(k != f2);
            assert(after.faces[k] == self.faces[k]);
        }
    }

    /// Flipping a half-edge of a sound structure leaves a sound structure.
    pub proof fn lemma_flip_wf(self, e: int)
        requires
            self.wf(),
            self.can_flip(e),
        ensures
            self.flip(e).wf(),
    {
        let after = self.flip(e);
        self.lemma_flip_faces(e);
        self.lemma_flip_vertices(e);
        self.lemma_flip_site(e);
        assert(after.edges.len() == self.edges.len());
        assert(after.vertices.len() == self.vertices.len());
        assert forall|g: int| after.has_edge(g) implies #[trigger] after.edge_ok(g) by {
            if g == e || g == self.twin(e) || g == self.next(e) || g == self.next(self.next(e))
                || g == self.next(self.twin(e)) || g == self.next(self.next(self.twin(e))) {
                self.lemma_flip_edges_near(e, g);
            } else {
                self.lemma_flip_edges_far(e, g);
            }
        }
    }

    /// What a split changes and what it leaves: the new vertex is appended,
    /// the split face and the two new faces are the three triangles between
    /// a side of the old face and the new vertex, and every other face keeps
    /// its corners.
    pub proof fn lemma_split_frame(self, f: int, p: Vec2)
        requires
            self.wf(),
            self.has_face(f),
        ensures
            self.split(f, p).positions() == self.positions().push(p),
            self.split(f, p).faces.len() == self.faces.len() + 2,
            self.split(f, p).edges.len() == self.edges.len() + 6,
            self.split(f, p).corners(f) == (
                self.corners(f).0,
                self.corners(f).1,
                self.vertices.len() as int,
            ),
            self.split(f, p).corners(self.faces.len() as int) == (
                self.corners(f).1,
                self.corners(f).2,
                self.vertices.len() as int,
            ),
            self.split(f, p).corners(self.faces.len() as int + 1) == (
                self.corners(f).2,
                self.corners(f).0,
                self.vertices.len() as int,
            ),
            forall|g: int|
                self.has_face(g) && g != f ==> #[trigger] self.split(f, p).corners(g)
                    == self.corners(g),
            forall|g: int|
                self.has_face(g) && g != f ==> #[trigger] self.split(f, p).face_box(g)
                    == self.face_box(g),
    {
        let after = self.split(f, p);
        self.lemma_face_cycle(f);
        assert(after.positions() =~= self.positions().push(p));
        let e0 = self.faces[f];
        let e1 = self.next(e0);
        let e2 = self.next(e1);
        assert forall|g: int| self.has_face(g) && g != f implies #[trigger] after.corners(g)
            == self.corners(g) by {
            self.lemma_face_cycle(g);
        }
        assert forall|g: int| self.has_face(g) && g != f implies #[trigger] after.face_box(g)
            == self.face_box(g) by {
            self.lemma_face_cycle(g);
            assert(after.corners(g) == self.corners(g));
        }
    }

    /// What a flip changes and what it leaves: no vertex moves, the two faces
    /// beside the half-edge become the triangles on either side of the new
    /// diagonal, and every other face keeps its corners.
    pub proof fn lemma_flip_frame(self, e: int)
        requires
            self.wf(),
            self.can_flip(e),
        ensures
            self.flip(e).positions() == self.positions(),
            self.flip(e).faces.len() == self.faces.len(),
            self.flip(e).edges.len() == self.edges.len(),
            self.flip(e).corners(self.face(e)->0) == (
                self.apex(self.twin(e)),
                self.apex(e),
                self.origin(e),
            ),
            self.flip(e).corners(self.face(self.twin(e))->0) == (
                self.apex(e),
                self.apex(self.twin(e)),
                self.origin(self.twin(e)),
            ),
            forall|g: int|
                self.has_face(g) && Some(g) != self.face(e) && Some(g) != self.face(self.twin(e))
                    ==> #[trigger] self.flip(e).corners(g) == self.corners(g),
            forall|g: int|
                self.has_face(g) && Some(g) != self.face(e) && Some(g) != self.face(self.twin(e))
                    ==> #[trigger] self.flip(e).face_box(g) == self.face_box(g),
    {
        let after = self.flip(e);
        self.lemma_flip_site(e);
        assert(after.positions() =~= self.positions());
        assert forall|g: int|
            self.has_face(g) && Some(g) != self.face(e) && Some(g) != self.face(
                self.twin(e),
            ) implies #[trigger] after.corners(g) == self.corners(g) by {
            self.lemma_face_cycle(g);
        }
        assert forall|g: int|
            self.has_face(g) && Some(g) != self.face(e) && Some(g) != self.face(
                self.twin(e),
            ) implies #[trigger] after.face_box(g) == self.face_box(g) by {
            self.lemma_face_cycle(g);
            assert(after.corners(g) == self.corners(g));
            assert(forall|v: int| self.has_vertex(v) ==> after.vertices[v].pos == self.vertices[v].pos);
        }
    }

    /// After a split the half-edges that lie across a face from the new
    /// vertex are the three half-edges of the face that was split.
    pub proof fn lemma_split_link(self, f: int, p: Vec2, g: int)
        requires
            self.wf(),
            self.has_face(f),
            self.split(f, p).has_edge(g),
            self.split(f, p).apex(g) == self.vertices.len(),
        ensures
            g == self.faces[f] || g == self.next(self.faces[f]) || g == self.next(
                self.next(self.faces[f]),
            ),
    {
        let after = self.split(f, p);
        let n = self.edges.len() as int;
        let e0 = self.faces[f];
        let e1 = self.next(e0);
        let e2 = self.next(e1);
        self.lemma_face_cycle(f);
        if g < n && g != e0 && g != e1 && g != e2 {
            self.lemma_edge_cycle(g);
            let g1 = self.next(g);
            let g2 = self.next(g1);
            assert(g1 != e0 && g1 != e1 && g1 != e2);
            assert(g2 != e0 && g2 != e1 && g2 != e2);
            assert(after.apex(g) == self.apex(g));
        }
    }

    /// After a flip of a half-edge across from the vertex `v`, a half-edge
    /// that lies across from `v` and can be flipped is one of the two outer
    /// half-edges of the face beyond the flip, or it lay across from `v` and
    /// could be flipped before, with the same face beyond it.
    pub proof fn lemma_flip_link(self, e: int, g: int)
        requires
            self.wf(),
            self.can_flip(e),
            self.has_edge(g),
            self.flip(e).can_flip(g),
            self.flip(e).apex(g) == self.apex(e),
        ensures
            ({
                let after = self.flip(e);
                let b1 = self.next(self.twin(e));
                let b2 = self.next(b1);
                ||| g == b1
                ||| g == b2
                ||| {
                    &&& g != e
                    &&& self.can_flip(g)
                    &&& self.apex(g) == self.apex(e)
                    &&& after.face(after.twin(g)) == self.face(self.twin(g))
                    &&& after.triangle(after.face(after.twin(g))->0) == self.triangle(
                        self.face(self.twin(g))->0,
                    )
                }
            }),
    {
        let after = self.flip(e);
        let t = self.twin(e);
        let a1 = self.next(e);
        let a2 = self.next(a1);
        let b1 = self.next(t);
        let b2 = self.next(b1);
        let f1 = self.face(e)->0;
        let f2 = self.face(t)->0;
        self.lemma_flip_site(e);
        self.lemma_flip_wf(e);
        self.lemma_flip_frame(e);
        self.lemma_edge_cycle(e);
        self.lemma_edge_cycle(t);
        if g == e || g == t || g == a1 || g == a2 {
            // across from each of these lies another vertex than `v`
        } else if g != b1 && g != b2 {
            self.lemma_edge_cycle(g);
            let g1 = self.next(g);
            let g2 = self.next(g1);
            assert(g1 != e && g1 != t && g1 != a1 && g1 != a2 && g1 != b1 && g1 != b2);
            assert(g2 != e && g2 != t && g2 != a1 && g2 != a2 && g2 != b1 && g2 != b2);
            assert(after.apex(g) == self.apex(g));
            let h = self.twin(g);
            assert(after.twin(g) == h);
            assert(self.edge_ok(h));
            assert(h != e && h != t);
            if h == a1 || h == a2 {
                // `g` would touch `v`
                self.lemma_edge_cycle(h);
            } else if h == b1 || h == b2 {
                // the face beyond `g` now has `v` across from `g`
                assert(after.apex(h) == self.apex(e));
            } else {
                self.lemma_edge_cycle(h);
                let h1 = self.next(h);
                let h2 = self.next(h1);
                assert(h1 != e && h1 != t && h1 != a1 && h1 != a2 && h1 != b1 && h1 != b2);
                assert(h2 != e && h2 != t && h2 != a1 && h2 != a2 && h2 != b1 && h2 != b2);
                assert(after.apex(h) == self.apex(h));
                let k = self.face(h)->0;
                assert(self.around(k, h));
                assert(self.around(f1, e) && self.around(f2, t));
                self.lemma_face_cycle(k);
                self.lemma_face_cycle(f1);
                self.lemma_face_cycle(f2);
                assert(k != f1 && k != f2);
                assert(after.corners(k) == self.corners(k));
                assert(after.positions() == self.positions());
                assert(forall|u: int|
                    self.has_vertex(u) ==> after.positions()[u] == after.vertices[u].pos
                        && self.positions()[u] == self.vertices[u].pos);
            }
        }
    }

    /// The half-edges that do not touch the vertex `v`.
    pub open spec fn away(self, v: int) -> Set<int> {
        Set::new(
            |g: int| self.has_edge(g) && self.origin(g) != v && self.origin(self.next(g)) != v,
        )
    }

    /// There are no more half-edges that do not touch `v` than half-edges.
    pub proof fn lemma_away_finite(self, v: int)
        ensures
            self.away(v).finite(),
            self.away(v).len() <= self.edges.len(),
    {
        let all = vstd::set_lib::set_int_range(0, self.edges.len() as int);
        vstd::set_lib::lemma_int_range(0, self.edges.len() as int);
        assert(self.away(v).subset_of(all));
        vstd::set_lib::lemma_len_subset(self.away(v), all);
    }

    /// After a split the six new half-edges touch the new vertex: no more
    /// half-edges are away from it than there were half-edges before.
    pub proof fn lemma_split_away(self, f: int, p: Vec2)
        requires
            self.wf(),
            self.has_face(f),
        ensures
            self.split(f, p).away(self.vertices.len() as int).finite(),
            self.split(f, p).away(self.vertices.len() as int).len() <= self.edges.len(),
    {
        let after = self.split(f, p);
        let v = self.vertices.len() as int;
        let n = self.edges.len() as int;
        self.lemma_face_cycle(f);
        let all = vstd::set_lib::set_int_range(0, n);
        vstd::set_lib::lemma_int_range(0, n);
        assert forall|g: int| after.away(v).contains(g) implies all.contains(g) by {
            if g >= n {
                assert(after.origin(g) == v || after.origin(after.next(g)) == v);
            }
        }
        assert(after.away(v).subset_of(all));
        vstd::set_lib::lemma_len_subset(after.away(v), all);
    }

    /// A flip of a half-edge across from the vertex `v` turns two half-edges
    /// that were away from `v` into two that touch it, and leaves every
    /// other half-edge touching `v` or away from it as it was.
    pub proof fn lemma_flip_away(self, e: int)
        requires
            self.wf(),
            self.can_flip(e),
        ensures
            self.away(self.apex(e)).finite(),
            self.flip(e).away(self.apex(e)).finite(),
            self.flip(e).away(self.apex(e)).len() + 2 == self.away(self.apex(e)).len(),
    {
        let after = self.flip(e);
        let v = self.apex(e);
        let t = self.twin(e);
        let a1 = self.next(e);
        let a2 = self.next(a1);
        let b1 = self.next(t);
        let b2 = self.next(b1);
        self.lemma_flip_site(e);
        self.lemma_away_finite(v);
        after.lemma_away_finite(v);
        let was = self.away(v);
        assert(was.contains(e));
        assert(was.contains(t));
        assert forall|g: int| after.away(v).contains(g) <==> was.remove(e).remove(t).contains(
            g,
        ) by {
            if self.has_edge(g) {
                if g == e || g == t || g == a1 || g == a2 || g == b1 || g == b2 {
                } else {
                    self.lemma_edge_cycle(g);
                    let g1 = self.next(g);
                    assert(g1 != e && g1 != t && g1 != a1 && g1 != a2 && g1 != b1 && g1 != b2);
                    assert(after.edges[g] == self.edges[g]);
                    assert(after.edges[g1] == self.edges[g1]);
                }
            }
        }
        assert(after.away(v) =~= was.remove(e).remove(t));
    }

    /// The structure after the half-edges `es` were flipped one after the other.
    pub open spec fn flips(self, es: Seq<int>) -> Topology
        decreases es.len(),
    {
        if es.len() == 0 {
            self
        } else {
            self.flips(es.drop_last()).flip(es.last())
        }
    }

    /// Whether each of `es` can be flipped when its turn comes.
    pub open spec fn can_flips(self, es: Seq<int>) -> bool
        decreases es.len(),
    {
        es.len() == 0 || (self.can_flips(es.drop_last()) && self.flips(es.drop_last()).can_flip(
            es.last(),
        ))
    }

    /// Flips leave a sound structure sound, move no vertex and add nothing.
    pub proof fn lemma_flips(self, es: Seq<int>)
        requires
            self.wf(),
            self.can_flips(es),
        ensures
            self.flips(es).wf(),
            self.flips(es).positions() == self.positions(),
            self.flips(es).faces.len() == self.faces.len(),
            self.flips(es).edges.len() == self.edges.len(),
        decreases es.len(),
    {
        if es.len() > 0 {
            self.lemma_flips(es.drop_last());
            let before = self.flips(es.drop_last());
            before.lemma_flip_wf(es.last());
            before.lemma_flip_frame(es.last());
        }
    }

    /// Whether `new` is what an insertion at `p` can turn `self` into: some
    /// face was split at `p`, and then half-edges were flipped.
    pub open spec fn inserted(self, new: Topology, p: Vec2) -> bool {
        exists|f: int, es: Seq<int>|
            self.has_face(f) && (#[trigger] self.split(f, p).can_flips(es)) && new == self.split(
                f,
                p,
            ).flips(es)
    }

    /// An insertion leaves a sound structure sound and appends one vertex,
    /// two faces and six half-edges.
    pub proof fn lemma_inserted(self, new: Topology, p: Vec2)
        requires
            self.wf(),
            self.inserted(new, p),
        ensures
            new.wf(),
            new.positions() == self.positions().push(p),
            new.faces.len() == self.faces.len() + 2,
            new.edges.len() == self.edges.len() + 6,
    {
        let (f, es) = choose|f: int, es: Seq<int>|
            self.has_face(f) && (#[trigger] self.split(f, p).can_flips(es)) && new == self.split(
                f,
                p,
            ).flips(es);
        self.lemma_split_wf(f, p);
        self.lemma_split_frame(f, p);
        self.split(f, p).lemma_flips(es);
    }
}

} // verus!
