//! An incremental triangulation of points in a fixed box. The mesh keeps the
//! half-edge structure and the spatial index in step; every geometric
//! question that an insertion raises is put to the kernel that the mesh was
//! made with.

use crate::arena::{Arena, ArenaId};
use crate::bvh::{lemma_picks_from, lemma_picks_members, names, Bvh, SplitPolicy, Tree};
use crate::geo::{Bbox, Vec2};
use crate::topology::{EdgeModel, Topology, VertexModel};
use vstd::prelude::*;

verus! {

/// Marks the handles of vertices.
#[derive(Debug, Hash)]
pub struct VertexTag;

/// Marks the handles of half-edges.
#[derive(Debug, Hash)]
pub struct HalfEdgeTag;

/// Marks the handles of faces.
#[derive(Debug, Hash)]
pub struct FaceTag;

pub type VertexHandle = ArenaId<VertexTag>;

pub type HalfEdgeHandle = ArenaId<HalfEdgeTag>;

pub type FaceHandle = ArenaId<FaceTag>;

/// A vertex: where it lies, and one half-edge that leaves it.
#[derive(Debug, Clone, Copy)]
pub struct Vertex {
    pub pos: Vec2,
    pub edge: Option<HalfEdgeHandle>,
}

/// A half-edge: the vertex it leaves, its twin, the half-edge after it
/// around its face, and its face.
#[derive(Debug, Clone, Copy)]
pub struct HalfEdge {
    pub origin: VertexHandle,
    pub twin: HalfEdgeHandle,
    pub next: HalfEdgeHandle,
    pub face: Option<FaceHandle>,
}

/// A face: one of its three half-edges.
#[derive(Debug, Clone, Copy)]
pub struct Face {
    pub edge: HalfEdgeHandle,
}

/// Why an insertion did not go through.
#[derive(Debug, Clone, Copy, PartialEq, Eq, Structural)]
pub enum InsertError {
    /// The point lies outside the box of the mesh, or in no face.
    OutOfBounds,
    /// The flips after the split did not come to an end within the ceiling,
    /// or the kernel could not tell whether one was called for.
    DegenerateGeometry,
}

/// How the flips after a split ended.
#[derive(Debug, Clone, Copy, PartialEq, Eq, Structural)]
pub enum Ending {
    /// No half-edge was left to look at.
    Done,
    /// The ceiling on the number of steps was reached.
    OutOfSteps,
    /// The kernel could not tell whether a flip was called for.
    CannotTell,
}

/// The geometry that the mesh relies on. The mesh keeps its structure sound
/// whatever a kernel answers; that the triangulation is Delaunay rests on the
/// kernel answering as the geometry of the plane demands.
pub trait Kernel: SplitPolicy {
    /// Three points whose triangle holds the box `world` in its interior.
    fn super_triangle(&self, world: &Bbox) -> [Vec2; 3];

    /// Whether `p` lies in the triangle `a`, `b`, `c` or on its border.
    fn in_triangle(&self, a: Vec2, b: Vec2, c: Vec2, p: Vec2) -> bool;

    /// Whether `p` lies in the circle through `a`, `b` and `c`, or `None`
    /// when there is no circle to tell by.
    fn in_circumcircle(&self, a: Vec2, b: Vec2, c: Vec2, p: Vec2) -> Option<bool>;

    /// Whether `a` and `b` are to be taken for the same point.
    fn coincide(&self, a: Vec2, b: Vec2) -> bool;
}

impl View for Vertex {
    type V = VertexModel;

    open spec fn view(&self) -> VertexModel {
        VertexModel {
            pos: self.pos,
            edge: match self.edge {
                Some(e) => Some(e@),
                None => None,
            },
        }
    }
}

impl View for HalfEdge {
    type V = EdgeModel;

    open spec fn view(&self) -> EdgeModel {
        EdgeModel {
            origin: self.origin@,
            twin: self.twin@,
            next: self.next@,
            face: match self.face {
                Some(f) => Some(f@),
                None => None,
            },
        }
    }
}

impl View for Face {
    type V = int;

    open spec fn view(&self) -> int {
        self.edge@
    }
}

/// A triangulation that grows point by point.
pub struct DelaunayMesh<K> {
    vertices: Arena<Vertex, VertexTag>,
    edges: Arena<HalfEdge, HalfEdgeTag>,
    faces: Arena<Face, FaceTag>,
    index: Bvh<FaceHandle>,
    sites: Bvh<VertexHandle>,
    bbox: Bbox,
    kernel: K,
}

impl<K> View for DelaunayMesh<K> {
    type V = Topology;

    closed spec fn view(&self) -> Topology {
        Topology {
            vertices: Seq::new(self.vertices@.len(), |i: int| self.vertices@[i]->0@),
            edges: Seq::new(self.edges@.len(), |i: int| self.edges@[i]->0@),
            faces: Seq::new(self.faces@.len(), |i: int| self.faces@[i]->0@),
        }
    }
}

/// The index holds exactly the faces of the structure, each under the box
/// around its triangle and in every leaf in which it could be looked for.
pub open spec fn indexed(t: Topology, tree: Tree<FaceHandle>) -> bool {
    &&& tree.wf()
    &&& forall|f: FaceHandle| t.has_face(f@) ==> #[trigger] tree.holds((f, t.face_box(f@)))
    &&& forall|k: int|
        0 <= k < tree.stored().len() ==> t.has_face((#[trigger] tree.stored()[k]).0@)
            && tree.stored()[k].1 == t.face_box(tree.stored()[k].0@)
}

/// The index is in step with the structure but for the faces in `open`: it
/// holds every other face under the box around its triangle, and nothing else.
pub open spec fn indexed_except(t: Topology, tree: Tree<FaceHandle>, open: Set<int>) -> bool {
    &&& tree.wf()
    &&& forall|f: FaceHandle|
        t.has_face(f@) && !open.contains(f@) ==> #[trigger] tree.holds((f, t.face_box(f@)))
    &&& forall|k: int|
        0 <= k < tree.stored().len() ==> {
            let y = #[trigger] tree.stored()[k];
            t.has_face(y.0@) && !open.contains(y.0@) && y.1 == t.face_box(y.0@)
        }
}

/// Taking a face out of the index under its box opens that face and no other.
pub proof fn lemma_index_removed(t: Topology, tree: Tree<FaceHandle>, open: Set<int>, f: FaceHandle)
    requires
        indexed_except(t, tree, open),
        t.has_face(f@),
    ensures
        indexed_except(t, tree.without(f, t.face_box(f@)), open.insert(f@)),
{
    let b = t.face_box(f@);
    let after = tree.without(f, b);
    tree.lemma_without(f, b);
    assert forall|g: FaceHandle|
        t.has_face(g@) && !open.insert(f@).contains(g@) implies #[trigger] after.holds(
        (g, t.face_box(g@)),
    ) by {
        let y = (g, t.face_box(g@));
        assert(tree.holds(y));
    }
    assert forall|k: int| 0 <= k < after.stored().len() implies {
        let y = #[trigger] after.stored()[k];
        t.has_face(y.0@) && !open.insert(f@).contains(y.0@) && y.1 == t.face_box(y.0@)
    } by {
        let y = after.stored()[k];
        assert(after.stored().contains(y));
        assert(tree.stored().contains(y));
        let m = choose|m: int| 0 <= m < tree.stored().len() && tree.stored()[m] == y;
        assert(tree.stored()[m] == y);
        if y.0@ == f@ {
            tree.lemma_without_gone(f, b, y);
        }
    }
}

/// A change of the structure that touches open faces only, and adds open
/// faces only, leaves the index in step with the structure.
pub proof fn lemma_index_carried(
    t0: Topology,
    t1: Topology,
    tree: Tree<FaceHandle>,
    open0: Set<int>,
    open1: Set<int>,
)
    requires
        indexed_except(t0, tree, open0),
        forall|g: int| open0.contains(g) ==> open1.contains(g),
        forall|g: int| open1.contains(g) && !open0.contains(g) ==> !t0.has_face(g),
        forall|g: int|
            t0.has_face(g) && !open0.contains(g) ==> t1.has_face(g) && #[trigger] t1.face_box(g)
                == t0.face_box(g),
        forall|g: int| #[trigger] t1.has_face(g) && !open1.contains(g) ==> t0.has_face(g),
    ensures
        indexed_except(t1, tree, open1),
{
    assert forall|g: FaceHandle|
        t1.has_face(g@) && !open1.contains(g@) implies #[trigger] tree.holds(
        (g, t1.face_box(g@)),
    ) by {
        assert(t0.has_face(g@));
        assert(t1.face_box(g@) == t0.face_box(g@));
        assert(tree.holds((g, t0.face_box(g@))));
    }
    assert forall|k: int| 0 <= k < tree.stored().len() implies {
        let y = #[trigger] tree.stored()[k];
        t1.has_face(y.0@) && !open1.contains(y.0@) && y.1 == t1.face_box(y.0@)
    } by {
        let y = tree.stored()[k];
        assert(t1.face_box(y.0@) == t0.face_box(y.0@));
    }
}

/// Putting an open face into the index under its box closes it.
pub proof fn lemma_index_inserted(
    t: Topology,
    tree: Tree<FaceHandle>,
    grown: Tree<FaceHandle>,
    open: Set<int>,
    f: FaceHandle,
)
    requires
        indexed_except(t, tree, open),
        t.has_face(f@),
        grown.grown(tree, (f, t.face_box(f@))),
    ensures
        indexed_except(t, grown, open.remove(f@)),
{
    let x = (f, t.face_box(f@));
    assert forall|g: FaceHandle|
        t.has_face(g@) && !open.remove(f@).contains(g@) implies #[trigger] grown.holds(
        (g, t.face_box(g@)),
    ) by {
        if g@ != f@ {
            assert(tree.holds((g, t.face_box(g@))));
        } else {
            ArenaId::lemma_view_injective(g, f);
        }
    }
    assert forall|k: int| 0 <= k < grown.stored().len() implies {
        let y = #[trigger] grown.stored()[k];
        t.has_face(y.0@) && !open.remove(f@).contains(y.0@) && y.1 == t.face_box(y.0@)
    } by {
        let y = grown.stored()[k];
        if y != x {
            let m = choose|m: int| 0 <= m < tree.stored().len() && tree.stored()[m] == y;
            assert(tree.stored()[m] == y);
            if y.0@ == f@ {
                ArenaId::lemma_view_injective(y.0, f);
            }
        }
    }
}

/// The box that holds `p` alone.
pub open spec fn point_box(p: Vec2) -> Bbox {
    Bbox { min: p, max: p }
}

/// The index of the inserted points holds exactly the vertices but the three
/// outermost, each under the box of its position and in every leaf in which
/// it could be looked for.
pub open spec fn sited(t: Topology, tree: Tree<VertexHandle>) -> bool {
    &&& tree.wf()
    &&& forall|v: VertexHandle|
        3 <= v@ < t.vertices.len() ==> #[trigger] tree.holds((v, point_box(t.vertices[v@].pos)))
    &&& forall|k: int|
        0 <= k < tree.stored().len() ==> {
            let y = #[trigger] tree.stored()[k];
            3 <= y.0@ < t.vertices.len() && y.1 == point_box(t.vertices[y.0@].pos)
        }
}

/// Whether `p` is the position of a vertex other than the three outermost.
pub open spec fn occupied(t: Topology, p: Vec2) -> bool {
    exists|v: int| 3 <= v < t.vertices.len() && (#[trigger] t.vertices[v]).pos == p
}

/// Every vertex but the three outermost lies in the box `world`.
pub open spec fn enclosed(t: Topology, world: Bbox) -> bool {
    forall|v: int| 3 <= v < t.vertices.len() ==> world.covers((#[trigger] t.vertices[v]).pos)
}

impl<K: Kernel> DelaunayMesh<K> {
    /// The spatial index over the faces.
    pub closed spec fn index(&self) -> Tree<FaceHandle> {
        self.index@
    }

    /// The spatial index over the inserted points.
    pub closed spec fn sites(&self) -> Tree<VertexHandle> {
        self.sites@
    }

    /// The box that the mesh was made for.
    pub closed spec fn world(&self) -> Bbox {
        self.bbox
    }

    /// The kernel that the mesh was made with.
    pub closed spec fn kernel(&self) -> K {
        self.kernel
    }

    /// Whether `answer` is what the kernel says when it is asked if `p` lies
    /// in the face `g`.
    pub open spec fn accepts(kernel: &K, t: Topology, g: int, p: Vec2, answer: bool) -> bool {
        call_ensures(
            K::in_triangle,
            (kernel, t.triangle(g).0, t.triangle(g).1, t.triangle(g).2, p),
            answer,
        )
    }

    /// Whether `answer` is what the kernel says when it is asked if `p` lies
    /// in the circle around the face `g`.
    pub open spec fn encircles(
        kernel: &K,
        t: Topology,
        g: int,
        p: Vec2,
        answer: Option<bool>,
    ) -> bool {
        call_ensures(
            K::in_circumcircle,
            (kernel, t.triangle(g).0, t.triangle(g).1, t.triangle(g).2, p),
            answer,
        )
    }

    /// Whether `answer` is what the kernel says when it is asked if `q` and
    /// `p` are one point.
    pub open spec fn merges(kernel: &K, q: Vec2, p: Vec2, answer: bool) -> bool {
        call_ensures(K::coincide, (kernel, q, p), answer)
    }

    /// Whether `r` is the face that is found for `p` among the faces from
    /// `from` on: the first of them, in the order of their handles, whose
    /// box holds `p` and that the kernel accepts for `p`, or none when there
    /// is no such face.
    pub open spec fn chosen(kernel: &K, t: Topology, from: int, p: Vec2, r: Option<int>) -> bool
        decreases t.faces.len() - from,
    {
        if from < 0 || from >= t.faces.len() {
            r is None
        } else if t.face_box(from).covers(p) {
            exists|answer: bool|
                {
                    &&& #[trigger] Self::accepts(kernel, t, from, p, answer)
                    &&& if answer {
                        r == Some(from)
                    } else {
                        Self::chosen(kernel, t, from + 1, p, r)
                    }
                }
        } else {
            Self::chosen(kernel, t, from + 1, p, r)
        }
    }

    /// Faces whose boxes do not hold `p` are passed over.
    pub proof fn lemma_chosen_skips(
        kernel: &K,
        t: Topology,
        from: int,
        to: int,
        p: Vec2,
        r: Option<int>,
    )
        requires
            0 <= from <= to <= t.faces.len(),
            forall|g: int| from <= g < to ==> !(#[trigger] t.face_box(g)).covers(p),
            Self::chosen(kernel, t, to, p, r),
        ensures
            Self::chosen(kernel, t, from, p, r),
        decreases to - from,
    {
        if from < to {
            Self::lemma_chosen_skips(kernel, t, from + 1, to, p, r);
            assert(!t.face_box(from).covers(p));
        }
    }

    /// The vertex at `p` with the smallest handle, the three outermost
    /// vertices aside, if there is a vertex at `p`.
    pub open spec fn site(t: Topology, p: Vec2, r: Option<int>) -> bool {
        match r {
            Some(v) => {
                &&& 3 <= v < t.vertices.len()
                &&& t.vertices[v].pos == p
                &&& forall|u: int| 3 <= u < v ==> (#[trigger] t.vertices[u]).pos != p
            },
            None => !occupied(t, p),
        }
    }

    /// Whether `r` is the vertex among `corners` that is taken for `p`: the
    /// first of them, the three outermost vertices aside, that the kernel
    /// takes for `p`, or none when there is no such vertex.
    pub open spec fn merged(
        kernel: &K,
        t: Topology,
        corners: Seq<int>,
        p: Vec2,
        r: Option<int>,
    ) -> bool
        decreases corners.len(),
    {
        if corners.len() == 0 {
            r is None
        } else {
            let c = corners.first();
            if 3 <= c {
                exists|answer: bool|
                    {
                        &&& #[trigger] Self::merges(kernel, t.vertices[c].pos, p, answer)
                        &&& if answer {
                            r == Some(c)
                        } else {
                            Self::merged(kernel, t, corners.drop_first(), p, r)
                        }
                    }
            } else {
                Self::merged(kernel, t, corners.drop_first(), p, r)
            }
        }
    }

    /// The three corners of the face `f`, counter-clockwise.
    pub open spec fn corner_seq(t: Topology, f: int) -> Seq<int> {
        seq![t.corners(f).0, t.corners(f).1, t.corners(f).2]
    }

    /// Whether `v` is a corner of the face `g`.
    pub open spec fn corner_of(t: Topology, g: int, v: int) -> bool {
        t.corners(g).0 == v || t.corners(g).1 == v || t.corners(g).2 == v
    }

    /// Whether each of the flips `es` after the insertion of the vertex `v` at
    /// `p` was called for: when its turn came, the half-edge could be flipped,
    /// it lay across its face from `v`, and the kernel found `p` in the circle
    /// around the face beyond it.
    pub open spec fn licensed(kernel: &K, base: Topology, es: Seq<int>, v: int, p: Vec2) -> bool
        decreases es.len(),
    {
        es.len() == 0 || {
            let now = base.flips(es.drop_last());
            let e = es.last();
            &&& Self::licensed(kernel, base, es.drop_last(), v, p)
            &&& now.can_flip(e)
            &&& now.apex(e) == v
            &&& Self::encircles(kernel, now, now.face(now.twin(e))->0, p, Some(true))
        }
    }

    /// Whether no flip is called for around the vertex `v` at `p`: of every
    /// half-edge that lies across from `v` and can be flipped, the kernel has
    /// said that `p` does not lie in the circle around the face beyond it.
    pub open spec fn settled(kernel: &K, t: Topology, v: int, p: Vec2) -> bool {
        forall|g: int|
            t.has_edge(g) && #[trigger] t.can_flip(g) && t.apex(g) == v ==> Self::encircles(
                kernel,
                t,
                t.face(t.twin(g))->0,
                p,
                Some(false),
            )
    }

    /// As `settled`, but for the half-edges in `work`, which are yet to be looked at.
    pub open spec fn settled_but(
        kernel: &K,
        t: Topology,
        v: int,
        p: Vec2,
        work: Seq<HalfEdgeHandle>,
    ) -> bool {
        forall|g: int|
            t.has_edge(g) && #[trigger] t.can_flip(g) && t.apex(g) == v ==> Self::waits(work, g)
                || Self::encircles(kernel, t, t.face(t.twin(g))->0, p, Some(false))
    }

    /// Whether the half-edge `g` is in `work`.
    pub open spec fn waits(work: Seq<HalfEdgeHandle>, g: int) -> bool {
        exists|i: int| 0 <= i < work.len() && (#[trigger] work[i])@ == g
    }

    /// The half-edges that the handles in `work` name.
    pub open spec fn ids(work: Seq<HalfEdgeHandle>) -> Seq<int> {
        Seq::new(work.len(), |i: int| work[i]@)
    }

    /// Whether the flips after the insertion of the vertex `v` at `p` turn
    /// the structure `t` into `out` and end as `how` says when the half-edges
    /// in `work` wait to be looked at and `steps` steps are left. The
    /// half-edge that was put on the list last
    /// is looked at first, which takes a step. If it can be flipped and lies
    /// across from `v`, the kernel is asked whether `p` lies in the circle
    /// around the face beyond it; if so, it is flipped, and the two outer
    /// half-edges of that face are put on the list. The flips are given up
    /// when no step is left, and when the kernel cannot tell.
    pub open spec fn cascade(
        kernel: &K,
        t: Topology,
        work: Seq<int>,
        steps: nat,
        v: int,
        p: Vec2,
        out: Topology,
        how: Ending,
    ) -> bool
        decreases steps,
    {
        if work.len() == 0 {
            out == t && how == Ending::Done
        } else if steps == 0 {
            out == t && how == Ending::OutOfSteps
        } else {
            let e = work.last();
            let rest = work.drop_last();
            let left = (steps - 1) as nat;
            if t.can_flip(e) && t.apex(e) == v {
                exists|answer: Option<bool>|
                    {
                        &&& #[trigger] Self::encircles(
                            kernel,
                            t,
                            t.face(t.twin(e))->0,
                            p,
                            answer,
                        )
                        &&& match answer {
                            Some(true) => {
                                let b1 = t.next(t.twin(e));
                                let b2 = t.next(b1);
                                Self::cascade(
                                    kernel,
                                    t.flip(e),
                                    rest.push(b1).push(b2),
                                    left,
                                    v,
                                    p,
                                    out,
                                    how,
                                )
                            },
                            Some(false) => Self::cascade(kernel, t, rest, left, v, p, out, how),
                            None => out == t && how == Ending::CannotTell,
                        }
                    }
            } else {
                Self::cascade(kernel, t, rest, left, v, p, out, how)
            }
        }
    }

    /// A number of steps within which the flips after a split come to an
    /// end whatever the kernel answers: a flip turns two half-edges that do
    /// not touch the new vertex into two that do, so there are no more flips
    /// than half the half-edges, and no more looks at half-edges than three
    /// and two for every flip.
    pub open spec fn enough(t: Topology) -> nat {
        t.edges.len() + 3
    }

    /// The number of steps that `insert` allows the flips in a mesh of `faces` faces.
    pub open spec fn ceiling_for(faces: nat) -> nat {
        if faces <= (usize::MAX - 64) / 8 {
            8 * faces + 64
        } else {
            usize::MAX as nat
        }
    }

    /// Flips that were called for could be made.
    pub proof fn lemma_licensed(kernel: &K, base: Topology, es: Seq<int>, v: int, p: Vec2)
        requires
            Self::licensed(kernel, base, es, v, p),
        ensures
            base.can_flips(es),
        decreases es.len(),
    {
        if es.len() > 0 {
            Self::lemma_licensed(kernel, base, es.drop_last(), v, p);
        }
    }

    /// Whether `after` is what the insertion of a new vertex at `p` turns
    /// `before` into: the face that is found for `p` was
    /// split at `p`, none of its corners being taken for `p` by the kernel,
    /// and then half-edges were flipped that the kernel called for, as
    /// `cascade` says of the three half-edges of the face that was split.
    pub open spec fn grown_by(
        kernel: &K,
        before: Topology,
        after: Topology,
        p: Vec2,
        steps: nat,
        how: Ending,
    ) -> bool {
        exists|f: FaceHandle, es: Seq<int>|
            {
                &&& before.has_face(f@)
                &&& before.face_box(f@).covers(p)
                &&& Self::accepts(kernel, before, f@, p, true)
                &&& Self::chosen(kernel, before, 0, p, Some(f@))
                &&& forall|c: int|
                    3 <= c && Self::corner_of(before, f@, c) ==> #[trigger] Self::merges(
                        kernel,
                        before.vertices[c].pos,
                        p,
                        false,
                    )
                &&& Self::merged(kernel, before, Self::corner_seq(before, f@), p, None)
                &&& #[trigger] Self::licensed(
                    kernel,
                    before.split(f@, p),
                    es,
                    before.vertices.len() as int,
                    p,
                )
                &&& after == before.split(f@, p).flips(es)
                &&& Self::cascade(
                    kernel,
                    before.split(f@, p),
                    seq![
                        before.faces[f@],
                        before.next(before.faces[f@]),
                        before.next(before.next(before.faces[f@])),
                    ],
                    steps,
                    before.vertices.len() as int,
                    p,
                    after,
                    how,
                )
            }
    }

    /// What `grown_by` holds is an insertion.
    pub proof fn lemma_grown_by(
        kernel: &K,
        before: Topology,
        after: Topology,
        p: Vec2,
        steps: nat,
        how: Ending,
    )
        requires
            Self::grown_by(kernel, before, after, p, steps, how),
        ensures
            before.inserted(after, p),
    {
        let (f, es) = choose|f: FaceHandle, es: Seq<int>|
            {
                &&& before.has_face(f@)
                &&& #[trigger] Self::licensed(
                    kernel,
                    before.split(f@, p),
                    es,
                    before.vertices.len() as int,
                    p,
                )
                &&& after == before.split(f@, p).flips(es)
            };
        Self::lemma_licensed(kernel, before.split(f@, p), es, before.vertices.len() as int, p);
        assert(before.split(f@, p).can_flips(es));
    }

    /// The three arenas are in order, and nothing was ever removed from them.
    pub closed spec fn dense(&self) -> bool {
        &&& self.vertices.wf() && self.vertices.full()
        &&& self.edges.wf() && self.edges.full()
        &&& self.faces.wf() && self.faces.full()
    }

    /// The mesh is in order: its structure is sound, its index holds its
    /// faces, and its vertices lie in its box.
    pub closed spec fn wf(&self) -> bool {
        &&& self.dense()
        &&& self@.wf()
        &&& indexed(self@, self.index@)
        &&& sited(self@, self.sites@)
        &&& enclosed(self@, self.bbox)
        &&& self.index@.bbox() == self.bbox
        &&& self.sites@.bbox() == self.bbox
    }

    /// What a mesh that is in order is known to satisfy.
    pub proof fn lemma_wf(&self)
        requires
            self.wf(),
        ensures
            self@.wf(),
            indexed(self@, self.index()),
            sited(self@, self.sites()),
            enclosed(self@, self.world()),
            self.index().bbox() == self.world(),
            self.sites().bbox() == self.world(),
    {
    }

    /// The index and the faces agree: every element of the index is a face
    /// of the mesh under the box around its triangle, and every face that
    /// touches an inserted point is stored in the index. The faces that
    /// `triangles` gives are among them.
    pub proof fn lemma_index_holds_faces(&self)
        requires
            self.wf(),
        ensures
            forall|k: int|
                0 <= k < self.index().stored().len() ==> {
                    let y = #[trigger] self.index().stored()[k];
                    self@.has_face(y.0@) && y.1 == self@.face_box(y.0@)
                },
            forall|f: FaceHandle|
                self@.has_face(f@) && (!Topology::is_super(self@.corners(f@).0)
                    || !Topology::is_super(self@.corners(f@).1) || !Topology::is_super(
                    self@.corners(f@).2,
                )) ==> #[trigger] self.index().stored().contains((f, self@.face_box(f@))),
    {
        let t = self@;
        let tree = self.index@;
        assert forall|f: FaceHandle|
            t.has_face(f@) && (!Topology::is_super(t.corners(f@).0) || !Topology::is_super(
                t.corners(f@).1,
            ) || !Topology::is_super(t.corners(f@).2)) implies #[trigger] tree.stored().contains(
            (f, t.face_box(f@)),
        ) by {
            t.lemma_face_cycle(f@);
            let c = t.corners(f@);
            let u = if !Topology::is_super(c.0) {
                c.0
            } else if !Topology::is_super(c.1) {
                c.1
            } else {
                c.2
            };
            let q = t.vertices[u].pos;
            assert(self.bbox.covers(q));
            assert(t.face_box(f@).covers(q));
            self.bbox.lemma_meets_iff_common_point(t.face_box(f@));
            assert(tree.holds((f, t.face_box(f@))));
            tree.lemma_held_is_stored((f, t.face_box(f@)));
        }
    }

    fn vertex_at(&self, v: VertexHandle) -> (r: Vertex)
        requires
            self.dense(),
            self@.has_vertex(v@),
        ensures
            r@ == self@.vertices[v@],
    {
        self.vertices[v]
    }

    fn edge_at(&self, e: HalfEdgeHandle) -> (r: HalfEdge)
        requires
            self.dense(),
            self@.has_edge(e@),
        ensures
            r@ == self@.edges[e@],
    {
        self.edges[e]
    }

    fn face_at(&self, f: FaceHandle) -> (r: Face)
        requires
            self.dense(),
            self@.has_face(f@),
        ensures
            r@ == self@.faces[f@],
    {
        self.faces[f]
    }

    fn set_vertex(&mut self, v: VertexHandle, val: Vertex)
        requires
            old(self).dense(),
            old(self)@.has_vertex(v@),
        ensures
            final(self).dense(),
            final(self)@ == (Topology {
                vertices: old(self)@.vertices.update(v@, val@),
                ..old(self)@
            }),
            final(self).index() == old(self).index(),
            final(self).sites() == old(self).sites(),
            final(self).world() == old(self).world(),
            final(self).kernel() == old(self).kernel(),
    {
        *self.vertices.index_mut(v) = val;
        assert(self@.vertices =~= old(self)@.vertices.update(v@, val@));
    }

    fn set_edge(&mut self, e: HalfEdgeHandle, val: HalfEdge)
        requires
            old(self).dense(),
            old(self)@.has_edge(e@),
        ensures
            final(self).dense(),
            final(self)@ == (Topology { edges: old(self)@.edges.update(e@, val@), ..old(self)@ }),
            final(self).index() == old(self).index(),
            final(self).sites() == old(self).sites(),
            final(self).world() == old(self).world(),
            final(self).kernel() == old(self).kernel(),
    {
        *self.edges.index_mut(e) = val;
        assert(self@.edges =~= old(self)@.edges.update(e@, val@));
    }

    fn set_face(&mut self, f: FaceHandle, val: Face)
        requires
            old(self).dense(),
            old(self)@.has_face(f@),
        ensures
            final(self).dense(),
            final(self)@ == (Topology { faces: old(self)@.faces.update(f@, val@), ..old(self)@ }),
            final(self).index() == old(self).index(),
            final(self).sites() == old(self).sites(),
            final(self).world() == old(self).world(),
            final(self).kernel() == old(self).kernel(),
    {
        *self.faces.index_mut(f) = val;
        assert(self@.faces =~= old(self)@.faces.update(f@, val@));
    }

    fn add_vertex(&mut self, val: Vertex) -> (v: VertexHandle)
        requires
            old(self).dense(),
        ensures
            final(self).dense(),
            v@ == old(self)@.vertices.len(),
            final(self)@ == (Topology { vertices: old(self)@.vertices.push(val@), ..old(self)@ }),
            final(self).index() == old(self).index(),
            final(self).sites() == old(self).sites(),
            final(self).world() == old(self).world(),
            final(self).kernel() == old(self).kernel(),
    {
        proof {
            self.vertices.lemma_full();
        }
        let v = self.vertices.push(val);
        assert(self@.vertices =~= old(self)@.vertices.push(val@));
        v
    }

    fn add_edge(&mut self, val: HalfEdge) -> (e: HalfEdgeHandle)
        requires
            old(self).dense(),
        ensures
            final(self).dense(),
            e@ == old(self)@.edges.len(),
            final(self)@ == (Topology { edges: old(self)@.edges.push(val@), ..old(self)@ }),
            final(self).index() == old(self).index(),
            final(self).sites() == old(self).sites(),
            final(self).world() == old(self).world(),
            final(self).kernel() == old(self).kernel(),
    {
        proof {
            self.edges.lemma_full();
        }
        let e = self.edges.push(val);
        assert(self@.edges =~= old(self)@.edges.push(val@));
        e
    }

    fn add_face(&mut self, val: Face) -> (f: FaceHandle)
        requires
            old(self).dense(),
        ensures
            final(self).dense(),
            f@ == old(self)@.faces.len(),
            final(self)@ == (Topology { faces: old(self)@.faces.push(val@), ..old(self)@ }),
            final(self).index() == old(self).index(),
            final(self).sites() == old(self).sites(),
            final(self).world() == old(self).world(),
            final(self).kernel() == old(self).kernel(),
    {
        proof {
            self.faces.lemma_full();
        }
        let f = self.faces.push(val);
        assert(self@.faces =~= old(self)@.faces.push(val@));
        f
    }

    /// The handles of the three corners of a face, counter-clockwise.
    fn corners_of(&self, f: FaceHandle) -> (r: [VertexHandle; 3])
        requires
            self.dense(),
            self@.wf(),
            self@.has_face(f@),
        ensures
            (r@[0]@, r@[1]@, r@[2]@) == self@.corners(f@),
            self@.has_vertex(r@[0]@) && self@.has_vertex(r@[1]@) && self@.has_vertex(r@[2]@),
    {
        proof {
            self@.lemma_face_cycle(f@);
        }
        let e0 = self.face_at(f).edge;
        let x0 = self.edge_at(e0);
        let x1 = self.edge_at(x0.next);
        let x2 = self.edge_at(x1.next);
        [x0.origin, x1.origin, x2.origin]
    }

    /// The positions of the three corners of a face.
    fn triangle_of(&self, f: FaceHandle) -> (r: [Vec2; 3])
        requires
            self.dense(),
            self@.wf(),
            self@.has_face(f@),
        ensures
            (r@[0], r@[1], r@[2]) == self@.triangle(f@),
    {
        let c = self.corners_of(f);
        [self.vertex_at(c[0]).pos, self.vertex_at(c[1]).pos, self.vertex_at(c[2]).pos]
    }

    /// The smallest box around a face.
    fn box_of(&self, f: FaceHandle) -> (r: Bbox)
        requires
            self.dense(),
            self@.wf(),
            self@.has_face(f@),
        ensures
            r == self@.face_box(f@),
    {
        let t = self.triangle_of(f);
        let mut b = Bbox::new(t[0]);
        b.expand(t[1]);
        b.expand(t[2]);
        b
    }

    /// A mesh for points in `world_bbox`: the triangle that the kernel puts
    /// around the box, and nothing in it.
    pub fn new(world_bbox: Bbox, kernel: K) -> (mesh: Self)
        ensures
            mesh.wf(),
            mesh.world() == world_bbox,
            mesh.kernel() == kernel,
            exists|tri: [Vec2; 3]|
                {
                    &&& #[trigger] call_ensures(K::super_triangle, (&kernel, &world_bbox), tri)
                    &&& mesh@ == Topology::seed(tri@[0], tri@[1], tri@[2])
                },
            mesh.index() == (Tree::Leaf {
                entries: seq![(FaceHandle::at(0), mesh@.face_box(0))],
                bbox: world_bbox,
            }),
            mesh.sites() == Tree::<VertexHandle>::leaf(world_bbox),
    {
        let tri = kernel.super_triangle(&world_bbox);
        let mut mesh = DelaunayMesh {
            vertices: Arena::tagged(),
            edges: Arena::tagged(),
            faces: Arena::tagged(),
            index: Bvh::new(world_bbox),
            sites: Bvh::new(world_bbox),
            bbox: world_bbox,
            kernel,
        };
        let f0: FaceHandle = ArenaId::new(0);
        let v0: VertexHandle = ArenaId::new(0);
        let v1: VertexHandle = ArenaId::new(1);
        let v2: VertexHandle = ArenaId::new(2);
        let e0: HalfEdgeHandle = ArenaId::new(0);
        let e1: HalfEdgeHandle = ArenaId::new(1);
        let e2: HalfEdgeHandle = ArenaId::new(2);
        let t0: HalfEdgeHandle = ArenaId::new(3);
        let t1: HalfEdgeHandle = ArenaId::new(4);
        let t2: HalfEdgeHandle = ArenaId::new(5);
        mesh.add_vertex(Vertex { pos: tri[0], edge: Some(e0) });
        mesh.add_vertex(Vertex { pos: tri[1], edge: Some(e1) });
        mesh.add_vertex(Vertex { pos: tri[2], edge: Some(e2) });
        mesh.add_edge(HalfEdge { origin: v0, twin: t0, next: e1, face: Some(f0) });
        mesh.add_edge(HalfEdge { origin: v1, twin: t1, next: e2, face: Some(f0) });
        mesh.add_edge(HalfEdge { origin: v2, twin: t2, next: e0, face: Some(f0) });
        mesh.add_edge(HalfEdge { origin: v1, twin: e0, next: t2, face: None });
        mesh.add_edge(HalfEdge { origin: v2, twin: e1, next: t0, face: None });
        mesh.add_edge(HalfEdge { origin: v0, twin: e2, next: t1, face: None });
        mesh.add_face(Face { edge: e0 });
        proof {
            let seed = Topology::seed(tri@[0], tri@[1], tri@[2]);
            assert(mesh@.vertices =~= seed.vertices);
            assert(mesh@.edges =~= seed.edges);
            assert(mesh@.faces =~= seed.faces);
            Topology::lemma_seed_wf(tri@[0], tri@[1], tri@[2]);
        }
        let b = mesh.box_of(f0);
        let ghost before = mesh.index@;
        mesh.index.insert(f0, b, &mesh.kernel);
        proof {
            assert(Seq::<(FaceHandle, Bbox)>::empty().push((f0, b)) =~= seq![(f0, b)]);
            let tree = mesh.index@;
            assert forall|f: FaceHandle| mesh@.has_face(f@) implies #[trigger] tree.holds(
                (f, mesh@.face_box(f@)),
            ) by {
                ArenaId::lemma_view_injective(f, f0);
            }
            assert forall|k: int| 0 <= k < tree.stored().len() implies mesh@.has_face(
                (#[trigger] tree.stored()[k]).0@,
            ) && tree.stored()[k].1 == mesh@.face_box(tree.stored()[k].0@) by {
                assert(before.stored().len() == 0);
                assert(!before.stored().contains(tree.stored()[k]));
            }
        }
        mesh
    }

    /// The vertex behind a handle of the mesh.
    pub fn vertex(&self, v: VertexHandle) -> (r: Vertex)
        requires
            self.wf(),
            self@.has_vertex(v@),
        ensures
            r@ == self@.vertices[v@],
    {
        self.vertex_at(v)
    }

    /// The half-edge behind a handle of the mesh.
    pub fn half_edge(&self, e: HalfEdgeHandle) -> (r: HalfEdge)
        requires
            self.wf(),
            self@.has_edge(e@),
        ensures
            r@ == self@.edges[e@],
    {
        self.edge_at(e)
    }

    /// The face behind a handle of the mesh.
    pub fn face(&self, f: FaceHandle) -> (r: Face)
        requires
            self.wf(),
            self@.has_face(f@),
        ensures
            r@ == self@.faces[f@],
    {
        self.face_at(f)
    }

    /// How many vertices, half-edges and faces the mesh has, the three
    /// outermost vertices and the faces at them included.
    pub fn counts(&self) -> (r: (usize, usize, usize))
        ensures
            r.0 == self@.vertices.len(),
            r.1 == self@.edges.len(),
            r.2 == self@.faces.len(),
    {
        (self.vertices.slot_count(), self.edges.slot_count(), self.faces.slot_count())
    }

    /// The box that the mesh was made for.
    pub fn bbox(&self) -> (r: Bbox)
        ensures
            r == self.world(),
    {
        self.bbox
    }

    /// The positions of the three corners of the face `f`, counter-clockwise.
    pub fn triangle_vertices(&self, f: FaceHandle) -> (r: [Vec2; 3])
        requires
            self.wf(),
            self@.has_face(f@),
        ensures
            (r@[0], r@[1], r@[2]) == self@.triangle(f@),
    {
        self.triangle_of(f)
    }

    /// The points that were inserted, in the order of their insertion. The
    /// three outermost vertices are left out.
    pub fn vertices(&self) -> (r: Vec<Vec2>)
        requires
            self.wf(),
        ensures
            r@ == self@.positions().skip(3),
    {
        let mut out: Vec<Vec2> = Vec::new();
        let n = self.vertices.slot_count();
        let mut i: usize = 3;
        while i < n
            invariant
                self.wf(),
                n == self@.vertices.len(),
                3 <= i <= n,
                out@ == self@.positions().subrange(3, i as int),
            decreases n - i,
        {
            let v = self.vertex_at(ArenaId::new(i));
            out.push(v.pos);
            assert(out@ =~= self@.positions().subrange(3, i + 1));
            i += 1;
        }
        assert(out@ =~= self@.positions().skip(3));
        out
    }

    /// The faces of the triangulation with their corners, counter-clockwise.
    /// A face that touches one of the three outermost vertices is left out.
    /// The three corners of a face that is given are three vertices.
    pub fn triangles(&self) -> (r: Vec<(FaceHandle, [VertexHandle; 3])>)
        requires
            self.wf(),
        ensures
            r@.len() == self@.finite_faces().len(),
            forall|j: int|
                0 <= j < r@.len() ==> {
                    let (f, c) = #[trigger] r@[j];
                    &&& f@ == self@.finite_faces()[j]
                    &&& self@.has_face(f@)
                    &&& self@.corners(f@) == (c@[0]@, c@[1]@, c@[2]@)
                    &&& !Topology::is_super(c@[0]@) && !Topology::is_super(c@[1]@)
                        && !Topology::is_super(c@[2]@)
                    &&& c@[0] != c@[1] && c@[1] != c@[2] && c@[2] != c@[0]
                },
    {
        let mut out: Vec<(FaceHandle, [VertexHandle; 3])> = Vec::new();
        let n = self.faces.slot_count();
        let mut i: usize = 0;
        while i < n
            invariant
                self.wf(),
                n == self@.faces.len(),
                0 <= i <= n,
                out@.len() == self@.finite_below(i as int).len(),
                forall|j: int|
                    0 <= j < out@.len() ==> {
                        let (f, c) = #[trigger] out@[j];
                        &&& f@ == self@.finite_below(i as int)[j]
                        &&& self@.has_face(f@)
                        &&& self@.corners(f@) == (c@[0]@, c@[1]@, c@[2]@)
                        &&& !Topology::is_super(c@[0]@) && !Topology::is_super(c@[1]@)
                            && !Topology::is_super(c@[2]@)
                        &&& c@[0] != c@[1] && c@[1] != c@[2] && c@[2] != c@[0]
                    },
            decreases n - i,
        {
            let f: FaceHandle = ArenaId::new(i);
            let c = self.corners_of(f);
            proof {
                self@.lemma_face_cycle(f@);
            }
            if c[0].slot() >= 3 && c[1].slot() >= 3 && c[2].slot() >= 3 {
                out.push((f, c));
            }
            i += 1;
        }
        out
    }

    /// The change of the structure that a split is, without the index.
    fn rewire_split(&mut self, f: FaceHandle, p: Vec2) -> (r: (VertexHandle, FaceHandle, FaceHandle))
        requires
            old(self).dense(),
            old(self)@.wf(),
            old(self)@.has_face(f@),
        ensures
            final(self).dense(),
            final(self)@ == old(self)@.split(f@, p),
            final(self).index() == old(self).index(),
            final(self).sites() == old(self).sites(),
            final(self).world() == old(self).world(),
            final(self).kernel() == old(self).kernel(),
            r.0@ == old(self)@.vertices.len(),
            r.1@ == old(self)@.faces.len(),
            r.2@ == old(self)@.faces.len() + 1,
    {
        proof {
            self@.lemma_face_cycle(f@);
        }
        let e0 = self.face_at(f).edge;
        let x0 = self.edge_at(e0);
        let e1 = x0.next;
        let x1 = self.edge_at(e1);
        let e2 = x1.next;
        let x2 = self.edge_at(e2);

        let v = self.add_vertex(Vertex { pos: p, edge: None });
        let f1 = self.add_face(Face { edge: e1 });
        let f2 = self.add_face(Face { edge: e2 });
        // the six half-edges first, so that they can name each other
        let blank = HalfEdge { origin: v, twin: e0, next: e0, face: None };
        let s0 = self.add_edge(blank);
        let r0 = self.add_edge(blank);
        let s1 = self.add_edge(blank);
        let r1 = self.add_edge(blank);
        let s2 = self.add_edge(blank);
        let r2 = self.add_edge(blank);

        self.set_edge(s0, HalfEdge { origin: x1.origin, twin: r1, next: r0, face: Some(f) });
        self.set_edge(r0, HalfEdge { origin: v, twin: s2, next: e0, face: Some(f) });
        self.set_edge(s1, HalfEdge { origin: x2.origin, twin: r2, next: r1, face: Some(f1) });
        self.set_edge(r1, HalfEdge { origin: v, twin: s0, next: e1, face: Some(f1) });
        self.set_edge(s2, HalfEdge { origin: x0.origin, twin: r0, next: r2, face: Some(f2) });
        self.set_edge(r2, HalfEdge { origin: v, twin: s1, next: e2, face: Some(f2) });

        self.set_edge(e0, HalfEdge { next: s0, face: Some(f), ..x0 });
        self.set_edge(e1, HalfEdge { next: s1, face: Some(f1), ..x1 });
        self.set_edge(e2, HalfEdge { next: s2, face: Some(f2), ..x2 });
        self.set_vertex(v, Vertex { pos: p, edge: Some(r0) });
        proof {
            let want = old(self)@.split(f@, p);
            assert(self@.vertices =~= want.vertices);
            assert(self@.edges =~= want.edges);
            assert(self@.faces =~= want.faces);
        }
        (v, f1, f2)
    }

    /// Puts the face `f` into the index under the box around its triangle.
    fn index_face(&mut self, f: FaceHandle, Ghost(open): Ghost<Set<int>>)
        requires
            old(self).dense(),
            old(self)@.wf(),
            old(self)@.has_face(f@),
            indexed_except(old(self)@, old(self).index(), open),
        ensures
            final(self).dense(),
            final(self)@ == old(self)@,
            final(self).sites() == old(self).sites(),
            final(self).world() == old(self).world(),
            final(self).kernel() == old(self).kernel(),
            final(self).index().bbox() == old(self).index().bbox(),
            indexed_except(final(self)@, final(self).index(), open.remove(f@)),
    {
        let b = self.box_of(f);
        let ghost before = self.index@;
        self.index.insert(f, b, &self.kernel);
        proof {
            lemma_index_inserted(self@, before, self.index@, open, f);
        }
    }

    /// Takes the face `f` out of the index.
    fn unindex_face(&mut self, f: FaceHandle, Ghost(open): Ghost<Set<int>>)
        requires
            old(self).dense(),
            old(self)@.wf(),
            old(self)@.has_face(f@),
            indexed_except(old(self)@, old(self).index(), open),
        ensures
            final(self).dense(),
            final(self)@ == old(self)@,
            final(self).sites() == old(self).sites(),
            final(self).world() == old(self).world(),
            final(self).kernel() == old(self).kernel(),
            final(self).index().bbox() == old(self).index().bbox(),
            indexed_except(final(self)@, final(self).index(), open.insert(f@)),
    {
        let b = self.box_of(f);
        let ghost before = self.index@;
        self.index.remove(&f, b);
        proof {
            lemma_index_removed(self@, before, open, f);
        }
    }

    /// Splits the face `f` at a new vertex at `p` and returns the vertex.
    /// The face keeps its handle for the triangle over its first side; the
    /// triangles over the other two sides are new faces.
    pub fn split_face(&mut self, f: FaceHandle, p: Vec2) -> (v: VertexHandle)
        requires
            old(self).wf(),
            old(self)@.has_face(f@),
            old(self).world().covers(p),
        ensures
            final(self).wf(),
            final(self)@ == old(self)@.split(f@, p),
            final(self).world() == old(self).world(),
            final(self).kernel() == old(self).kernel(),
            v@ == old(self)@.vertices.len(),
    {
        let ghost t0 = self@;
        let ghost none = Set::<int>::empty();
        assert(indexed_except(self@, self.index@, none));
        self.unindex_face(f, Ghost(none));
        let ghost tree1 = self.index@;
        let (v, f1, f2) = self.rewire_split(f, p);
        let ghost open = none.insert(f@).insert(f1@).insert(f2@);
        proof {
            t0.lemma_split_wf(f@, p);
            t0.lemma_split_frame(f@, p);
            lemma_index_carried(t0, self@, tree1, none.insert(f@), open);
        }
        self.index_face(f, Ghost(open));
        self.index_face(f1, Ghost(open.remove(f@)));
        self.index_face(f2, Ghost(open.remove(f@).remove(f1@)));
        let ghost sites0 = self.sites@;
        self.sites.insert(v, Bbox::new(p), &self.kernel);
        proof {
            let sites1 = self.sites@;
            let x = (v, point_box(p));
            assert(self@.vertices == t0.vertices.push(self@.vertices[v@]));
            assert forall|u: VertexHandle|
                3 <= u@ < self@.vertices.len() implies #[trigger] sites1.holds(
                (u, point_box(self@.vertices[u@].pos)),
            ) by {
                if u@ < t0.vertices.len() {
                    assert(sites0.holds((u, point_box(t0.vertices[u@].pos))));
                } else {
                    ArenaId::lemma_view_injective(u, v);
                }
            }
            assert forall|k: int| 0 <= k < sites1.stored().len() implies {
                let y = #[trigger] sites1.stored()[k];
                3 <= y.0@ < self@.vertices.len() && y.1 == point_box(self@.vertices[y.0@].pos)
            } by {
                let y = sites1.stored()[k];
                if y != x {
                    let m = choose|m: int| 0 <= m < sites0.stored().len() && sites0.stored()[m] == y;
                    assert(sites0.stored()[m] == y);
                }
            }
        }
        proof {
            assert(open.remove(f@).remove(f1@).remove(f2@) =~= none);
            assert(self@.positions() == t0.positions().push(p));
            assert forall|u: int| 3 <= u < self@.vertices.len() implies self.bbox.covers(
                (#[trigger] self@.vertices[u]).pos,
            ) by {
                assert(self@.positions()[u] == self@.vertices[u].pos);
                if u < t0.vertices.len() {
                    assert(t0.positions()[u] == t0.vertices[u].pos);
                }
            }
        }
        v
    }

    /// The vertex across the face from the half-edge `e`.
    fn apex_of(&self, e: HalfEdgeHandle) -> (v: VertexHandle)
        requires
            self.dense(),
            self@.wf(),
            self@.has_edge(e@),
        ensures
            v@ == self@.apex(e@),
            self@.has_vertex(v@),
    {
        proof {
            self@.lemma_edge_cycle(e@);
        }
        let x = self.edge_at(e);
        let x1 = self.edge_at(x.next);
        let x2 = self.edge_at(x1.next);
        x2.origin
    }

    /// Whether the half-edge `e` can be flipped: it has a face on either
    /// side, and the two vertices across from it are two vertices.
    pub fn can_flip(&self, e: HalfEdgeHandle) -> (r: bool)
        requires
            self.wf(),
        ensures
            r == self@.can_flip(e@),
    {
        if e.slot() >= self.edges.slot_count() {
            return false;
        }
        proof {
            self@.lemma_edge_cycle(e@);
        }
        let x = self.edge_at(e);
        if x.face.is_none() {
            return false;
        }
        let t = self.edge_at(x.twin);
        if t.face.is_none() {
            return false;
        }
        let v = self.apex_of(e);
        let w = self.apex_of(x.twin);
        v != w
    }

    /// The change of the structure that a flip is, without the index.
    fn rewire_flip(&mut self, e: HalfEdgeHandle)
        requires
            old(self).dense(),
            old(self)@.wf(),
            old(self)@.can_flip(e@),
        ensures
            final(self).dense(),
            final(self)@ == old(self)@.flip(e@),
            final(self).index() == old(self).index(),
            final(self).sites() == old(self).sites(),
            final(self).world() == old(self).world(),
            final(self).kernel() == old(self).kernel(),
    {
        proof {
            self@.lemma_flip_site(e@);
        }
        let xe = self.edge_at(e);
        let t = xe.twin;
        let xt = self.edge_at(t);
        let a1 = xe.next;
        let xa1 = self.edge_at(a1);
        let a2 = xa1.next;
        let xa2 = self.edge_at(a2);
        let b1 = xt.next;
        let xb1 = self.edge_at(b1);
        let b2 = xb1.next;
        let xb2 = self.edge_at(b2);
        let x = xe.origin;
        let y = xt.origin;
        let v = xa2.origin;
        let w = xb2.origin;
        let f1 = match xe.face {
            Some(f) => f,
            None => vstd::pervasive::unreached(),
        };
        let f2 = match xt.face {
            Some(f) => f,
            None => vstd::pervasive::unreached(),
        };

        self.set_edge(e, HalfEdge { origin: w, next: a2, ..xe });
        self.set_edge(t, HalfEdge { origin: v, next: b2, ..xt });
        self.set_edge(a1, HalfEdge { next: t, face: Some(f2), ..xa1 });
        self.set_edge(a2, HalfEdge { next: b1, ..xa2 });
        self.set_edge(b1, HalfEdge { next: e, face: Some(f1), ..xb1 });
        self.set_edge(b2, HalfEdge { next: a1, ..xb2 });
        self.set_face(f1, Face { edge: e });
        self.set_face(f2, Face { edge: t });
        let vx = self.vertex_at(x);
        self.set_vertex(x, Vertex { edge: Some(b1), ..vx });
        let vy = self.vertex_at(y);
        self.set_vertex(y, Vertex { edge: Some(a1), ..vy });
        proof {
            let want = old(self)@.flip(e@);
            assert(self@.vertices =~= want.vertices);
            assert(self@.edges =~= want.edges);
            assert(self@.faces =~= want.faces);
        }
    }

    /// Flips the half-edge `e`: the two triangles beside it are replaced by
    /// the two triangles beside the other diagonal of their quadrilateral.
    /// Both faces and all six half-edges keep their handles.
    pub fn flip(&mut self, e: HalfEdgeHandle)
        requires
            old(self).wf(),
            old(self)@.can_flip(e@),
        ensures
            final(self).wf(),
            final(self)@ == old(self)@.flip(e@),
            final(self).world() == old(self).world(),
            final(self).kernel() == old(self).kernel(),
    {
        let ghost t0 = self@;
        let ghost none = Set::<int>::empty();
        proof {
            t0.lemma_flip_site(e@);
        }
        let xe = self.edge_at(e);
        let xt = self.edge_at(xe.twin);
        let f1 = match xe.face {
            Some(f) => f,
            None => vstd::pervasive::unreached(),
        };
        let f2 = match xt.face {
            Some(f) => f,
            None => vstd::pervasive::unreached(),
        };
        assert(indexed_except(self@, self.index@, none));
        self.unindex_face(f1, Ghost(none));
        self.unindex_face(f2, Ghost(none.insert(f1@)));
        let ghost open = none.insert(f1@).insert(f2@);
        let ghost tree1 = self.index@;
        self.rewire_flip(e);
        proof {
            t0.lemma_flip_wf(e@);
            t0.lemma_flip_frame(e@);
            lemma_index_carried(t0, self@, tree1, open, open);
        }
        self.index_face(f1, Ghost(open));
        self.index_face(f2, Ghost(open.remove(f1@)));
        proof {
            assert(open.remove(f1@).remove(f2@) =~= none);
            assert forall|u: int| 3 <= u < self@.vertices.len() implies self.bbox.covers(
                (#[trigger] self@.vertices[u]).pos,
            ) by {
                assert(self@.positions()[u] == self@.vertices[u].pos);
                assert(t0.positions()[u] == t0.vertices[u].pos);
            }
        }
    }

    /// The faces whose boxes hold `p`, as the index gives them: each of them
    /// at least once, in no order.
    fn faces_around(&self, p: Vec2) -> (r: Vec<FaceHandle>)
        requires
            self.wf(),
            self.world().covers(p),
        ensures
            forall|j: int|
                0 <= j < r@.len() ==> self@.has_face((#[trigger] r@[j])@) && self@.face_box(
                    r@[j]@,
                ).covers(p),
            forall|g: int|
                self@.has_face(g) && (#[trigger] self@.face_box(g)).covers(p) ==> exists|j: int|
                    0 <= j < r@.len() && (#[trigger] r@[j])@ == g,
    {
        let n = self.faces.slot_count();
        let any = |f: &FaceHandle, q: Vec2| -> (b: bool)
            ensures
                b,
            { true };
        let candidates = self.index.enclosing(p, any);
        let ghost reach = self.index@.reach(p);
        proof {
            lemma_picks_from(reach, &any, p, candidates@);
            lemma_picks_members(reach, &any, p, candidates@, |f: FaceHandle| true);
        }
        let mut out: Vec<FaceHandle> = Vec::new();
        let mut i: usize = 0;
        while i < candidates.len()
            invariant
                self.wf(),
                0 <= i <= candidates@.len(),
                reach == self.index@.reach(p),
                forall|m: int| 0 <= m < candidates@.len() ==> names(reach, #[trigger] candidates@[m]),
                forall|j: int|
                    0 <= j < out@.len() ==> self@.has_face((#[trigger] out@[j])@)
                        && self@.face_box(out@[j]@).covers(p),
                forall|m: int|
                    0 <= m < i && self@.face_box((#[trigger] candidates@[m])@).covers(p)
                        ==> exists|j: int| 0 <= j < out@.len() && (#[trigger] out@[j]) == candidates@[m],
            decreases candidates@.len() - i,
        {
            let f = candidates[i];
            proof {
                assert(names(reach, candidates@[i as int]));
                let k = choose|k: int| 0 <= k < reach.len() && (#[trigger] reach[k]).0 == f;
                assert(reach.contains(reach[k]));
                self.index@.lemma_reach_is_stored(p, reach[k]);
                let stored = self.index@.stored();
                let m = choose|m: int| 0 <= m < stored.len() && stored[m] == reach[k];
                assert(self@.has_face(stored[m].0@));
            }
            let ghost before = out@;
            if self.box_of(f).contains(p) {
                out.push(f);
                proof {
                    assert(out@[out@.len() - 1] == f);
                }
            }
            proof {
                assert forall|m: int|
                    0 <= m < i + 1 && self@.face_box((#[trigger] candidates@[m])@).covers(
                        p,
                    ) implies exists|j: int|
                    0 <= j < out@.len() && (#[trigger] out@[j]) == candidates@[m] by {
                    if m < i {
                        let j = choose|j: int|
                            0 <= j < before.len() && (#[trigger] before[j]) == candidates@[m];
                        assert(out@[j] == candidates@[m]);
                    } else {
                        assert(out@[out@.len() - 1] == candidates@[m]);
                    }
                }
            }
            i += 1;
        }
        proof {
            assert forall|g: int|
                self@.has_face(g) && (#[trigger] self@.face_box(g)).covers(p) implies exists|j: int|
                0 <= j < out@.len() && (#[trigger] out@[j])@ == g by {
                let h = FaceHandle::at(g);
                FaceHandle::lemma_at(g);
                let y = (h, self@.face_box(g));
                assert(self.index@.holds(y));
                self.index@.lemma_reach_finds(p, y);
                let k = choose|k: int| 0 <= k < reach.len() && reach[k] == y;
                assert(reach[k].0 == h);
                assert(candidates@.contains(h));
                let m = choose|m: int| 0 <= m < candidates@.len() && candidates@[m] == h;
                assert(candidates@[m] == h);
                let j = choose|j: int| 0 <= j < out@.len() && (#[trigger] out@[j]) == candidates@[m];
                assert(out@[j]@ == g);
            }
        }
        out
    }

    /// The handle with the smallest slot from `from` on among `handles`.
    fn least_from<Tag>(handles: &Vec<ArenaId<Tag>>, from: usize) -> (r: Option<ArenaId<Tag>>)
        ensures
            match r {
                Some(h) => {
                    &&& from <= h@
                    &&& exists|j: int| 0 <= j < handles@.len() && #[trigger] handles@[j] == h
                    &&& forall|j: int|
                        0 <= j < handles@.len() && from <= (#[trigger] handles@[j])@ ==> h@
                            <= handles@[j]@
                },
                None => forall|j: int| 0 <= j < handles@.len() ==> (#[trigger] handles@[j])@ < from,
            },
    {
        let mut best: Option<ArenaId<Tag>> = None;
        let mut j: usize = 0;
        while j < handles.len()
            invariant
                0 <= j <= handles@.len(),
                match best {
                    Some(h) => {
                        &&& from <= h@
                        &&& exists|k: int| 0 <= k < j && #[trigger] handles@[k] == h
                        &&& forall|k: int|
                            0 <= k < j && from <= (#[trigger] handles@[k])@ ==> h@ <= handles@[k]@
                    },
                    None => forall|k: int| 0 <= k < j ==> (#[trigger] handles@[k])@ < from,
                },
            decreases handles@.len() - j,
        {
            let h = handles[j];
            if h.slot() >= from {
                let better = match best {
                    Some(b) => h.slot() < b.slot(),
                    None => true,
                };
                if better {
                    best = Some(h);
                }
            }
            j += 1;
        }
        best
    }

    /// The face that is found for `p`: the first face, in the order of the
    /// handles, whose box holds `p` and that the kernel accepts for `p`.
    fn locate(&self, p: Vec2) -> (r: Option<FaceHandle>)
        requires
            self.wf(),
            self.world().covers(p),
        ensures
            Self::chosen(
                &self.kernel(),
                self@,
                0,
                p,
                match r {
                    Some(f) => Some(f@),
                    None => None,
                },
            ),
            match r {
                Some(f) => {
                    &&& self@.has_face(f@)
                    &&& self@.face_box(f@).covers(p)
                    &&& Self::accepts(&self.kernel(), self@, f@, p, true)
                },
                None => forall|g: FaceHandle|
                    self@.has_face(g@) && self@.face_box(g@).covers(p) ==> #[trigger] Self::accepts(
                        &self.kernel(),
                        self@,
                        g@,
                        p,
                        false,
                    ),
            },
    {
        let around = self.faces_around(p);
        let n = self.faces.slot_count();
        let mut from: usize = 0;
        loop
            invariant
                self.wf(),
                n == self@.faces.len(),
                0 <= from <= n,
                forall|j: int|
                    0 <= j < around@.len() ==> self@.has_face((#[trigger] around@[j])@)
                        && self@.face_box(around@[j]@).covers(p),
                forall|g: int|
                    self@.has_face(g) && (#[trigger] self@.face_box(g)).covers(p) ==> exists|j: int|
                        0 <= j < around@.len() && (#[trigger] around@[j])@ == g,
                forall|r: Option<int>| #[trigger]
                    Self::chosen(&self.kernel(), self@, from as int, p, r) ==> Self::chosen(
                        &self.kernel(),
                        self@,
                        0,
                        p,
                        r,
                    ),
                forall|g: int|
                    0 <= g < from && (#[trigger] self@.face_box(g)).covers(p) ==> Self::accepts(
                        &self.kernel(),
                        self@,
                        g,
                        p,
                        false,
                    ),
            decreases n - from,
        {
            let f = match Self::least_from(&around, from) {
                Some(f) => f,
                None => {
                    proof {
                        assert forall|g: int| from <= g < n implies !(#[trigger] self@.face_box(
                            g,
                        )).covers(p) by {
                            if self@.face_box(g).covers(p) {
                                let j = choose|j: int|
                                    0 <= j < around@.len() && (#[trigger] around@[j])@ == g;
                                assert(around@[j]@ < from);
                            }
                        }
                        assert(Self::chosen(&self.kernel(), self@, n as int, p, None));
                        Self::lemma_chosen_skips(
                            &self.kernel(),
                            self@,
                            from as int,
                            n as int,
                            p,
                            None,
                        );
                    }
                    return None;
                },
            };
            proof {
                let j = choose|j: int| 0 <= j < around@.len() && #[trigger] around@[j] == f;
                assert(self@.has_face(around@[j]@));
                assert forall|g: int| from <= g < f@ implies !(#[trigger] self@.face_box(g)).covers(
                    p,
                ) by {
                    if self@.face_box(g).covers(p) {
                        let k = choose|k: int|
                            0 <= k < around@.len() && (#[trigger] around@[k])@ == g;
                        assert(f@ <= around@[k]@);
                    }
                }
            }
            let t = self.triangle_of(f);
            let inside = self.kernel.in_triangle(t[0], t[1], t[2], p);
            proof {
                assert(Self::accepts(&self.kernel(), self@, f@, p, inside));
                assert forall|r: Option<int>| #[trigger]
                    Self::chosen(
                        &self.kernel(),
                        self@,
                        f@ + 1,
                        p,
                        r,
                    ) && !inside implies Self::chosen(&self.kernel(), self@, 0, p, r) by {
                    assert(Self::chosen(&self.kernel(), self@, f@, p, r));
                    Self::lemma_chosen_skips(&self.kernel(), self@, from as int, f@, p, r);
                }
                if inside {
                    assert(Self::chosen(&self.kernel(), self@, f@, p, Some(f@)));
                    Self::lemma_chosen_skips(&self.kernel(), self@, from as int, f@, p, Some(f@));
                }
            }
            if inside {
                return Some(f);
            }
            from = f.slot() + 1;
        }
    }

    /// The vertex at `p` with the smallest handle, if a point was inserted there.
    fn find_site(&self, p: Vec2) -> (r: Option<VertexHandle>)
        requires
            self.wf(),
            self.world().covers(p),
        ensures
            Self::site(
                self@,
                p,
                match r {
                    Some(v) => Some(v@),
                    None => None,
                },
            ),
    {
        let n = self.vertices.slot_count();
        let any = |v: &VertexHandle, q: Vec2| -> (b: bool)
            ensures
                b,
            { true };
        let candidates = self.sites.enclosing(p, any);
        let ghost reach = self.sites@.reach(p);
        proof {
            lemma_picks_from(reach, &any, p, candidates@);
            lemma_picks_members(reach, &any, p, candidates@, |v: VertexHandle| true);
        }
        let mut here: Vec<VertexHandle> = Vec::new();
        let mut i: usize = 0;
        while i < candidates.len()
            invariant
                self.wf(),
                0 <= i <= candidates@.len(),
                reach == self.sites@.reach(p),
                forall|m: int| 0 <= m < candidates@.len() ==> names(reach, #[trigger] candidates@[m]),
                forall|j: int|
                    0 <= j < here@.len() ==> 3 <= (#[trigger] here@[j])@ < self@.vertices.len()
                        && self@.vertices[here@[j]@].pos == p,
                forall|m: int|
                    0 <= m < i && self@.vertices[(#[trigger] candidates@[m])@].pos == p
                        ==> exists|j: int|
                        0 <= j < here@.len() && (#[trigger] here@[j]) == candidates@[m],
            decreases candidates@.len() - i,
        {
            let v = candidates[i];
            proof {
                assert(names(reach, candidates@[i as int]));
                let k = choose|k: int| 0 <= k < reach.len() && (#[trigger] reach[k]).0 == v;
                assert(reach.contains(reach[k]));
                self.sites@.lemma_reach_is_stored(p, reach[k]);
                let stored = self.sites@.stored();
                let m = choose|m: int| 0 <= m < stored.len() && stored[m] == reach[k];
                assert(3 <= stored[m].0@ < self@.vertices.len());
            }
            let ghost before = here@;
            if self.vertex_at(v).pos == p {
                here.push(v);
                proof {
                    assert(here@[here@.len() - 1] == v);
                }
            }
            proof {
                assert forall|m: int|
                    0 <= m < i + 1 && self@.vertices[(#[trigger] candidates@[m])@].pos
                        == p implies exists|j: int|
                    0 <= j < here@.len() && (#[trigger] here@[j]) == candidates@[m] by {
                    if m < i {
                        let j = choose|j: int|
                            0 <= j < before.len() && (#[trigger] before[j]) == candidates@[m];
                        assert(here@[j] == candidates@[m]);
                    } else {
                        assert(here@[here@.len() - 1] == candidates@[m]);
                    }
                }
            }
            i += 1;
        }
        let r = Self::least_from(&here, 3);
        proof {
            assert forall|u: int|
                3 <= u < self@.vertices.len() && (#[trigger] self@.vertices[u]).pos
                    == p implies exists|j: int| 0 <= j < here@.len() && (#[trigger] here@[j])@ == u by {
                let h = VertexHandle::at(u);
                VertexHandle::lemma_at(u);
                let y = (h, point_box(p));
                assert(self.sites@.holds(y));
                self.sites@.lemma_reach_finds(p, y);
                let k = choose|k: int| 0 <= k < reach.len() && reach[k] == y;
                assert(reach[k].0 == h);
                assert(candidates@.contains(h));
                let m = choose|m: int| 0 <= m < candidates@.len() && candidates@[m] == h;
                assert(candidates@[m] == h);
                let j = choose|j: int|
                    0 <= j < here@.len() && (#[trigger] here@[j]) == candidates@[m];
                assert(here@[j]@ == u);
            }
            match r {
                Some(v) => {
                    let j = choose|j: int| 0 <= j < here@.len() && #[trigger] here@[j] == v;
                    assert(self@.vertices[here@[j]@].pos == p);
                    assert forall|u: int| 3 <= u < v@ implies (#[trigger] self@.vertices[u]).pos
                        != p by {
                        if self@.vertices[u].pos == p {
                            let k = choose|k: int|
                                0 <= k < here@.len() && (#[trigger] here@[k])@ == u;
                            assert(v@ <= here@[k]@);
                        }
                    }
                },
                None => {
                    if occupied(self@, p) {
                        let u = choose|u: int|
                            3 <= u < self@.vertices.len() && (#[trigger] self@.vertices[u]).pos
                                == p;
                        let k = choose|k: int| 0 <= k < here@.len() && (#[trigger] here@[k])@ == u;
                        assert(here@[k]@ < 3);
                    }
                },
            }
        }
        r
    }

    /// The number of steps that `insert` allows the flips after a split in a
    /// mesh of `faces` faces.
    fn ceiling(faces: usize) -> (r: usize)
        ensures
            r == Self::ceiling_for(faces as nat),
    {
        if faces <= (usize::MAX - 64) / 8 {
            8 * faces + 64
        } else {
            usize::MAX
        }
    }

    /// Inserts the point `p`. A point that was inserted before is found
    /// again, and so is one that the kernel takes for a corner of the face
    /// that holds it: the vertex is returned and nothing changes. Otherwise
    /// the face that holds `p` is split at a new vertex, and then half-edges
    /// across from the new vertex are flipped for as long as the kernel finds
    /// the new vertex in the circle of the face beyond them. A point outside
    /// the box of the mesh, or in no face by the kernel's word, changes
    /// nothing. When the kernel cannot tell whether a flip is called for,
    /// the flips are given up: the point stays inserted and the mesh in
    /// order. The ceiling that `insert` sets on the number of steps is never
    /// reached, whatever the kernel answers.
    pub fn insert(&mut self, p: Vec2) -> (r: Result<VertexHandle, InsertError>)
        requires
            old(self).wf(),
        ensures
            final(self).wf(),
            final(self).world() == old(self).world(),
            final(self).kernel() == old(self).kernel(),
            Self::insertion(
                *old(self),
                *final(self),
                p,
                Self::ceiling_for(old(self)@.faces.len()),
                r,
            ),
            Self::ceiling_for(old(self)@.faces.len()) >= Self::enough(old(self)@),
    {
        proof {
            // there are six half-edges for every vertex but the first two, and
            // the largest number of the machine is no multiple of six
            self.edges.lemma_len_fits();
            assert(self@.edges.len() == 6 * (self@.vertices.len() - 2));
            assert(self@.edges.len() + 3 <= usize::MAX);
        }
        let ceiling = Self::ceiling(self.faces.slot_count());
        self.insert_within(p, ceiling)
    }

    /// What an insertion of `p` that ended in `r` has done to the mesh, by
    /// the answers of the kernel. A point outside the box is out of bounds. A
    /// point that was inserted before is found again. A vertex that is found
    /// again lies at `p`, or the kernel takes it for `p` and it is a corner of
    /// a face that the kernel accepts for `p`; nothing has changed then. A
    /// point in the box is out of bounds only when the kernel has denied
    /// every face whose box holds it; nothing has changed then either. In
    /// every other case a new vertex was put in as `grown_by` says, with
    /// `ceiling` steps for the flips: the flips came to an end when `r` is
    /// `Ok`, and then no flip around the new vertex is called for any more;
    /// they were given up when `r` is `DegenerateGeometry`, and with steps
    /// enough they are given up only because the kernel could not tell.
    pub open spec fn insertion(
        before: Self,
        after: Self,
        p: Vec2,
        ceiling: nat,
        r: Result<VertexHandle, InsertError>,
    ) -> bool {
        let t = before@;
        let kernel = before.kernel();
        &&& !before.world().covers(p) ==> r == Err::<VertexHandle, InsertError>(
            InsertError::OutOfBounds,
        )
        &&& before.world().covers(p) && occupied(t, p) ==> r is Ok && Self::site(
            t,
            p,
            Some(r->Ok_0@),
        )
        &&& match r {
            Ok(v) => {
                ||| {
                    &&& 3 <= v@ < t.vertices.len()
                    &&& after@ == t
                    &&& after.index() == before.index()
                    &&& after.sites() == before.sites()
                    &&& Self::site(t, p, Some(v@)) || (!occupied(t, p) && Self::merges(
                        &kernel,
                        t.vertices[v@].pos,
                        p,
                        true,
                    ) && exists|g: FaceHandle|
                        {
                            &&& t.has_face(g@)
                            &&& t.face_box(g@).covers(p)
                            &&& Self::accepts(&kernel, t, g@, p, true)
                            &&& #[trigger] Self::chosen(&kernel, t, 0, p, Some(g@))
                            &&& Self::corner_of(t, g@, v@)
                            &&& Self::merged(
                                &kernel,
                                t,
                                Self::corner_seq(t, g@),
                                p,
                                Some(v@),
                            )
                        })
                }
                ||| {
                    &&& v@ == t.vertices.len()
                    &&& !occupied(t, p)
                    &&& after@.positions() == t.positions().push(p)
                    &&& Self::grown_by(&kernel, t, after@, p, ceiling, Ending::Done)
                    &&& Self::settled(&kernel, after@, v@, p)
                }
            },
            Err(InsertError::OutOfBounds) => {
                &&& after@ == t
                &&& after.index() == before.index()
                &&& after.sites() == before.sites()
                &&& before.world().covers(p) ==> !occupied(t, p) && Self::chosen(
                    &kernel,
                    t,
                    0,
                    p,
                    None,
                )
                &&& before.world().covers(p) ==> forall|g: FaceHandle|
                    t.has_face(g@) && t.face_box(g@).covers(p) ==> #[trigger] Self::accepts(
                        &kernel,
                        t,
                        g@,
                        p,
                        false,
                    )
            },
            Err(InsertError::DegenerateGeometry) => {
                &&& !occupied(t, p)
                &&& after@.positions() == t.positions().push(p)
                &&& if ceiling >= Self::enough(t) {
                    Self::grown_by(&kernel, t, after@, p, ceiling, Ending::CannotTell)
                } else {
                    ||| Self::grown_by(&kernel, t, after@, p, ceiling, Ending::CannotTell)
                    ||| Self::grown_by(&kernel, t, after@, p, ceiling, Ending::OutOfSteps)
                }
            },
        }
    }

    /// Inserting a point again changes nothing. When an insertion has put a
    /// vertex at `p` or has found one there, a further insertion of `p`
    /// leaves the mesh as it is and returns that vertex; so it does after an
    /// insertion whose flips were given up, which has put a vertex at `p` too.
    pub proof fn lemma_insert_again(
        first: Self,
        second: Self,
        third: Self,
        p: Vec2,
        ceiling: nat,
        again: nat,
        r: Result<VertexHandle, InsertError>,
        s: Result<VertexHandle, InsertError>,
    )
        requires
            first.wf(),
            second.wf(),
            second.world() == first.world(),
            second.kernel() == first.kernel(),
            Self::insertion(first, second, p, ceiling, r),
            Self::insertion(second, third, p, again, s),
        ensures
            r is Ok && second@.vertices[r->Ok_0@].pos == p ==> third@ == second@ && s == r,
            r == Err::<VertexHandle, InsertError>(InsertError::DegenerateGeometry) ==> third@
                == second@ && s is Ok && s->Ok_0@ == first@.vertices.len(),
    {
        let t = first@;
        let u = second@;
        let kernel = first.kernel();
        if exists|how: Ending| Self::grown_by(&kernel, t, u, p, ceiling, how) {
            // a vertex was put in
            let how = choose|how: Ending| Self::grown_by(&kernel, t, u, p, ceiling, how);
            Self::lemma_grown_by(&kernel, t, u, p, ceiling, how);
            t.lemma_inserted(u, p);
            let v = t.vertices.len() as int;
            assert(t.positions().len() == t.vertices.len());
            assert(u.positions().len() == u.vertices.len());
            assert(u.positions()[v] == p);
            assert(u.vertices[v].pos == p);
            assert(u != t);
            assert forall|w: int| 3 <= w < v implies (#[trigger] u.vertices[w]).pos != p by {
                assert(u.positions()[w] == t.positions()[w]);
                assert(t.vertices[w].pos == t.positions()[w]);
                assert(u.vertices[w].pos == u.positions()[w]);
            }
            assert(occupied(u, p));
            assert(Self::site(u, p, Some(s->Ok_0@)));
            assert(s->Ok_0@ == v) by {
                let w = s->Ok_0@;
                if w < v {
                    assert(u.vertices[w].pos != p);
                }
            }
            if r is Ok {
                ArenaId::lemma_view_injective(s->Ok_0, r->Ok_0);
            }
        } else if r is Ok && u.vertices[r->Ok_0@].pos == p {
            let v = r->Ok_0@;
            assert(3 <= v < u.vertices.len());
            assert(occupied(u, p));
            if !Self::site(t, p, Some(v)) {
                // the vertex was taken for `p` by the kernel, and lies at `p` all the same
                assert(occupied(t, p));
            }
            assert(Self::site(u, p, Some(s->Ok_0@)));
            assert(s->Ok_0@ == v) by {
                let w = s->Ok_0@;
                if w < v {
                    assert(u.vertices[w].pos != p);
                }
                if v < w {
                    assert(u.vertices[v].pos != p);
                }
            }
            ArenaId::lemma_view_injective(s->Ok_0, r->Ok_0);
        }
    }

    /// Inserts the point `p` as `insert` does, with `ceiling` as the number
    /// of steps that the flips after the split may take: each look at a
    /// half-edge is a step. When the steps run out, the flips are given up
    /// as they are when the kernel cannot tell.
    pub fn insert_within(&mut self, p: Vec2, ceiling: usize) -> (r: Result<VertexHandle, InsertError>)
        requires
            old(self).wf(),
        ensures
            final(self).wf(),
            final(self).world() == old(self).world(),
            final(self).kernel() == old(self).kernel(),
            Self::insertion(*old(self), *final(self), p, ceiling as nat, r),
    {
        if !self.bbox.contains(p) {
            return Err(InsertError::OutOfBounds);
        }
        if let Some(v) = self.find_site(p) {
            return Ok(v);
        }
        let f = match self.locate(p) {
            Some(f) => f,
            None => {
                return Err(InsertError::OutOfBounds);
            },
        };
        let c = self.corners_of(f);
        let ghost cs = Self::corner_seq(self@, f@);
        proof {
            assert(cs.skip(0) =~= cs);
        }
        let mut k: usize = 0;
        while k < 3
            invariant
                0 <= k <= 3,
                self.wf(),
                old(self).world().covers(p),
                !occupied(old(self)@, p),
                *self == *old(self),
                self@.has_face(f@),
                self@.face_box(f@).covers(p),
                Self::accepts(&self.kernel(), self@, f@, p, true),
                Self::chosen(&self.kernel(), self@, 0, p, Some(f@)),
                cs == Self::corner_seq(self@, f@),
                forall|r: Option<int>| #[trigger]
                    Self::merged(&self.kernel(), self@, cs.skip(k as int), p, r) ==> Self::merged(
                        &self.kernel(),
                        self@,
                        cs,
                        p,
                        r,
                    ),
                (c@[0]@, c@[1]@, c@[2]@) == self@.corners(f@),
                self@.has_vertex(c@[0]@) && self@.has_vertex(c@[1]@) && self@.has_vertex(c@[2]@),
                forall|j: int|
                    0 <= j < k && 3 <= (#[trigger] c@[j])@ ==> Self::merges(
                        &self.kernel(),
                        self@.vertices[c@[j]@].pos,
                        p,
                        false,
                    ),
            decreases 3 - k,
        {
            let ghost here = cs.skip(k as int);
            proof {
                assert(here.first() == c@[k as int]@);
                assert(here.drop_first() =~= cs.skip(k + 1));
            }
            if c[k].slot() >= 3 {
                let q = self.vertex_at(c[k]).pos;
                let same = self.kernel.coincide(q, p);
                proof {
                    assert(Self::merges(&self.kernel(), q, p, same));
                }
                if same {
                    proof {
                        assert(Self::corner_of(self@, f@, c@[k as int]@));
                        assert(Self::merged(&self.kernel(), self@, here, p, Some(c@[k as int]@)));
                    }
                    return Ok(c[k]);
                }
            }
            proof {
                assert forall|r: Option<int>| #[trigger]
                    Self::merged(
                        &self.kernel(),
                        self@,
                        cs.skip(k + 1),
                        p,
                        r,
                    ) implies Self::merged(&self.kernel(), self@, cs, p, r) by {
                    assert(Self::merged(&self.kernel(), self@, here, p, r));
                }
            }
            k += 1;
        }
        proof {
            assert(cs.skip(3) =~= Seq::<int>::empty());
            assert(Self::merged(&self.kernel(), self@, cs.skip(3), p, None));
        }

        let ghost t0 = self@;
        let ghost kernel = self.kernel();
        proof {
            assert forall|u: int| 3 <= u && Self::corner_of(t0, f@, u) implies #[trigger] Self::merges(
                &kernel,
                t0.vertices[u].pos,
                p,
                false,
            ) by {
                if u == c@[0]@ {
                    assert(3 <= c@[0]@);
                } else if u == c@[1]@ {
                    assert(3 <= c@[1]@);
                } else {
                    assert(3 <= c@[2]@);
                }
            }
        }
        let v = self.split_face(f, p);
        proof {
            t0.lemma_split_frame(f@, p);
            t0.lemma_split_wf(f@, p);
            t0.lemma_face_cycle(f@);
        }
        let nf = self.faces.slot_count();
        let mut work: Vec<HalfEdgeHandle> = Vec::new();
        work.push(self.face_at(f).edge);
        work.push(self.face_at(ArenaId::new(nf - 2)).edge);
        work.push(self.face_at(ArenaId::new(nf - 1)).edge);
        proof {
            let base = self@;
            assert(Self::ids(work@) =~= seq![
                t0.faces[f@],
                t0.next(t0.faces[f@]),
                t0.next(t0.next(t0.faces[f@])),
            ]);
            assert forall|g: int|
                base.has_edge(g) && #[trigger] base.can_flip(g) && base.apex(g) == v@ implies Self::waits(
                work@,
                g,
            ) by {
                t0.lemma_split_link(f@, p, g);
                assert(work@[0]@ == t0.faces[f@]);
                assert(work@[1]@ == t0.next(t0.faces[f@]));
                assert(work@[2]@ == t0.next(t0.next(t0.faces[f@])));
            }
        }
        proof {
            t0.lemma_split_away(f@, p);
        }
        let ghost base = self@;
        let how = self.restore(v, p, work, ceiling);
        proof {
            let es = choose|es: Seq<int>|
                {
                    &&& #[trigger] Self::licensed(&kernel, base, es, v@, p)
                    &&& self@ == base.flips(es)
                };
            Self::lemma_licensed(&kernel, base, es, v@, p);
            base.lemma_flips(es);
        }
        match how {
            Ending::Done => Ok(v),
            Ending::OutOfSteps => Err(InsertError::DegenerateGeometry),
            Ending::CannotTell => Err(InsertError::DegenerateGeometry),
        }
    }

    /// Makes the flips that the insertion of the vertex `v` at `p` calls
    /// for, starting from the half-edges in `pending`, in at most `ceiling`
    /// steps, and says how they ended.
    fn restore(
        &mut self,
        v: VertexHandle,
        p: Vec2,
        pending: Vec<HalfEdgeHandle>,
        ceiling: usize,
    ) -> (how: Ending)
        requires
            old(self).wf(),
            Self::settled_but(&old(self).kernel(), old(self)@, v@, p, pending@),
        ensures
            final(self).wf(),
            final(self).world() == old(self).world(),
            final(self).kernel() == old(self).kernel(),
            exists|es: Seq<int>|
                {
                    &&& #[trigger] Self::licensed(&old(self).kernel(), old(self)@, es, v@, p)
                    &&& final(self)@ == old(self)@.flips(es)
                },
            Self::cascade(
                &old(self).kernel(),
                old(self)@,
                Self::ids(pending@),
                ceiling as nat,
                v@,
                p,
                final(self)@,
                how,
            ),
            how == Ending::Done ==> Self::settled(&old(self).kernel(), final(self)@, v@, p),
            ceiling >= pending@.len() + old(self)@.away(v@).len() ==> how != Ending::OutOfSteps,
    {
        let ghost base = self@;
        let ghost kernel = self.kernel();
        let ghost start = Self::ids(pending@);
        let ghost mut es = Seq::<int>::empty();
        let mut work = pending;
        let mut budget = ceiling;
        while work.len() > 0
            invariant
                self.wf(),
                self.world() == old(self).world(),
                self.kernel() == kernel,
                kernel == old(self).kernel(),
                base == old(self)@,
                start == Self::ids(pending@),
                Self::settled_but(&kernel, self@, v@, p, work@),
                Self::licensed(&kernel, base, es, v@, p),
                self@ == base.flips(es),
                forall|out: Topology, how: Ending| #[trigger]
                    Self::cascade(&kernel, self@, Self::ids(work@), budget as nat, v@, p, out, how)
                        ==> Self::cascade(&kernel, base, start, ceiling as nat, v@, p, out, how),
                ceiling >= pending@.len() + base.away(v@).len() ==> budget >= work@.len()
                    + self@.away(v@).len(),
            decreases budget,
        {
            if budget == 0 {
                proof {
                    assert(Self::ids(work@).len() > 0);
                    assert(Self::cascade(
                        &kernel,
                        self@,
                        Self::ids(work@),
                        budget as nat,
                        v@,
                        p,
                        self@,
                        Ending::OutOfSteps,
                    ));
                }
                return Ending::OutOfSteps;
            }
            let ghost steps = budget as nat;
            let ghost waiting = work@;
            let ghost now = self@;
            budget -= 1;
            let e = match work.pop() {
                Some(e) => e,
                None => vstd::pervasive::unreached(),
            };
            let ghost rest = work@;
            proof {
                // whatever else waited still waits
                assert forall|g: int| g != e@ && Self::waits(waiting, g) implies Self::waits(
                    rest,
                    g,
                ) by {
                    let i = choose|i: int| 0 <= i < waiting.len() && (#[trigger] waiting[i])@ == g;
                    assert(rest[i]@ == g);
                }
                assert(Self::ids(waiting).last() == e@);
                assert(Self::ids(waiting).drop_last() =~= Self::ids(rest));
            }
            if self.can_flip(e) && self.apex_of(e) == v {
                proof {
                    now.lemma_flip_site(e@);
                }
                let xt = self.edge_at(self.edge_at(e).twin);
                let far = match xt.face {
                    Some(far) => far,
                    None => vstd::pervasive::unreached(),
                };
                let tri = self.triangle_of(far);
                let told = self.kernel.in_circumcircle(tri[0], tri[1], tri[2], p);
                proof {
                    assert(Self::encircles(&kernel, now, now.face(now.twin(e@))->0, p, told));
                }
                match told {
                    None => {
                        proof {
                            assert(Self::cascade(
                                &kernel,
                                now,
                                Self::ids(waiting),
                                steps,
                                v@,
                                p,
                                now,
                                Ending::CannotTell,
                            ));
                        }
                        return Ending::CannotTell;
                    },
                    Some(false) => {},
                    Some(true) => {
                        let b1 = xt.next;
                        let b2 = self.edge_at(b1).next;
                        self.flip(e);
                        work.push(b1);
                        work.push(b2);
                        proof {
                            let more = es.push(e@);
                            assert(more.drop_last() =~= es);
                            assert(more.last() == e@);
                            es = more;
                            assert(work@[work@.len() - 2] == b1);
                            assert(work@[work@.len() - 1] == b2);
                            assert(Self::ids(work@) =~= Self::ids(rest).push(b1@).push(b2@));
                            now.lemma_flip_frame(e@);
                            now.lemma_flip_away(e@);
                            assert forall|g: int|
                                self@.has_edge(g) && #[trigger] self@.can_flip(g) && self@.apex(g)
                                    == v@ implies Self::waits(work@, g) || Self::encircles(
                                &kernel,
                                self@,
                                self@.face(self@.twin(g))->0,
                                p,
                                Some(false),
                            ) by {
                                now.lemma_flip_link(e@, g);
                                if g != b1@ && g != b2@ {
                                    assert(now.can_flip(g));
                                    if Self::waits(waiting, g) {
                                        let i = choose|i: int|
                                            0 <= i < rest.len() && (#[trigger] rest[i])@ == g;
                                        assert(work@[i]@ == g);
                                    }
                                }
                            }
                        }
                    },
                }
            }
            proof {
                assert forall|out: Topology, how: Ending| #[trigger]
                    Self::cascade(
                        &kernel,
                        self@,
                        Self::ids(work@),
                        budget as nat,
                        v@,
                        p,
                        out,
                        how,
                    ) implies Self::cascade(
                    &kernel,
                    base,
                    start,
                    ceiling as nat,
                    v@,
                    p,
                    out,
                    how,
                ) by {
                    assert(Self::cascade(
                        &kernel,
                        now,
                        Self::ids(waiting),
                        steps,
                        v@,
                        p,
                        out,
                        how,
                    ));
                }
            }
        }
        proof {
            assert(Self::ids(work@) =~= Seq::<int>::empty());
            assert(Self::cascade(
                &kernel,
                self@,
                Self::ids(work@),
                budget as nat,
                v@,
                p,
                self@,
                Ending::Done,
            ));
            assert forall|g: int|
                self@.has_edge(g) && #[trigger] self@.can_flip(g) && self@.apex(g)
                    == v@ implies Self::encircles(
                &kernel,
                self@,
                self@.face(self@.twin(g))->0,
                p,
                Some(false),
            ) by {
                if Self::waits(work@, g) {
                }
            }
        }
        Ending::Done
    }
}

} // verus!
