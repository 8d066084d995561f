//! A four-way tree over bounding boxes. A branch cuts its box into four
//! quadrants, and an entry is kept in every leaf whose box it meets. A query
//! for a point passes over the branches whose boxes do not hold the point,
//! and still finds every element whose box holds it.

use crate::geo::{Bbox, Vec2};
use vstd::prelude::*;
use vstd::std_specs::cmp::PartialEqSpec;

verus! {

/// The number of entries above which a leaf is cut.
pub const LEAF_SIZE: usize = 128;

/// Decides where a full leaf is cut. The tree accepts any answer: a pivot that
/// does not cut the box into four smaller ones is ignored.
pub trait SplitPolicy {
    /// The point at which a leaf with this box should be cut, or `None` to
    /// leave the leaf whole however many entries it holds.
    fn pivot(&self, bbox: &Bbox) -> Option<Vec2>;
}

/// A spatial index from bounding boxes to elements.
pub struct Bvh<Elem> {
    root: BvhNode<Elem>,
}

/// A node of the tree.
pub enum BvhNode<Elem> {
    Leaf { elems: Vec<(Elem, Bbox)>, bbox: Bbox },
    Branch { bbox: Bbox, children: Vec<BvhNode<Elem>> },
}

/// Width plus height of a box: what shrinks from a branch to each of its children.
pub open spec fn extent(b: Bbox) -> int {
    (b.max.x - b.min.x) + (b.max.y - b.min.y)
}

/// A measure of a box that is positive on every box that holds a point and
/// smaller on each quadrant of a cut than on the box that was cut.
pub open spec fn span(b: Bbox) -> nat {
    if b.wf() {
        (extent(b) + 1) as nat
    } else {
        0
    }
}

/// Each quadrant of a cut is smaller than the box that was cut.
pub proof fn lemma_cut_shrinks(b: Bbox, p: Vec2)
    requires
        cuts(b, p),
    ensures
        forall|i: int| 0 <= i < 4 ==> span(#[trigger] b.quadrants(p)[i]) < span(b),
{
}

/// Whether `p` cuts `b` into four quadrants that are all smaller than `b`:
/// it lies in the box and is none of its corners.
pub open spec fn cuts(b: Bbox, p: Vec2) -> bool {
    &&& b.covers(p)
    &&& !((p.x == b.min.x || p.x == b.max.x) && (p.y == b.min.y || p.y == b.max.y))
}

/// `out` is what a scan of `entries` keeps when `f` is asked about each entry
/// in turn: the elements for which it answered `true`, in order.
pub open spec fn picks<Elem, F: Fn(&Elem, Vec2) -> bool>(
    entries: Seq<(Elem, Bbox)>,
    f: &F,
    p: Vec2,
    out: Seq<Elem>,
) -> bool
    decreases entries.len(),
{
    if entries.len() == 0 {
        out.len() == 0
    } else {
        let x = entries.last();
        ||| {
            &&& call_ensures(*f, (&x.0, p), true)
            &&& out.len() > 0
            &&& out.last() == x.0
            &&& picks(entries.drop_last(), f, p, out.drop_last())
        }
        ||| {
            &&& call_ensures(*f, (&x.0, p), false)
            &&& picks(entries.drop_last(), f, p, out)
        }
    }
}

/// Scanning two runs of entries one after the other keeps what each scan keeps.
pub proof fn lemma_picks_concat<Elem, F: Fn(&Elem, Vec2) -> bool>(
    a: Seq<(Elem, Bbox)>,
    b: Seq<(Elem, Bbox)>,
    f: &F,
    p: Vec2,
    out_a: Seq<Elem>,
    out_b: Seq<Elem>,
)
    requires
        picks(a, f, p, out_a),
        picks(b, f, p, out_b),
    ensures
        picks(a + b, f, p, out_a + out_b),
    decreases b.len(),
{
    if b.len() == 0 {
        assert(a + b =~= a);
        assert(out_a + out_b =~= out_a);
    } else {
        let x = b.last();
        assert((a + b).last() == x);
        assert((a + b).drop_last() =~= a + b.drop_last());
        if call_ensures(*f, (&x.0, p), true) && out_b.len() > 0 && out_b.last() == x.0 && picks(
            b.drop_last(),
            f,
            p,
            out_b.drop_last(),
        ) {
            lemma_picks_concat(a, b.drop_last(), f, p, out_a, out_b.drop_last());
            assert((out_a + out_b).drop_last() =~= out_a + out_b.drop_last());
        } else {
            lemma_picks_concat(a, b.drop_last(), f, p, out_a, out_b);
        }
    }
}

/// Whether `e` is the element of one of the entries.
pub open spec fn names<Elem>(entries: Seq<(Elem, Bbox)>, e: Elem) -> bool {
    exists|k: int| 0 <= k < entries.len() && (#[trigger] entries[k]).0 == e
}

/// Whatever `f` answers, a scan keeps only elements of the entries it scans.
pub proof fn lemma_picks_from<Elem, F: Fn(&Elem, Vec2) -> bool>(
    entries: Seq<(Elem, Bbox)>,
    f: &F,
    p: Vec2,
    out: Seq<Elem>,
)
    requires
        picks(entries, f, p, out),
    ensures
        forall|m: int| 0 <= m < out.len() ==> names(entries, #[trigger] out[m]),
    decreases entries.len(),
{
    if entries.len() > 0 {
        let x = entries.last();
        let rest = entries.drop_last();
        let kept = call_ensures(*f, (&x.0, p), true) && out.len() > 0 && out.last() == x.0
            && picks(rest, f, p, out.drop_last());
        let sub = if kept {
            out.drop_last()
        } else {
            out
        };
        lemma_picks_from(rest, f, p, sub);
        assert forall|m: int| 0 <= m < out.len() implies names(entries, #[trigger] out[m]) by {
            if kept && m == out.len() - 1 {
                assert(entries[entries.len() - 1].0 == out[m]);
            } else {
                assert(names(rest, sub[m]));
                let k = choose|k: int| 0 <= k < rest.len() && (#[trigger] rest[k]).0 == sub[m];
                assert(entries[k].0 == out[m]);
            }
        }
    }
}

/// When the answers of `f` at `p` are those of the predicate `g`, a scan
/// keeps exactly the elements of the entries that satisfy `g`.
pub proof fn lemma_picks_members<Elem, F: Fn(&Elem, Vec2) -> bool>(
    entries: Seq<(Elem, Bbox)>,
    f: &F,
    p: Vec2,
    out: Seq<Elem>,
    g: spec_fn(Elem) -> bool,
)
    requires
        picks(entries, f, p, out),
        forall|e: &Elem, r: bool| call_ensures(*f, (e, p), r) ==> r == g(*e),
    ensures
        forall|e: Elem|
            out.contains(e) <==> g(e) && exists|k: int|
                0 <= k < entries.len() && (#[trigger] entries[k]).0 == e,
    decreases entries.len(),
{
    if entries.len() > 0 {
        let x = entries.last();
        let rest = entries.drop_last();
        let kept = call_ensures(*f, (&x.0, p), true) && out.len() > 0 && out.last() == x.0
            && picks(rest, f, p, out.drop_last());
        let sub = if kept {
            out.drop_last()
        } else {
            out
        };
        lemma_picks_members(rest, f, p, sub, g);
        assert forall|e: Elem|
            out.contains(e) <==> g(e) && exists|k: int|
                0 <= k < entries.len() && (#[trigger] entries[k]).0 == e by {
            if out.contains(e) {
                let m = choose|m: int| 0 <= m < out.len() && out[m] == e;
                if kept && m == out.len() - 1 {
                    assert(entries[entries.len() - 1].0 == e);
                } else {
                    assert(sub[m] == e);
                    assert(sub.contains(e));
                    let k = choose|k: int| 0 <= k < rest.len() && (#[trigger] rest[k]).0 == e;
                    assert(entries[k].0 == e);
                }
            }
            if g(e) && exists|k: int| 0 <= k < entries.len() && (#[trigger] entries[k]).0 == e {
                let k = choose|k: int| 0 <= k < entries.len() && (#[trigger] entries[k]).0 == e;
                if k == entries.len() - 1 {
                    assert(kept);
                    assert(out[out.len() - 1] == e);
                } else {
                    assert(rest[k].0 == e);
                    assert(sub.contains(e));
                    let m = choose|m: int| 0 <= m < sub.len() && sub[m] == e;
                    assert(out[m] == e);
                }
            }
        }
    }
}

/// A query finds what a scan of all entries finds. In a tree in which every
/// entry sits wherever it could be looked for, with a predicate that accepts
/// an element only at points of its box, the elements found for a point that
/// gets into the tree are exactly the stored elements that the predicate accepts.
pub proof fn lemma_enclosing_is_scan<Elem, F: Fn(&Elem, Vec2) -> bool>(
    tree: Tree<Elem>,
    f: &F,
    p: Vec2,
    out: Seq<Elem>,
    g: spec_fn(Elem) -> bool,
)
    requires
        tree.wf(),
        tree.complete(),
        tree is Leaf || tree.bbox().covers(p),
        picks(tree.reach(p), f, p, out),
        forall|e: &Elem, r: bool| call_ensures(*f, (e, p), r) ==> r == g(*e),
        forall|k: int|
            0 <= k < tree.stored().len() && g((#[trigger] tree.stored()[k]).0)
                ==> tree.stored()[k].1.covers(p),
    ensures
        forall|e: Elem|
            out.contains(e) <==> g(e) && exists|k: int|
                0 <= k < tree.stored().len() && (#[trigger] tree.stored()[k]).0 == e,
{
    let reach = tree.reach(p);
    let stored = tree.stored();
    lemma_picks_members(reach, f, p, out, g);
    assert forall|e: Elem|
        out.contains(e) <==> g(e) && exists|k: int|
            0 <= k < stored.len() && (#[trigger] stored[k]).0 == e by {
        if out.contains(e) {
            let k = choose|k: int| 0 <= k < reach.len() && (#[trigger] reach[k]).0 == e;
            assert(reach.contains(reach[k]));
            tree.lemma_reach_is_stored(p, reach[k]);
            let m = choose|m: int| 0 <= m < stored.len() && stored[m] == reach[k];
            assert(stored[m].0 == e);
        }
        if g(e) && exists|k: int| 0 <= k < stored.len() && (#[trigger] stored[k]).0 == e {
            let k = choose|k: int| 0 <= k < stored.len() && (#[trigger] stored[k]).0 == e;
            assert(tree.holds(stored[k]));
            tree.lemma_reach_finds(p, stored[k]);
            let m = choose|m: int| 0 <= m < reach.len() && reach[m] == stored[k];
            assert(reach[m].0 == e);
        }
    }
}

/// What a node stands for: a leaf with its entries, or a branch with its children.
pub enum Tree<Elem> {
    Leaf { entries: Seq<(Elem, Bbox)>, bbox: Bbox },
    Branch { bbox: Bbox, children: Seq<Tree<Elem>> },
}

impl<Elem> Tree<Elem> {
    /// The box that the node is responsible for.
    pub open spec fn bbox(self) -> Bbox {
        match self {
            Tree::Leaf { bbox, .. } => bbox,
            Tree::Branch { bbox, .. } => bbox,
        }
    }

    /// Every entry below the node, leaf by leaf. An entry that meets several
    /// leaves occurs once for each.
    pub open spec fn stored(self) -> Seq<(Elem, Bbox)>
        decreases self,
    {
        match self {
            Tree::Leaf { entries, .. } => entries,
            Tree::Branch { children, .. } => if children.len() == 4 {
                children[0].stored() + children[1].stored() + children[2].stored()
                    + children[3].stored()
            } else {
                Seq::empty()
            },
        }
    }

    /// Every entry below the node meets the node's box.
    pub open spec fn inside(self) -> bool {
        forall|k: int|
            0 <= k < self.stored().len() ==> self.bbox().meets((#[trigger] self.stored()[k]).1)
    }

    /// A branch has four children, whose boxes are the quadrants of its box
    /// around a pivot that cuts it, and each child holds only what meets its box.
    pub open spec fn wf(self) -> bool
        decreases self,
    {
        match self {
            Tree::Leaf { .. } => true,
            Tree::Branch { bbox, children } => {
                &&& children.len() == 4
                &&& cuts(bbox, children[0].bbox().max)
                &&& forall|i: int|
                    0 <= i < 4 ==> {
                        &&& (#[trigger] children[i]).bbox() == bbox.quadrants(
                            children[0].bbox().max,
                        )[i]
                        &&& children[i].wf()
                        &&& children[i].inside()
                    }
            },
        }
    }

    /// The entry sits in every leaf below the node that it could be looked for in:
    /// in the leaf itself, or in each child whose box it meets.
    pub open spec fn holds(self, x: (Elem, Bbox)) -> bool
        decreases self,
    {
        match self {
            Tree::Leaf { entries, .. } => entries.contains(x),
            Tree::Branch { children, .. } => forall|i: int|
                0 <= i < children.len() && (#[trigger] children[i]).bbox().meets(x.1)
                    ==> children[i].holds(x),
        }
    }

    /// Every entry below the node sits wherever it could be looked for.
    pub open spec fn complete(self) -> bool {
        forall|k: int| 0 <= k < self.stored().len() ==> self.holds(#[trigger] self.stored()[k])
    }

    /// The entries that a query for `p` looks at, in the order of the scan. A
    /// leaf is scanned whole; a branch is entered only when its box holds `p`,
    /// and then its children are visited last to first.
    pub open spec fn reach(self, p: Vec2) -> Seq<(Elem, Bbox)>
        decreases self,
    {
        match self {
            Tree::Leaf { entries, .. } => entries,
            Tree::Branch { bbox, children } => if bbox.covers(p) && children.len() == 4 {
                children[3].reach(p) + children[2].reach(p) + children[1].reach(p)
                    + children[0].reach(p)
            } else {
                Seq::empty()
            },
        }
    }

    /// Every stored entry of `self` is stored in `before` or is `x`.
    pub open spec fn adds_at_most(self, before: Tree<Elem>, x: (Elem, Bbox)) -> bool {
        forall|k: int|
            0 <= k < self.stored().len() ==> before.stored().contains(#[trigger] self.stored()[k])
                || self.stored()[k] == x
    }

    /// What an insertion of `x` into `before` leaves behind, whatever the policy
    /// answered: the node keeps its box and its shape rules, `x` and everything
    /// that was held before is held, and nothing else was added. A leaf that
    /// was not cut has `x` appended; a leaf is cut only when it is full.
    pub open spec fn grown(self, before: Tree<Elem>, x: (Elem, Bbox)) -> bool {
        &&& self.wf()
        &&& self.bbox() == before.bbox()
        &&& self.holds(x)
        &&& forall|y: (Elem, Bbox)| #[trigger] before.holds(y) ==> self.holds(y)
        &&& self.adds_at_most(before, x)
        &&& match before {
            Tree::Leaf { entries, bbox } => {
                ||| self == (Tree::Leaf { entries: entries.push(x), bbox })
                ||| self is Branch && entries.len() >= LEAF_SIZE
            },
            Tree::Branch { .. } => self is Branch,
        }
    }

    /// Four children that quarter the box `b` around the pivot `p`.
    pub open spec fn quartered(kids: Seq<Tree<Elem>>, b: Bbox, p: Vec2) -> bool {
        &&& kids.len() == 4
        &&& cuts(b, p)
        &&& forall|i: int|
            0 <= i < 4 ==> {
                &&& (#[trigger] kids[i]).bbox() == b.quadrants(p)[i]
                &&& kids[i].wf()
                &&& kids[i].inside()
            }
    }

    /// The empty leaf over the box `b`.
    pub open spec fn leaf(b: Bbox) -> Tree<Elem> {
        Tree::Leaf { entries: Seq::empty(), bbox: b }
    }

    /// Whether `after` is the node that an insertion of `x` turns `self`
    /// into, given what the policy answers. A leaf takes the entry; when it
    /// then holds more than `LEAF_SIZE` entries, the policy is asked for a
    /// pivot, and if the pivot cuts the box of the leaf, the leaf becomes a
    /// branch over four leaves that are filled with its entries. A branch
    /// hands the entry to each child whose box it meets.
    pub open spec fn inserts<P: SplitPolicy>(
        self,
        x: (Elem, Bbox),
        policy: &P,
        after: Tree<Elem>,
    ) -> bool
        decreases span(self.bbox()), 0nat, 0nat,
    {
        match self {
            Tree::Leaf { entries, bbox } => {
                let more = entries.push(x);
                if more.len() > LEAF_SIZE {
                    exists|answer: Option<Vec2>|
                        {
                            &&& #[trigger] call_ensures(P::pivot, (policy, &bbox), answer)
                            &&& if answer is Some && cuts(bbox, answer->0) {
                                &&& after is Branch
                                &&& after.bbox() == bbox
                                &&& after->children.len() == 4
                                &&& forall|i: int|
                                    0 <= i < 4 ==> Self::leaf(bbox.quadrants(answer->0)[i]).fills(
                                        more,
                                        policy,
                                        #[trigger] after->children[i],
                                    )
                            } else {
                                after == (Tree::Leaf { entries: more, bbox })
                            }
                        }
                } else {
                    after == (Tree::Leaf { entries: more, bbox })
                }
            },
            Tree::Branch { bbox, children } => {
                &&& self.wf()
                &&& after is Branch
                &&& after.bbox() == bbox
                &&& after->children.len() == 4
                &&& forall|i: int|
                    0 <= i < 4 ==> if children[i].bbox().meets(x.1) {
                        children[i].inserts(x, policy, #[trigger] after->children[i])
                    } else {
                        after->children[i] == children[i]
                    }
            },
        }
    }

    /// Whether `after` is the node that `self` becomes when those of
    /// `entries` that meet its box are inserted into it one after the other.
    pub open spec fn fills<P: SplitPolicy>(
        self,
        entries: Seq<(Elem, Bbox)>,
        policy: &P,
        after: Tree<Elem>,
    ) -> bool
        decreases span(self.bbox()), 1nat, entries.len(),
    {
        if entries.len() == 0 {
            after == self
        } else {
            exists|mid: Tree<Elem>|
                {
                    &&& #[trigger] mid.bbox() == self.bbox()
                    &&& self.fills(entries.drop_last(), policy, mid)
                    &&& if self.bbox().meets(entries.last().1) {
                        mid.inserts(entries.last(), policy, after)
                    } else {
                        after == mid
                    }
                }
        }
    }

    /// One more entry: filling with `entries` is filling with all but the
    /// last of them and then inserting the last, if it meets the box.
    pub proof fn lemma_fills_one_more<P: SplitPolicy>(
        self,
        entries: Seq<(Elem, Bbox)>,
        policy: &P,
        mid: Tree<Elem>,
        after: Tree<Elem>,
    )
        requires
            entries.len() > 0,
            mid.bbox() == self.bbox(),
            self.fills(entries.drop_last(), policy, mid),
            if self.bbox().meets(entries.last().1) {
                mid.inserts(entries.last(), policy, after)
            } else {
                after == mid
            },
        ensures
            self.fills(entries, policy, after),
    {
    }

    /// A node that gained at most an entry that meets its box still holds
    /// only entries that meet its box.
    pub proof fn lemma_grown_inside(self, before: Tree<Elem>, x: (Elem, Bbox))
        requires
            self.adds_at_most(before, x),
            self.bbox() == before.bbox(),
            before.inside(),
            before.bbox().meets(x.1),
        ensures
            self.inside(),
    {
        assert forall|k: int| 0 <= k < self.stored().len() implies self.bbox().meets(
            (#[trigger] self.stored()[k]).1,
        ) by {
            let y = self.stored()[k];
            if y != x {
                let m = choose|m: int| 0 <= m < before.stored().len() && before.stored()[m] == y;
                assert(before.bbox().meets(before.stored()[m].1));
            }
        }
    }

    /// An insertion into a tree in which every entry sits wherever it could be
    /// looked for leaves such a tree.
    pub proof fn lemma_grown_complete(self, before: Tree<Elem>, x: (Elem, Bbox))
        requires
            self.grown(before, x),
            before.complete(),
        ensures
            self.complete(),
    {
        assert forall|k: int| 0 <= k < self.stored().len() implies self.holds(
            #[trigger] self.stored()[k],
        ) by {
            let y = self.stored()[k];
            if y != x {
                let m = choose|m: int| 0 <= m < before.stored().len() && before.stored()[m] == y;
                assert(before.holds(before.stored()[m]));
            }
        }
    }

    /// An entry of a branch is an entry of one of its children, and the other way round.
    pub proof fn lemma_stored_branch(self, y: (Elem, Bbox))
        requires
            self is Branch,
            self->children.len() == 4,
        ensures
            self.stored().contains(y) <==> exists|i: int|
                0 <= i < 4 && (#[trigger] self->children[i]).stored().contains(y),
    {
        let c = self->children;
        let s0 = c[0].stored();
        let s1 = c[1].stored();
        let s2 = c[2].stored();
        let s3 = c[3].stored();
        let all = self.stored();
        assert(all == s0 + s1 + s2 + s3);
        if all.contains(y) {
            let k = choose|k: int| 0 <= k < all.len() && all[k] == y;
            if k < s0.len() {
                assert(s0[k] == y);
                assert(c[0].stored().contains(y));
            } else if k < s0.len() + s1.len() {
                assert(s1[k - s0.len()] == y);
                assert(c[1].stored().contains(y));
            } else if k < s0.len() + s1.len() + s2.len() {
                assert(s2[k - s0.len() - s1.len()] == y);
                assert(c[2].stored().contains(y));
            } else {
                assert(s3[k - s0.len() - s1.len() - s2.len()] == y);
                assert(c[3].stored().contains(y));
            }
        }
        if exists|i: int| 0 <= i < 4 && (#[trigger] c[i]).stored().contains(y) {
            let i = choose|i: int| 0 <= i < 4 && (#[trigger] c[i]).stored().contains(y);
            let k = choose|k: int| 0 <= k < c[i].stored().len() && c[i].stored()[k] == y;
            if i == 0 {
                assert(all[k] == y);
            } else if i == 1 {
                assert(all[s0.len() + k] == y);
            } else if i == 2 {
                assert(all[s0.len() + s1.len() + k] == y);
            } else {
                assert(all[s0.len() + s1.len() + s2.len() + k] == y);
            }
        }
    }

    /// A query looks only at entries that are stored.
    pub proof fn lemma_reach_is_stored(self, p: Vec2, y: (Elem, Bbox))
        requires
            self.reach(p).contains(y),
        ensures
            self.stored().contains(y),
        decreases self,
    {
        if self is Branch {
            let c = self->children;
            let r = self.reach(p);
            let r3 = c[3].reach(p);
            let r2 = c[2].reach(p);
            let r1 = c[1].reach(p);
            let r0 = c[0].reach(p);
            let k = choose|k: int| 0 <= k < r.len() && r[k] == y;
            let i = if k < r3.len() {
                assert(r3[k] == y);
                3int
            } else if k < r3.len() + r2.len() {
                assert(r2[k - r3.len()] == y);
                2int
            } else if k < r3.len() + r2.len() + r1.len() {
                assert(r1[k - r3.len() - r2.len()] == y);
                1int
            } else {
                assert(r0[k - r3.len() - r2.len() - r1.len()] == y);
                0int
            };
            assert(c[i].reach(p).contains(y));
            c[i].lemma_reach_is_stored(p, y);
            self.lemma_stored_branch(y);
        }
    }

    /// A query for `p` looks at every entry that is held and whose box holds
    /// `p`, provided that the query gets into the tree at all: the root is a
    /// leaf, or its box holds `p`.
    pub proof fn lemma_reach_finds(self, p: Vec2, y: (Elem, Bbox))
        requires
            self.wf(),
            self.holds(y),
            y.1.covers(p),
            self is Leaf || self.bbox().covers(p),
        ensures
            self.reach(p).contains(y),
        decreases self,
    {
        if self is Branch {
            let c = self->children;
            let b = self.bbox();
            let pivot = c[0].bbox().max;
            b.lemma_quadrants_tile(pivot, p);
            let i = choose|i: int| 0 <= i < 4 && (#[trigger] b.quadrants(pivot)[i]).covers(p);
            assert(c[i].bbox() == b.quadrants(pivot)[i]);
            c[i].bbox().lemma_meets_iff_common_point(y.1);
            assert(c[i].bbox().meets(y.1));
            assert(c[i].holds(y));
            c[i].lemma_reach_finds(p, y);
            let r = self.reach(p);
            let r3 = c[3].reach(p);
            let r2 = c[2].reach(p);
            let r1 = c[1].reach(p);
            let r0 = c[0].reach(p);
            let k = choose|k: int| 0 <= k < c[i].reach(p).len() && c[i].reach(p)[k] == y;
            if i == 3 {
                assert(r[k] == y);
            } else if i == 2 {
                assert(r[r3.len() + k] == y);
            } else if i == 1 {
                assert(r[r3.len() + r2.len() + k] == y);
            } else {
                assert(r[r3.len() + r2.len() + r1.len() + k] == y);
            }
        }
    }

    /// An entry that is held and meets the box of the node is stored below it.
    pub proof fn lemma_held_is_stored(self, y: (Elem, Bbox))
        requires
            self.wf(),
            self.holds(y),
            self.bbox().meets(y.1),
        ensures
            self.stored().contains(y),
        decreases self,
    {
        if self is Branch {
            let c = self->children;
            let b = self.bbox();
            let pivot = c[0].bbox().max;
            b.lemma_meets_iff_common_point(y.1);
            let q = choose|q: Vec2| b.covers(q) && y.1.covers(q);
            b.lemma_quadrants_tile(pivot, q);
            let i = choose|i: int| 0 <= i < 4 && (#[trigger] b.quadrants(pivot)[i]).covers(q);
            assert(c[i].bbox() == b.quadrants(pivot)[i]);
            c[i].bbox().lemma_meets_iff_common_point(y.1);
            assert(c[i].holds(y));
            c[i].lemma_held_is_stored(y);
            self.lemma_stored_branch(y);
        }
    }

    /// The number of nodes on the longest path from the node down to a leaf.
    pub open spec fn height(self) -> nat
        decreases self,
    {
        match self {
            Tree::Leaf { .. } => 1,
            Tree::Branch { children, .. } => if children.len() == 4 {
                let a = children[0].height();
                let b = children[1].height();
                let c = children[2].height();
                let d = children[3].height();
                let ab = if a >= b { a } else { b };
                let cd = if c >= d { c } else { d };
                (if ab >= cd { ab } else { cd }) + 1
            } else {
                1
            },
        }
    }
}

impl<Elem: PartialEq> Tree<Elem> {
    /// Whether an entry survives the removal of `e`.
    pub open spec fn other_than(e: Elem) -> spec_fn((Elem, Bbox)) -> bool {
        |x: (Elem, Bbox)| !x.0.eq_spec(&e)
    }

    /// The tree after `e` was removed under the box `b`: every leaf that is
    /// reached through children that meet `b` loses its entries equal to `e`.
    pub open spec fn without(self, e: Elem, b: Bbox) -> Tree<Elem>
        decreases self,
    {
        match self {
            Tree::Leaf { entries, bbox } => Tree::Leaf {
                entries: entries.filter(Self::other_than(e)),
                bbox,
            },
            Tree::Branch { bbox, children } => Tree::Branch {
                bbox,
                children: Seq::new(
                    children.len(),
                    |i: int|
                        if 0 <= i < children.len() && children[i].bbox().meets(b) {
                            children[i].without(e, b)
                        } else {
                            children[i]
                        },
                ),
            },
        }
    }
}

impl<Elem: PartialEq> Tree<Elem> {
    /// A removal keeps the shape of the tree, adds nothing, keeps only
    /// entries that differ from `e` where it looked, and leaves every entry
    /// that differs from `e` wherever it was held.
    pub proof fn lemma_without(self, e: Elem, b: Bbox)
        requires
            self.wf(),
        ensures
            self.without(e, b).wf(),
            self.without(e, b).bbox() == self.bbox(),
            self is Leaf <==> self.without(e, b) is Leaf,
            forall|y: (Elem, Bbox)| #[trigger]
                self.without(e, b).stored().contains(y) ==> self.stored().contains(y),
            self.inside() ==> self.without(e, b).inside(),
            forall|y: (Elem, Bbox)|
                !y.0.eq_spec(&e) && #[trigger] self.holds(y) ==> self.without(e, b).holds(y),
        decreases self,
    {
        let after = self.without(e, b);
        match self {
            Tree::Leaf { entries, bbox } => {
                assert forall|y: (Elem, Bbox)| #[trigger]
                    after.stored().contains(y) implies self.stored().contains(y) by {
                    entries.lemma_filter_contains_rev(Self::other_than(e), y);
                }
                assert forall|y: (Elem, Bbox)|
                    !y.0.eq_spec(&e) && #[trigger] self.holds(y) implies after.holds(y) by {
                    let k = choose|k: int| 0 <= k < entries.len() && entries[k] == y;
                    entries.lemma_filter_contains(Self::other_than(e), k);
                }
            },
            Tree::Branch { bbox, children } => {
                assert forall|i: int| 0 <= i < 4 implies {
                    &&& (#[trigger] after->children[i]).bbox() == children[i].bbox()
                    &&& after->children[i].wf()
                    &&& after->children[i].inside()
                    &&& forall|y: (Elem, Bbox)| #[trigger]
                        after->children[i].stored().contains(y) ==> children[i].stored().contains(y)
                    &&& forall|y: (Elem, Bbox)|
                        !y.0.eq_spec(&e) && #[trigger] children[i].holds(y)
                            ==> after->children[i].holds(y)
                } by {
                    assert(children[i].wf() && children[i].inside());
                    if children[i].bbox().meets(b) {
                        children[i].lemma_without(e, b);
                    }
                }
                assert(after->children[0].bbox() == children[0].bbox());
                assert forall|y: (Elem, Bbox)| #[trigger]
                    after.stored().contains(y) implies self.stored().contains(y) by {
                    after.lemma_stored_branch(y);
                    self.lemma_stored_branch(y);
                    let i = choose|i: int|
                        0 <= i < 4 && (#[trigger] after->children[i]).stored().contains(y);
                    assert(children[i].stored().contains(y));
                }
                assert forall|y: (Elem, Bbox)|
                    !y.0.eq_spec(&e) && #[trigger] self.holds(y) implies after.holds(y) by {
                    assert forall|i: int|
                        0 <= i < 4 && (#[trigger] after->children[i]).bbox().meets(
                            y.1,
                        ) implies after->children[i].holds(y) by {
                        assert(children[i].holds(y));
                    }
                }
            },
        }
        if self.inside() {
            assert forall|k: int| 0 <= k < after.stored().len() implies after.bbox().meets(
                (#[trigger] after.stored()[k]).1,
            ) by {
                let y = after.stored()[k];
                assert(after.stored().contains(y));
                let m = choose|m: int| 0 <= m < self.stored().len() && self.stored()[m] == y;
                assert(self.bbox().meets(self.stored()[m].1));
            }
        }
    }

    /// A removal leaves every remaining entry wherever it could be looked
    /// for, provided that the entries equal to `e` all lie within the box
    /// under which `e` is removed: so it is when each element is stored under
    /// one box and removed under that box.
    pub proof fn lemma_without_complete(self, e: Elem, b: Bbox)
        requires
            self.wf(),
            self.complete(),
            forall|k: int|
                0 <= k < self.stored().len() && (#[trigger] self.stored()[k]).0.eq_spec(&e)
                    ==> self.stored()[k].1.within(b),
        ensures
            self.without(e, b).complete(),
    {
        let after = self.without(e, b);
        self.lemma_without(e, b);
        assert forall|k: int| 0 <= k < after.stored().len() implies after.holds(
            #[trigger] after.stored()[k],
        ) by {
            let y = after.stored()[k];
            assert(after.stored().contains(y));
            assert(self.stored().contains(y));
            let m = choose|m: int| 0 <= m < self.stored().len() && self.stored()[m] == y;
            assert(self.holds(self.stored()[m]));
            if y.0.eq_spec(&e) {
                self.lemma_without_gone(e, b, y);
            }
        }
    }

    /// A removal under a box takes away every entry equal to `e` whose own box
    /// lies within that box.
    pub proof fn lemma_without_gone(self, e: Elem, b: Bbox, y: (Elem, Bbox))
        requires
            self.wf(),
            y.0.eq_spec(&e),
            y.1.within(b),
        ensures
            !self.without(e, b).stored().contains(y),
        decreases self,
    {
        let after = self.without(e, b);
        if after.stored().contains(y) {
            match self {
                Tree::Leaf { entries, bbox } => {
                    let kept = entries.filter(Self::other_than(e));
                    let k = choose|k: int| 0 <= k < kept.len() && kept[k] == y;
                    entries.lemma_filter_pred(Self::other_than(e), k);
                },
                Tree::Branch { bbox, children } => {
                    after.lemma_stored_branch(y);
                    let i = choose|i: int|
                        0 <= i < 4 && (#[trigger] after->children[i]).stored().contains(y);
                    assert(children[i].wf() && children[i].inside());
                    if children[i].bbox().meets(b) {
                        children[i].lemma_without_gone(e, b, y);
                    } else {
                        let m = choose|m: int|
                            0 <= m < children[i].stored().len() && children[i].stored()[m] == y;
                        assert(children[i].bbox().meets(children[i].stored()[m].1));
                    }
                },
            }
        }
    }
}

impl<Elem> BvhNode<Elem> {
    /// The tree that the node stands for.
    pub open spec fn tree(self) -> Tree<Elem>
        decreases self,
    {
        match self {
            BvhNode::Leaf { elems, bbox } => Tree::Leaf { entries: elems@, bbox },
            BvhNode::Branch { bbox, children } => Tree::Branch {
                bbox,
                children: Seq::new(
                    children@.len(),
                    |i: int|
                        if 0 <= i < children@.len() {
                            children@[i].tree()
                        } else {
                            arbitrary()
                        },
                ),
            },
        }
    }
}

impl<Elem> View for BvhNode<Elem> {
    type V = Tree<Elem>;

    open spec fn view(&self) -> Tree<Elem> {
        self.tree()
    }
}

/// What each node of a run of nodes stands for.
pub open spec fn trees<Elem>(nodes: Seq<BvhNode<Elem>>) -> Seq<Tree<Elem>> {
    Seq::new(nodes.len(), |i: int| nodes[i]@)
}

/// Whether `p` cuts `b` into four smaller quadrants.
fn is_cut(b: &Bbox, p: Vec2) -> (r: bool)
    ensures
        r == cuts(*b, p),
{
    b.contains(p) && !((p.x == b.min.x || p.x == b.max.x) && (p.y == b.min.y || p.y == b.max.y))
}

impl<Elem: Copy> BvhNode<Elem> {
    /// What a branch stands for, child by child.
    proof fn lemma_view_branch(self)
        requires
            self is Branch,
        ensures
            self@ is Branch,
            self@->Branch_bbox == self->Branch_bbox,
            self@->children.len() == self->Branch_children@.len(),
            forall|i: int|
                0 <= i < self->Branch_children@.len() ==> (#[trigger] self@->children[i])
                    == self->Branch_children@[i]@,
            self@.wf() ==> self->Branch_children@.len() == 4,
            self@->children == trees(self->Branch_children@),
    {
        assert(self@->children =~= trees(self->Branch_children@));
    }

    /// Whether the node's box and `e_bbox` share a point.
    pub fn intersects(&self, e_bbox: Bbox) -> (r: bool)
        ensures
            r == self@.bbox().meets(e_bbox),
    {
        let bbox = match self {
            BvhNode::Branch { bbox, .. } => bbox,
            BvhNode::Leaf { bbox, .. } => bbox,
        };
        bbox.intersection(e_bbox).is_some()
    }

    /// The height of the tree below the node, the node included.
    pub fn depth(&self) -> (r: usize)
        requires
            self@.wf(),
            self@.height() <= usize::MAX,
        ensures
            r == self@.height(),
        decreases self,
    {
        match self {
            BvhNode::Leaf { .. } => 1,
            BvhNode::Branch { children, .. } => {
                proof {
                    self.lemma_view_branch();
                    assert(self@->children[0].wf() && self@->children[1].wf());
                    assert(self@->children[2].wf() && self@->children[3].wf());
                }
                let a = children[0].depth();
                let b = children[1].depth();
                let c = children[2].depth();
                let d = children[3].depth();
                let ab = if a >= b { a } else { b };
                let cd = if c >= d { c } else { d };
                (if ab >= cd { ab } else { cd }) + 1
            },
        }
    }

    /// The number of entries below the node, counted once per leaf that holds them.
    pub fn len(&self) -> (r: usize)
        requires
            self@.wf(),
            self@.stored().len() <= usize::MAX,
        ensures
            r == self@.stored().len(),
        decreases self,
    {
        match self {
            BvhNode::Leaf { elems, .. } => elems.len(),
            BvhNode::Branch { children, .. } => {
                proof {
                    self.lemma_view_branch();
                    assert(self@->children[0].wf() && self@->children[1].wf());
                    assert(self@->children[2].wf() && self@->children[3].wf());
                }
                let a = children[0].len();
                let b = children[1].len();
                let c = children[2].len();
                let d = children[3].len();
                a + b + c + d
            },
        }
    }

    /// The elements that a query for `query_point` finds: those among
    /// `reach(query_point)` for which `contains` answers `true`.
    pub fn enclosing<F: Fn(&Elem, Vec2) -> bool>(&self, query_point: Vec2, contains: &F) -> (r: Vec<Elem>)
        requires
            self@.wf(),
            forall|e: &Elem, q: Vec2| call_requires(*contains, (e, q)),
        ensures
            picks(self@.reach(query_point), contains, query_point, r@),
        decreases self,
    {
        let mut out: Vec<Elem> = Vec::new();
        match self {
            BvhNode::Leaf { elems, .. } => {
                let mut i: usize = 0;
                while i < elems.len()
                    invariant
                        0 <= i <= elems@.len(),
                        forall|e: &Elem, q: Vec2| call_requires(*contains, (e, q)),
                        picks(elems@.take(i as int), contains, query_point, out@),
                    decreases elems@.len() - i,
                {
                    let ghost before = out@;
                    let keep = contains(&elems[i].0, query_point);
                    if keep {
                        out.push(elems[i].0);
                    }
                    proof {
                        let now = elems@.take(i + 1);
                        assert(now.drop_last() =~= elems@.take(i as int));
                        assert(now.last() == elems@[i as int]);
                        if keep {
                            assert(out@.drop_last() =~= before);
                        }
                    }
                    i += 1;
                }
                assert(elems@.take(i as int) =~= elems@);
            },
            BvhNode::Branch { children, bbox } => {
                proof {
                    self.lemma_view_branch();
                    assert(self@->children[0].wf() && self@->children[1].wf());
                    assert(self@->children[2].wf() && self@->children[3].wf());
                }
                if bbox.contains(query_point) {
                    let mut r3 = children[3].enclosing(query_point, contains);
                    let mut r2 = children[2].enclosing(query_point, contains);
                    let mut r1 = children[1].enclosing(query_point, contains);
                    let mut r0 = children[0].enclosing(query_point, contains);
                    proof {
                        let p = query_point;
                        lemma_picks_concat(children@[3]@.reach(p), children@[2]@.reach(p), contains, p, r3@, r2@);
                        lemma_picks_concat(
                            children@[3]@.reach(p) + children@[2]@.reach(p),
                            children@[1]@.reach(p),
                            contains,
                            p,
                            r3@ + r2@,
                            r1@,
                        );
                        lemma_picks_concat(
                            children@[3]@.reach(p) + children@[2]@.reach(p) + children@[1]@.reach(p),
                            children@[0]@.reach(p),
                            contains,
                            p,
                            r3@ + r2@ + r1@,
                            r0@,
                        );
                    }
                    let ghost found = r3@ + r2@ + r1@ + r0@;
                    out.append(&mut r3);
                    out.append(&mut r2);
                    out.append(&mut r1);
                    out.append(&mut r0);
                    assert(out@ =~= found);
                }
            },
        }
        out
    }

    /// Removes the entries equal to `e` from every leaf that is reached
    /// through children whose boxes meet `bbox`.
    pub fn remove(&mut self, e: &Elem, bbox: Bbox) where Elem: Eq
        requires
            old(self)@.wf(),
            Elem::obeys_eq_spec(),
        ensures
            final(self)@ == old(self)@.without(*e, bbox),
        decreases old(self)@.height(),
    {
        match self {
            BvhNode::Leaf { elems, .. } => {
                let mut kept: Vec<(Elem, Bbox)> = Vec::new();
                let mut i: usize = 0;
                while i < elems.len()
                    invariant
                        0 <= i <= elems@.len(),
                        Elem::obeys_eq_spec(),
                        kept@ == elems@.take(i as int).filter(Tree::<Elem>::other_than(*e)),
                    decreases elems@.len() - i,
                {
                    let x = elems[i];
                    proof {
                        assert(elems@.take(i + 1) =~= elems@.take(i as int).push(x));
                        elems@.take(i as int).lemma_filter_push(x, Tree::<Elem>::other_than(*e));
                    }
                    if x.0 != *e {
                        kept.push(x);
                    }
                    i += 1;
                }
                assert(elems@.take(i as int) =~= elems@);
                *elems = kept;
            },
            BvhNode::Branch { children, .. } => {
                proof {
                    old(self).lemma_view_branch();
                    assert(old(self)@->children[0].wf() && old(self)@->children[1].wf());
                    assert(old(self)@->children[2].wf() && old(self)@->children[3].wf());
                }
                let ghost before = children@;
                let ghost top = old(self)@.height();
                let mut i: usize = 0;
                while i < 4
                    invariant
                        0 <= i <= 4,
                        Elem::obeys_eq_spec(),
                        before.len() == 4,
                        children@.len() == 4,
                        forall|j: int| 0 <= j < 4 ==> (#[trigger] before[j])@.wf(),
                        forall|j: int| 0 <= j < 4 ==> (#[trigger] before[j])@.height() < top,
                        top == old(self)@.height(),
                        forall|j: int| i <= j < 4 ==> #[trigger] children@[j] == before[j],
                        forall|j: int|
                            0 <= j < i ==> (#[trigger] children@[j])@ == (if before[j]@.bbox().meets(
                                bbox,
                            ) {
                                before[j]@.without(*e, bbox)
                            } else {
                                before[j]@
                            }),
                    decreases 4 - i,
                {
                    if children[i].intersects(bbox) {
                        children[i].remove(e, bbox);
                    }
                    i += 1;
                }
            },
        }
        proof {
            if *self is Branch {
                self.lemma_view_branch();
                old(self).lemma_view_branch();
                let want = old(self)@.without(*e, bbox);
                assert forall|j: int| 0 <= j < 4 implies #[trigger] self@->children[j]
                    == want->children[j] by {
                    assert(self@->children[j] == self->Branch_children@[j]@);
                    assert(old(self)@->children[j] == old(self)->Branch_children@[j]@);
                }
                assert(self@->children =~= want->children);
            }
        }
    }

    /// Cuts a full leaf: four empty leaves over the quadrants of `bbox` around
    /// `pivot` take each entry that meets them.
    fn split<P: SplitPolicy>(elems: Vec<(Elem, Bbox)>, bbox: Bbox, pivot: Vec2, policy: &P) -> (node:
        Self)
        requires
            cuts(bbox, pivot),
        ensures
            node@ is Branch,
            node@.wf(),
            node@.bbox() == bbox,
            node@->children.len() == 4,
            forall|i: int|
                0 <= i < 4 ==> Tree::leaf(bbox.quadrants(pivot)[i]).fills(
                    elems@,
                    policy,
                    #[trigger] node@->children[i],
                ),
            forall|k: int| 0 <= k < elems@.len() ==> node@.holds(#[trigger] elems@[k]),
            forall|k: int|
                0 <= k < node@.stored().len() ==> elems@.contains(#[trigger] node@.stored()[k]),
        decreases span(bbox), 1nat,
    {
        let quads = bbox.split(pivot);
        let mut children: Vec<BvhNode<Elem>> = Vec::with_capacity(4);
        children.push(BvhNode::Leaf { elems: Vec::with_capacity(LEAF_SIZE), bbox: quads[0] });
        children.push(BvhNode::Leaf { elems: Vec::with_capacity(LEAF_SIZE), bbox: quads[1] });
        children.push(BvhNode::Leaf { elems: Vec::with_capacity(LEAF_SIZE), bbox: quads[2] });
        children.push(BvhNode::Leaf { elems: Vec::with_capacity(LEAF_SIZE), bbox: quads[3] });
        proof {
            bbox.lemma_quadrants_tile(pivot, pivot);
            assert forall|i: int| 0 <= i < 4 implies (#[trigger] trees(children@)[i]).inside() by {
                assert(trees(children@)[i].stored().len() == 0);
            }
            assert forall|i: int| 0 <= i < 4 implies Tree::leaf(bbox.quadrants(pivot)[i]).fills(
                elems@.take(0),
                policy,
                (#[trigger] children@[i])@,
            ) by {
                assert(children@[i]@ == Tree::<Elem>::leaf(bbox.quadrants(pivot)[i]));
            }
        }

        let mut j: usize = 0;
        while j < elems.len()
            invariant
                0 <= j <= elems@.len(),
                cuts(bbox, pivot),
                Tree::quartered(trees(children@), bbox, pivot),
                forall|i: int|
                    0 <= i < 4 ==> Tree::leaf(bbox.quadrants(pivot)[i]).fills(
                        elems@.take(j as int),
                        policy,
                        (#[trigger] children@[i])@,
                    ),
                forall|k: int, i: int|
                    0 <= k < j && 0 <= i < 4 && bbox.quadrants(pivot)[i].meets(elems@[k].1)
                        ==> #[trigger] children@[i]@.holds(elems@[k]),
                forall|i: int, m: int|
                    0 <= i < 4 && 0 <= m < children@[i]@.stored().len() ==> elems@.contains(
                        #[trigger] children@[i]@.stored()[m],
                    ),
            decreases elems@.len() - j,
        {
            let x = elems[j];
            let ghost before = children@;
            Self::insert_among(&mut children, x.0, x.1, policy, Ghost(bbox), Ghost(pivot));
            proof {
                assert forall|i: int| 0 <= i < 4 implies Tree::leaf(
                    bbox.quadrants(pivot)[i],
                ).fills(elems@.take(j + 1), policy, (#[trigger] children@[i])@) by {
                    let start = Tree::<Elem>::leaf(bbox.quadrants(pivot)[i]);
                    let upto = elems@.take(j + 1);
                    let mid = before[i]@;
                    assert(upto.drop_last() =~= elems@.take(j as int));
                    assert(upto.last() == x);
                    assert(trees(before)[i] == mid);
                    assert(mid.bbox() == start.bbox());
                    assert(start.fills(upto.drop_last(), policy, mid));
                    let after = children@[i]@;
                    if start.bbox().meets(x.1) {
                        assert(mid.inserts(x, policy, after));
                    } else {
                        assert(after == mid);
                    }
                    start.lemma_fills_one_more(upto, policy, mid, after);
                }
                assert forall|k: int, i: int|
                    0 <= k < j + 1 && 0 <= i < 4 && bbox.quadrants(pivot)[i].meets(
                        elems@[k].1,
                    ) implies #[trigger] children@[i]@.holds(elems@[k]) by {
                    assert(trees(before)[i] == before[i]@);
                    if k < j {
                        assert(before[i]@.holds(elems@[k]));
                    }
                }
                assert forall|i: int, m: int|
                    0 <= i < 4 && 0 <= m < children@[i]@.stored().len() implies elems@.contains(
                    #[trigger] children@[i]@.stored()[m],
                ) by {
                    let y = children@[i]@.stored()[m];
                    if bbox.quadrants(pivot)[i].meets(x.1) {
                        assert(children@[i]@.adds_at_most(before[i]@, x));
                        if y != x {
                            let n = choose|n: int|
                                0 <= n < before[i]@.stored().len() && before[i]@.stored()[n] == y;
                            assert(elems@.contains(before[i]@.stored()[n]));
                        } else {
                            assert(elems@[j as int] == x);
                        }
                    }
                }
            }
            j += 1;
        }
        assert(elems@.take(j as int) =~= elems@);
        let node = BvhNode::Branch { bbox, children };
        proof {
            node.lemma_view_branch();
            assert forall|k: int| 0 <= k < elems@.len() implies node@.holds(
                #[trigger] elems@[k],
            ) by {
                assert forall|i: int|
                    0 <= i < 4 && (#[trigger] node@->children[i]).bbox().meets(
                        elems@[k].1,
                    ) implies node@->children[i].holds(elems@[k]) by {
                    assert(trees(children@)[i] == children@[i]@);
                    assert(children@[i]@.holds(elems@[k]));
                }
            }
            assert forall|k: int| 0 <= k < node@.stored().len() implies elems@.contains(
                #[trigger] node@.stored()[k],
            ) by {
                let y = node@.stored()[k];
                node@.lemma_stored_branch(y);
                let i = choose|i: int|
                    0 <= i < 4 && (#[trigger] node@->children[i]).stored().contains(y);
                let m = choose|m: int|
                    0 <= m < children@[i]@.stored().len() && children@[i]@.stored()[m] == y;
                assert(elems@.contains(children@[i]@.stored()[m]));
            }
        }
        node
    }

    /// Inserts the entry into each of the four children whose box it meets.
    fn insert_among<P: SplitPolicy>(
        children: &mut Vec<BvhNode<Elem>>,
        e: Elem,
        e_bbox: Bbox,
        policy: &P,
        Ghost(b): Ghost<Bbox>,
        Ghost(p): Ghost<Vec2>,
    )
        requires
            Tree::quartered(trees(old(children)@), b, p),
        ensures
            Tree::quartered(trees(final(children)@), b, p),
            forall|i: int|
                0 <= i < 4 ==> if b.quadrants(p)[i].meets(e_bbox) {
                    &&& (#[trigger] final(children)@[i])@.grown(old(children)@[i]@, (e, e_bbox))
                    &&& old(children)@[i]@.inserts((e, e_bbox), policy, final(children)@[i]@)
                } else {
                    final(children)@[i]@ == old(children)@[i]@
                },
        decreases span(b), 0nat,
    {
        let ghost before = children@;
        proof {
            lemma_cut_shrinks(b, p);
        }
        let mut i: usize = 0;
        while i < 4
            invariant
                0 <= i <= 4,
                before == old(children)@,
                children@.len() == 4,
                Tree::quartered(trees(before), b, p),
                forall|j: int| 0 <= j < 4 ==> span(#[trigger] b.quadrants(p)[j]) < span(b),
                forall|j: int| i <= j < 4 ==> #[trigger] children@[j] == before[j],
                forall|j: int|
                    0 <= j < i ==> if b.quadrants(p)[j].meets(e_bbox) {
                        &&& (#[trigger] children@[j])@.grown(before[j]@, (e, e_bbox))
                        &&& before[j]@.inserts((e, e_bbox), policy, children@[j]@)
                    } else {
                        children@[j]@ == before[j]@
                    },
            decreases 4 - i,
        {
            assert(trees(before)[i as int] == before[i as int]@);
            if children[i].intersects(e_bbox) {
                children[i].insert(e, e_bbox, policy);
            }
            i += 1;
        }
        proof {
            assert forall|j: int| 0 <= j < 4 implies {
                &&& (#[trigger] trees(children@)[j]).bbox() == b.quadrants(p)[j]
                &&& trees(children@)[j].wf()
                &&& trees(children@)[j].inside()
            } by {
                assert(trees(before)[j] == before[j]@);
                assert(trees(children@)[j] == children@[j]@);
                if b.quadrants(p)[j].meets(e_bbox) {
                    children@[j]@.lemma_grown_inside(before[j]@, (e, e_bbox));
                }
            }
        }
    }

    /// Adds the entry to every leaf below the node whose box it meets (to the
    /// node itself when it is a leaf). A leaf that then holds more than
    /// `LEAF_SIZE` entries is cut where the policy says, if the policy names a
    /// pivot that cuts its box.
    pub fn insert<P: SplitPolicy>(&mut self, e: Elem, e_bbox: Bbox, policy: &P)
        requires
            old(self)@.wf(),
        ensures
            old(self)@.inserts((e, e_bbox), policy, final(self)@),
            final(self)@.grown(old(self)@, (e, e_bbox)),
        decreases span(old(self)@.bbox()), 2nat,
    {
        let ghost x = (e, e_bbox);
        match self {
            BvhNode::Leaf { elems, bbox } => {
                let ghost entries = elems@;
                elems.push((e, e_bbox));
                assert(elems@.last() == x);
                assert forall|y: (Elem, Bbox)| entries.contains(y) implies elems@.contains(y) by {
                    let k = choose|k: int| 0 <= k < entries.len() && entries[k] == y;
                    assert(elems@[k] == y);
                }
                assert forall|k: int| 0 <= k < elems@.len() implies entries.contains(
                    #[trigger] elems@[k],
                ) || elems@[k] == x by {
                    if k < entries.len() {
                        assert(entries[k] == elems@[k]);
                    }
                }
                if elems.len() > LEAF_SIZE {
                    let b = *bbox;
                    if let Some(p) = policy.pivot(&b) {
                        if is_cut(&b, p) {
                            let mut taken: Vec<(Elem, Bbox)> = Vec::new();
                            core::mem::swap(elems, &mut taken);
                            let node = BvhNode::split(taken, b, p, policy);
                            proof {
                                assert forall|y: (Elem, Bbox)| entries.contains(y) implies node@.holds(
                                    y,
                                ) by {
                                    let k = choose|k: int| 0 <= k < entries.len() && entries[k] == y;
                                    assert(taken@[k] == y);
                                }
                                assert(node@.holds(taken@[taken@.len() - 1]));
                                assert forall|k: int| 0 <= k < node@.stored().len() implies entries.contains(
                                    #[trigger] node@.stored()[k],
                                ) || node@.stored()[k] == x by {
                                    let y = node@.stored()[k];
                                    let m = choose|m: int| 0 <= m < taken@.len() && taken@[m] == y;
                                    assert(entries.contains(taken@[m]) || taken@[m] == x);
                                }
                            }
                            *self = node;
                        }
                    }
                }
            },
            BvhNode::Branch { children, bbox } => {
                proof {
                    old(self).lemma_view_branch();
                }
                let ghost pivot = old(self)@->children[0].bbox().max;
                Self::insert_among(children, e, e_bbox, policy, Ghost(*bbox), Ghost(pivot));
            },
        }
        proof {
            if *old(self) is Branch {
                let was = old(self)@;
                let now = self@;
                self.lemma_view_branch();
                old(self).lemma_view_branch();
                assert forall|i: int| 0 <= i < 4 implies (#[trigger] now->children[i])
                    == self->Branch_children@[i]@ && was->children[i] == old(
                    self,
                )->Branch_children@[i]@ by {}
                assert forall|y: (Elem, Bbox)| #[trigger] was.holds(y) implies now.holds(y) by {
                    assert forall|i: int|
                        0 <= i < 4 && (#[trigger] now->children[i]).bbox().meets(
                            y.1,
                        ) implies now->children[i].holds(y) by {
                        assert(was->children[i].holds(y));
                    }
                }
                assert forall|k: int| 0 <= k < now.stored().len() implies was.stored().contains(
                    #[trigger] now.stored()[k],
                ) || now.stored()[k] == x by {
                    let y = now.stored()[k];
                    now.lemma_stored_branch(y);
                    was.lemma_stored_branch(y);
                    let i = choose|i: int|
                        0 <= i < 4 && (#[trigger] now->children[i]).stored().contains(y);
                    let m = choose|m: int|
                        0 <= m < now->children[i].stored().len() && now->children[i].stored()[m]
                            == y;
                    if y != x {
                        assert(was->children[i].stored().contains(now->children[i].stored()[m]));
                    }
                }
            }
        }
    }
}

impl<Elem> View for Bvh<Elem> {
    type V = Tree<Elem>;

    closed spec fn view(&self) -> Tree<Elem> {
        self.root@
    }
}

impl<Elem: Copy> Bvh<Elem> {
    /// An empty index over `bbox`: a single leaf.
    pub fn new(bbox: Bbox) -> (bvh: Self)
        ensures
            bvh@ == (Tree::Leaf { entries: Seq::<(Elem, Bbox)>::empty(), bbox }),
            bvh@.wf(),
            bvh@.complete(),
    {
        Bvh { root: BvhNode::Leaf { elems: Vec::with_capacity(LEAF_SIZE), bbox } }
    }

    /// The height of the tree.
    pub fn depth(&self) -> (r: usize)
        requires
            self@.wf(),
            self@.height() <= usize::MAX,
        ensures
            r == self@.height(),
    {
        self.root.depth()
    }

    /// The number of stored entries, which counts an element once for every
    /// leaf that holds it.
    pub fn len(&self) -> (r: usize)
        requires
            self@.wf(),
            self@.stored().len() <= usize::MAX,
        ensures
            r == self@.stored().len(),
    {
        self.root.len()
    }

    /// Adds `e` under the box `bbox`.
    pub fn insert<P: SplitPolicy>(&mut self, e: Elem, bbox: Bbox, policy: &P)
        requires
            old(self)@.wf(),
        ensures
            old(self)@.inserts((e, bbox), policy, final(self)@),
            final(self)@.grown(old(self)@, (e, bbox)),
            old(self)@.complete() ==> final(self)@.complete(),
    {
        proof {
            if self@.complete() {
                assert forall|t: Tree<Elem>| #[trigger]
                    t.grown(self@, (e, bbox)) implies t.complete() by {
                    t.lemma_grown_complete(self@, (e, bbox));
                }
            }
        }
        self.root.insert(e, bbox, policy);
    }

    /// Removes `e` from every leaf that is reached through children whose
    /// boxes meet `bbox`.
    pub fn remove(&mut self, e: &Elem, bbox: Bbox) where Elem: Eq
        requires
            old(self)@.wf(),
            Elem::obeys_eq_spec(),
        ensures
            final(self)@ == old(self)@.without(*e, bbox),
    {
        self.root.remove(e, bbox)
    }

    /// The elements that `contains` accepts at `refpoint`, among the entries
    /// that a query for `refpoint` looks at. An element that sits in several
    /// leaves may come out several times.
    pub fn enclosing<F: Fn(&Elem, Vec2) -> bool>(&self, refpoint: Vec2, contains: F) -> (r: Vec<
        Elem,
    >)
        requires
            self@.wf(),
            forall|e: &Elem, q: Vec2| call_requires(contains, (e, q)),
        ensures
            picks(self@.reach(refpoint), &contains, refpoint, r@),
    {
        self.root.enclosing(refpoint, &contains)
    }
}

} // verus!
