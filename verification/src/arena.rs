//! A vector-backed arena with a free list. Values are addressed through
//! typed handles that stay valid until the value is removed.

use core::marker::PhantomData;
use vstd::prelude::*;

verus! {

/// One slot of the backing vector.
enum Node<T> {
    Free { next_free: Option<usize> },
    Occupied(T),
}

/// A container that hands out a handle for every value pushed into it. The
/// handles carry the arena's tag, which is the value type unless another is named.
pub struct Arena<T, Tag = T> {
    data: Vec<Node<T>>,
    first_free: Option<usize>,
    free: Ghost<Seq<int>>,
    tag: PhantomData<Tag>,
}

/// A handle into an [`Arena`]. The tag keeps handles of different arenas apart.
#[derive(Debug, Hash)]
pub struct ArenaId<Tag> {
    ix: usize,
    tag: PhantomData<Tag>,
}

impl<Tag> View for ArenaId<Tag> {
    type V = int;

    /// The slot that the handle names.
    closed spec fn view(&self) -> int {
        self.ix as int
    }
}

impl<Tag> ArenaId<Tag> {
    /// The handle that names slot `i`.
    pub closed spec fn at(i: int) -> Self {
        ArenaId { ix: i as usize, tag: PhantomData }
    }

    /// `at` and the view undo each other.
    pub broadcast proof fn lemma_at(i: int)
        requires
            0 <= i <= usize::MAX,
        ensures
            (#[trigger] Self::at(i))@ == i,
    {
    }

    /// The handle of slot `ix`.
    pub fn new(ix: usize) -> (id: Self)
        ensures
            id@ == ix,
            id == Self::at(ix as int),
    {
        ArenaId { ix, tag: PhantomData }
    }

    /// The number of the slot.
    pub fn slot(&self) -> (ix: usize)
        ensures
            ix == self@,
    {
        self.ix
    }

    /// Two handles with the same slot are the same handle.
    pub broadcast proof fn lemma_view_injective(a: Self, b: Self)
        ensures
            #[trigger] a@ == #[trigger] b@ ==> a == b,
    {
    }
}

impl<Tag> Clone for ArenaId<Tag> {
    fn clone(&self) -> (r: Self)
        ensures
            r == *self,
    {
        ArenaId { ix: self.ix, tag: PhantomData }
    }
}

impl<Tag> Copy for ArenaId<Tag> {

}

impl<Tag> PartialEq for ArenaId<Tag> {
    fn eq(&self, rhs: &ArenaId<Tag>) -> (r: bool) {
        self.ix == rhs.ix
    }
}

impl<Tag> Eq for ArenaId<Tag> {

}

impl<Tag> vstd::std_specs::cmp::PartialEqSpecImpl for ArenaId<Tag> {
    open spec fn obeys_eq_spec() -> bool {
        true
    }

    open spec fn eq_spec(&self, rhs: &ArenaId<Tag>) -> bool {
        self@ == rhs@
    }
}

impl<T, Tag> Arena<T, Tag> {
    /// What a slot stands for: its value, or nothing when it is free.
    spec fn slot_model(n: Node<T>) -> Option<T> {
        match n {
            Node::Free { .. } => None,
            Node::Occupied(t) => Some(t),
        }
    }

    /// The slots in order: `Some(v)` where a value lives, `None` where the slot is free.
    pub closed spec fn view(&self) -> Seq<Option<T>> {
        Seq::new(self.data@.len(), |i: int| Self::slot_model(self.data@[i]))
    }

    /// The free slots, the one that the next `push` reuses first.
    pub closed spec fn free_list(&self) -> Seq<int> {
        self.free@
    }

    /// The link stored in the `k`-th slot of the free list.
    spec fn link(free: Seq<int>, k: int) -> Option<usize> {
        if k + 1 < free.len() {
            Some(free[k + 1] as usize)
        } else {
            None
        }
    }

    /// The `k`-th slot of the free list is free and links to the slot after it.
    spec fn threaded(data: Seq<Node<T>>, free: Seq<int>, k: int) -> bool {
        &&& 0 <= free[k] < data.len()
        &&& data[free[k]] == (Node::<T>::Free { next_free: Self::link(free, k) })
    }

    /// The free list threads exactly the free slots, each once, starting at `first_free`.
    pub closed spec fn wf(&self) -> bool {
        Self::threads(self.data@, self.free@, self.first_free)
    }

    /// `free` threads exactly the free slots of `data`, each once, starting at `first`.
    spec fn threads(data: Seq<Node<T>>, free: Seq<int>, first: Option<usize>) -> bool {
        &&& free.no_duplicates()
        &&& forall|k: int| 0 <= k < free.len() ==> #[trigger] Self::threaded(data, free, k)
        &&& forall|i: int| 0 <= i < data.len() && (#[trigger] data[i]) is Free ==> free.contains(i)
        &&& first == Self::link(free, -1)
    }

    /// Writing a value over a value leaves the free list as it is.
    proof fn lemma_overwrite(
        data: Seq<Node<T>>,
        free: Seq<int>,
        first: Option<usize>,
        i: int,
        v: T,
    )
        requires
            Self::threads(data, free, first),
            0 <= i < data.len(),
            data[i] is Occupied,
        ensures
            Self::threads(data.update(i, Node::Occupied(v)), free, first),
    {
        let after = data.update(i, Node::Occupied(v));
        assert forall|k: int| 0 <= k < free.len() implies #[trigger] Self::threaded(
            after,
            free,
            k,
        ) by {
            assert(Self::threaded(data, free, k));
        }
        assert forall|j: int| 0 <= j < after.len() && (#[trigger] after[j]) is Free implies free.contains(
            j,
        ) by {
            assert(data[j] is Free);
        }
    }

    /// The free list names exactly the free slots, each once.
    pub open spec fn consistent(slots: Seq<Option<T>>, free: Seq<int>) -> bool {
        &&& free.no_duplicates()
        &&& forall|i: int| free.contains(i) <==> 0 <= i < slots.len() && slots[i] is None
    }

    /// The slot that the next `push` fills: the head of the free list, or a new slot at the end.
    pub open spec fn next_slot(slots: Seq<Option<T>>, free: Seq<int>) -> int {
        if free.len() > 0 {
            free[0]
        } else {
            slots.len() as int
        }
    }

    /// Slots and free list after `v` was pushed.
    pub open spec fn pushed(slots: Seq<Option<T>>, free: Seq<int>, v: T) -> (Seq<Option<T>>, Seq<int>) {
        if free.len() > 0 {
            (slots.update(free[0], Some(v)), free.drop_first())
        } else {
            (slots.push(Some(v)), free)
        }
    }

    /// Slots and free list after slot `i` was removed: unchanged unless the slot held a value.
    pub open spec fn removed(slots: Seq<Option<T>>, free: Seq<int>, i: int) -> (Seq<Option<T>>, Seq<int>) {
        if 0 <= i < slots.len() && slots[i] is Some {
            (slots.update(i, None), seq![i] + free)
        } else {
            (slots, free)
        }
    }

    /// A well-formed arena's free list names exactly its free slots.
    pub proof fn lemma_consistent(&self)
        requires
            self.wf(),
        ensures
            Self::consistent(self@, self.free_list()),
    {
        let free = self.free@;
        assert forall|i: int| free.contains(i) <==> 0 <= i < self@.len() && self@[i] is None by {
            if free.contains(i) {
                let k = choose|k: int| 0 <= k < free.len() && free[k] == i;
                assert(Self::threaded(self.data@, free, k));
            }
            if 0 <= i < self@.len() && self@[i] is None {
                assert(self.data@[i] is Free);
            }
        }
    }

    /// A handle dies with `remove`, and the next `push` hands the same slot out
    /// again: after `h = push(v)` and `remove(h)`, slot `h` holds nothing, and a
    /// further `push` returns a handle equal to `h`.
    pub proof fn lemma_removed_slot_is_reused(slots: Seq<Option<T>>, free: Seq<int>, v: T, w: T)
        requires
            Self::consistent(slots, free),
        ensures
            ({
                let h = Self::next_slot(slots, free);
                let (s1, f1) = Self::pushed(slots, free, v);
                let (s2, f2) = Self::removed(s1, f1, h);
                let (s3, f3) = Self::pushed(s2, f2, w);
                &&& s1[h] == Some(v)
                &&& s2[h] is None
                &&& Self::consistent(s1, f1)
                &&& Self::consistent(s2, f2)
                &&& Self::next_slot(s2, f2) == h
                &&& s3[h] == Some(w)
            }),
    {
        let h = Self::next_slot(slots, free);
        if free.len() > 0 {
            assert(free.contains(free[0]));
        }
        Self::lemma_pushed_consistent(slots, free, v);
        let (s1, f1) = Self::pushed(slots, free, v);
        Self::lemma_removed_consistent(s1, f1, h);
    }

    /// `pushed` keeps the free list exact.
    pub proof fn lemma_pushed_consistent(slots: Seq<Option<T>>, free: Seq<int>, v: T)
        requires
            Self::consistent(slots, free),
        ensures
            Self::consistent(Self::pushed(slots, free, v).0, Self::pushed(slots, free, v).1),
    {
        let (s1, f1) = Self::pushed(slots, free, v);
        if free.len() > 0 {
            assert(free.contains(free[0]));
            assert forall|i: int| f1.contains(i) <==> 0 <= i < s1.len() && s1[i] is None by {
                if f1.contains(i) {
                    let k = choose|k: int| 0 <= k < f1.len() && f1[k] == i;
                    assert(free[k + 1] == i);
                    assert(free.contains(i));
                }
                if 0 <= i < s1.len() && s1[i] is None {
                    assert(free.contains(i));
                    let k = choose|k: int| 0 <= k < free.len() && free[k] == i;
                    assert(f1[k - 1] == i);
                }
            }
        } else {
            assert forall|i: int| f1.contains(i) <==> 0 <= i < s1.len() && s1[i] is None by {
                if 0 <= i < s1.len() && s1[i] is None {
                    assert(slots[i] is None);
                }
            }
        }
    }

    /// `removed` keeps the free list exact.
    pub proof fn lemma_removed_consistent(slots: Seq<Option<T>>, free: Seq<int>, i: int)
        requires
            Self::consistent(slots, free),
        ensures
            Self::consistent(Self::removed(slots, free, i).0, Self::removed(slots, free, i).1),
    {
        let (s1, f1) = Self::removed(slots, free, i);
        if 0 <= i < slots.len() && slots[i] is Some {
            assert(!free.contains(i));
            assert forall|j: int| f1.contains(j) <==> 0 <= j < s1.len() && s1[j] is None by {
                if f1.contains(j) {
                    let k = choose|k: int| 0 <= k < f1.len() && f1[k] == j;
                    if k > 0 {
                        assert(free[k - 1] == j);
                        assert(free.contains(j));
                    }
                }
                if 0 <= j < s1.len() && s1[j] is None {
                    if j == i {
                        assert(f1[0] == j);
                    } else {
                        assert(free.contains(j));
                        let k = choose|k: int| 0 <= k < free.len() && free[k] == j;
                        assert(f1[k + 1] == j);
                    }
                }
            }
        }
    }

    /// Every slot holds a value.
    pub open spec fn full(&self) -> bool {
        forall|i: int| 0 <= i < self@.len() ==> (#[trigger] self@[i]) is Some
    }

    /// The values of an arena in which every slot holds one.
    pub open spec fn values(&self) -> Seq<T> {
        Seq::new(self@.len(), |i: int| self@[i]->0)
    }

    /// The number of slots fits the machine.
    pub proof fn lemma_len_fits(&self)
        ensures
            self@.len() <= usize::MAX,
    {
        assert(self.data@.len() == self.data.len());
    }

    /// In a well-formed arena in which every slot holds a value the free
    /// list is empty, so the next `push` adds a slot.
    pub proof fn lemma_full(&self)
        requires
            self.wf(),
            self.full(),
        ensures
            self.free_list().len() == 0,
    {
        self.lemma_consistent();
        if self.free_list().len() > 0 {
            assert(self.free_list().contains(self.free_list()[0]));
        }
    }

    /// Whether `id` names a slot that holds a value.
    pub open spec fn contains(&self, id: ArenaId<Tag>) -> bool {
        0 <= id@ < self@.len() && self@[id@] is Some
    }

    /// The value behind `id`.
    pub open spec fn value(&self, id: ArenaId<Tag>) -> T
        recommends
            self.contains(id),
    {
        self@[id@]->0
    }

    /// The occupied slots below `n`, in ascending order.
    pub open spec fn occupied_below(s: Seq<Option<T>>, n: int) -> Seq<int>
        decreases n,
    {
        if n <= 0 {
            Seq::empty()
        } else if s[n - 1] is Some {
            Self::occupied_below(s, n - 1).push(n - 1)
        } else {
            Self::occupied_below(s, n - 1)
        }
    }

    /// The occupied slots in ascending order: the order in which the arena is walked.
    pub open spec fn slots(&self) -> Seq<int> {
        Self::occupied_below(self@, self@.len() as int)
    }

    /// `occupied_below(s, n)` lists each occupied slot below `n` once, in ascending order.
    pub proof fn lemma_occupied_below(s: Seq<Option<T>>, n: int)
        requires
            0 <= n <= s.len(),
        ensures
            Self::occupied_below(s, n).len() <= n,
            forall|j: int|
                0 <= j < Self::occupied_below(s, n).len() ==> 0 <= (#[trigger] Self::occupied_below(
                    s,
                    n,
                )[j]) < n && s[Self::occupied_below(s, n)[j]] is Some,
            forall|j: int, k: int|
                0 <= j < k < Self::occupied_below(s, n).len() ==> Self::occupied_below(s, n)[j]
                    < Self::occupied_below(s, n)[k],
            forall|i: int|
                0 <= i < n && (#[trigger] s[i]) is Some ==> Self::occupied_below(s, n).contains(i),
        decreases n,
    {
        if n > 0 {
            Self::lemma_occupied_below(s, n - 1);
            let before = Self::occupied_below(s, n - 1);
            let now = Self::occupied_below(s, n);
            assert forall|i: int| 0 <= i < n && (#[trigger] s[i]) is Some implies now.contains(
                i,
            ) by {
                if i < n - 1 {
                    let j = choose|j: int| 0 <= j < before.len() && before[j] == i;
                    assert(now[j] == i);
                } else {
                    assert(now[now.len() - 1] == i);
                }
            }
        }
    }

    /// An arena with no slots whose handles carry the tag `Tag`.
    pub fn tagged() -> (a: Self)
        ensures
            a.wf(),
            a@ == Seq::<Option<T>>::empty(),
            a.free_list() == Seq::<int>::empty(),
    {
        let a = Arena {
            data: Vec::new(),
            first_free: None,
            free: Ghost(Seq::empty()),
            tag: PhantomData,
        };
        assert(a@ =~= Seq::<Option<T>>::empty());
        a
    }

    /// The number of slots, the free ones included.
    pub fn slot_count(&self) -> (n: usize)
        ensures
            n == self@.len(),
    {
        self.data.len()
    }

    /// Stores `v` and returns its handle. The head of the free list is reused
    /// when there is one; otherwise the arena grows by one slot.
    pub fn push(&mut self, v: T) -> (id: ArenaId<Tag>)
        requires
            old(self).wf(),
        ensures
            final(self).wf(),
            id@ == Self::next_slot(old(self)@, old(self).free_list()),
            id == ArenaId::<Tag>::at(Self::next_slot(old(self)@, old(self).free_list())),
            (final(self)@, final(self).free_list()) == Self::pushed(
                old(self)@,
                old(self).free_list(),
                v,
            ),
            !old(self).contains(id),
            final(self).contains(id),
            final(self).value(id) == v,
    {
        match self.first_free {
            None => {
                self.data.push(Node::Occupied(v));
                assert(self@ =~= old(self)@.push(Some(v)));
                ArenaId::new(self.data.len() - 1)
            },
            Some(f) => {
                let ghost free = self.free@;
                assert(Self::threaded(self.data@, free, 0));
                assert(self.data@.len() == self.data.len());
                assert(self.first_free == Some(free[0] as usize));
                assert(free[0] == f);
                let next = match &self.data[f] {
                    Node::Free { next_free } => *next_free,
                    Node::Occupied(_) => None,
                };
                self.first_free = next;
                self.data.set(f, Node::Occupied(v));
                self.free = Ghost(free.drop_first());
                proof {
                    let rest = free.drop_first();
                    assert forall|k: int| 0 <= k < rest.len() implies #[trigger] Self::threaded(
                        self.data@,
                        rest,
                        k,
                    ) by {
                        assert(Self::threaded(old(self).data@, free, k + 1));
                        assert(rest[k] == free[k + 1]);
                        assert(free[k + 1] != free[0]);
                    }
                    assert forall|i: int|
                        0 <= i < self.data@.len() && (#[trigger] self.data@[i]) is Free implies rest.contains(
                        i,
                    ) by {
                        assert(old(self).data@[i] is Free);
                        assert(free.contains(i));
                        let k = choose|k: int| 0 <= k < free.len() && free[k] == i;
                        assert(k > 0);
                        assert(rest[k - 1] == i);
                    }
                    assert(self@ =~= old(self)@.update(f as int, Some(v)));
                }
                ArenaId::new(f)
            },
        }
    }

    /// Takes the value behind `id` out of the arena and puts its slot at the
    /// head of the free list. A handle that names no value changes nothing.
    pub fn remove(&mut self, id: ArenaId<Tag>) -> (out: Option<T>)
        requires
            old(self).wf(),
        ensures
            final(self).wf(),
            out == (if old(self).contains(id) {
                Some(old(self).value(id))
            } else {
                None
            }),
            (final(self)@, final(self).free_list()) == Self::removed(
                old(self)@,
                old(self).free_list(),
                id@,
            ),
    {
        if id.ix >= self.data.len() {
            return None;
        }
        if let Node::Free { .. } = &self.data[id.ix] {
            return None;
        }
        let ghost free = self.free@;
        let mut out = Node::Free { next_free: self.first_free };
        core::mem::swap(&mut out, &mut self.data[id.ix]);
        self.first_free = Some(id.ix);
        self.free = Ghost(seq![id@] + free);
        proof {
            let now = seq![id@] + free;
            if free.contains(id@) {
                let k = choose|k: int| 0 <= k < free.len() && free[k] == id@;
                assert(Self::threaded(old(self).data@, free, k));
            }
            assert(!free.contains(id@));
            if free.len() > 0 {
                assert(Self::threaded(old(self).data@, free, 0));
            }
            assert forall|k: int| 0 <= k < now.len() implies #[trigger] Self::threaded(
                self.data@,
                now,
                k,
            ) by {
                if k > 0 {
                    assert(Self::threaded(old(self).data@, free, k - 1));
                    assert(now[k] == free[k - 1]);
                    assert(free.contains(free[k - 1]));
                }
            }
            assert forall|i: int|
                0 <= i < self.data@.len() && (#[trigger] self.data@[i]) is Free implies now.contains(
                i,
            ) by {
                if i == id@ {
                    assert(now[0] == i);
                } else {
                    assert(free.contains(i));
                    let k = choose|k: int| 0 <= k < free.len() && free[k] == i;
                    assert(now[k + 1] == i);
                }
            }
            assert(self@ =~= old(self)@.update(id@, None));
        }
        match out {
            Node::Occupied(t) => Some(t),
            Node::Free { .. } => None,
        }
    }

    /// The value behind `id`, if the handle names one.
    pub fn get(&self, id: ArenaId<Tag>) -> (r: Option<&T>)
        ensures
            self.contains(id) ==> r == Some(&self.value(id)),
            !self.contains(id) ==> r is None,
    {
        if id.ix >= self.data.len() {
            return None;
        }
        match &self.data[id.ix] {
            Node::Occupied(t) => Some(t),
            Node::Free { .. } => None,
        }
    }

    /// The value behind `id` for writing, if the handle names one. Whatever is
    /// written through the reference is what the slot holds afterwards.
    pub fn get_mut(&mut self, id: ArenaId<Tag>) -> (r: Option<&mut T>)
        ensures
            old(self).contains(id) ==> r is Some && *r.unwrap() == old(self).value(id) && final(
                self)@ == old(self)@.update(id@, Some(*final(r.unwrap()))),
            !old(self).contains(id) ==> r is None && final(self)@ == old(self)@,
            final(self).free_list() == old(self).free_list(),
            old(self).wf() ==> final(self).wf(),
    {
        if id.ix >= self.data.len() {
            return None;
        }
        if let Node::Free { .. } = &self.data[id.ix] {
            return None;
        }
        proof {
            if self.wf() {
                assert forall|v: T| #[trigger]
                    Self::threads(
                        self.data@.update(id@, Node::Occupied(v)),
                        self.free@,
                        self.first_free,
                    ) by {
                    Self::lemma_overwrite(self.data@, self.free@, self.first_free, id@, v);
                }
            }
        }
        match &mut self.data[id.ix] {
            Node::Occupied(t) => Some(t),
            Node::Free { .. } => None,
        }
    }

    /// The value behind a handle that names one, for writing.
    pub fn index_mut(&mut self, id: ArenaId<Tag>) -> (r: &mut T)
        requires
            old(self).contains(id),
        ensures
            *r == old(self).value(id),
            final(self)@ == old(self)@.update(id@, Some(*final(r))),
            final(self).free_list() == old(self).free_list(),
            old(self).wf() ==> final(self).wf(),
    {
        proof {
            if self.wf() {
                assert forall|v: T| #[trigger]
                    Self::threads(
                        self.data@.update(id@, Node::Occupied(v)),
                        self.free@,
                        self.first_free,
                    ) by {
                    Self::lemma_overwrite(self.data@, self.free@, self.first_free, id@, v);
                }
            }
        }
        match &mut self.data[id.ix] {
            Node::Occupied(t) => t,
            Node::Free { .. } => vstd::pervasive::unreached(),
        }
    }

    /// The handles and values of the occupied slots, in slot order.
    pub fn enumerate(&self) -> (r: Vec<(ArenaId<Tag>, &T)>)
        ensures
            r@.len() == self.slots().len(),
            forall|j: int|
                0 <= j < r@.len() ==> (#[trigger] r@[j]).0@ == self.slots()[j] && self.contains(
                    r@[j].0,
                ) && *r@[j].1 == self.value(r@[j].0),
    {
        let mut out: Vec<(ArenaId<Tag>, &T)> = Vec::new();
        let n: usize = self.data.len();
        let mut i: usize = 0;
        while i < n
            invariant
                n == self.data@.len(),
                0 <= i <= n,
                out@.len() == Self::occupied_below(self@, i as int).len(),
                forall|j: int|
                    0 <= j < out@.len() ==> (#[trigger] out@[j]).0@ == Self::occupied_below(
                        self@,
                        i as int,
                    )[j] && self.contains(out@[j].0) && *out@[j].1 == self.value(out@[j].0),
            decreases n - i,
        {
            match &self.data[i] {
                Node::Occupied(t) => {
                    out.push((ArenaId::new(i), t));
                },
                Node::Free { .. } => {},
            }
            i += 1;
        }
        out
    }

    /// The values of the occupied slots, in slot order.
    pub fn iter(&self) -> (r: Vec<&T>)
        ensures
            r@.len() == self.slots().len(),
            forall|j: int| 0 <= j < r@.len() ==> *(#[trigger] r@[j]) == self@[self.slots()[j]]->0,
    {
        let pairs = self.enumerate();
        let mut out: Vec<&T> = Vec::new();
        let mut i: usize = 0;
        while i < pairs.len()
            invariant
                0 <= i <= pairs@.len(),
                out@.len() == i,
                forall|j: int| 0 <= j < i ==> *(#[trigger] out@[j]) == *pairs@[j].1,
            decreases pairs@.len() - i,
        {
            out.push(pairs[i].1);
            i += 1;
        }
        out
    }
}

impl<T> Arena<T> {
    /// An arena with no slots.
    pub fn new() -> (a: Self)
        ensures
            a.wf(),
            a@ == Seq::<Option<T>>::empty(),
            a.free_list() == Seq::<int>::empty(),
    {
        Arena::tagged()
    }
}

/// `arena[id]`: the value behind a handle that names one.
impl<T, Tag> core::ops::Index<ArenaId<Tag>> for Arena<T, Tag> {
    type Output = T;

    fn index(&self, id: ArenaId<Tag>) -> (r: &T)
        ensures
            *r == self.value(id),
    {
        match &self.data[id.ix] {
            Node::Occupied(t) => t,
            Node::Free { .. } => vstd::pervasive::unreached(),
        }
    }
}

impl<T, Tag> vstd::std_specs::core::IndexSpecImpl<ArenaId<Tag>> for Arena<T, Tag> {
    open spec fn index_req(&self, id: &ArenaId<Tag>) -> bool {
        self.contains(*id)
    }
}


impl<T, Tag> Default for Arena<T, Tag> {
    fn default() -> (a: Self)
        ensures
            a.wf(),
            a@ == Seq::<Option<T>>::empty(),
            a.free_list() == Seq::<int>::empty(),
    {
        Arena::tagged()
    }
}

} // verus!
