//! A slot map: values behind stable integer handles, with freed slots reused
//! last-freed-first through a free list threaded through the empty slots.
use vstd::prelude::*;

verus! {

/// One slot: a value, or a free slot holding the index of the next free slot
/// (the slot count when it is the last one).
pub enum Entry<T> {
    Empty(usize),
    Value(T),
}

/// What a slot holds, as an `Option`.
pub open spec fn slot<T>(e: Entry<T>) -> Option<T> {
    match e {
        Entry::Empty(_) => None,
        Entry::Value(v) => Some(v),
    }
}

/// The values of the occupied slots, in storage order.
pub open spec fn occupied<T>(s: Seq<Option<T>>) -> Seq<T>
    decreases s.len(),
{
    if s.len() == 0 {
        Seq::empty()
    } else {
        let rest = occupied(s.drop_first());
        match s[0] {
            Some(v) => seq![v] + rest,
            None => rest,
        }
    }
}

/// The values of the occupied slots, read from the last slot to the first.
pub open spec fn occupied_from_back<T>(s: Seq<Option<T>>) -> Seq<T>
    decreases s.len(),
{
    if s.len() == 0 {
        Seq::empty()
    } else {
        let rest = occupied_from_back(s.drop_last());
        match s.last() {
            Some(v) => seq![v] + rest,
            None => rest,
        }
    }
}

/// A collection of values addressed by the index of their slot.
pub struct Slab<T> {
    next: usize,
    entries: Vec<Entry<T>>,
    free: Ghost<Seq<usize>>,
}

impl<T> View for Slab<T> {
    type V = Seq<Option<T>>;

    /// The slots in order, `None` for a free one.
    closed spec fn view(&self) -> Seq<Option<T>> {
        self.entries@.map_values(|e: Entry<T>| slot(e))
    }
}

impl<T> Slab<T> {
    /// The free slots, the one to be reused next first.
    pub closed spec fn free_list(&self) -> Seq<usize> {
        self.free@
    }

    /// The slab's invariant: the free list runs, without repeats, through
    /// exactly the free slots, and `next` is its head.
    pub closed spec fn wf(&self) -> bool {
        let free = self.free@;
        let len = self.entries@.len();
        &&& self.next == (if free.len() > 0 {
            free[0] as int
        } else {
            len as int
        })
        &&& forall|i: int, j: int| 0 <= i < j < free.len() ==> free[i] != free[j]
        &&& forall|i: int|
            #![trigger free[i]]
            0 <= i < free.len() ==> {
                &&& free[i] < len
                &&& self.entries@[free[i] as int] == Entry::<T>::Empty(
                    if i + 1 < free.len() {
                        free[i + 1]
                    } else {
                        len as usize
                    },
                )
            }
        &&& forall|k: int|
            0 <= k < len && #[trigger] self.entries@[k] is Empty ==> free.contains(k as usize)
    }

    /// The index the next insertion will fill.
    pub open spec fn insert_index(&self) -> usize {
        if self.free_list().len() > 0 {
            self.free_list()[0]
        } else {
            self@.len() as usize
        }
    }

    /// The slots after `value` is inserted.
    pub open spec fn inserted(&self, value: T) -> Seq<Option<T>> {
        if self.free_list().len() > 0 {
            self@.update(self.insert_index() as int, Some(value))
        } else {
            self@.push(Some(value))
        }
    }

    /// An empty slab.
    pub fn new() -> (s: Slab<T>)
        ensures
            s.wf(),
            s@ == Seq::<Option<T>>::empty(),
            s.free_list() == Seq::<usize>::empty(),
    {
        let s = Slab { next: 0, entries: Vec::new(), free: Ghost(Seq::empty()) };
        assert(s@ =~= Seq::<Option<T>>::empty());
        s
    }

    /// Stores `value` and returns its index: the most recently freed slot if
    /// there is one, else a new slot at the end.
    pub fn insert(&mut self, value: T) -> (index: usize)
        requires
            old(self).wf(),
            old(self)@.len() < usize::MAX,
        ensures
            final(self).wf(),
            index == old(self).insert_index(),
            final(self)@ == old(self).inserted(value),
            final(self).free_list() == (if old(self).free_list().len() > 0 {
                old(self).free_list().drop_first()
            } else {
                old(self).free_list()
            }),
            old(self).free_list().len() == 0 ==> {
                &&& index == old(self)@.len()
                &&& final(self)@ == old(self)@.push(Some(value))
                &&& final(self).free_list() == old(self).free_list()
            },
            old(self).free_list().len() > 0 ==> {
                &&& index == old(self).free_list()[0]
                &&& final(self)@ == old(self)@.update(index as int, Some(value))
                &&& final(self).free_list() == old(self).free_list().drop_first()
            },
    {
        let ghost free = self.free@;
        let index = self.next;
        if index == self.entries.len() {
            self.entries.push(Entry::Value(value));
            self.next = self.entries.len();
            proof {
                assert forall|k: int|
                    0 <= k < self.entries@.len() && #[trigger] self.entries@[k] is Empty implies free.contains(
                    k as usize,
                ) by {
                    assert(k < self.entries@.len() - 1);
                }
                assert(self@ =~= old(self)@.push(Some(value)));
            }
        } else {
            assert(free[0] == index);
            let link = match &self.entries[index] {
                Entry::Empty(link) => *link,
                Entry::Value(_) => vstd::pervasive::unreached(),
            };
            self.next = link;
            self.entries.set(index, Entry::Value(value));
            proof {
                self.free = Ghost(free.drop_first());
                let nf = free.drop_first();
                assert forall|i: int|
                    #![trigger nf[i]]
                    0 <= i < nf.len() implies nf[i] < self.entries@.len()
                    && self.entries@[nf[i] as int] == Entry::<T>::Empty(
                    if i + 1 < nf.len() {
                        nf[i + 1]
                    } else {
                        self.entries@.len() as usize
                    },
                ) by {
                    assert(free[i + 1] != free[0]);
                }
                assert forall|k: int|
                    0 <= k < self.entries@.len() && #[trigger] self.entries@[k] is Empty implies nf.contains(
                    k as usize,
                ) by {
                    assert(free.contains(k as usize));
                    let j = choose|j: int| 0 <= j < free.len() && free[j] == k as usize;
                    assert(j != 0);
                    assert(nf[j - 1] == k as usize);
                }
                assert(self@ =~= old(self)@.update(index as int, Some(value)));
            }
        }
        index
    }

    /// Takes the value out of slot `index` and frees the slot; `None` when the
    /// index is out of range or the slot is already free.
    pub fn remove(&mut self, index: usize) -> (r: Option<T>)
        requires
            old(self).wf(),
        ensures
            final(self).wf(),
            r == (if index < old(self)@.len() {
                old(self)@[index as int]
            } else {
                None
            }),
            r is Some ==> {
                &&& final(self)@ == old(self)@.update(index as int, None)
                &&& final(self).free_list() == seq![index] + old(self).free_list()
            },
            r is None ==> *final(self) == *old(self),
    {
        if index >= self.entries.len() {
            return None;
        }
        let occupied = match &self.entries[index] {
            Entry::Empty(_) => false,
            Entry::Value(_) => true,
        };
        if !occupied {
            return None;
        }
        let ghost free = self.free@;
        let mut e = Entry::Empty(self.next);
        std::mem::swap(&mut e, &mut self.entries[index]);
        self.next = index;
        proof {
            assert(!free.contains(index));
            let nf = seq![index] + free;
            self.free = Ghost(nf);
            assert forall|i: int, j: int| 0 <= i < j < nf.len() implies nf[i] != nf[j] by {
                if i == 0 {
                    assert(nf[j] == free[j - 1]);
                }
            }
            assert forall|i: int|
                #![trigger nf[i]]
                0 <= i < nf.len() implies nf[i] < self.entries@.len() && self.entries@[nf[i] as int]
                == Entry::<T>::Empty(
                if i + 1 < nf.len() {
                    nf[i + 1]
                } else {
                    self.entries@.len() as usize
                },
            ) by {
                if i > 0 {
                    assert(nf[i] == free[i - 1]);
                    assert(free[i - 1] != index);
                }
            }
            assert forall|k: int|
                0 <= k < self.entries@.len() && #[trigger] self.entries@[k] is Empty implies nf.contains(
                k as usize,
            ) by {
                if k != index {
                    let j = choose|j: int| 0 <= j < free.len() && free[j] == k as usize;
                    assert(nf[j + 1] == k as usize);
                } else {
                    assert(nf[0] == index);
                }
            }
            assert(self@ =~= old(self)@.update(index as int, None));
        }
        match e {
            Entry::Value(v) => Some(v),
            Entry::Empty(_) => vstd::pervasive::unreached(),
        }
    }

    /// The value in slot `index`; `None` when the index is out of range or the
    /// slot is free.
    pub fn get(&self, index: usize) -> (r: Option<&T>)
        ensures
            r is Some <==> index < self@.len() && self@[index as int] is Some,
            r is Some ==> self@[index as int] == Some(*r->0),
    {
        if index >= self.entries.len() {
            return None;
        }
        match &self.entries[index] {
            Entry::Value(v) => Some(v),
            Entry::Empty(_) => None,
        }
    }

    /// A mutable reference to the value in slot `index`; `None` when the index
    /// is out of range or the slot is free.
    pub fn get_mut(&mut self, index: usize) -> (r: Option<&mut T>)
        requires
            old(self).wf(),
        ensures
            r is Some <==> index < old(self)@.len() && old(self)@[index as int] is Some,
            r is Some ==> {
                &&& old(self)@[index as int] == Some(*r->0)
                &&& final(self)@ == old(self)@.update(index as int, Some(*final(r->0)))
                &&& final(self).free_list() == old(self).free_list()
                &&& final(self).wf()
            },
            r is None ==> *final(self) == *old(self),
    {
        if index >= self.entries.len() {
            return None;
        }
        let occupied = match &self.entries[index] {
            Entry::Empty(_) => false,
            Entry::Value(_) => true,
        };
        if !occupied {
            return None;
        }
        match &mut self.entries[index] {
            Entry::Value(v) => Some(v),
            Entry::Empty(_) => vstd::pervasive::unreached(),
        }
    }

    /// The number of slots, occupied or free.
    pub fn slots(&self) -> (r: usize)
        ensures
            r == self@.len(),
    {
        self.entries.len()
    }

    /// The values in storage order, skipping free slots.
    pub fn iter<'a>(&'a self) -> (it: Iter<'a, T>)
        ensures
            it.wf(),
            it.remaining() == occupied(self@),
    {
        let it = Iter { entries: &self.entries, pos: 0 };
        assert(self@.subrange(0, self@.len() as int) =~= self@);
        it
    }
}

/// A slot freed by `remove` is the one the next `insert` fills, and reads as
/// free until then: inserting, removing what was inserted and inserting again
/// returns the same index twice.
pub proof fn lemma_insert_remove_insert<T>(a: Slab<T>, b: Slab<T>, c: Slab<T>, value: T)
    requires
        a.wf(),
        b@ == a.inserted(value),
        b.free_list() == (if a.free_list().len() > 0 {
            a.free_list().drop_first()
        } else {
            a.free_list()
        }),
        c@ == b@.update(a.insert_index() as int, None),
        c.free_list() == seq![a.insert_index()] + b.free_list(),
    ensures
        a.insert_index() < b@.len(),
        b@[a.insert_index() as int] == Some(value),
        c@[a.insert_index() as int] is None,
        c.insert_index() == a.insert_index(),
{
}

/// A cursor over the occupied slots of a slab for changing their values in
/// storage order; each step borrows the slab for the value it hands out.
pub struct IterMut {
    pos: usize,
}

impl<T> Slab<T> {
    /// A cursor at the first slot.
    pub fn iter_mut(&mut self) -> (it: IterMut)
        ensures
            it.pos() == 0,
            *final(self) == *old(self),
    {
        IterMut { pos: 0 }
    }
}

impl IterMut {
    /// The slot the search for the next value starts at.
    pub closed spec fn pos(&self) -> nat {
        self.pos as nat
    }

    /// A mutable reference to the value in the first occupied slot at or
    /// after the cursor, moving the cursor past it; `None` when there is none.
    pub fn next<'b, T>(&mut self, slab: &'b mut Slab<T>) -> (r: Option<&'b mut T>)
        requires
            old(slab).wf(),
        ensures
            r is None ==> {
                &&& *final(slab) == *old(slab)
                &&& forall|j: int| old(self).pos() <= j < old(slab)@.len() ==> #[trigger] old(slab)@[j] is None
            },
            r is Some ==> {
                let i = final(self).pos() - 1;
                &&& old(self).pos() <= i < old(slab)@.len()
                &&& old(slab)@[i] == Some(*r->0)
                &&& forall|j: int| old(self).pos() <= j < i ==> #[trigger] old(slab)@[j] is None
                &&& final(slab)@ == old(slab)@.update(i, Some(*final(r->0)))
                &&& final(slab).free_list() == old(slab).free_list()
                &&& final(slab).wf()
            },
    {
        let len = slab.slots();
        let start = self.pos;
        while self.pos < len
            invariant
                len == old(slab)@.len(),
                old(slab).wf(),
                *slab == *old(slab),
                old(self).pos() <= self.pos,
                forall|j: int| old(self).pos() <= j < self.pos ==> #[trigger] old(slab)@[j] is None,
            decreases len - self.pos,
        {
            let i = self.pos;
            let found = slab.get(i).is_some();
            if found {
                self.pos = i + 1;
                return slab.get_mut(i);
            }
            self.pos = i + 1;
        }
        None
    }
}

/// An iterator that takes the values out of a slab, in storage order.
pub struct IntoIter<T> {
    rev: Vec<Entry<T>>,
}

impl<T> Slab<T> {
    /// Consumes the slab into an iterator over its values in storage order.
    pub fn into_iter(self) -> (it: IntoIter<T>)
        ensures
            it.remaining() == occupied(self@),
    {
        let ghost s = self@;
        let mut entries = self.entries;
        let mut rev: Vec<Entry<T>> = Vec::new();
        assert(s.subrange(s.len() as int, s.len() as int) =~= Seq::<Option<T>>::empty());
        assert(entries@.map_values(|e: Entry<T>| slot(e)).subrange(0, s.len() as int) =~= s);
        while entries.len() > 0
            invariant
                entries@.len() <= s.len(),
                entries@.map_values(|e: Entry<T>| slot(e)) == s.subrange(
                    0,
                    entries@.len() as int,
                ),
                occupied_from_back(rev@.map_values(|e: Entry<T>| slot(e))) == occupied(
                    s.subrange(entries@.len() as int, s.len() as int),
                ),
            decreases entries@.len(),
        {
            let ghost k = entries@.len() as int;
            let ghost before = rev@;
            match entries.pop() {
                Some(e) => {
                    rev.push(e);
                },
                None => {},
            }
            proof {
                let m = rev@.map_values(|e: Entry<T>| slot(e));
                assert(m.drop_last() =~= before.map_values(|e: Entry<T>| slot(e)));
                assert(s.subrange(k - 1, s.len() as int).drop_first() =~= s.subrange(
                    k,
                    s.len() as int,
                ));
                assert(s[k - 1] == s.subrange(0, k)[k - 1]);
                assert(entries@.map_values(|e: Entry<T>| slot(e)) =~= s.subrange(0, k - 1));
            }
        }
        assert(s.subrange(0, s.len() as int) =~= s);
        IntoIter { rev }
    }
}

impl<T> IntoIter<T> {
    /// The values not yet handed out.
    pub closed spec fn remaining(&self) -> Seq<T> {
        occupied_from_back(self.rev@.map_values(|e: Entry<T>| slot(e)))
    }

    /// The next value, or `None` when all were handed out.
    pub fn next(&mut self) -> (r: Option<T>)
        ensures
            old(self).remaining().len() == 0 ==> r is None && final(self).remaining().len() == 0,
            old(self).remaining().len() > 0 ==> r == Some(old(self).remaining()[0])
                && final(self).remaining() == old(self).remaining().drop_first(),
    {
        while self.rev.len() > 0
            invariant
                self.remaining() == old(self).remaining(),
            decreases self.rev@.len(),
        {
            let ghost before = self.rev@;
            let e = self.rev.pop();
            proof {
                assert(self.rev@.map_values(|e: Entry<T>| slot(e)) =~= before.map_values(
                    |e: Entry<T>| slot(e),
                ).drop_last());
            }
            match e {
                Some(Entry::Value(v)) => {
                    return Some(v);
                },
                _ => {},
            }
        }
        assert(self.rev@.map_values(|e: Entry<T>| slot(e)) =~= Seq::<Option<T>>::empty());
        None
    }
}

/// An iterator over the values of a slab, in storage order.
pub struct Iter<'a, T> {
    entries: &'a Vec<Entry<T>>,
    pos: usize,
}

impl<'a, T> Iter<'a, T> {
    /// The iterator's invariant: its position lies within the slots.
    pub closed spec fn wf(&self) -> bool {
        self.pos <= self.entries@.len()
    }

    /// The values not yet handed out.
    pub closed spec fn remaining(&self) -> Seq<T> {
        occupied(
            self.entries@.map_values(|e: Entry<T>| slot(e)).subrange(
                self.pos as int,
                self.entries@.len() as int,
            ),
        )
    }

    /// The next value, or `None` when all were handed out.
    pub fn next(&mut self) -> (r: Option<&'a T>)
        requires
            old(self).wf(),
        ensures
            final(self).wf(),
            old(self).remaining().len() == 0 ==> r is None && final(self).remaining().len() == 0,
            old(self).remaining().len() > 0 ==> r is Some && *r->0 == old(self).remaining()[0]
                && final(self).remaining() == old(self).remaining().drop_first(),
    {
        let entries: &'a Vec<Entry<T>> = self.entries;
        let ghost s = entries@.map_values(|e: Entry<T>| slot(e));
        while self.pos < entries.len()
            invariant
                self.entries == entries,
                self.pos <= entries@.len(),
                s == entries@.map_values(|e: Entry<T>| slot(e)),
                self.remaining() == old(self).remaining(),
            decreases entries@.len() - self.pos,
        {
            let i = self.pos;
            self.pos = i + 1;
            assert(s.subrange(i as int, s.len() as int).drop_first() =~= s.subrange(
                i + 1,
                s.len() as int,
            ));
            match &entries[i] {
                Entry::Value(v) => {
                    return Some(v);
                },
                Entry::Empty(_) => {},
            }
        }
        assert(s.subrange(self.pos as int, s.len() as int) =~= Seq::<Option<T>>::empty());
        None
    }
}

} // verus!
