//! A fixed-capacity store indexed by 16-bit wrapping sequence numbers.
use vstd::prelude::*;

verus! {

/// The slot that `id` occupies in a store of capacity `cap`.
pub open spec fn slot_of(id: u16, cap: nat) -> int {
    id as int % cap as int
}

/// The contents of a store of capacity `cap` after inserting `v` under `id`:
/// every entry that shared the slot of `id` is gone.
pub open spec fn store_insert<T>(m: Map<u16, T>, cap: nat, id: u16, v: T) -> Map<u16, T> {
    Map::new(
        |k: u16| k == id || (m.contains_key(k) && slot_of(k, cap) != slot_of(id, cap)),
        |k: u16| if k == id { v } else { m[k] },
    )
}

/// A store of capacity `C`: the value for `id` lives in slot `id % C`, tagged
/// with `id`, so a later id that maps to the same slot silently evicts it.
/// A slot's occupant, tagged with the id it was stored under.
pub struct Slot<T> {
    pub id: u16,
    pub value: T,
}

pub struct SequenceBuffer<T> {
    sequence: u16,
    entries: Vec<Option<Slot<T>>>,
}

impl<T> View for SequenceBuffer<T> {
    type V = Map<u16, T>;

    /// The live entries: those whose slot holds exactly their id.
    closed spec fn view(&self) -> Map<u16, T> {
        Map::new(
            |k: u16| {
                &&& 0 <= slot_of(k, self.capacity()) < self.entries@.len()
                &&& self.entries@[slot_of(k, self.capacity())] is Some
                &&& self.entries@[slot_of(k, self.capacity())]->0.id == k
            },
            |k: u16| self.entries@[slot_of(k, self.capacity())]->0.value,
        )
    }
}

impl<T> SequenceBuffer<T> {
    pub closed spec fn capacity(&self) -> nat {
        self.entries@.len()
    }

    /// One past the most recently inserted id (0 before any insertion).
    pub closed spec fn spec_sequence(&self) -> u16 {
        self.sequence
    }

    pub closed spec fn wf(&self) -> bool {
        &&& self.entries@.len() > 0
        &&& forall|i: int|
            0 <= i < self.entries@.len() && (#[trigger] self.entries@[i]) is Some ==> slot_of(
                self.entries@[i]->0.id,
                self.capacity(),
            ) == i
    }

    pub fn with_capacity(capacity: usize) -> (r: Self)
        requires
            capacity > 0,
        ensures
            r.wf(),
            r.capacity() == capacity,
            r@ == Map::<u16, T>::empty(),
            r.spec_sequence() == 0,
    {
        let mut entries: Vec<Option<Slot<T>>> = Vec::with_capacity(capacity);
        let mut i: usize = 0;
        while i < capacity
            invariant
                i <= capacity,
                entries@.len() == i,
                forall|j: int| 0 <= j < i ==> (#[trigger] entries@[j]) is None,
            decreases capacity - i,
        {
            entries.push(None);
            i = i + 1;
        }
        let r = SequenceBuffer { sequence: 0, entries };
        assert(r@ =~= Map::<u16, T>::empty());
        r
    }

    /// One past the most recently inserted id.
    pub fn sequence(&self) -> (r: u16)
        ensures
            r == self.spec_sequence(),
    {
        self.sequence
    }

    fn index_of(&self, id: u16) -> (r: usize)
        requires
            self.wf(),
        ensures
            r as int == slot_of(id, self.capacity()),
            r < self.capacity(),
    {
        (id as usize) % self.entries.len()
    }

    pub fn contains(&self, id: u16) -> (r: bool)
        requires
            self.wf(),
        ensures
            r == self@.contains_key(id),
    {
        let idx = self.index_of(id);
        match &self.entries[idx] {
            Some(e) => e.id == id,
            None => false,
        }
    }

    pub fn get(&self, id: u16) -> (r: Option<&T>)
        requires
            self.wf(),
        ensures
            r == (if self@.contains_key(id) { Some(&self@[id]) } else { None }),
    {
        let idx = self.index_of(id);
        match &self.entries[idx] {
            Some(e) => if e.id == id {
                Some(&e.value)
            } else {
                None
            },
            None => None,
        }
    }

    /// Stores `value` under `id`, evicting whatever shared its slot.
    pub fn insert(&mut self, id: u16, value: T)
        requires
            old(self).wf(),
        ensures
            final(self).wf(),
            final(self).capacity() == old(self).capacity(),
            final(self)@ == store_insert(old(self)@, old(self).capacity(), id, value),
            final(self).spec_sequence() == id.wrapping_add(1),
    {
        let idx = self.index_of(id);
        self.entries.set(idx, Some(Slot { id, value }));
        self.sequence = id.wrapping_add(1);
        assert(self@ =~= store_insert(old(self)@, old(self).capacity(), id, value));
    }

    /// Replaces the value of a live entry, leaving the sequence as it is.
    pub fn replace(&mut self, id: u16, value: T)
        requires
            old(self).wf(),
            old(self)@.contains_key(id),
        ensures
            final(self).wf(),
            final(self).capacity() == old(self).capacity(),
            final(self)@ == old(self)@.insert(id, value),
            final(self).spec_sequence() == old(self).spec_sequence(),
    {
        let idx = self.index_of(id);
        self.entries.set(idx, Some(Slot { id, value }));
        assert(self@ =~= old(self)@.insert(id, value));
    }

    pub fn remove(&mut self, id: u16) -> (r: Option<T>)
        requires
            old(self).wf(),
        ensures
            final(self).wf(),
            final(self).capacity() == old(self).capacity(),
            final(self)@ == old(self)@.remove(id),
            final(self).spec_sequence() == old(self).spec_sequence(),
            r == (if old(self)@.contains_key(id) { Some(old(self)@[id]) } else { None }),
    {
        let idx = self.index_of(id);
        let mut taken: Option<Slot<T>> = None;
        std::mem::swap(&mut self.entries[idx], &mut taken);
        match taken {
            Some(e) => {
                if e.id == id {
                    assert(self@ =~= old(self)@.remove(id));
                    Some(e.value)
                } else {
                    self.entries.set(idx, Some(e));
                    assert(self@ =~= old(self)@.remove(id));
                    None
                }
            },
            None => {
                assert(self@ =~= old(self)@.remove(id));
                None
            },
        }
    }
}

} // verus!
