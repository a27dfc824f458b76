//! `Slab<T>`: object pool with per-slot generations that detect use after free.

use vstd::prelude::*;
use crate::memory::pool::{
    count_some, active_entries, active_prefix, lemma_active_prefix_complete,
    lemma_active_prefix_entries,
};

verus! {

/// Errors of [`Slab`].
#[derive(Clone, Copy, Debug, PartialEq, Eq, Structural)]
pub enum SlabError {
    /// The handle's generation differs from the slot's, or the slot is empty.
    GenerationMismatch {
        /// The slot's current generation.
        expected: u32,
        /// The generation carried by the handle.
        got: u32,
    },
    /// Index out of bounds: `(index, len)`.
    OutOfBounds(usize, usize),
}

/// The generation slot `index` gets when it is freed at generation `g`: one
/// more, wrapping past `u32::MAX` to 0, except that slot 0 skips 0 (so it
/// never goes back to the invalid handle's generation).
pub open spec fn next_generation(index: nat, g: u32) -> u32 {
    if g == u32::MAX {
        if index == 0 {
            1
        } else {
            0
        }
    } else {
        (g + 1) as u32
    }
}

/// The generation of a newly appended slot: 1 for slot 0 (so that no
/// handle of a stored value is the invalid handle `(0, 0)`), 0 for the
/// others.
pub open spec fn fresh_generation(index: nat) -> u32 {
    if index == 0 {
        1
    } else {
        0
    }
}

/// Slot index plus the generation it was handed out with.
#[derive(Clone, Copy, Debug, PartialEq, Eq, Hash, Structural)]
pub struct SlabHandle {
    /// Slot index.
    pub index: u32,
    /// Generation (bumped whenever the slot is freed).
    pub generation: u32,
}

impl SlabHandle {
    /// The invalid handle `(0, 0)`.
    pub fn invalid() -> (h: SlabHandle)
        ensures
            h.index == 0 && h.generation == 0,
    {
        SlabHandle { index: 0, generation: 0 }
    }
}

/// One slot: its value (if occupied) and its generation.
#[derive(Debug)]
struct Slot<T> {
    data: Option<T>,
    generation: u32,
}

impl<T> Slot<T> {
    /// The handle that matches this slot at `index`.
    fn handle(&self, index: u32) -> (h: SlabHandle)
        ensures
            h.index == index,
            h.generation == self.generation,
    {
        SlabHandle { index, generation: self.generation }
    }
}

/// Generational object pool.
#[derive(Debug)]
pub struct Slab<T> {
    slots: Vec<Slot<T>>,
    free_list: Vec<u32>,
}

impl<T> Slab<T> {
    /// Contents of every slot, by index.
    pub closed spec fn data(&self) -> Seq<Option<T>> {
        self.slots@.map_values(|s: Slot<T>| s.data)
    }

    /// Generation of every slot, by index.
    pub closed spec fn gens(&self) -> Seq<u32> {
        self.slots@.map_values(|s: Slot<T>| s.generation)
    }

    /// Freed slot indices, most recent last.
    pub closed spec fn free_list(&self) -> Seq<u32> {
        self.free_list@
    }

    /// Number of slots.
    pub closed spec fn len(&self) -> nat {
        self.slots@.len()
    }

    /// Slab invariant: slot indices fit a `u32` and the free list names slots.
    pub open spec fn wf(&self) -> bool {
        &&& self.len() <= u32::MAX
        &&& self.data().len() == self.len()
        &&& self.gens().len() == self.len()
        &&& forall|k: int| 0 <= k < self.free_list().len() ==> #[trigger] self.free_list()[k] < self.len()
        &&& self.len() > 0 ==> self.gens()[0] != 0
    }

    /// Both per-slot views have one entry per slot.
    pub proof fn lemma_view_lengths(&self)
        ensures
            self.data().len() == self.len(),
            self.gens().len() == self.len(),
    {
    }

    /// The handle that currently matches slot `i`.
    pub open spec fn handle_at(&self, i: int) -> SlabHandle {
        SlabHandle { index: i as u32, generation: self.gens()[i] }
    }

    /// Whether `h` names an existing slot whose generation it carries.
    pub open spec fn matches(&self, h: SlabHandle) -> bool {
        h.index < self.len() && self.gens()[h.index as int] == h.generation
    }

    /// `after` is `before` with `val` stored under `h`: the most recently
    /// freed slot is reused, keeping its generation, if there is one; else a
    /// slot of generation [`fresh_generation`] is appended.
    pub open spec fn allocated(before: Self, after: Self, val: T, h: SlabHandle) -> bool {
        &&& before.free_list().len() > 0 ==> {
            &&& h.index == before.free_list().last()
            &&& h.generation == before.gens()[h.index as int]
            &&& after.free_list() == before.free_list().drop_last()
            &&& after.data() == before.data().update(h.index as int, Some(val))
            &&& after.gens() == before.gens()
        }
        &&& before.free_list().len() == 0 ==> {
            &&& h.index == before.len()
            &&& h.generation == fresh_generation(before.len())
            &&& after.free_list() == before.free_list()
            &&& after.data() == before.data().push(Some(val))
            &&& after.gens() == before.gens().push(fresh_generation(before.len()))
        }
    }

    /// `after` is `before` with the slot `h` names emptied, its generation
    /// bumped by [`next_generation`] and its index pushed on the free list.
    pub open spec fn freed(before: Self, after: Self, h: SlabHandle) -> bool {
        &&& after.data() == before.data().update(h.index as int, None)
        &&& after.gens() == before.gens().update(h.index as int, next_generation(h.index as nat, h.generation))
        &&& after.free_list() == before.free_list().push(h.index)
    }

    /// The invalid handle `(0, 0)` never names a slot of a well-formed slab,
    /// so no value is ever stored under it.
    pub proof fn law_invalid_never_matches(&self)
        requires
            self.wf(),
        ensures
            !self.matches(SlabHandle { index: 0, generation: 0 }),
    {
    }

    /// What `iter` lists is exactly the live slots, each once, in increasing
    /// index order, each under a handle that matches its slot, as many as
    /// `active_count` reports.
    pub proof fn law_iter_lists_live_slots(&self)
        requires
            self.wf(),
        ensures
            active_entries(self.data()).len() == count_some(self.data()),
            forall|k: int|
                0 <= k < active_entries(self.data()).len() ==> {
                    let e = #[trigger] active_entries(self.data())[k];
                    &&& e.0 < self.len()
                    &&& self.data()[e.0 as int] == Some(e.1)
                    &&& self.matches(self.handle_at(e.0 as int))
                },
            forall|a: int, b: int|
                0 <= a < b < active_entries(self.data()).len() ==> active_entries(self.data())[a].0
                    < active_entries(self.data())[b].0,
            forall|i: int|
                0 <= i < self.len() && self.data()[i] is Some ==> exists|k: int|
                    0 <= k < active_entries(self.data()).len() && (#[trigger] active_entries(
                        self.data(),
                    )[k]).0 == i,
    {
        self.lemma_view_lengths();
        let d = self.data();
        lemma_active_prefix_entries(d, d.len() as int);
        lemma_active_prefix_complete(d, d.len() as int);
        assert(d.take(d.len() as int) =~= d);
        assert forall|k: int| 0 <= k < active_entries(d).len() implies {
            let e = #[trigger] active_entries(d)[k];
            &&& e.0 < self.len()
            &&& self.data()[e.0 as int] == Some(e.1)
            &&& self.matches(self.handle_at(e.0 as int))
        } by {
            let e = active_entries(d)[k];
            assert(active_prefix(d, d.len() as int)[k] == e);
        }
    }

    /// A handle returned by `allocate` names the stored value.
    pub proof fn law_get_after_allocate(before: Self, after: Self, val: T, h: SlabHandle)
        requires
            before.wf(),
            Self::allocated(before, after, val, h),
        ensures
            after.matches(h),
            after.data()[h.index as int] == Some(val),
    {
        before.lemma_view_lengths();
        after.lemma_view_lengths();
        if before.free_list().len() > 0 {
            assert(before.free_list()[before.free_list().len() - 1] == before.free_list().last());
        }
    }

    /// Once its slot is freed a handle is stale: it matches no slot and
    /// `get` refuses it.
    pub proof fn law_free_makes_stale(before: Self, after: Self, h: SlabHandle)
        requires
            before.wf(),
            before.matches(h),
            Self::freed(before, after, h),
        ensures
            !after.matches(h),
            after.data()[h.index as int] is None,
    {
        before.lemma_view_lengths();
        after.lemma_view_lengths();
    }

    /// Allocating right after a free reuses the freed slot under a new
    /// generation, so the old handle stays stale.
    pub proof fn law_reuse_after_free(
        s0: Self,
        s1: Self,
        s2: Self,
        h: SlabHandle,
        val: T,
        h2: SlabHandle,
    )
        requires
            s0.wf(),
            s0.matches(h),
            Self::freed(s0, s1, h),
            Self::allocated(s1, s2, val, h2),
        ensures
            h2.index == h.index,
            h2.generation != h.generation,
            s2.matches(h2),
            !s2.matches(h),
    {
        s0.lemma_view_lengths();
        s1.lemma_view_lengths();
        s2.lemma_view_lengths();
        assert(s1.free_list().last() == h.index);
    }

    /// Empty slab.
    pub fn new() -> (s: Slab<T>)
        ensures
            s.wf(),
            s.len() == 0,
            s.free_list() == Seq::<u32>::empty(),
    {
        Slab { slots: Vec::new(), free_list: Vec::new() }
    }

    /// Empty slab with room reserved for `capacity` slots.
    pub fn with_capacity(capacity: usize) -> (s: Slab<T>)
        ensures
            s.wf(),
            s.len() == 0,
            s.free_list() == Seq::<u32>::empty(),
    {
        Slab { slots: Vec::with_capacity(capacity), free_list: Vec::with_capacity(capacity) }
    }

    /// Stores `val`, reusing the most recently freed slot (keeping its
    /// generation) if there is one, else appending a slot of generation
    /// [`fresh_generation`] (1 for slot 0, else 0).
    pub fn allocate(&mut self, val: T) -> (h: SlabHandle)
        requires
            old(self).wf(),
            old(self).free_list().len() > 0 || old(self).len() < u32::MAX,
        ensures
            final(self).wf(),
            final(self).gens().len() == final(self).len(),
            Self::allocated(*old(self), *final(self), val, h),
    {
        if let Some(idx) = self.free_list.pop() {
            let i = idx as usize;
            let generation = self.slots[i].generation;
            self.slots.set(i, Slot { data: Some(val), generation });
            proof {
                assert(self.data() == old(self).data().update(i as int, Some(val)));
                assert(self.gens() == old(self).gens());
                assert forall|k: int| 0 <= k < self.free_list@.len() implies #[trigger] self.free_list@[k] < self.slots@.len() by {
                    assert(self.free_list@[k] == old(self).free_list@[k]);
                }
            }
            SlabHandle { index: idx, generation }
        } else {
            let idx = self.slots.len() as u32;
            let generation: u32 = if idx == 0 { 1 } else { 0 };
            self.slots.push(Slot { data: Some(val), generation });
            proof {
                assert(self.data() == old(self).data().push(Some(val)));
                assert(self.gens() == old(self).gens().push(generation));
                if old(self).len() > 0 {
                    assert(self.gens()[0] == old(self).gens()[0]);
                }
            }
            SlabHandle { index: idx, generation }
        }
    }

    /// Frees the slot `handle` names: it must exist and carry the slot's current
    /// generation. The slot is emptied, its generation bumped (wrapping to 0 past
    /// `u32::MAX`, to 1 for slot 0) and its index pushed on the free list.
    pub fn free(&mut self, handle: SlabHandle) -> (r: Result<(), SlabError>)
        requires
            old(self).wf(),
        ensures
            final(self).wf(),
            handle.index >= old(self).len() ==> r == Err::<(), SlabError>(
                SlabError::OutOfBounds(handle.index as usize, old(self).len() as usize),
            ),
            handle.index < old(self).len() && old(self).gens()[handle.index as int]
                != handle.generation ==> r == Err::<(), SlabError>(
                SlabError::GenerationMismatch {
                    expected: old(self).gens()[handle.index as int],
                    got: handle.generation,
                },
            ),
            r is Err ==> *final(self) == *old(self),
            old(self).matches(handle) ==> r is Ok && Self::freed(*old(self), *final(self), handle),
    {
        let i = handle.index as usize;
        if i >= self.slots.len() {
            return Err(SlabError::OutOfBounds(i, self.slots.len()));
        }
        let current = self.slots[i].generation;
        if current != handle.generation {
            return Err(SlabError::GenerationMismatch { expected: current, got: handle.generation });
        }
        let next: u32 = if current == u32::MAX {
            if i == 0 {
                1
            } else {
                0
            }
        } else {
            current + 1
        };
        self.slots.set(i, Slot { data: None, generation: next });
        self.free_list.push(handle.index);
        proof {
            assert(self.data() == old(self).data().update(i as int, None));
            assert(self.gens() == old(self).gens().update(i as int, next));
            assert forall|k: int| 0 <= k < self.free_list@.len() implies #[trigger] self.free_list@[k] < self.slots@.len() by {
                assert(self.slots@.len() == old(self).slots@.len());
                if k < old(self).free_list@.len() {
                    assert(self.free_list@[k] == old(self).free_list@[k]);
                    assert(old(self).free_list()[k] < old(self).len());
                } else {
                    assert(self.free_list@[k] == handle.index);
                }
            }
        }
        Ok(())
    }

    /// Borrows the value `handle` names.
    pub fn get(&self, handle: SlabHandle) -> (r: Result<&T, SlabError>)
        requires
            self.wf(),
        ensures
            handle.index >= self.len() ==> r == Err::<&T, SlabError>(
                SlabError::OutOfBounds(handle.index as usize, self.len() as usize),
            ),
            handle.index < self.len() && (self.gens()[handle.index as int] != handle.generation
                || self.data()[handle.index as int] is None) ==> r == Err::<&T, SlabError>(
                SlabError::GenerationMismatch {
                    expected: self.gens()[handle.index as int],
                    got: handle.generation,
                },
            ),
            r matches Ok(v) ==> self.matches(handle) && self.data()[handle.index as int] == Some(
                *v,
            ),
            self.matches(handle) && self.data()[handle.index as int] is Some ==> r is Ok,
    {
        let i = handle.index as usize;
        if i >= self.slots.len() {
            return Err(SlabError::OutOfBounds(i, self.slots.len()));
        }
        let expected = self.slots[i].generation;
        if expected != handle.generation {
            return Err(SlabError::GenerationMismatch { expected, got: handle.generation });
        }
        match &self.slots[i].data {
            Some(v) => Ok(v),
            None => Err(SlabError::GenerationMismatch { expected, got: handle.generation }),
        }
    }


    /// Mutably borrows the value `handle` names.
    #[verifier::spinoff_prover]
    pub fn get_mut(&mut self, handle: SlabHandle) -> (r: Result<&mut T, SlabError>)
        requires
            old(self).wf(),
        ensures
            handle.index >= old(self).len() ==> r == Err::<&mut T, SlabError>(
                SlabError::OutOfBounds(handle.index as usize, old(self).len() as usize),
            ),
            handle.index < old(self).len() && (old(self).gens()[handle.index as int]
                != handle.generation || old(self).data()[handle.index as int] is None) ==> r
                == Err::<&mut T, SlabError>(
                SlabError::GenerationMismatch {
                    expected: old(self).gens()[handle.index as int],
                    got: handle.generation,
                },
            ),
            r is Err ==> *final(self) == *old(self),
            old(self).matches(handle) && old(self).data()[handle.index as int] is Some ==> r is Ok,
            r matches Ok(v) ==> {
                &&& old(self).matches(handle)
                &&& old(self).data()[handle.index as int] == Some(*v)
                &&& final(self).data() == old(self).data().update(
                    handle.index as int,
                    Some(*final(v)),
                )
                &&& final(self).gens() == old(self).gens()
                &&& final(self).free_list() == old(self).free_list()
            },
            final(self).len() == old(self).len(),
            final(self).free_list() == old(self).free_list(),
            final(self).wf(),
    {
        let i = handle.index as usize;
        if i >= self.slots.len() {
            return Err(SlabError::OutOfBounds(i, self.slots.len()));
        }
        let expected_generation = self.slots[i].generation;
        if expected_generation != handle.generation {
            return Err(
                SlabError::GenerationMismatch { expected: expected_generation, got: handle.generation },
            );
        }
        if self.slots[i].data.is_none() {
            return Err(
                SlabError::GenerationMismatch { expected: expected_generation, got: handle.generation },
            );
        }
        match &mut self.slots[i].data {
            Some(v) => Ok(v),
            None => Err(
                SlabError::GenerationMismatch { expected: expected_generation, got: handle.generation },
            ),
        }
    }


    /// The occupied slots as `(matching handle, &value)` pairs, in index order.
    pub fn iter(&self) -> (r: Vec<(SlabHandle, &T)>)
        requires
            self.wf(),
        ensures
            r@.len() == active_entries(self.data()).len(),
            forall|k: int|
                0 <= k < r@.len() ==> (#[trigger] r@[k]).0 == self.handle_at(
                    active_entries(self.data())[k].0 as int,
                ) && *r@[k].1 == active_entries(self.data())[k].1,
    {
        let mut r: Vec<(SlabHandle, &T)> = Vec::new();
        let mut i: usize = 0;
        while i < self.slots.len()
            invariant
                self.wf(),
                i <= self.slots@.len(),
                r@.len() == active_prefix(self.data(), i as int).len(),
                forall|k: int|
                    0 <= k < r@.len() ==> (#[trigger] r@[k]).0 == self.handle_at(
                        active_prefix(self.data(), i as int)[k].0 as int,
                    ) && *r@[k].1 == active_prefix(self.data(), i as int)[k].1,
                forall|k: int|
                    0 <= k < active_prefix(self.data(), i as int).len() ==> (#[trigger] active_prefix(
                        self.data(),
                        i as int,
                    )[k]).0 < i,
            decreases self.slots@.len() - i,
        {
            let slot = &self.slots[i];
            match &slot.data {
                Some(v) => {
                    r.push((slot.handle(i as u32), v));
                },
                None => {},
            }
            i = i + 1;
        }
        r
    }


    /// The occupied slots as `(matching handle, &mut value)` pairs, in index
    /// order; writes through the references land in those slots.
    pub fn iter_mut(&mut self) -> (r: Vec<(SlabHandle, &mut T)>)
        requires
            old(self).wf(),
        ensures
            r@.len() == active_entries(old(self).data()).len(),
            forall|k: int|
                0 <= k < r@.len() ==> (#[trigger] r@[k]).0 == old(self).handle_at(
                    active_entries(old(self).data())[k].0 as int,
                ) && *r@[k].1 == active_entries(old(self).data())[k].1,
            final(self).free_list() == old(self).free_list(),
            final(self).gens() == old(self).gens(),
            final(self).len() == old(self).len(),
            forall|j: int|
                0 <= j < old(self).len() && old(self).data()[j] is None
                    ==> final(self).data()[j] is None,
            forall|k: int|
                0 <= k < r@.len() ==> final(self).data()[(#[trigger] r@[k]).0.index as int] == Some(
                    *final(r@[k].1),
                ),
    {
        let ghost old_slots = self.slots@;
        let ghost old_data = old(self).data();
        let ghost old_gens = old(self).gens();
        proof {
            lemma_active_prefix_entries(old_data, old_slots.len() as int);
        }
        let mut r: Vec<(SlabHandle, &mut T)> = Vec::new();
        let s = self.slots.as_mut_slice();
        let mut rest = s;
        let mut i: usize = 0;
        let n = rest.len();
        while i < n
            invariant
                n == old_slots.len(),
                n <= u32::MAX,
                i <= n,
                old_data == old_slots.map_values(|s: Slot<T>| s.data),
                old_gens == old_slots.map_values(|s: Slot<T>| s.generation),
                forall|k: int| 0 <= k < active_prefix(old_data, i as int).len() ==> (#[trigger] active_prefix(old_data, i as int)[k]).0 < i,
                rest@ == old_slots.subrange(i as int, n as int),
                final(s)@.len() == i + final(rest)@.len(),
                forall|j: int|
                    0 <= j < final(rest)@.len() ==> final(s)@[i + j] == #[trigger] final(rest)@[j],
                forall|j: int|
                    0 <= j < i ==> (#[trigger] final(s)@[j]).generation == old_slots[j].generation,
                forall|j: int| 0 <= j < i && old_slots[j].data is None ==> (#[trigger] final(s)@[j]).data is None,
                forall|k: int|
                    0 <= k < r@.len() ==> final(s)@[(#[trigger] r@[k]).0.index as int].data == Some(
                        *final(r@[k].1),
                    ),
                r@.len() == active_prefix(old_data, i as int).len(),
                forall|k: int|
                    0 <= k < r@.len() ==> (#[trigger] r@[k]).0 == (SlabHandle {
                        index: active_prefix(old_data, i as int)[k].0,
                        generation: old_gens[active_prefix(old_data, i as int)[k].0 as int],
                    }) && *r@[k].1 == active_prefix(old_data, i as int)[k].1,
            decreases n - i,
        {
            proof {
                lemma_active_prefix_entries(old_data, i + 1);
            }
            let cur = rest;
            let (head, tail) = {cur}.split_at_mut(1);
            let first = {head}.first_mut();
            proof {
                assert(first is Some);
            }
            let slot = first.unwrap();
            let generation = slot.generation;
            let handle = SlabHandle { index: i as u32, generation };
            let d = &mut {slot}.data;
            match {d} {
                Some(v) => {
                    proof {
                        assert(*final(d) == Some(*final(v)));
                    }
                    r.push((handle, {v}));
                },
                None => {},
            }
            proof {
                assert(final(cur)@ == final(head)@ + final(tail)@);
                assert(final(head)@.len() == 1);
                assert(final(head)@[0] == *final(slot));
                assert(final(slot).data == *final(d));
                assert(final(slot).generation == generation);
                assert(old_slots[i as int].data is None ==> *final(d) is None);
                assert(final(s)@[i as int] == final(cur)@[0]);
                assert forall|j: int| 0 <= j < final(tail)@.len() implies final(s)@[i + 1 + j]
                    == #[trigger] final(tail)@[j] by {
                    assert(final(cur)@[1 + j] == final(tail)@[j]);
                    assert(final(s)@[i + (1 + j)] == final(cur)@[1 + j]);
                }
            }
            rest = tail;
            i = i + 1;
        }
        r
    }

    /// Handles of all occupied slots, in index order.
    pub fn active_handles(&self) -> (r: Vec<SlabHandle>)
        requires
            self.wf(),
        ensures
            r@.len() == active_entries(self.data()).len(),
            forall|k: int|
                0 <= k < r@.len() ==> #[trigger] r@[k] == self.handle_at(
                    active_entries(self.data())[k].0 as int,
                ),
    {
        let mut r: Vec<SlabHandle> = Vec::new();
        let mut i: usize = 0;
        while i < self.slots.len()
            invariant
                self.wf(),
                i <= self.slots@.len(),
                r@.len() == active_prefix(self.data(), i as int).len(),
                forall|k: int|
                    0 <= k < r@.len() ==> #[trigger] r@[k] == self.handle_at(
                        active_prefix(self.data(), i as int)[k].0 as int,
                    ),
            decreases self.slots@.len() - i,
        {
            if self.slots[i].data.is_some() {
                r.push(self.slots[i].handle(i as u32));
            }
            i = i + 1;
        }
        r
    }

    /// Number of slots, occupied or not.
    pub fn capacity(&self) -> (n: usize)
        ensures
            n == self.len(),
    {
        self.slots.len()
    }

    /// Number of occupied slots.
    pub fn active_count(&self) -> (n: usize)
        requires
            self.wf(),
        ensures
            n == count_some(self.data()),
    {
        let mut n: usize = 0;
        let mut i: usize = 0;
        while i < self.slots.len()
            invariant
                self.wf(),
                i <= self.slots@.len(),
                n == count_some(self.data().subrange(0, i as int)),
                n <= i,
            decreases self.slots@.len() - i,
        {
            proof {
                assert(self.data().subrange(0, i + 1).drop_last() == self.data().subrange(
                    0,
                    i as int,
                ));
            }
            if self.slots[i].data.is_some() {
                n = n + 1;
            }
            i = i + 1;
        }
        proof {
            assert(self.data().subrange(0, i as int) == self.data());
        }
        n
    }

    /// Reserves room for `additional` more slots; the slab's contents do not change.
    pub fn reserve(&mut self, additional: usize)
        ensures
            final(self).data() == old(self).data(),
            final(self).gens() == old(self).gens(),
            final(self).free_list() == old(self).free_list(),
            final(self).len() == old(self).len(),
    {
        self.slots.reserve(additional);
        self.free_list.reserve(additional);
    }

    /// Whether `handle` still names a live value: its slot exists, carries
    /// the handle's generation and is occupied (exactly when `get` accepts
    /// it).
    pub fn is_valid(&self, handle: SlabHandle) -> (r: bool)
        requires
            self.wf(),
        ensures
            r == (self.matches(handle) && self.data()[handle.index as int] is Some),
    {
        let i = handle.index as usize;
        i < self.slots.len() && self.slots[i].generation == handle.generation && self.slots[i].data.is_some()
    }
}

} // verus!
