//! `Pool<T>`: fixed-size object reuse with a LIFO free list.

use vstd::prelude::*;

verus! {

/// Errors of [`Pool`].
#[derive(Clone, Copy, Debug, PartialEq, Eq, Structural)]
pub enum PoolError {
    /// Index out of bounds: `(index, len)`.
    OutOfBounds(usize, usize),
    /// The slot is empty (released or never acquired).
    EmptySlot(usize),
}

/// Number of occupied slots in `s`.
pub open spec fn count_some<T>(s: Seq<Option<T>>) -> nat
    decreases s.len(),
{
    if s.len() == 0 {
        0
    } else {
        count_some(s.drop_last()) + if s.last() is Some { 1nat } else { 0nat }
    }
}

/// The occupied slots of `s[..n]` as `(index, value)` pairs, in index order.
pub open spec fn active_prefix<T>(s: Seq<Option<T>>, n: int) -> Seq<(u32, T)>
    decreases n,
{
    if n <= 0 {
        Seq::empty()
    } else {
        let rest = active_prefix(s, n - 1);
        match s[n - 1] {
            Some(v) => rest.push(((n - 1) as u32, v)),
            None => rest,
        }
    }
}


/// Every entry of `active_prefix(s, n)` names an occupied slot below `n`
/// (for `n <= s.len()`), in strictly increasing index order.
pub proof fn lemma_active_prefix_entries<T>(s: Seq<Option<T>>, n: int)
    requires
        0 <= n <= s.len(),
        s.len() <= u32::MAX + 1,
    ensures
        forall|k: int|
            0 <= k < active_prefix(s, n).len() ==> {
                &&& (#[trigger] active_prefix(s, n)[k]).0 < n
                &&& s[active_prefix(s, n)[k].0 as int] == Some(active_prefix(s, n)[k].1)
            },
        forall|a: int, b: int|
            0 <= a < b < active_prefix(s, n).len() ==> active_prefix(s, n)[a].0 < active_prefix(
                s,
                n,
            )[b].0,
    decreases n,
{
    if n > 0 {
        lemma_active_prefix_entries(s, n - 1);
    }
}

/// Count of occupied slots after one slot is overwritten.
pub proof fn lemma_count_some_update<T>(s: Seq<Option<T>>, i: int, v: Option<T>)
    requires
        0 <= i < s.len(),
    ensures
        count_some(s.update(i, v)) + (if s[i] is Some { 1int } else { 0int }) == count_some(s) + (
        if v is Some {
            1int
        } else {
            0int
        }),
    decreases s.len(),
{
    let t = s.update(i, v);
    if i == s.len() - 1 {
        assert(t.drop_last() =~= s.drop_last());
    } else {
        assert(t.drop_last() =~= s.drop_last().update(i, v));
        lemma_count_some_update(s.drop_last(), i, v);
    }
}

/// Count of occupied slots after a push.
pub proof fn lemma_count_some_push<T>(s: Seq<Option<T>>, v: Option<T>)
    ensures
        count_some(s.push(v)) == count_some(s) + (if v is Some {
            1int
        } else {
            0int
        }),
{
    assert(s.push(v).drop_last() =~= s);
}

/// At most every slot is occupied.
pub proof fn lemma_count_some_le<T>(s: Seq<Option<T>>)
    ensures
        count_some(s) <= s.len(),
    decreases s.len(),
{
    if s.len() > 0 {
        lemma_count_some_le(s.drop_last());
    }
}

/// `active_prefix(s, n)` lists every occupied slot below `n` (for
/// `n <= s.len() <= u32::MAX + 1`), and as many entries as `s[..n]` has
/// occupied slots.
pub proof fn lemma_active_prefix_complete<T>(s: Seq<Option<T>>, n: int)
    requires
        0 <= n <= s.len(),
        s.len() <= u32::MAX + 1,
    ensures
        active_prefix(s, n).len() == count_some(s.take(n)),
        forall|i: int|
            0 <= i < n && s[i] is Some ==> exists|k: int|
                0 <= k < active_prefix(s, n).len() && (#[trigger] active_prefix(s, n)[k]).0 == i,
    decreases n,
{
    if n > 0 {
        lemma_active_prefix_complete(s, n - 1);
        assert(s.take(n).drop_last() =~= s.take(n - 1));
        assert(s.take(n).last() == s[n - 1]);
        let rest = active_prefix(s, n - 1);
        let cur = active_prefix(s, n);
        assert forall|i: int| 0 <= i < n && s[i] is Some implies exists|k: int|
            0 <= k < cur.len() && (#[trigger] cur[k]).0 == i by {
            if i < n - 1 {
                let k = choose|k: int| 0 <= k < rest.len() && (#[trigger] rest[k]).0 == i;
                assert(cur[k] == rest[k]);
            } else {
                assert(cur[rest.len() as int].0 == ((n - 1) as u32));
            }
        }
    }
}

/// The occupied slots of `s` as `(index, value)` pairs, in index order.
pub open spec fn active_entries<T>(s: Seq<Option<T>>) -> Seq<(u32, T)> {
    active_prefix(s, s.len() as int)
}

/// Fixed-size object pool: `acquire` reuses the most recently released slot.
/// Sum of a sequence of integers.
pub open spec fn sum_of(d: Seq<int>) -> int
    decreases d.len(),
{
    if d.len() == 0 {
        0
    } else {
        sum_of(d.drop_last()) + d.last()
    }
}

/// One step of a pool's history, with its change `delta` of the live count:
/// an `acquire` (+1), a `release` of a live slot (-1), or a refused call
/// that left the pool as it was (0).
pub open spec fn pool_step<T>(before: Pool<T>, after: Pool<T>, delta: int) -> bool {
    ||| delta == 1 && exists|v: T, i: u32| Pool::acquired(before, after, v, i)
    ||| delta == -1 && exists|i: u32|
        i < before.slots().len() && before.slots()[i as int] is Some && #[trigger] Pool::released(
            before,
            after,
            i,
        )
    ||| delta == 0 && after == before
}

#[derive(Debug)]
pub struct Pool<T> {
    slots: Vec<Option<T>>,
    free_list: Vec<u32>,
}

impl<T> Pool<T> {
    /// Contents of every slot, by index.
    pub closed spec fn slots(&self) -> Seq<Option<T>> {
        self.slots@
    }

    /// Released slot indices, most recent last.
    pub closed spec fn free_list(&self) -> Seq<u32> {
        self.free_list@
    }

    /// Pool invariant: the free list holds each empty slot exactly once.
    pub open spec fn wf(&self) -> bool {
        &&& self.slots().len() <= u32::MAX
        &&& self.free_list().no_duplicates()
        &&& forall|k: int|
            0 <= k < self.free_list().len() ==> {
                &&& #[trigger] self.free_list()[k] < self.slots().len()
                &&& self.slots()[self.free_list()[k] as int] is None
            }
        &&& forall|i: int|
            0 <= i < self.slots().len() && self.slots()[i] is None ==> self.free_list().contains(
                i as u32,
            )
    }

    /// `after` is `before` with `val` stored in slot `idx`: the most recently
    /// released slot if there is one, else a new slot at the end.
    pub open spec fn acquired(before: Self, after: Self, val: T, idx: u32) -> bool {
        &&& before.free_list().len() > 0 ==> {
            &&& idx == before.free_list().last()
            &&& after.free_list() == before.free_list().drop_last()
            &&& after.slots() == before.slots().update(idx as int, Some(val))
        }
        &&& before.free_list().len() == 0 ==> {
            &&& idx == before.slots().len()
            &&& after.free_list() == before.free_list()
            &&& after.slots() == before.slots().push(Some(val))
        }
    }

    /// `after` is `before` with slot `idx` emptied and recorded for reuse.
    pub open spec fn released(before: Self, after: Self, idx: u32) -> bool {
        &&& after.slots() == before.slots().update(idx as int, None)
        &&& after.free_list() == before.free_list().push(idx)
    }

    /// The live slots never outnumber the slots.
    pub proof fn law_live_within_capacity(&self)
        ensures
            count_some(self.slots()) <= self.slots().len(),
    {
        lemma_count_some_le(self.slots());
    }

    /// `acquire` makes exactly one more slot live.
    pub proof fn law_acquire_adds_live(before: Self, after: Self, val: T, idx: u32)
        requires
            before.wf(),
            Self::acquired(before, after, val, idx),
        ensures
            count_some(after.slots()) == count_some(before.slots()) + 1,
    {
        if before.free_list().len() > 0 {
            let k = before.free_list().len() - 1;
            assert(before.free_list()[k] == before.free_list().last());
            lemma_count_some_update(before.slots(), idx as int, Some(val));
        } else {
            lemma_count_some_push(before.slots(), Some(val));
        }
    }

    /// A release that succeeds (of a live slot) makes exactly one slot fewer
    /// live; so, from an empty pool, the live count is the number of
    /// acquires less the number of successful releases.
    pub proof fn law_release_removes_live(before: Self, after: Self, idx: u32)
        requires
            idx < before.slots().len(),
            before.slots()[idx as int] is Some,
            Self::released(before, after, idx),
        ensures
            count_some(after.slots()) + 1 == count_some(before.slots()),
    {
        lemma_count_some_update(before.slots(), idx as int, None);
    }

    /// Over any history of `acquire` and `release` calls from an empty pool,
    /// the live count is the number of acquires less the number of
    /// releases that succeeded, and never exceeds the number of slots.
    pub proof fn law_live_count_history(ps: Seq<Self>, deltas: Seq<int>)
        requires
            ps.len() == deltas.len() + 1,
            ps[0].slots().len() == 0,
            forall|i: int| 0 <= i < ps.len() ==> #[trigger] ps[i].wf(),
            forall|i: int| 0 <= i < deltas.len() ==> pool_step(ps[i], ps[i + 1], #[trigger] deltas[i]),
        ensures
            count_some(ps.last().slots()) == sum_of(deltas),
            count_some(ps.last().slots()) <= ps.last().slots().len(),
        decreases deltas.len(),
    {
        let n = deltas.len();
        if n == 0 {
            assert(ps[0].slots() =~= Seq::<Option<T>>::empty());
        } else {
            let qs = ps.drop_last();
            let ds = deltas.drop_last();
            assert forall|i: int| 0 <= i < qs.len() implies #[trigger] qs[i].wf() by {
                assert(qs[i] == ps[i]);
            }
            assert forall|i: int| 0 <= i < ds.len() implies pool_step(qs[i], qs[i + 1], #[trigger] ds[i]) by {
                assert(qs[i] == ps[i] && qs[i + 1] == ps[i + 1] && ds[i] == deltas[i]);
            }
            Self::law_live_count_history(qs, ds);
            let a = ps[n - 1];
            let b = ps[n as int];
            assert(qs.last() == a);
            assert(ps.last() == b);
            assert(a.wf());
            assert(pool_step(a, b, deltas[n - 1]));
            if deltas[n - 1] == 1 {
                let (v, i) = choose|v: T, i: u32| Pool::acquired(a, b, v, i);
                Self::law_acquire_adds_live(a, b, v, i);
            } else if deltas[n - 1] == -1 {
                let i = choose|i: u32|
                    i < a.slots().len() && a.slots()[i as int] is Some && #[trigger] Pool::released(a, b, i);
                Self::law_release_removes_live(a, b, i);
            }
        }
        lemma_count_some_le(ps.last().slots());
    }

    /// The slot returned by `acquire` holds the stored value.
    pub proof fn law_get_after_acquire(before: Self, after: Self, val: T, idx: u32)
        requires
            before.wf(),
            Self::acquired(before, after, val, idx),
        ensures
            idx < after.slots().len(),
            after.slots()[idx as int] == Some(val),
    {
        if before.free_list().len() > 0 {
            assert(before.free_list()[before.free_list().len() - 1] == before.free_list().last());
        }
    }

    /// A released slot is empty, so releasing it again is refused.
    pub proof fn law_release_empties(before: Self, after: Self, idx: u32)
        requires
            idx < before.slots().len(),
            Self::released(before, after, idx),
        ensures
            idx < after.slots().len(),
            after.slots()[idx as int] is None,
    {
    }

    /// Acquiring right after a release reuses the released slot.
    pub proof fn law_acquire_reuses_release(p0: Self, p1: Self, p2: Self, idx: u32, val: T, idx2: u32)
        requires
            p0.wf(),
            idx < p0.slots().len(),
            p0.slots()[idx as int] is Some,
            Self::released(p0, p1, idx),
            Self::acquired(p1, p2, val, idx2),
        ensures
            idx2 == idx,
            p2.slots()[idx as int] == Some(val),
    {
        assert(p1.free_list().last() == idx);
    }

    /// Empty pool.
    pub fn new() -> (p: Pool<T>)
        ensures
            p.wf(),
            p.slots() == Seq::<Option<T>>::empty(),
            p.free_list() == Seq::<u32>::empty(),
    {
        Pool { slots: Vec::new(), free_list: Vec::new() }
    }

    /// Empty pool with room reserved for `capacity` slots.
    pub fn with_capacity(capacity: usize) -> (p: Pool<T>)
        ensures
            p.wf(),
            p.slots() == Seq::<Option<T>>::empty(),
            p.free_list() == Seq::<u32>::empty(),
    {
        Pool { slots: Vec::with_capacity(capacity), free_list: Vec::with_capacity(capacity) }
    }

    /// Stores `val`, reusing the most recently released slot if there is one,
    /// else appending a new slot; returns the slot index.
    pub fn acquire(&mut self, val: T) -> (idx: u32)
        requires
            old(self).wf(),
            old(self).free_list().len() > 0 || old(self).slots().len() < u32::MAX,
        ensures
            final(self).wf(),
            Self::acquired(*old(self), *final(self), val, idx),
    {
        if let Some(idx) = self.free_list.pop() {
            proof {
                assert(old(self).free_list@.drop_last() == self.free_list@);
                assert(old(self).free_list@.last() == idx);
            }
            self.slots.set(idx as usize, Some(val));
            proof {
                let fl = self.free_list@;
                let ofl = old(self).free_list@;
                assert forall|k: int| 0 <= k < fl.len() implies fl[k] != idx by {
                    assert(ofl[k] == fl[k]);
                    assert(ofl[ofl.len() - 1] == idx);
                }
                assert forall|i: int|
                    0 <= i < self.slots@.len() && self.slots@[i] is None implies fl.contains(
                    i as u32,
                ) by {
                    assert(i != idx);
                    assert(old(self).slots@[i] is None);
                    assert(ofl.contains(i as u32));
                    let k = choose|k: int| 0 <= k < ofl.len() && ofl[k] == i as u32;
                    assert(k != ofl.len() - 1);
                    assert(fl[k] == i as u32);
                }
            }
            idx
        } else {
            let idx = self.slots.len() as u32;
            self.slots.push(Some(val));
            proof {
                assert forall|i: int|
                    0 <= i < self.slots@.len() && self.slots@[i] is None implies self.free_list@.contains(
                    i as u32,
                ) by {
                    assert(i < old(self).slots@.len());
                    assert(old(self).slots@[i] is None);
                }
            }
            idx
        }
    }

    /// Empties slot `idx` and records it for reuse.
    pub fn release(&mut self, idx: u32) -> (r: Result<(), PoolError>)
        requires
            old(self).wf(),
        ensures
            final(self).wf(),
            idx >= old(self).slots().len() ==> r == Err::<(), PoolError>(
                PoolError::OutOfBounds(idx as usize, old(self).slots().len() as usize),
            ),
            idx < old(self).slots().len() && old(self).slots()[idx as int] is None ==> r == Err::<
                (),
                PoolError,
            >(PoolError::EmptySlot(idx as usize)),
            r is Err ==> *final(self) == *old(self),
            idx < old(self).slots().len() && old(self).slots()[idx as int] is Some ==> r is Ok
                && Self::released(*old(self), *final(self), idx),
    {
        let i = idx as usize;
        if i >= self.slots.len() {
            return Err(PoolError::OutOfBounds(i, self.slots.len()));
        }
        if self.slots[i].is_none() {
            return Err(PoolError::EmptySlot(i));
        }
        self.slots.set(i, None);
        proof {
            assert(!old(self).free_list@.contains(idx));
        }
        self.free_list.push(idx);
        proof {
            let fl = self.free_list@;
            let ofl = old(self).free_list@;
            assert forall|k: int| 0 <= k < fl.len() implies #[trigger] fl[k] < self.slots@.len()
                && self.slots@[fl[k] as int] is None by {
                if k < ofl.len() {
                    assert(ofl[k] == fl[k]);
                }
            }
            assert forall|j: int|
                0 <= j < self.slots@.len() && self.slots@[j] is None implies fl.contains(
                j as u32,
            ) by {
                if j == i {
                    assert(fl[fl.len() - 1] == idx);
                } else {
                    assert(ofl.contains(j as u32));
                    let k = choose|k: int| 0 <= k < ofl.len() && ofl[k] == j as u32;
                    assert(fl[k] == j as u32);
                }
            }
        }
        Ok(())
    }

    /// Borrows the value in slot `idx`.
    pub fn get(&self, idx: u32) -> (r: Result<&T, PoolError>)
        ensures
            match r {
                Ok(v) => idx < self.slots().len() && self.slots()[idx as int] == Some(*v),
                Err(e) => e == PoolError::EmptySlot(idx as usize) && (idx >= self.slots().len()
                    || self.slots()[idx as int] is None),
            },
    {
        let i = idx as usize;
        if i >= self.slots.len() {
            return Err(PoolError::EmptySlot(i));
        }
        match &self.slots[i] {
            Some(v) => Ok(v),
            None => Err(PoolError::EmptySlot(i)),
        }
    }


    /// Mutably borrows the value in slot `idx`.
    pub fn get_mut(&mut self, idx: u32) -> (r: Result<&mut T, PoolError>)
        ensures
            match r {
                Ok(v) => {
                    &&& idx < old(self).slots().len()
                    &&& old(self).slots()[idx as int] == Some(*v)
                    &&& final(self).slots() == old(self).slots().update(idx as int, Some(*final(v)))
                    &&& final(self).free_list() == old(self).free_list()
                },
                Err(e) => {
                    &&& e == PoolError::EmptySlot(idx as usize)
                    &&& idx >= old(self).slots().len() || old(self).slots()[idx as int] is None
                    &&& *final(self) == *old(self)
                },
            },
    {
        let i = idx as usize;
        if i >= self.slots.len() {
            return Err(PoolError::EmptySlot(i));
        }
        if self.slots[i].is_none() {
            return Err(PoolError::EmptySlot(i));
        }
        match &mut self.slots[i] {
            Some(v) => Ok(v),
            None => Err(PoolError::EmptySlot(i)),
        }
    }


    /// The occupied slots as `(index, &value)` pairs, in index order.
    pub fn iter(&self) -> (r: Vec<(u32, &T)>)
        requires
            self.wf(),
        ensures
            r@.len() == active_entries(self.slots()).len(),
            forall|k: int|
                0 <= k < r@.len() ==> (#[trigger] r@[k]).0 == active_entries(self.slots())[k].0
                    && *r@[k].1 == active_entries(self.slots())[k].1,
    {
        let mut r: Vec<(u32, &T)> = Vec::new();
        let mut i: usize = 0;
        while i < self.slots.len()
            invariant
                i <= self.slots@.len(),
                self.slots@.len() <= u32::MAX,
                r@.len() == active_prefix(self.slots@, i as int).len(),
                forall|k: int|
                    0 <= k < r@.len() ==> (#[trigger] r@[k]).0 == active_prefix(
                        self.slots@,
                        i as int,
                    )[k].0 && *r@[k].1 == active_prefix(self.slots@, i as int)[k].1,
            decreases self.slots@.len() - i,
        {
            match &self.slots[i] {
                Some(v) => {
                    r.push((i as u32, v));
                },
                None => {},
            }
            i = i + 1;
        }
        r
    }

    /// Calls `f(index, &value)` for every occupied slot, in index order.
    pub fn for_each_active<F: FnMut(u32, &T)>(&self, mut f: F)
        requires
            self.wf(),
            forall|i: u32, v: &T| #[trigger] call_requires(f, (i, v)),
        ensures
            forall|k: int|
                0 <= k < active_entries(self.slots()).len() ==> call_ensures(
                    f,
                    (
                        (#[trigger] active_entries(self.slots())[k]).0,
                        &active_entries(self.slots())[k].1,
                    ),
                    (),
                ),
    {
        let ghost f0 = f;
        assert(f0 == f);
        let mut i: usize = 0;
        while i < self.slots.len()
            invariant
                i <= self.slots@.len(),
                self.slots@.len() <= u32::MAX,
                f == f0,
                forall|i: u32, v: &T| #[trigger] call_requires(f0, (i, v)),
                forall|k: int|
                    0 <= k < active_prefix(self.slots@, i as int).len() ==> call_ensures(
                        f0,
                        (
                            (#[trigger] active_prefix(self.slots@, i as int)[k]).0,
                            &active_prefix(self.slots@, i as int)[k].1,
                        ),
                        (),
                    ),
            decreases self.slots@.len() - i,
        {
            let ghost before = active_prefix(self.slots@, i as int);
            match &self.slots[i] {
                Some(v) => {
                    f(i as u32, v);
                    proof {
                        let after = active_prefix(self.slots@, i + 1);
                        assert(after == before.push((i as u32, *v)));
                        assert forall|k: int| 0 <= k < after.len() implies call_ensures(
                            f0,
                            ((#[trigger] after[k]).0, &after[k].1),
                            (),
                        ) by {
                            if k < before.len() {
                                assert(after[k] == before[k]);
                            }
                        }
                    }
                },
                None => {
                    proof {
                        assert(active_prefix(self.slots@, i + 1) == before);
                    }
                },
            }
            i = i + 1;
        }
    }

    /// Borrows slot `idx`, first filling it with `f()` if it is empty (the slot
    /// then leaves the free list). `f` is not called when the slot is occupied.
    pub fn get_or_insert_with<F: FnOnce() -> T>(&mut self, idx: u32, f: F) -> (r: Result<
        &mut T,
        PoolError,
    >)
        requires
            old(self).wf(),
            call_requires(f, ()),
        ensures
            final(self).wf(),
            idx >= old(self).slots().len() ==> (r matches Err(e) && e == PoolError::OutOfBounds(
                idx as usize,
                old(self).slots().len() as usize,
            ) && *final(self) == *old(self)),
            idx < old(self).slots().len() ==> (r matches Ok(v) && {
                &&& final(self).slots() == old(self).slots().update(idx as int, Some(*final(v)))
                &&& old(self).slots()[idx as int] matches Some(x) ==> {
                    &&& *v == x
                    &&& final(self).free_list() == old(self).free_list()
                }
                &&& old(self).slots()[idx as int] is None ==> {
                    &&& call_ensures(f, (), *v)
                    &&& exists|k: int|
                        0 <= k < old(self).free_list().len() && old(self).free_list()[k] == idx
                            && final(self).free_list() == old(self).free_list().remove(k)
                }
            }),
    {
        let i = idx as usize;
        if i >= self.slots.len() {
            return Err(PoolError::OutOfBounds(i, self.slots.len()));
        }
        if self.slots[i].is_none() {
            let v = f();
            proof {
                assert(old(self).free_list@.contains(idx));
            }
            let mut k: usize = 0;
            while k < self.free_list.len() && self.free_list[k] != idx
                invariant
                    k <= self.free_list@.len(),
                    self.free_list@ == old(self).free_list@,
                    self.free_list@.contains(idx),
                    forall|j: int| 0 <= j < k ==> self.free_list@[j] != idx,
                decreases self.free_list@.len() - k,
            {
                k = k + 1;
            }
            proof {
                if k == self.free_list@.len() {
                    let j = choose|j: int| 0 <= j < self.free_list@.len() && self.free_list@[j] == idx;
                    assert(false);
                }
            }
            self.free_list.remove(k);
            self.slots.set(i, Some(v));
            proof {
                let fl = self.free_list@;
                let ofl = old(self).free_list@;
                assert forall|a: int, b: int| 0 <= a < b < fl.len() implies fl[a] != fl[b] by {
                    let a2 = if a < k { a } else { a + 1 };
                    let b2 = if b < k { b } else { b + 1 };
                    assert(fl[a] == ofl[a2]);
                    assert(fl[b] == ofl[b2]);
                }
                assert forall|m: int| 0 <= m < fl.len() implies #[trigger] fl[m]
                    < self.slots@.len() && self.slots@[fl[m] as int] is None by {
                    let m2 = if m < k { m } else { m + 1 };
                    assert(fl[m] == ofl[m2]);
                    assert(ofl[m2] != idx);
                }
                assert forall|j: int|
                    0 <= j < self.slots@.len() && self.slots@[j] is None implies fl.contains(
                    j as u32,
                ) by {
                    assert(j != i);
                    assert(ofl.contains(j as u32));
                    let m = choose|m: int| 0 <= m < ofl.len() && ofl[m] == j as u32;
                    assert(m != k);
                    if m < k {
                        assert(fl[m] == j as u32);
                    } else {
                        assert(fl[m - 1] == j as u32);
                    }
                }
            }
        }
        match &mut self.slots[i] {
            Some(v) => Ok(v),
            None => Err(PoolError::EmptySlot(i)),
        }
    }


    /// The occupied slots as `(index, &mut value)` pairs, in index order;
    /// writes through the references land in those slots.
    pub fn iter_mut(&mut self) -> (r: Vec<(u32, &mut T)>)
        requires
            old(self).wf(),
        ensures
            r@.len() == active_entries(old(self).slots()).len(),
            forall|k: int|
                0 <= k < r@.len() ==> (#[trigger] r@[k]).0 == active_entries(old(self).slots())[k].0
                    && *r@[k].1 == active_entries(old(self).slots())[k].1,
            final(self).free_list() == old(self).free_list(),
            final(self).slots().len() == old(self).slots().len(),
            forall|j: int|
                0 <= j < old(self).slots().len() && old(self).slots()[j] is None
                    ==> final(self).slots()[j] is None,
            forall|k: int|
                0 <= k < r@.len() ==> final(self).slots()[(#[trigger] r@[k]).0 as int] == Some(
                    *final(r@[k].1),
                ),
    {
        let ghost old_slots = self.slots@;
        let mut r: Vec<(u32, &mut T)> = Vec::new();
        let s: &mut [Option<T>] = self.slots.as_mut_slice();
        let mut rest = s;
        let mut i: usize = 0;
        let n = rest.len();
        while i < n
            invariant
                n == old_slots.len(),
                n <= u32::MAX,
                i <= n,
                rest@ == old_slots.subrange(i as int, n as int),
                final(s)@.len() == i + final(rest)@.len(),
                forall|j: int|
                    0 <= j < final(rest)@.len() ==> final(s)@[i + j] == #[trigger] final(rest)@[j],
                forall|j: int| 0 <= j < i && old_slots[j] is None ==> final(s)@[j] is None,
                forall|k: int|
                    0 <= k < r@.len() ==> final(s)@[(#[trigger] r@[k]).0 as int] == Some(
                        *final(r@[k].1),
                    ),
                r@.len() == active_prefix(old_slots, i as int).len(),
                forall|k: int|
                    0 <= k < r@.len() ==> (#[trigger] r@[k]).0 == active_prefix(
                        old_slots,
                        i as int,
                    )[k].0 && *r@[k].1 == active_prefix(old_slots, i as int)[k].1,
            decreases n - i,
        {
            let cur = rest;
            let (head, tail) = {cur}.split_at_mut(1);
            let first = {head}.first_mut();
            proof {
                assert(first is Some);
            }
            let slot = first.unwrap();
            match {slot} {
                Some(v) => {
                    proof {
                        assert(*final(slot) == Some(*final(v)));
                    }
                    r.push((i as u32, {v}));
                },
                None => {},
            }
            proof {
                assert(final(cur)@ == final(head)@ + final(tail)@);
                assert(final(head)@.len() == 1);
                assert(final(head)@[0] == *final(slot));
                assert(old_slots[i as int] is None ==> *final(slot) is None);
                assert(final(s)@[i as int] == final(cur)@[0]);
                assert forall|j: int| 0 <= j < final(tail)@.len() implies final(s)@[i + 1 + j]
                    == #[trigger] final(tail)@[j] by {
                    assert(final(cur)@[1 + j] == final(tail)@[j]);
                    assert(final(s)@[i + (1 + j)] == final(cur)@[1 + j]);
                }
            }
            rest = tail;
            i = i + 1;
        }
        r
    }

    /// Number of occupied slots.
    pub fn active_count(&self) -> (n: usize)
        ensures
            n == count_some(self.slots()),
    {
        let mut n: usize = 0;
        let mut i: usize = 0;
        while i < self.slots.len()
            invariant
                i <= self.slots@.len(),
                n == count_some(self.slots@.subrange(0, i as int)),
                n <= i,
            decreases self.slots@.len() - i,
        {
            proof {
                assert(self.slots@.subrange(0, i + 1).drop_last() == self.slots@.subrange(
                    0,
                    i as int,
                ));
            }
            if self.slots[i].is_some() {
                n = n + 1;
            }
            i = i + 1;
        }
        proof {
            assert(self.slots@.subrange(0, i as int) == self.slots@);
        }
        n
    }

    /// Number of slots, occupied or not.
    pub fn capacity(&self) -> (n: usize)
        ensures
            n == self.slots().len(),
    {
        self.slots.len()
    }
}

} // verus!
