//! [`BodyStore`]: the body and island bookkeeping of the dynamics world.
//!
//! Bodies live in a generational [`Slab`], so a handle of a removed body is
//! detected. Each spawned body gets an island of its own; an island lists
//! the handles of its bodies. Every live body is listed by its island, and
//! every listed handle names a live body of that island.

use vstd::prelude::*;
use crate::handle::{BodyHandle, IslandHandle};
use crate::memory::pool::{
    active_entries, count_some, lemma_active_prefix_entries, lemma_count_some_push,
    lemma_count_some_update,
};
use crate::memory::slab::{Slab, SlabError, SlabHandle};

verus! {

/// Errors of [`BodyStore`].
#[derive(Clone, Copy, Debug, PartialEq, Eq, Structural)]
pub enum BodyStoreError {
    /// The handle names a removed body (or a slot that holds none).
    HandleStale(BodyHandle),
    /// No island has this handle.
    IslandInvalid(IslandHandle),
    /// The handle's slot does not exist (reported by the slab).
    Slab(SlabError),
}

/// The slab handle with the same parts as `h`.
pub open spec fn slab_handle_of(h: BodyHandle) -> SlabHandle {
    SlabHandle { index: h.index, generation: h.generation }
}

/// `s` with its element at `p` replaced by its last element, then shortened
/// by one (what `Vec::swap_remove` does).
pub open spec fn swap_removed<A>(s: Seq<A>, p: int) -> Seq<A> {
    s.update(p, s.last()).drop_last()
}

/// Position of the first `x` in `s`.
pub open spec fn pos_in<A>(s: Seq<A>, x: A) -> int {
    choose|p: int| 0 <= p < s.len() && s[p] == x && forall|j: int| 0 <= j < p ==> s[j] != x
}

/// The first position holding `x` is `pos_in(s, x)`.
proof fn lemma_pos_in<A>(s: Seq<A>, x: A, p: int)
    requires
        0 <= p < s.len(),
        s[p] == x,
        forall|j: int| 0 <= j < p ==> s[j] != x,
    ensures
        pos_in(s, x) == p,
{
    let q = pos_in(s, x);
    assert(0 <= q < s.len() && s[q] == x && forall|j: int| 0 <= j < q ==> s[j] != x);
    if q < p {
        assert(s[q] != x);
    }
    if p < q {
        assert(s[p] != x);
    }
}

/// Swap-removing position `p` of a list without repeats keeps every other
/// element, drops the one at `p`, and keeps the list free of repeats.
proof fn lemma_swap_removed<A>(s: Seq<A>, p: int)
    requires
        s.no_duplicates(),
        0 <= p < s.len(),
    ensures
        swap_removed(s, p).no_duplicates(),
        !swap_removed(s, p).contains(s[p]),
        forall|x: A| s.contains(x) && x != s[p] ==> swap_removed(s, p).contains(x),
        forall|x: A| swap_removed(s, p).contains(x) ==> s.contains(x),
{
    let t = swap_removed(s, p);
    let n = s.len();
    assert forall|a: int, b: int| 0 <= a < b < t.len() implies t[a] != t[b] by {
        let oa = if a == p { n - 1 } else { a };
        let ob = if b == p { n - 1 } else { b };
        assert(t[a] == s[oa]);
        assert(t[b] == s[ob]);
    }
    if t.contains(s[p]) {
        let m = choose|m: int| 0 <= m < t.len() && t[m] == s[p];
        let om = if m == p { n - 1 } else { m };
        assert(t[m] == s[om]);
    }
    assert forall|x: A| s.contains(x) && x != s[p] implies t.contains(x) by {
        let m = choose|m: int| 0 <= m < s.len() && s[m] == x;
        if m == n - 1 {
            assert(t[p] == x);
        } else {
            assert(t[m] == x);
        }
    }
    assert forall|x: A| t.contains(x) implies s.contains(x) by {
        let m = choose|m: int| 0 <= m < t.len() && t[m] == x;
        let om = if m == p { n - 1 } else { m };
        assert(s[om] == x);
    }
}

/// Body payloads `B` keyed by generational handles, grouped in islands.
#[derive(Debug)]
pub struct BodyStore<B> {
    bodies: Slab<(B, IslandHandle)>,
    islands: Vec<Vec<BodyHandle>>,
}

/// The slab handle of a body handle.
fn h2s(h: BodyHandle) -> (s: SlabHandle)
    ensures
        s == slab_handle_of(h),
{
    SlabHandle { index: h.index, generation: h.generation }
}

/// The error a failed lookup reports: a slot index out of range is the
/// slab's `OutOfBounds`, anything else a stale handle.
fn map_slab_err(e: SlabError) -> (r: BodyStoreError)
    ensures
        r == (match e {
            SlabError::GenerationMismatch { .. } => BodyStoreError::HandleStale(
                BodyHandle { index: 0, generation: 0 },
            ),
            SlabError::OutOfBounds(..) => BodyStoreError::Slab(e),
        }),
{
    match e {
        SlabError::GenerationMismatch { .. } => BodyStoreError::HandleStale(BodyHandle::invalid()),
        SlabError::OutOfBounds(..) => BodyStoreError::Slab(e),
    }
}

impl<B> BodyStore<B> {
    /// What handle `h` names: its payload and island, if it names a live body.
    pub closed spec fn lookup(&self, h: BodyHandle) -> Option<(B, IslandHandle)> {
        if self.bodies.matches(slab_handle_of(h)) {
            self.bodies.data()[h.index as int]
        } else {
            None
        }
    }

    /// Index of the island of the body `h` names (meaningful when it names one).
    pub open spec fn island_of(&self, h: BodyHandle) -> int {
        let entry = self.lookup(h)->0;
        let isl = entry.1;
        isl.0 as int
    }

    /// Body handles listed by each island, by island index.
    pub closed spec fn island_lists(&self) -> Seq<Seq<BodyHandle>> {
        self.islands@.map_values(|v: Vec<BodyHandle>| v@)
    }

    /// Number of body slots (live or not).
    pub closed spec fn slot_count(&self) -> nat {
        self.bodies.len()
    }

    /// Number of live bodies.
    pub closed spec fn live_count(&self) -> nat {
        count_some(self.bodies.data())
    }

    /// Handles of the live bodies, in slot order.
    pub closed spec fn live_handles(&self) -> Seq<BodyHandle> {
        active_entries(self.bodies.data()).map_values(
            |e: (u32, (B, IslandHandle))|
                BodyHandle { index: e.0, generation: self.bodies.gens()[e.0 as int] },
        )
    }

    /// The error reported for a handle that names no live body.
    pub open spec fn lookup_error(&self, h: BodyHandle) -> BodyStoreError {
        if h.index >= self.slot_count() {
            BodyStoreError::Slab(SlabError::OutOfBounds(h.index as usize, self.slot_count() as usize))
        } else {
            BodyStoreError::HandleStale(BodyHandle { index: 0, generation: 0 })
        }
    }

    /// Store invariant: every live body is listed by its island, every listed
    /// handle names a live body of that island, no island lists a handle
    /// twice; the slab's free list holds distinct empty slots; there are no
    /// more slots than islands, and island indices fit a `u32`.
    pub closed spec fn wf(&self) -> bool {
        let data = self.bodies.data();
        let gens = self.bodies.gens();
        let fl = self.bodies.free_list();
        &&& self.bodies.wf()
        &&& data.len() == self.bodies.len()
        &&& gens.len() == self.bodies.len()
        &&& self.bodies.len() <= self.islands@.len()
        &&& self.islands@.len() <= u32::MAX
        &&& fl.no_duplicates()
        &&& forall|k: int| 0 <= k < fl.len() ==> data[#[trigger] fl[k] as int] is None
        &&& forall|i: int|
            0 <= i < data.len() && (#[trigger] data[i]) is Some ==> {
                let entry = data[i]->0;
                let isl = entry.1;
                &&& isl.0 < self.islands@.len()
                &&& self.islands@[isl.0 as int]@.contains(
                    BodyHandle { index: i as u32, generation: gens[i] },
                )
            }
        &&& forall|k: int, m: int|
            0 <= k < self.islands@.len() && 0 <= m < self.islands@[k]@.len() ==> {
                let h = #[trigger] self.islands@[k]@[m];
                &&& self.lookup(h) is Some
                &&& self.island_of(h) == k
            }
        &&& forall|k: int| 0 <= k < self.islands@.len() ==> (#[trigger] self.islands@[k])@.no_duplicates()
    }

    /// Every live body is listed by its island.
    pub proof fn law_live_body_listed(&self, h: BodyHandle)
        requires
            self.wf(),
            self.lookup(h) is Some,
        ensures
            self.island_of(h) < self.island_lists().len(),
            self.island_lists()[self.island_of(h)].contains(h),
    {
        let i = h.index as int;
        assert(self.bodies.data()[i] is Some);
        assert(self.island_lists()[self.island_of(h)] == self.islands@[self.island_of(h)]@);
    }

    /// Every handle an island lists names a live body of that island.
    pub proof fn law_listed_body_live(&self, k: int, m: int)
        requires
            self.wf(),
            0 <= k < self.island_lists().len(),
            0 <= m < self.island_lists()[k].len(),
        ensures
            self.lookup(self.island_lists()[k][m]) is Some,
            self.island_of(self.island_lists()[k][m]) == k,
    {
        assert(self.island_lists()[k] == self.islands@[k]@);
        assert(self.islands@[k]@[m] == self.island_lists()[k][m]);
    }

    /// A body that was live and has been removed, with its slot kept, is
    /// reported as a stale handle (not as an unknown slot).
    pub proof fn law_removed_body_reported_stale(before: Self, after: Self, h: BodyHandle)
        requires
            before.wf(),
            before.lookup(h) is Some,
            after.lookup(h) is None,
            after.slot_count() == before.slot_count(),
        ensures
            after.lookup_error(h) == BodyStoreError::HandleStale(BodyHandle { index: 0, generation: 0 }),
    {
    }

    /// Empty store.
    pub fn new() -> (s: BodyStore<B>)
        ensures
            s.wf(),
            s.island_lists() == Seq::<Seq<BodyHandle>>::empty(),
            s.slot_count() == 0,
            forall|h: BodyHandle| s.lookup(h) is None,
    {
        let s = BodyStore { bodies: Slab::new(), islands: Vec::new() };
        proof {
            assert(s.island_lists() =~= Seq::<Seq<BodyHandle>>::empty());
        }
        s
    }

    /// Empty store with room reserved for `cap` bodies.
    pub fn with_capacity(cap: usize) -> (s: BodyStore<B>)
        ensures
            s.wf(),
            s.island_lists() == Seq::<Seq<BodyHandle>>::empty(),
            s.slot_count() == 0,
            forall|h: BodyHandle| s.lookup(h) is None,
    {
        let s = BodyStore { bodies: Slab::with_capacity(cap), islands: Vec::new() };
        proof {
            assert(s.island_lists() =~= Seq::<Seq<BodyHandle>>::empty());
        }
        s
    }

    /// Opens a new, empty island.
    fn alloc_island(&mut self) -> (isl: IslandHandle)
        requires
            old(self).islands@.len() < u32::MAX,
        ensures
            isl.0 == old(self).islands@.len(),
            final(self).islands@.len() == old(self).islands@.len() + 1,
            forall|k: int| 0 <= k < old(self).islands@.len() ==> final(self).islands@[k] == old(self).islands@[k],
            final(self).islands@.last()@ == Seq::<BodyHandle>::empty(),
            final(self).bodies == old(self).bodies,
    {
        let idx = self.islands.len() as u32;
        self.islands.push(Vec::new());
        IslandHandle::from_raw(idx)
    }

    /// Stores `payload` as a new body in a new island of its own and returns
    /// the body's handle.
    pub fn spawn(&mut self, payload: B) -> (h: BodyHandle)
        requires
            old(self).wf(),
            old(self).island_lists().len() < u32::MAX,
        ensures
            final(self).wf(),
            old(self).lookup(h) is None,
            final(self).lookup(h) == Some(
                (payload, IslandHandle(old(self).island_lists().len() as u32)),
            ),
            forall|o: BodyHandle| o != h ==> final(self).lookup(o) == old(self).lookup(o),
            final(self).island_lists() == old(self).island_lists().push(seq![h]),
            final(self).live_count() == old(self).live_count() + 1,
    {
        let ghost s0 = *self;
        let ghost data0 = self.bodies.data();
        let ghost gens0 = self.bodies.gens();
        let ghost fl0 = self.bodies.free_list();
        let island = self.alloc_island();
        let ghost islands1 = self.islands@;
        let sh = self.bodies.allocate((payload, island));
        let body = BodyHandle::from_raw(sh.index, sh.generation);
        let ghost islands2 = self.islands@;
        self.islands[island.0 as usize].push(body);
        proof {
            let i = sh.index as int;
            let k = island.0 as int;
            let data = self.bodies.data();
            let gens = self.bodies.gens();
            let fl = self.bodies.free_list();
            assert(self.islands@ == islands2.update(k, self.islands@[k]));
            assert(self.islands@[k]@ == seq![body]);
            if fl0.len() > 0 {
                assert(fl0[fl0.len() - 1] == fl0.last());
                assert(data0[i] is None);
                lemma_count_some_update(data0, i, Some((payload, island)));
                assert forall|m: int| 0 <= m < fl.len() implies data[#[trigger] fl[m] as int] is None by {
                    assert(fl[m] == fl0[m]);
                    assert(fl0[m] != fl0[fl0.len() - 1]);
                }
            } else {
                lemma_count_some_push(data0, Some((payload, island)));
            }
            assert(s0.lookup(body) is None);
            assert forall|o: BodyHandle| o != body implies self.lookup(o) == s0.lookup(o) by {
                if o.index as int == i {
                    assert(o.generation != body.generation || o.index != body.index);
                }
            }
            assert forall|j: int| 0 <= j < data.len() && (#[trigger] data[j]) is Some implies {
                let entry = data[j]->0;
                let isl = entry.1;
                &&& isl.0 < self.islands@.len()
                &&& self.islands@[isl.0 as int]@.contains(
                    BodyHandle { index: j as u32, generation: gens[j] },
                )
            } by {
                if j == i {
                    assert(self.islands@[k]@[0] == body);
                } else {
                    assert(data[j] == data0[j]);
                    assert(gens[j] == gens0[j]);
                    let entry = data0[j]->0;
                    let eisl = entry.1;
                    let kk = eisl.0 as int;
                    let bh = BodyHandle { index: j as u32, generation: gens0[j] };
                    assert(s0.islands@[kk]@.contains(bh));
                    let m = choose|m: int| 0 <= m < s0.islands@[kk]@.len() && s0.islands@[kk]@[m] == bh;
                    assert(kk != k);
                    assert(self.islands@[kk] == s0.islands@[kk]);
                    assert(self.islands@[kk]@[m] == bh);
                }
            }
            assert forall|kk: int, m: int|
                0 <= kk < self.islands@.len() && 0 <= m < self.islands@[kk]@.len() implies {
                let h = #[trigger] self.islands@[kk]@[m];
                &&& self.lookup(h) is Some
                &&& self.island_of(h) == kk
            } by {
                if kk == k {
                    assert(self.islands@[kk]@[m] == body);
                } else {
                    assert(self.islands@[kk] == s0.islands@[kk]);
                    let h = s0.islands@[kk]@[m];
                    assert(s0.lookup(h) is Some);
                    assert(h != body);
                }
            }
            assert forall|kk: int| 0 <= kk < self.islands@.len() implies (#[trigger] self.islands@[kk])@.no_duplicates() by {
                if kk != k {
                    assert(self.islands@[kk] == s0.islands@[kk]);
                }
            }
            assert(self.island_lists() =~= s0.island_lists().push(seq![body]));
        }
        body
    }

    /// Removes the body `handle` names: it leaves its island's list (the
    /// list's last handle takes its place) and its slot is freed, so the
    /// handle goes stale. A handle that names no live body is refused with
    /// [`BodyStore::lookup_error`] and the store is unchanged.
    pub fn remove(&mut self, handle: BodyHandle) -> (r: Result<(), BodyStoreError>)
        requires
            old(self).wf(),
        ensures
            final(self).wf(),
            old(self).lookup(handle) is None ==> r == Err::<(), BodyStoreError>(
                old(self).lookup_error(handle),
            ) && *final(self) == *old(self),
            old(self).lookup(handle) is Some ==> {
                let k = old(self).island_of(handle);
                let list = old(self).island_lists()[k];
                &&& r is Ok
                &&& final(self).lookup(handle) is None
                &&& final(self).slot_count() == old(self).slot_count()
                &&& forall|o: BodyHandle| o != handle ==> final(self).lookup(o) == old(self).lookup(o)
                &&& final(self).island_lists() == old(self).island_lists().update(
                    k,
                    swap_removed(list, pos_in(list, handle)),
                )
                &&& final(self).live_count() + 1 == old(self).live_count()
            },
    {
        let ghost s0 = *self;
        let island_idx = match self.bodies.get(h2s(handle)) {
            Ok(entry) => {
                let isl = entry.1;
                isl.0 as usize
            },
            Err(e) => {
                return Err(map_slab_err(e));
            },
        };
        proof {
            self.law_live_body_listed(handle);
            assert(island_idx == s0.island_of(handle));
        }
        let pos = self.position_in_island(island_idx, handle);
        let ghost list0 = self.islands@[island_idx as int]@;
        self.islands[island_idx].swap_remove(pos);
        let ghost islands1 = self.islands@;
        let freed = self.bodies.free(h2s(handle));
        proof {
            let i = handle.index as int;
            let k = island_idx as int;
            let data0 = s0.bodies.data();
            let gens0 = s0.bodies.gens();
            let fl0 = s0.bodies.free_list();
            let data = self.bodies.data();
            let gens = self.bodies.gens();
            let fl = self.bodies.free_list();
            let list1 = swap_removed(list0, pos as int);
            assert(self.islands@[k]@ == list1);
            assert(forall|kk: int| 0 <= kk < self.islands@.len() && kk != k ==> self.islands@[kk] == s0.islands@[kk]);
            lemma_count_some_update(data0, i, None);
            lemma_swap_removed(list0, pos as int);
            assert forall|m: int| 0 <= m < fl.len() implies data[#[trigger] fl[m] as int] is None by {
                if m < fl0.len() {
                    assert(fl[m] == fl0[m]);
                }
            }
            assert(fl.no_duplicates()) by {
                assert forall|a: int, b: int| 0 <= a < b < fl.len() implies fl[a] != fl[b] by {
                    if b == fl.len() - 1 {
                        assert(fl[a] == fl0[a]);
                        assert(data0[fl0[a] as int] is None);
                    } else {
                        assert(fl[a] == fl0[a]);
                        assert(fl[b] == fl0[b]);
                    }
                }
            }
            assert forall|o: BodyHandle| o != handle implies self.lookup(o) == s0.lookup(o) by {
                if o.index as int == i {
                    if o.generation == gens0[i] {
                        assert(o == handle);
                    }
                }
            }
            assert forall|j: int| 0 <= j < data.len() && (#[trigger] data[j]) is Some implies {
                let entry = data[j]->0;
                let isl = entry.1;
                &&& isl.0 < self.islands@.len()
                &&& self.islands@[isl.0 as int]@.contains(
                    BodyHandle { index: j as u32, generation: gens[j] },
                )
            } by {
                assert(j != i);
                assert(data[j] == data0[j]);
                assert(gens[j] == gens0[j]);
                let entry = data0[j]->0;
                let eisl = entry.1;
                let kk = eisl.0 as int;
                let bh = BodyHandle { index: j as u32, generation: gens0[j] };
                assert(s0.islands@[kk]@.contains(bh));
                if kk == k {
                    assert(bh != handle);
                    assert(list1.contains(bh));
                } else {
                    assert(self.islands@[kk] == s0.islands@[kk]);
                }
            }
            assert forall|kk: int, m: int|
                0 <= kk < self.islands@.len() && 0 <= m < self.islands@[kk]@.len() implies {
                let h = #[trigger] self.islands@[kk]@[m];
                &&& self.lookup(h) is Some
                &&& self.island_of(h) == kk
            } by {
                let h = self.islands@[kk]@[m];
                if kk == k {
                    assert(list0.contains(h));
                    let m0 = choose|m0: int| 0 <= m0 < list0.len() && list0[m0] == h;
                    assert(s0.islands@[k]@[m0] == h);
                    assert(h != handle);
                } else {
                    assert(self.islands@[kk] == s0.islands@[kk]);
                    assert(s0.islands@[kk]@[m] == h);
                    assert(s0.lookup(h) is Some);
                    assert(h != handle) by {
                        if h == handle {
                            assert(s0.island_of(h) == kk);
                        }
                    }
                }
            }
            assert forall|kk: int| 0 <= kk < self.islands@.len() implies (#[trigger] self.islands@[kk])@.no_duplicates() by {
                if kk != k {
                    assert(self.islands@[kk] == s0.islands@[kk]);
                }
            }
            assert(self.island_lists() =~= s0.island_lists().update(k, list1));
            assert(pos_in(list0, handle) == pos as int);
        }
        Ok(())
    }

    /// Position of `handle` in the list of island `k`, which holds it.
    fn position_in_island(&self, k: usize, handle: BodyHandle) -> (p: usize)
        requires
            self.wf(),
            k < self.islands@.len(),
            self.islands@[k as int]@.contains(handle),
        ensures
            p < self.islands@[k as int]@.len(),
            self.islands@[k as int]@[p as int] == handle,
            p as int == pos_in(self.islands@[k as int]@, handle),
    {
        let list = &self.islands[k];
        let ghost l = list@;
        let mut p: usize = 0;
        while p < list.len()
            invariant
                l == list@,
                k < self.islands@.len(),
                l == self.islands@[k as int]@,
                l.contains(handle),
                p <= l.len(),
                forall|j: int| 0 <= j < p ==> l[j] != handle,
            decreases l.len() - p,
        {
            let h = list[p];
            if h.index == handle.index && h.generation == handle.generation {
                proof {
                    lemma_pos_in(l, handle, p as int);
                }
                return p;
            }
            p = p + 1;
        }
        proof {
            let j = choose|j: int| 0 <= j < l.len() && l[j] == handle;
        }
        0
    }

    /// The payload of the body `handle` names.
    pub fn get(&self, handle: BodyHandle) -> (r: Result<&B, BodyStoreError>)
        requires
            self.wf(),
        ensures
            match self.lookup(handle) {
                Some(e) => r == Ok::<&B, BodyStoreError>(&e.0),
                None => r == Err::<&B, BodyStoreError>(self.lookup_error(handle)),
            },
    {
        match self.bodies.get(h2s(handle)) {
            Ok(entry) => Ok(&entry.0),
            Err(e) => Err(map_slab_err(e)),
        }
    }

    /// Mutable access to the payload of the body `handle` names; its island
    /// and every other body stay as they are.
    pub fn get_mut(&mut self, handle: BodyHandle) -> (r: Result<&mut B, BodyStoreError>)
        requires
            old(self).wf(),
        ensures
            final(self).wf(),
            final(self).island_lists() == old(self).island_lists(),
            final(self).live_count() == old(self).live_count(),
            forall|o: BodyHandle| o != handle ==> final(self).lookup(o) == old(self).lookup(o),
            match old(self).lookup(handle) {
                Some(e) => r matches Ok(v) && *v == e.0 && final(self).lookup(handle) == Some(
                    (*final(v), e.1),
                ),
                None => r == Err::<&mut B, BodyStoreError>(old(self).lookup_error(handle))
                    && *final(self) == *old(self),
            },
    {
        let ghost data0 = self.bodies.data();
        match self.bodies.get_mut(h2s(handle)) {
            Ok(entry) => {
                proof {
                    let i = handle.index as int;
                    lemma_count_some_update(data0, i, Some(*final(entry)));
                }
                let r = &mut entry.0;
                Ok(r)
            },
            Err(e) => Err(map_slab_err(e)),
        }
    }

    /// The island of the body `handle` names.
    pub fn body_island(&self, handle: BodyHandle) -> (r: Result<IslandHandle, BodyStoreError>)
        requires
            self.wf(),
        ensures
            match self.lookup(handle) {
                Some(e) => r == Ok::<IslandHandle, BodyStoreError>(e.1),
                None => r == Err::<IslandHandle, BodyStoreError>(self.lookup_error(handle)),
            },
    {
        match self.bodies.get(h2s(handle)) {
            Ok(entry) => Ok(entry.1),
            Err(e) => Err(map_slab_err(e)),
        }
    }

    /// The bodies island `island` lists; an island that does not exist is
    /// refused with `IslandInvalid`.
    pub fn island_bodies(&self, island: IslandHandle) -> (r: Result<&[BodyHandle], BodyStoreError>)
        ensures
            island.0 < self.island_lists().len() ==> (r matches Ok(l) && l@ == self.island_lists()[island.0 as int]),
            island.0 >= self.island_lists().len() ==> r == Err::<&[BodyHandle], BodyStoreError>(
                BodyStoreError::IslandInvalid(island),
            ),
    {
        let k = island.0 as usize;
        if k >= self.islands.len() {
            return Err(BodyStoreError::IslandInvalid(island));
        }
        Ok(self.islands[k].as_slice())
    }

    /// Handles of the live bodies, in slot order.
    pub fn handles(&self) -> (r: Vec<BodyHandle>)
        requires
            self.wf(),
        ensures
            r@ == self.live_handles(),
            forall|k: int| 0 <= k < r@.len() ==> self.lookup(#[trigger] r@[k]) is Some,
    {
        proof {
            lemma_active_prefix_entries(self.bodies.data(), self.bodies.data().len() as int);
        }
        let hs = self.bodies.active_handles();
        let mut r: Vec<BodyHandle> = Vec::new();
        let mut i: usize = 0;
        while i < hs.len()
            invariant
                i <= hs@.len(),
                r@.len() == i,
                forall|k: int| 0 <= k < i ==> (#[trigger] r@[k]) == (BodyHandle { index: hs@[k].index, generation: hs@[k].generation }),
            decreases hs@.len() - i,
        {
            let h = hs[i];
            r.push(BodyHandle::from_raw(h.index, h.generation));
            i = i + 1;
        }
        proof {
            let ents = active_entries(self.bodies.data());
            assert(r@ =~= self.live_handles()) by {
                assert forall|k: int| 0 <= k < r@.len() implies r@[k] == self.live_handles()[k] by {
                    assert(hs@[k] == self.bodies.handle_at(ents[k].0 as int));
                }
            }
            assert forall|k: int| 0 <= k < r@.len() implies self.lookup(#[trigger] r@[k]) is Some by {
                assert(hs@[k] == self.bodies.handle_at(ents[k].0 as int));
                assert(self.bodies.data()[ents[k].0 as int] == Some(ents[k].1));
            }
        }
        r
    }

    /// Number of live bodies.
    pub fn body_count(&self) -> (n: usize)
        requires
            self.wf(),
        ensures
            n == self.live_count(),
    {
        self.bodies.active_count()
    }

    /// Number of islands.
    pub fn island_count(&self) -> (n: usize)
        ensures
            n == self.island_lists().len(),
    {
        self.islands.len()
    }
}

} // verus!
