//! `Arena`: bump allocation accounting (offsets, alignment, overflow).
//!
//! The arena hands out byte offsets into a region of `capacity` bytes; the
//! cursor only moves forward until [`Arena::reset`].

use vstd::prelude::*;

verus! {

/// Errors of [`Arena`].
#[derive(Clone, Copy, Debug, PartialEq, Eq, Structural)]
pub enum ArenaError {
    /// The region is exhausted.
    Overflow {
        /// Cursor the request would have needed (including alignment padding).
        needed: usize,
        /// Capacity of the region.
        available: usize,
    },
}

/// `c` rounded up to a multiple of `a`.
pub open spec fn align_up(c: int, a: int) -> int {
    ((c + a - 1) / a) * a
}

/// Bump allocator over a byte region of fixed capacity.
#[derive(Debug)]
pub struct Arena {
    capacity: usize,
    cursor: usize,
}

impl Arena {
    /// Capacity of the region in bytes.
    pub closed spec fn spec_capacity(&self) -> usize {
        self.capacity
    }

    /// Bytes handed out so far (the cursor).
    pub closed spec fn spec_used(&self) -> usize {
        self.cursor
    }

    /// Arena invariant: the cursor never passes the capacity.
    pub open spec fn wf(&self) -> bool {
        &&& self.spec_used() <= self.spec_capacity()
        &&& self.spec_capacity() <= isize::MAX
    }

    /// Outcome of a request for `size` bytes aligned to `align`.
    pub open spec fn bump_result(&self, size: int, align: int) -> Option<(usize, usize)> {
        let start = align_up(self.spec_used() as int, align);
        let end = start + size;
        if end <= self.spec_capacity() {
            Some((start as usize, end as usize))
        } else {
            None
        }
    }

    /// Cursor reported by a refused request: the end it would have needed,
    /// or `usize::MAX` when that end does not fit a `usize`.
    pub open spec fn overflow_needed(&self, size: int, align: int) -> usize {
        let end = align_up(self.spec_used() as int, align) + size;
        if end > usize::MAX {
            usize::MAX
        } else {
            end as usize
        }
    }

    /// A granted request starts at a multiple of `align`, no earlier than
    /// the bytes already handed out (so grants never overlap), and ends
    /// within the region.
    pub proof fn law_grant_aligned_and_fresh(&self, size: int, align: int)
        requires
            self.wf(),
            align > 0,
            size >= 0,
        ensures
            self.bump_result(size, align) matches Some((start, end)) ==> {
                &&& start as int % align == 0
                &&& self.spec_used() <= start
                &&& end == start + size
                &&& end <= self.spec_capacity()
            },
    {
        let c = self.spec_used() as int;
        let s = align_up(c, align);
        assert(s % align == 0 && s >= c) by (nonlinear_arith)
            requires
                s == ((c + align - 1) / align) * align,
                align > 0,
                c >= 0,
        {
            assert(((c + align - 1) / align) * align % align == 0);
            assert((c + align - 1) - (c + align - 1) % align == ((c + align - 1) / align) * align);
        }
    }

    /// Empty arena over a region of `capacity` bytes.
    pub fn with_capacity(capacity: usize) -> (a: Arena)
        requires
            capacity <= isize::MAX,
        ensures
            a.wf(),
            a.spec_capacity() == capacity,
            a.spec_used() == 0,
    {
        Arena { capacity, cursor: 0 }
    }

    /// Takes back everything handed out (O(1)).
    pub fn reset(&mut self)
        ensures
            final(self).spec_used() == 0,
            final(self).spec_capacity() == old(self).spec_capacity(),
    {
        self.cursor = 0;
    }

    /// Bytes handed out so far.
    pub fn used(&self) -> (n: usize)
        ensures
            n == self.spec_used(),
    {
        self.cursor
    }

    /// Capacity in bytes.
    pub fn capacity(&self) -> (n: usize)
        ensures
            n == self.spec_capacity(),
    {
        self.capacity
    }

    /// Reserves `size` bytes aligned to `align` and returns their offset; on
    /// overflow nothing is reserved.
    pub fn alloc_bytes(&mut self, size: usize, align: usize) -> (r: Result<usize, ArenaError>)
        requires
            old(self).wf(),
            0 < align <= isize::MAX + 1,
        ensures
            final(self).wf(),
            final(self).spec_capacity() == old(self).spec_capacity(),
            match old(self).bump_result(size as int, align as int) {
                Some((start, end)) => r == Ok::<usize, ArenaError>(start) && final(self).spec_used()
                    == end,
                None => {
                    &&& *final(self) == *old(self)
                    &&& r == Err::<usize, ArenaError>(
                        ArenaError::Overflow {
                            needed: old(self).overflow_needed(size as int, align as int),
                            available: old(self).spec_capacity(),
                        },
                    )
                },
            },
    {
        let current = self.cursor;
        let bumped = current + (align - 1);
        let aligned = bumped - bumped % align;
        proof {
            assert(aligned == align_up(current as int, align as int)) by (nonlinear_arith)
                requires
                    bumped == current + align - 1,
                    aligned == bumped - bumped % align,
                    align > 0,
            ;
        }
        match aligned.checked_add(size) {
            Some(new_cursor) => {
                if new_cursor > self.capacity {
                    return Err(ArenaError::Overflow { needed: new_cursor, available: self.capacity });
                }
                self.cursor = new_cursor;
                Ok(aligned)
            },
            None => Err(ArenaError::Overflow { needed: usize::MAX, available: self.capacity }),
        }
    }

    /// Like [`Arena::alloc_bytes`], reporting a refusal as `None`.
    pub fn try_alloc_bytes(&mut self, size: usize, align: usize) -> (r: Option<usize>)
        requires
            old(self).wf(),
            0 < align <= isize::MAX + 1,
        ensures
            final(self).wf(),
            final(self).spec_capacity() == old(self).spec_capacity(),
            match old(self).bump_result(size as int, align as int) {
                Some((start, end)) => r == Some(start) && final(self).spec_used() == end,
                None => r is None && *final(self) == *old(self),
            },
    {
        match self.alloc_bytes(size, align) {
            Ok(offset) => Some(offset),
            Err(_) => None,
        }
    }

    /// Reserves room for `count` elements of `elem_size` bytes aligned to
    /// `align`; a total size that does not fit a `usize` is refused with
    /// `needed == usize::MAX`. On refusal nothing is reserved.
    pub fn alloc_array_bytes(&mut self, elem_size: usize, align: usize, count: usize) -> (r: Result<
        usize,
        ArenaError,
    >)
        requires
            old(self).wf(),
            0 < align <= isize::MAX + 1,
        ensures
            final(self).wf(),
            final(self).spec_capacity() == old(self).spec_capacity(),
            elem_size * count > usize::MAX ==> {
                &&& *final(self) == *old(self)
                &&& r == Err::<usize, ArenaError>(
                    ArenaError::Overflow {
                        needed: usize::MAX,
                        available: old(self).spec_capacity(),
                    },
                )
            },
            elem_size * count <= usize::MAX ==> match old(self).bump_result(
                elem_size * count,
                align as int,
            ) {
                Some((start, end)) => r == Ok::<usize, ArenaError>(start) && final(self).spec_used()
                    == end,
                None => {
                    &&& *final(self) == *old(self)
                    &&& r == Err::<usize, ArenaError>(
                        ArenaError::Overflow {
                            needed: old(self).overflow_needed(elem_size * count, align as int),
                            available: old(self).spec_capacity(),
                        },
                    )
                },
            },
    {
        match elem_size.checked_mul(count) {
            Some(total) => self.alloc_bytes(total, align),
            None => Err(ArenaError::Overflow { needed: usize::MAX, available: self.capacity }),
        }
    }
}

impl Default for Arena {
    /// Empty arena over 64 KiB.
    fn default() -> (a: Arena)
        ensures
            a.wf(),
            a.spec_capacity() == 65536,
            a.spec_used() == 0,
    {
        Arena::with_capacity(64 * 1024)
    }
}

} // verus!
