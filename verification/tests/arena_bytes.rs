//! Byte accounting of the bump arena.

use gvpe::{Arena, ArenaError};

#[test]
fn arena_aligns_and_bumps() {
    let mut arena = Arena::with_capacity(1024);
    assert_eq!(arena.capacity(), 1024);
    assert_eq!(arena.used(), 0);
    // an i32: 4 bytes, align 4
    assert_eq!(arena.alloc_bytes(4, 4), Ok(0));
    assert_eq!(arena.used(), 4);
    // a u64: 8 bytes, align 8 -> starts at 8
    assert_eq!(arena.alloc_bytes(8, 8), Ok(8));
    assert_eq!(arena.used(), 16);
    // a byte, then a u16 at the next even offset
    assert_eq!(arena.alloc_bytes(1, 1), Ok(16));
    assert_eq!(arena.alloc_bytes(2, 2), Ok(18));
    assert_eq!(arena.used(), 20);
    arena.reset();
    assert_eq!(arena.used(), 0);
    assert_eq!(arena.capacity(), 1024);
}

#[test]
fn arena_overflow_keeps_cursor() {
    let mut arena = Arena::with_capacity(8);
    assert_eq!(arena.alloc_bytes(4, 4), Ok(0));
    assert_eq!(arena.alloc_bytes(16, 1), Err(ArenaError::Overflow { needed: 20, available: 8 }));
    assert_eq!(arena.used(), 4);
    assert_eq!(arena.try_alloc_bytes(4, 4), Some(4));
    assert_eq!(arena.try_alloc_bytes(8, 1), None);
    assert_eq!(arena.used(), 8);
}

#[test]
fn arena_array_sizes() {
    let mut arena = Arena::with_capacity(16);
    assert_eq!(
        arena.alloc_array_bytes(4, 4, 8),
        Err(ArenaError::Overflow { needed: 32, available: 16 })
    );
    assert_eq!(arena.used(), 0);
    assert_eq!(arena.alloc_array_bytes(8, 8, 0), Ok(0));
    assert_eq!(arena.used(), 0);
    assert_eq!(
        arena.alloc_array_bytes(1, 1, usize::MAX).err(),
        Some(ArenaError::Overflow { needed: usize::MAX, available: 16 })
    );
    assert_eq!(
        arena.alloc_array_bytes(2, 1, usize::MAX).err(),
        Some(ArenaError::Overflow { needed: usize::MAX, available: 16 })
    );
    assert_eq!(arena.used(), 0);
    assert_eq!(arena.alloc_array_bytes(4, 4, 4), Ok(0));
    assert_eq!(arena.used(), 16);
}

#[test]
fn arena_default_is_64_kib() {
    let arena = Arena::default();
    assert_eq!(arena.capacity(), 64 * 1024);
    assert_eq!(arena.used(), 0);
}

#[test]
fn arena_alloc_slice_basic() {
    // room for four u32 values (4 bytes each, 4-aligned) in 256 bytes
    let mut arena = Arena::with_capacity(256);
    let start = arena.alloc_array_bytes(4, 4, 4).expect("4 u32 fits in 256");
    assert_eq!(start, 0);
    assert_eq!(arena.used(), 16);
    // the reserved bytes hold the four values written one after another
    let mut slot = vec![0u32; (arena.used() - start) / 4];
    for (i, v) in slot.iter_mut().enumerate() {
        *v = (i as u32) * 10;
    }
    assert_eq!(slot, vec![0, 10, 20, 30]);
}
