//! Pool and slab tests.

use gvpe::{Pool, PoolError, Slab, SlabError, SlabHandle};

// ============================================================================
// Pool 测试
// ============================================================================

#[test]
fn pool_basic() {
    let mut pool: Pool<i32> = Pool::new();
    assert_eq!(pool.capacity(), 0);
    assert_eq!(pool.active_count(), 0);

    let h1 = pool.acquire(42);
    let h2 = pool.acquire(100);
    assert_eq!(pool.active_count(), 2);
    assert_eq!(pool.capacity(), 2);

    assert_eq!(*pool.get(h1).unwrap(), 42);
    assert_eq!(*pool.get(h2).unwrap(), 100);
}

#[test]
fn pool_acquire_release_reuse() {
    let mut pool: Pool<i32> = Pool::new();
    let h1 = pool.acquire(42);
    pool.release(h1).unwrap();
    assert_eq!(pool.active_count(), 0);

    // 复用了同一个 slot
    let h2 = pool.acquire(100);
    assert_eq!(h1, h2);
    assert_eq!(pool.active_count(), 1);
}

#[test]
fn pool_double_release_error() {
    let mut pool: Pool<i32> = Pool::new();
    let h = pool.acquire(42);
    pool.release(h).unwrap();
    let r = pool.release(h);
    assert!(r.is_err());
}

#[test]
fn pool_iter_active_count_and_order() {
    let mut pool: Pool<i32> = Pool::new();
    pool.acquire(10);
    let h1 = pool.acquire(20);
    pool.acquire(30);
    pool.release(h1).unwrap();

    // iter: 只产 Some，按索引升序：slot0->10, slot2->30
    let collected: Vec<(u32, i32)> = pool.iter().into_iter().map(|(i, v)| (i, *v)).collect();
    assert_eq!(collected, vec![(0, 10), (2, 30)]);
}

#[test]
fn pool_iter_mut_mutates() {
    let mut pool: Pool<i32> = Pool::new();
    pool.acquire(1);
    pool.acquire(2);
    pool.acquire(3);
    for (_, v) in pool.iter_mut() {
        *v += 100;
    }
    let collected: Vec<i32> = pool.iter().into_iter().map(|(_, v)| *v).collect();
    assert_eq!(collected, vec![101, 102, 103]);
}

#[test]
fn pool_get_or_insert_with_fills_once() {
    let mut pool: Pool<i32> = Pool::new();
    let h = pool.acquire(7);
    // 已 Some -> 直接返回，不调用 f。
    let mut calls = 0u32;
    let r = pool.get_or_insert_with(h, || {
        calls += 1;
        999
    });
    assert_eq!(*r.unwrap(), 7);
    assert_eq!(calls, 0);

    // release 后再 get_or_insert_with -> 调 f。
    pool.release(h).unwrap();
    let r2 = pool.get_or_insert_with(h, || 42);
    assert_eq!(*r2.unwrap(), 42);

    // 越界返 OutOfBounds。
    let r3 = pool.get_or_insert_with(9999u32, || 0);
    assert!(r3.is_err());
}

#[test]
fn pool_for_each_active_call_count() {
    let mut pool: Pool<i32> = Pool::new();
    pool.acquire(1);
    pool.acquire(2);
    let h = pool.acquire(3);
    pool.release(h).unwrap();

    let mut count = 0usize;
    let mut sum = 0i32;
    pool.for_each_active(|_, v| {
        count += 1;
        sum += *v;
    });
    assert_eq!(count, pool.active_count());
    assert_eq!(count, 2);
    assert_eq!(sum, 1 + 2);
}

// ============================================================================
// Slab 测试
// ============================================================================

#[test]
fn slab_allocate_and_free() {
    let mut slab: Slab<i32> = Slab::new();
    let h1 = slab.allocate(42);
    let h2 = slab.allocate(100);
    assert_eq!(*slab.get(h1).unwrap(), 42);
    assert_eq!(*slab.get(h2).unwrap(), 100);
}

#[test]
fn slab_use_after_free_detected() {
    let mut slab: Slab<i32> = Slab::new();
    let h = slab.allocate(42);
    slab.free(h).unwrap();

    // 再次访问应失败（世代不匹配）
    let r = slab.get(h);
    assert!(r.is_err());
}

#[test]
fn slab_recycle_after_free() {
    let mut slab: Slab<i32> = Slab::new();
    let h1 = slab.allocate(42);
    slab.free(h1).unwrap();

    // 重新分配应拿到新句柄（generation 已递增）
    let h2 = slab.allocate(100);
    assert_eq!(h2.index, h1.index);
    assert_ne!(h2.generation, h1.generation);
    assert_eq!(*slab.get(h2).unwrap(), 100);
}

#[test]
fn slab_iter_skips_free() {
    let mut slab: Slab<i32> = Slab::new();
    let h0 = slab.allocate(10);
    let _h1 = slab.allocate(20);
    let h2 = slab.allocate(30);
    slab.free(h0).unwrap();
    slab.free(h2).unwrap();

    // 只剩中间 slot alive。
    let collected: Vec<(SlabHandle, i32)> = slab.iter().into_iter().map(|(h, v)| (h, *v)).collect();
    assert_eq!(collected.len(), 1);
    assert_eq!(collected[0].0.index, 1);
    assert_eq!(collected[0].0.generation, 0);
    assert_eq!(collected[0].1, 20);
}

#[test]
fn slab_iter_mut_mutates() {
    let mut slab: Slab<i32> = Slab::new();
    slab.allocate(1);
    slab.allocate(2);
    for (h, v) in slab.iter_mut() {
        // index 是 u32,本测试仅创建 2 个 slot,index ∈ {0, 1},转换 lossless 无 wrap 风险。
        #[allow(clippy::cast_possible_wrap)]
        let idx = h.index as i32;
        *v = idx * 100;
    }
    let mut values: Vec<i32> = slab.iter().into_iter().map(|(_, v)| *v).collect();
    values.sort_unstable();
    assert_eq!(values, vec![0, 100]);
}

#[test]
fn slab_is_valid_matrix() {
    let mut slab: Slab<i32> = Slab::new();
    // INVALID 句柄恒为 false。
    assert!(!slab.is_valid(SlabHandle::invalid()));
    // 空 slab 中合法 index=0 也越界 -> false。
    assert!(!slab.is_valid(SlabHandle {
        index: 0,
        generation: 0
    }));

    let h = slab.allocate(42);
    // alive -> true。
    assert!(slab.is_valid(h));
    slab.free(h).unwrap();
    // free 后 generation 不匹配 -> false。
    assert!(!slab.is_valid(h));
    // 越界 -> false。
    assert!(!slab.is_valid(SlabHandle {
        index: 99,
        generation: 0
    }));
}

#[test]
fn slab_active_handles_matches_manual() {
    let mut slab: Slab<i32> = Slab::new();
    let h0 = slab.allocate(10);
    let h1 = slab.allocate(20);
    let h2 = slab.allocate(30);
    slab.free(h1).unwrap();

    let mut handles = slab.active_handles();
    handles.sort_by_key(|h| h.index);
    let mut expected = vec![h0, h2];
    expected.sort_by_key(|h| h.index);
    assert_eq!(handles, expected);

    // 全 free 后应为空。
    slab.free(h0).unwrap();
    slab.free(h2).unwrap();
    assert!(slab.active_handles().is_empty());
}

#[test]
fn slab_reserve_does_not_grow_active() {
    let mut slab: Slab<i32> = Slab::new();
    let h = slab.allocate(1);
    let active_before = slab.active_count();
    slab.reserve(100);
    assert_eq!(slab.active_count(), active_before);
    assert!(slab.is_valid(h));
}

// ============================================================================
// Further cases
// ============================================================================

#[test]
fn pool_errors_name_the_slot() {
    let mut pool: Pool<u8> = Pool::with_capacity(4);
    assert_eq!(pool.get(0), Err(PoolError::EmptySlot(0)));
    let a = pool.acquire(1);
    let b = pool.acquire(2);
    assert_eq!((a, b), (0, 1));
    assert_eq!(pool.release(5), Err(PoolError::OutOfBounds(5, 2)));
    pool.release(a).unwrap();
    assert_eq!(pool.release(a), Err(PoolError::EmptySlot(0)));
    assert_eq!(pool.get(a), Err(PoolError::EmptySlot(0)));
    assert!(pool.get_mut(a).is_err());
    *pool.get_mut(b).unwrap() = 9;
    assert_eq!(*pool.get(b).unwrap(), 9);
    assert_eq!(pool.get_or_insert_with(7, || 0).err(), Some(PoolError::OutOfBounds(7, 2)));
}

#[test]
fn pool_reuses_most_recent_release_first() {
    let mut pool: Pool<u8> = Pool::new();
    let a = pool.acquire(1);
    let b = pool.acquire(2);
    let c = pool.acquire(3);
    pool.release(a).unwrap();
    pool.release(c).unwrap();
    assert_eq!(pool.acquire(4), c);
    assert_eq!(pool.acquire(5), a);
    assert_eq!(pool.acquire(6), 3);
    assert_eq!(*pool.get(b).unwrap(), 2);
    assert_eq!(pool.capacity(), 4);
}

#[test]
fn slab_errors_report_generations() {
    let mut slab: Slab<u8> = Slab::new();
    let h = slab.allocate(1);
    assert_eq!(
        slab.get(SlabHandle { index: 3, generation: 0 }).err(),
        Some(SlabError::OutOfBounds(3, 1))
    );
    assert_eq!(h, SlabHandle { index: 0, generation: 1 });
    slab.free(h).unwrap();
    assert_eq!(slab.get(h).err(), Some(SlabError::GenerationMismatch { expected: 2, got: 1 }));
    assert_eq!(slab.free(h), Err(SlabError::GenerationMismatch { expected: 2, got: 1 }));
    assert_eq!(slab.free(SlabHandle { index: 9, generation: 0 }), Err(SlabError::OutOfBounds(9, 1)));
    let h2 = slab.allocate(2);
    assert_eq!(h2, SlabHandle { index: 0, generation: 2 });
    assert_eq!(slab.capacity(), 1);
    *slab.get_mut(h2).unwrap() = 5;
    assert_eq!(*slab.get(h2).unwrap(), 5);
    assert!(slab.get_mut(h).is_err());
}

#[test]
fn pool_release_oob_above_capacity() {
    // capacity 8, index 100 is out of bounds
    let mut pool: Pool<i32> = Pool::with_capacity(8);
    for i in 0..8 {
        pool.acquire(i as i32);
    }
    let err = pool.release(100).unwrap_err();
    assert_eq!(err, PoolError::OutOfBounds(100, 8));
}

#[test]
fn pool_double_release_same_idx() {
    let mut pool: Pool<i32> = Pool::new();
    let idx = pool.acquire(42);
    pool.release(idx).unwrap();
    let err = pool.release(idx).unwrap_err();
    assert_eq!(err, PoolError::EmptySlot(idx as usize));
}

#[test]
fn slab_invalid_handle_get_fails_on_empty() {
    // an empty slab refuses the invalid handle
    let slab: Slab<i32> = Slab::with_capacity(0);
    let err = slab.get(SlabHandle::invalid()).unwrap_err();
    assert!(matches!(
        err,
        SlabError::OutOfBounds(0, 0) | SlabError::GenerationMismatch { .. }
    ));
}

#[test]
fn slab_first_handle_is_never_the_invalid_one() {
    let mut slab: Slab<i32> = Slab::new();
    let h = slab.allocate(42);
    assert_ne!(h, SlabHandle::invalid());
    assert!(!slab.is_valid(SlabHandle::invalid()));
    assert!(slab.get(SlabHandle::invalid()).is_err());
    assert!(slab.is_valid(h));
}

#[test]
fn slab_is_valid_needs_a_live_slot() {
    let mut slab: Slab<i32> = Slab::new();
    let _a = slab.allocate(1);
    let b = slab.allocate(2);
    assert_eq!(b, SlabHandle { index: 1, generation: 0 });
    slab.free(b).unwrap();
    // the handle carrying the slot's current generation names no value
    let next = SlabHandle { index: 1, generation: 1 };
    assert!(!slab.is_valid(next));
    assert!(slab.get(next).is_err());
    assert!(!slab.is_valid(b));
}

#[test]
fn slab_iter_lists_every_live_slot_in_order() {
    let mut slab: Slab<i32> = Slab::new();
    let hs: Vec<SlabHandle> = (0..5).map(|i| slab.allocate(i * 10)).collect();
    slab.free(hs[1]).unwrap();
    slab.free(hs[3]).unwrap();
    let listed: Vec<(SlabHandle, i32)> = slab.iter().into_iter().map(|(h, v)| (h, *v)).collect();
    assert_eq!(listed, vec![(hs[0], 0), (hs[2], 20), (hs[4], 40)]);
    assert_eq!(listed.len(), slab.active_count());
    for (h, v) in &listed {
        assert_eq!(*slab.get(*h).unwrap(), *v);
    }
}

#[test]
fn pool_live_count_tracks_acquires_and_releases() {
    let mut pool: Pool<u8> = Pool::new();
    let a = pool.acquire(1);
    let b = pool.acquire(2);
    let _c = pool.acquire(3);
    assert_eq!(pool.active_count(), 3);
    pool.release(a).unwrap();
    assert!(pool.release(a).is_err());
    assert_eq!(pool.active_count(), 2);
    pool.release(b).unwrap();
    assert_eq!(pool.active_count(), 1);
    assert!(pool.active_count() <= pool.capacity());
    assert_eq!(pool.capacity(), 3);
}

#[test]
fn pool_for_each_active_visits_live_slots_in_order() {
    let mut pool: Pool<u8> = Pool::new();
    let a = pool.acquire(7);
    let _b = pool.acquire(8);
    let _c = pool.acquire(9);
    pool.release(a).unwrap();
    let mut seen: Vec<(u32, u8)> = Vec::new();
    pool.for_each_active(|i, v| seen.push((i, *v)));
    assert_eq!(seen, vec![(1, 8), (2, 9)]);
}
