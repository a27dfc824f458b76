//! Body and island bookkeeping.

use gvpe::{BodyHandle, BodyStore, BodyStoreError, IslandHandle, SlabError};

#[test]
fn store_stale_handle_after_remove() {
    let mut store: BodyStore<&'static str> = BodyStore::new();
    let h = store.spawn("a");
    assert_eq!(store.get(h), Ok(&"a"));
    store.remove(h).unwrap();
    assert_eq!(store.get(h), Err(BodyStoreError::HandleStale(BodyHandle::invalid())));
    assert!(store.get_mut(h).is_err());
    assert_eq!(store.body_island(h), Err(BodyStoreError::HandleStale(BodyHandle::invalid())));
    assert_eq!(store.remove(h), Err(BodyStoreError::HandleStale(BodyHandle::invalid())));
    assert_eq!(store.body_count(), 0);
}

#[test]
fn store_island_lists_its_body() {
    let mut store: BodyStore<u32> = BodyStore::new();
    let h = store.spawn(7);
    let island = store.body_island(h).unwrap();
    assert_eq!(island, IslandHandle(0));
    assert_eq!(store.island_bodies(island).unwrap(), &[h]);
    let h2 = store.spawn(8);
    assert_eq!(store.body_island(h2), Ok(IslandHandle(1)));
    assert_eq!(store.island_bodies(IslandHandle(1)).unwrap(), &[h2]);
}

#[test]
fn store_invalid_island_and_out_of_range_handle() {
    let mut store: BodyStore<u32> = BodyStore::new();
    assert_eq!(store.island_bodies(IslandHandle(9999)), Err(BodyStoreError::IslandInvalid(IslandHandle(9999))));
    store.spawn(1);
    let far = BodyHandle::new(5, 0);
    assert_eq!(store.get(far), Err(BodyStoreError::Slab(SlabError::OutOfBounds(5, 1))));
}

#[test]
fn store_capacity_counts() {
    let mut store: BodyStore<u32> = BodyStore::with_capacity(64);
    for i in 0..50 {
        store.spawn(i);
    }
    assert_eq!(store.body_count(), 50);
    assert_eq!(store.island_count(), 50);
}

#[test]
fn store_spawn_and_remove_keep_islands_consistent() {
    let mut store: BodyStore<u32> = BodyStore::new();
    let hs: Vec<BodyHandle> = (0..10).map(|i| store.spawn(i)).collect();
    assert_eq!(store.body_count(), 10);
    for h in &hs[..3] {
        store.remove(*h).unwrap();
    }
    assert_eq!(store.body_count(), 7);
    assert_eq!(store.island_count(), 10);
    assert_eq!(store.island_bodies(IslandHandle(0)).unwrap(), &[] as &[BodyHandle]);
    assert_eq!(store.get(hs[5]), Ok(&5));
    // every live body is listed by its island
    for h in store.handles() {
        let island = store.body_island(h).unwrap();
        assert!(store.island_bodies(island).unwrap().contains(&h));
    }
    assert_eq!(store.handles(), hs[3..].to_vec());
    // a freed slot is reused with a new generation
    let again = store.spawn(99);
    assert_eq!(again.index, hs[2].index);
    assert_ne!(again.generation, hs[2].generation);
    assert!(store.get(hs[2]).is_err());
    assert_eq!(store.body_island(again), Ok(IslandHandle(10)));
}

#[test]
fn store_get_mut_changes_only_that_body() {
    let mut store: BodyStore<u32> = BodyStore::new();
    let a = store.spawn(1);
    let b = store.spawn(2);
    *store.get_mut(a).unwrap() += 40;
    assert_eq!(store.get(a), Ok(&41));
    assert_eq!(store.get(b), Ok(&2));
    assert_eq!(store.body_island(a), Ok(IslandHandle(0)));
}
