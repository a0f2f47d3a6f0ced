use mio_core::{Alloc, AllocPool, RingId};

#[test]
fn fresh_allocator_issues_from_zero() {
    let mut alloc = Alloc::new();
    assert_eq!(alloc.allocate().ord, 0);
    assert_eq!(alloc.allocate().ord, 1);
    assert_eq!(alloc.allocate().ord, 2);
    assert_eq!(alloc.ord(), 3);
    assert!(alloc.hill().is_empty());
}

#[test]
fn returned_ordinals_are_reused_lowest_first() {
    let mut alloc = Alloc::new();
    let ids: Vec<RingId> = (0..5).map(|_| alloc.allocate()).collect();
    alloc.deallocate(ids[3]);
    alloc.deallocate(ids[1]);
    assert_eq!(alloc.ord(), 5);
    assert_eq!(alloc.hill().ordinals(), vec![1, 3]);
    assert_eq!(alloc.allocate().ord, 1);
    assert_eq!(alloc.allocate().ord, 3);
    assert_eq!(alloc.allocate().ord, 5);
    assert_eq!(alloc.ord(), 6);
}

#[test]
fn no_two_live_identifiers_share_an_ordinal() {
    let mut alloc = Alloc::new();
    let mut live: Vec<usize> = Vec::new();
    for round in 0..50usize {
        let id = alloc.allocate();
        assert!(!live.contains(&id.ord));
        assert!(alloc.is_issued(id.ord));
        live.push(id.ord);
        if round % 3 == 2 {
            let ord = live.remove(round % live.len());
            alloc.deallocate(RingId { epoch: 0, ord });
            assert!(!alloc.is_issued(ord));
        }
    }
    let mut sorted = live.clone();
    sorted.sort();
    sorted.dedup();
    assert_eq!(sorted.len(), live.len());
}

#[test]
fn compaction_lowers_the_ceiling_by_the_trailing_run() {
    let mut alloc = Alloc::new();
    let ids: Vec<RingId> = (0..6).map(|_| alloc.allocate()).collect();
    alloc.deallocate(ids[5]);
    alloc.deallocate(ids[3]);
    alloc.deallocate(ids[4]);
    assert_eq!(alloc.ord(), 6);
    alloc.garbage_collection();
    assert_eq!(alloc.ord(), 3);
    assert!(alloc.hill().is_empty());
}

#[test]
fn compaction_keeps_gaps_below_the_ceiling() {
    let mut alloc = Alloc::new();
    let ids: Vec<RingId> = (0..4).map(|_| alloc.allocate()).collect();
    alloc.deallocate(ids[1]);
    alloc.garbage_collection();
    assert_eq!(alloc.ord(), 4);
    assert_eq!(alloc.hill().ordinals(), vec![1]);
    assert_eq!(alloc.allocate().ord, 1);
}

#[test]
fn compaction_of_an_empty_allocator_changes_nothing() {
    let mut alloc = Alloc::new();
    alloc.garbage_collection();
    assert_eq!(alloc.ord(), 0);
}

#[test]
fn pool_is_filled_from_the_hill_first() {
    let mut alloc = Alloc::new();
    let ids: Vec<RingId> = (0..4).map(|_| alloc.allocate()).collect();
    alloc.deallocate(ids[2]);
    let pool = alloc.allocate_pool(3);
    assert_eq!(pool.ordinals(), vec![2, 4, 5]);
    assert_eq!(alloc.ord(), 6);
    assert!(alloc.hill().is_empty());
}

#[test]
fn pool_takes_the_lowest_of_a_larger_hill() {
    let mut alloc = Alloc::new();
    let ids: Vec<RingId> = (0..5).map(|_| alloc.allocate()).collect();
    alloc.deallocate(ids[4]);
    alloc.deallocate(ids[0]);
    alloc.deallocate(ids[2]);
    let pool = alloc.allocate_pool(2);
    assert_eq!(pool.ordinals(), vec![0, 2]);
    assert_eq!(alloc.hill().ordinals(), vec![4]);
    assert_eq!(alloc.ord(), 5);
}

#[test]
fn pool_is_short_where_ordinals_run_out() {
    let hill = AllocPool::new();
    let mut alloc = Alloc::from_parts(usize::MAX - 1, hill).unwrap();
    assert!(alloc.has_room(1));
    assert!(!alloc.has_room(2));
    let pool = alloc.allocate_pool(3);
    assert_eq!(pool.ordinals(), vec![usize::MAX - 1]);
    assert_eq!(alloc.ord(), usize::MAX);
    assert!(!alloc.can_allocate());
}

#[test]
fn allocator_is_not_made_from_a_hill_above_the_ceiling() {
    let mut hill = AllocPool::new();
    hill.insert(7);
    assert!(Alloc::from_parts(7, hill.clone()).is_none());
    let alloc = Alloc::from_parts(8, hill).unwrap();
    assert_eq!(alloc.ord(), 8);
    assert!(!alloc.is_issued(7));
    assert!(alloc.is_issued(6));
}

#[test]
fn pool_hands_out_its_lowest() {
    let mut pool = AllocPool::new();
    assert!(pool.insert(9));
    assert!(pool.insert(4));
    assert!(!pool.insert(9));
    assert!(pool.contains(4));
    assert_eq!(pool.len(), 2);
    assert_eq!(pool.allocate().unwrap().ord, 4);
    assert_eq!(pool._allocate(), Some(9));
    assert!(pool.allocate().is_none());
    assert!(pool.is_empty());
}

#[test]
fn pool_hands_out_many() {
    let mut pool = AllocPool::new();
    for ord in [5usize, 1, 3, 8] {
        pool.insert(ord);
    }
    let taken = pool.try_allocate_many(3);
    assert_eq!(taken.ordinals(), vec![1, 3, 5]);
    assert_eq!(pool.ordinals(), vec![8]);
    let rest = pool.try_allocate_many(3);
    assert_eq!(rest.ordinals(), vec![8]);
    assert!(pool.is_empty());
    assert!(pool.remove(8) == false);
}

#[test]
fn now_keeps_the_ordinal() {
    let id = RingId::now(17);
    assert_eq!(id.ord, 17);
    assert!(id.epoch > 0);
}
