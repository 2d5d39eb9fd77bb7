use keel::latch::{write_two_ordered, ClockPool, Frame, LatchTable, PageLatch, TwoWrites};

fn read_of(l: &mut PageLatch<i64>) -> i64 {
    let g = l.read().unwrap();
    let v = *l.get(&g);
    l.release_read(g);
    v
}

#[test]
fn install_then_get_returns_the_same_latch() {
    let mut t: LatchTable<i64> = LatchTable::new();
    let a = t.get_or_install(7, || 100);
    let b = t.get_or_install(7, || 999);
    assert_eq!(a, b, "same page id must yield the same latch");
    assert_eq!(read_of(t.latch_mut(a)), 100, "the second install's value is ignored");
    assert_eq!(t.installs(), 1);
    assert_eq!(t.len(), 1);
}

#[test]
fn read_and_write_guards_see_and_mutate() {
    let mut latch = PageLatch::new(3, 10i64);
    assert_eq!(read_of(&mut latch), 10);
    let w = latch.write().unwrap();
    *latch.get_mut(&w) += 5;
    latch.release_write(w);
    assert_eq!(read_of(&mut latch), 15);
    assert_eq!(latch.id(), 3);
}

#[test]
fn remove_drops_from_directory_but_keeps_holder_alive() {
    let mut t: LatchTable<i64> = LatchTable::new();
    let held = t.get_or_install(1, || 42);
    let removed = t.remove(1).expect("was resident");
    assert_eq!(held, removed);
    assert!(t.get(1).is_none(), "gone from the directory");
    assert_eq!(read_of(t.latch_mut(held)), 42, "the holder's latch is still valid");
}

#[test]
fn try_write_fails_while_write_held() {
    let mut latch = PageLatch::new(0, 0i64);
    let g = latch.write().unwrap();
    assert!(latch.try_write().is_none(), "already exclusively held");
    latch.release_write(g);
    assert!(latch.try_write().is_some(), "free again");
}

#[test]
fn write_two_ordered_returns_guards_positionally() {
    let mut a = PageLatch::new(5, 1i64);
    let mut b = PageLatch::new(2, 2i64);
    match write_two_ordered(&mut a, &mut b) {
        TwoWrites::Both(ga, gb) => {
            *a.get_mut(&ga) += 10;
            *b.get_mut(&gb) += 20;
            a.release_write(ga);
            b.release_write(gb);
        }
        _ => panic!("both latches were free"),
    }
    assert_eq!(read_of(&mut a), 11);
    assert_eq!(read_of(&mut b), 22);
}

#[test]
fn the_lower_page_is_latched_first() {
    let mut a = PageLatch::new(5, 1i64);
    let mut b = PageLatch::new(2, 2i64);
    let held = b.write().unwrap();
    assert!(matches!(write_two_ordered(&mut a, &mut b), TwoWrites::FirstBusy));
    assert!(a.try_write().is_some(), "nothing else was latched");
    b.release_write(held);
}

#[test]
fn pinned_frame_cannot_be_evicted() {
    let mut frame = Frame::new(4, 0i64);
    let g = frame.pin().expect("fresh frame pins");
    assert_eq!(frame.pin_count(), 1);
    assert!(!frame.try_evict(), "pinned frame refuses eviction");
    assert!(!frame.is_evicted());
    frame.unpin(g);
    assert_eq!(frame.pin_count(), 0);
    assert!(frame.try_evict(), "unpinned frame evicts");
}

#[test]
fn eviction_tombstones_against_new_pins() {
    let mut frame = Frame::new(4, 0i64);
    assert!(frame.try_evict());
    assert!(frame.is_evicted());
    assert!(
        frame.pin().is_none(),
        "no pin may be granted once eviction has begun"
    );
    assert!(!frame.try_evict(), "double eviction is refused");
}

#[test]
fn pin_guard_exposes_the_content_latch() {
    let mut frame = Frame::new(9, 100i64);
    let g = frame.pin().expect("pins");
    assert_eq!(g.id(), 9);
    let l = g.latch(&mut frame);
    let w = l.write().unwrap();
    *l.get_mut(&w) += 1;
    l.release_write(w);
    assert_eq!(read_of(g.latch(&mut frame)), 101);
}

#[test]
fn clock_pool_hits_loads_and_evicts() {
    let mut pool: ClockPool<i64> = ClockPool::new(2);
    let a = pool.acquire(10, || 10).unwrap();
    let b = pool.acquire(20, || 20).unwrap();
    assert_eq!(*a.value(&pool), 10);
    assert_eq!(*b.value(&pool), 20);
    assert_eq!(pool.loads(), 2);
    assert_eq!(pool.hits(), 0);
    let a2 = pool.acquire(10, || -1).unwrap();
    assert_eq!(*a2.value(&pool), 10, "the make closure must not have run");
    assert_eq!(pool.hits(), 1);
    pool.release(a);
    pool.release(a2);
    pool.release(b);
    let c = pool.acquire(30, || 30).unwrap();
    assert_eq!(*c.value(&pool), 30);
    assert_eq!(pool.loads(), 3);
    assert_eq!(pool.evictions(), 1);
}

#[test]
fn clock_pool_reports_exhaustion_not_stall() {
    let mut pool: ClockPool<i64> = ClockPool::new(2);
    let _a = pool.acquire(1, || 1).unwrap();
    let _b = pool.acquire(2, || 2).unwrap();
    assert!(
        pool.acquire(3, || 3).is_none(),
        "exhaustion is signalled, never a silent stall"
    );
    assert_eq!(pool.live_pins(), 2);
}

#[test]
fn loads_less_evictions_fill_the_frames() {
    let mut pool: ClockPool<u32> = ClockPool::new(3);
    for pid in 0..10u32 {
        let g = pool.acquire(pid, || pid * 2).unwrap();
        pool.release(g);
        let held = pool.loads() - pool.evictions();
        assert_eq!(held, if pid < 3 { pid as u64 + 1 } else { 3 });
    }
    assert_eq!(pool.loads(), 10);
    assert_eq!(pool.evictions(), 7);
}
