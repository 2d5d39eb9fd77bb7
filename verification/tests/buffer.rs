use keel::buffer::{BufferError, BufferPool, NoWal, WalSync};
use keel::faultfs::FaultDisk;
use keel::page::{PageType, PAGE_SIZE};
use keel::vfs::{IoError, MemDisk};

/// A small generator for reproducible random inputs.
struct Rng(u64);

impl Rng {
    fn seed(s: u64) -> Rng {
        Rng(s.wrapping_mul(0x9E37_79B9_7F4A_7C15) ^ 0x2545_F491_4F6C_DD1D)
    }
    fn next_u64(&mut self) -> u64 {
        self.0 ^= self.0 << 13;
        self.0 ^= self.0 >> 7;
        self.0 ^= self.0 << 17;
        self.0
    }
    fn below(&mut self, n: u64) -> u64 {
        self.next_u64() % n
    }
    fn range(&mut self, lo: u64, hi: u64) -> u64 {
        lo + self.below(hi - lo)
    }
    fn fill_bytes(&mut self, b: &mut [u8]) {
        for x in b.iter_mut() {
            *x = self.next_u64() as u8;
        }
    }
    fn choose_index(&mut self, n: usize) -> Option<usize> {
        if n == 0 {
            None
        } else {
            Some(self.below(n as u64) as usize)
        }
    }
}


type Pool = BufferPool<MemDisk, NoWal>;

fn pool(n_frames: usize) -> Pool {
    BufferPool::open_default(MemDisk::new(), n_frames).unwrap()
}

/// A new heap page that holds one record.
fn page_with(bp: &mut Pool, record: &[u8]) -> u32 {
    let (pid, g) = bp.new_page(PageType::Heap).unwrap();
    let mut p = g.page(bp);
    p.insert(record).unwrap();
    g.page_mut(bp, p.as_bytes());
    bp.release_write(g);
    pid
}

fn first_record(bp: &mut Pool, pid: u32) -> Option<Vec<u8>> {
    let g = bp.fetch_read(pid).unwrap();
    let r = g.page(bp).get(0).map(|b| b.to_vec());
    bp.release_read(g);
    r
}

#[test]
fn new_read_write_roundtrip() {
    let mut bp = pool(8);
    let pid = page_with(&mut bp, b"hello");
    assert_eq!(first_record(&mut bp, pid).as_deref(), Some(&b"hello"[..]));
}

#[test]
fn survives_eviction_and_reload() {
    let mut bp = pool(2);
    let mut pids = Vec::new();
    for i in 0..20 {
        pids.push(page_with(&mut bp, format!("page-{i}").as_bytes()));
    }
    for (i, &pid) in pids.iter().enumerate() {
        assert_eq!(
            first_record(&mut bp, pid).as_deref(),
            Some(format!("page-{i}").as_bytes())
        );
    }
    assert!(
        bp.stats().evictions > 0,
        "the workload should have forced evictions"
    );
}

#[test]
fn checksum_verified_on_load() {
    let mut bp = pool(1);
    let pid = page_with(&mut bp, b"data");
    bp.checkpoint().unwrap();
    let (_p2, g2) = bp.new_page(PageType::Heap).unwrap();
    bp.release_write(g2);
    let g = bp.fetch_read(pid).unwrap();
    assert!(g.page(&bp).verify_checksum());
    assert_eq!(g.page(&bp).get(0), Some(&b"data"[..]));
}

#[test]
fn corrupt_page_detected_on_load() {
    let mut bp = pool(4);
    page_with(&mut bp, b"important");
    bp.checkpoint().unwrap();
    let mut disk = bp.file;
    let mut image = disk.snapshot();
    image[PAGE_SIZE - 1] ^= 0xFF;
    disk.install(image);
    let mut bp2 = BufferPool::open_default(disk, 4).unwrap();
    match bp2.fetch_read(0) {
        Err(BufferError::Corrupt(0)) => {}
        Err(e) => panic!("expected Corrupt(0), got error {e:?}"),
        Ok(_) => panic!("expected Corrupt(0), got a live guard"),
    }
}

#[test]
fn exhaustion_when_all_pinned() {
    let mut bp = pool(2);
    let (_p0, g0) = bp.new_page(PageType::Heap).unwrap();
    let (_p1, g1) = bp.new_page(PageType::Heap).unwrap();
    match bp.new_page(PageType::Heap) {
        Err(BufferError::Exhausted) => {}
        other => panic!("expected Exhausted, got {:?}", other.map(|(p, _)| p)),
    }
    bp.release_write(g0);
    bp.release_write(g1);
    assert!(bp.new_page(PageType::Heap).is_ok());
}

#[test]
fn persists_across_reopen_over_fault_disk() {
    let mut bp = BufferPool::open_default(FaultDisk::new(512), 4).unwrap();
    let (pid, g) = bp.new_page(PageType::Heap).unwrap();
    let mut p = g.page(&bp);
    p.insert(b"durable-across-reopen").unwrap();
    g.page_mut(&mut bp, p.as_bytes());
    bp.release_write(g);
    bp.checkpoint().unwrap();
    let mut bp2 = BufferPool::open_default(bp.file, 4).unwrap();
    let g = bp2.fetch_read(pid).unwrap();
    assert_eq!(g.page(&bp2).get(0), Some(&b"durable-across-reopen"[..]));
}

#[test]
fn stress_random_access_small_pool() {
    let mut bp = pool(4);
    let mut rng = Rng::seed(123);
    let mut expected: Vec<Vec<u8>> = Vec::new();
    let mut pids: Vec<u32> = Vec::new();
    for i in 0..40 {
        let payload = format!("init-{i}").into_bytes();
        pids.push(page_with(&mut bp, &payload));
        expected.push(payload);
    }
    for _ in 0..5000 {
        let k = rng.below(pids.len() as u64) as usize;
        let pid = pids[k];
        if rng.below(10) < 4 {
            let g = bp.fetch_write(pid).unwrap();
            let payload = format!("v{}", rng.next_u64() as u32).into_bytes();
            let mut p = g.page(&bp);
            p.set(0, &payload).unwrap();
            g.page_mut(&mut bp, p.as_bytes());
            bp.release_write(g);
            expected[k] = payload;
        } else {
            assert_eq!(
                first_record(&mut bp, pid).as_deref(),
                Some(expected[k].as_slice())
            );
        }
    }
}

#[test]
fn dirty_pages_are_tracked_until_they_are_flushed() {
    let mut bp = pool(4);
    let a = page_with(&mut bp, b"a");
    bp.note_dirty(a, 9);
    bp.note_dirty(a, 5);
    assert_eq!(bp.dpt_snapshot(), vec![(a, 9)]);
    bp.flush_page(a).unwrap();
    assert!(bp.dpt_snapshot().is_empty());
    assert_eq!(bp.stats().flushes, 1);
}

#[test]
fn invalidated_pages_fall_back_to_the_disk() {
    let mut bp = pool(4);
    let a = page_with(&mut bp, b"kept");
    bp.checkpoint().unwrap();
    let g = bp.fetch_write(a).unwrap();
    let mut p = g.page(&bp);
    p.set(0, b"lost").unwrap();
    g.page_mut(&mut bp, p.as_bytes());
    bp.release_write(g);
    bp.invalidate(a);
    assert_eq!(first_record(&mut bp, a).as_deref(), Some(&b"kept"[..]));
}

#[test]
fn a_pool_that_may_not_steal_keeps_dirty_pages() {
    let mut bp = pool(1);
    bp.set_no_steal();
    let a = page_with(&mut bp, b"dirty");
    assert!(matches!(
        bp.new_page(PageType::Heap),
        Err(BufferError::Exhausted)
    ));
    bp.flush_page(a).unwrap();
    assert!(bp.new_page(PageType::Heap).is_ok());
}

#[test]
fn redo_rebuilds_a_page_the_disk_never_got() {
    let mut bp = pool(4);
    let g = bp.fetch_write_for_redo(2).unwrap();
    assert_eq!(g.page_id(), 2);
    assert!(g.bytes(&bp).iter().all(|b| *b == 0));
    bp.release_write(g);
    assert_eq!(bp.page_count(), 3);
}

#[test]
fn a_read_past_the_last_page_fails() {
    let mut bp = pool(2);
    assert!(matches!(bp.fetch_read(0), Err(BufferError::Io(_))));
}

#[test]
fn a_checkpoint_outlives_a_power_loss() {
    let mut bp = BufferPool::open_default(FaultDisk::new(512), 4).unwrap();
    let (pid, g) = bp.new_page(PageType::Heap).unwrap();
    let mut p = g.page(&bp);
    p.insert(b"kept").unwrap();
    g.page_mut(&mut bp, p.as_bytes());
    bp.release_write(g);
    bp.checkpoint().unwrap();
    let mut disk = bp.file;
    disk.crash(&vec![], &vec![]);
    let mut bp = BufferPool::open_default(disk, 4).unwrap();
    let g = bp.fetch_read(pid).unwrap();
    assert_eq!(g.page(&bp).get(0), Some(&b"kept"[..]));
}

#[test]
fn pool_errors_have_texts() {
    assert_eq!(BufferError::Corrupt(12).text(""), "page 12 failed checksum");
    assert_eq!(
        BufferError::Exhausted.text(""),
        "buffer pool exhausted (all frames pinned)"
    );
}

#[test]
fn no_steal_keeps_the_file_as_it_is() {
    let mut bp = pool(1);
    let a = page_with(&mut bp, b"kept");
    bp.checkpoint().unwrap();
    let b = page_with(&mut bp, b"other");
    bp.checkpoint().unwrap();
    bp.set_no_steal();
    let g = bp.fetch_write(a).unwrap();
    let mut p = g.page(&bp);
    p.set(0, b"lost").unwrap();
    g.page_mut(&mut bp, p.as_bytes());
    bp.release_write(g);
    let image = bp.file.snapshot();
    let flushes = bp.stats().flushes;
    assert!(matches!(bp.fetch_read(b), Err(BufferError::Exhausted)));
    assert!(matches!(bp.fetch_write(b), Err(BufferError::Exhausted)));
    assert!(bp.new_page(PageType::Heap).is_err());
    assert_eq!(bp.file.snapshot(), image);
    assert_eq!(bp.stats().flushes, flushes);
    bp.invalidate(a);
    assert_eq!(first_record(&mut bp, b).as_deref(), Some(&b"other"[..]));
    assert_eq!(first_record(&mut bp, a).as_deref(), Some(&b"kept"[..]));
}

#[test]
fn every_call_is_counted() {
    let mut bp = pool(1);
    let a = page_with(&mut bp, b"a");
    let s = bp.stats();
    assert_eq!((s.new_pages, s.hits, s.misses, s.evictions, s.flushes), (1, 0, 0, 0, 0));
    let g = bp.fetch_write(a).unwrap();
    bp.release_write(g);
    assert_eq!(bp.stats().hits, 1);
    bp.note_dirty(a, 3);
    let b = page_with(&mut bp, b"b");
    let s = bp.stats();
    assert_eq!((s.new_pages, s.evictions, s.flushes), (2, 1, 1));
    assert!(bp.dpt_snapshot().is_empty());
    bp.note_dirty(b, 4);
    assert_eq!(first_record(&mut bp, b).as_deref(), Some(&b"b"[..]));
    assert_eq!(bp.dpt_snapshot(), vec![(b, 4)]);
    bp.flush_all().unwrap();
    assert!(bp.dpt_snapshot().is_empty());
    assert_eq!(bp.stats().flushes, 2);
    bp.checkpoint().unwrap();
    assert_eq!(bp.stats().flushes, 2);
    assert_eq!(first_record(&mut bp, a).as_deref(), Some(&b"a"[..]));
    let s = bp.stats();
    assert_eq!((s.misses, s.reads, s.evictions), (1, 1, 2));
}

/// A log that cannot be forced.
struct StuckWal;

impl WalSync for StuckWal {
    fn flushed(&self) -> u64 {
        unreachable!()
    }
    fn dependable(&self) -> bool {
        unreachable!()
    }
    fn flushed_lsn(&self) -> u64 {
        0
    }
    fn flush_until(&mut self, _lsn: u64) -> Result<(), IoError> {
        Err(IoError::Device)
    }
}

#[test]
fn no_page_overtakes_a_log_that_cannot_be_forced() {
    let mut bp = BufferPool::open(MemDisk::new(), 1, StuckWal).unwrap();
    let (pid, g) = bp.new_page(PageType::Heap).unwrap();
    g.set_page_lsn(&mut bp, 42);
    bp.release_write(g);
    assert!(bp.flush_page(pid).is_err());
    assert!(bp.flush_all().is_err());
    assert!(bp.checkpoint().is_err());
    assert!(bp.new_page(PageType::Heap).is_err());
    assert!(bp.file.snapshot().is_empty());
    assert_eq!(bp.stats().flushes, 0);
}
