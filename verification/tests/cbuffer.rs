use keel::buffer::{NoWal, WalSync};
use keel::cbuffer::{CacheError, PageCache, PageFormat};
use keel::faultfs::{Fate, FaultDisk};
use keel::page::crc::crc32;
use keel::page::{PageBuf, PageType, SlottedPage, PAGE_SIZE};
use keel::vfs::{BlockFile, Image, IoError, MemDisk};

/// A small generator for reproducible random inputs.
struct Rng(u64);

impl Rng {
    fn seed(s: u64) -> Rng {
        Rng(s.wrapping_mul(0x9E37_79B9_7F4A_7C15) ^ 0x2545_F491_4F6C_DD1D)
    }
    fn next_u64(&mut self) -> u64 {
        self.0 ^= self.0 << 13;
        self.0 ^= self.0 >> 7;
        self.0 ^= self.0 << 17;
        self.0
    }
    fn below(&mut self, n: u64) -> u64 {
        self.next_u64() % n
    }
}


/// What a crash does to the pending writes: the odds are in percent.
fn crash_plan(
    disk: &FaultDisk,
    rng: &mut Rng,
    drop: u64,
    tear: u64,
    survive: u64,
    reorder: bool,
) -> (Vec<usize>, Vec<Fate>) {
    let n = disk.pending.len();
    let mut order: Vec<usize> = (0..n).collect();
    if reorder {
        for i in (1..n).rev() {
            order.swap(i, rng.below(i as u64 + 1) as usize);
        }
    }
    let mut fates = Vec::new();
    for &i in &order {
        let op = &disk.pending[i];
        let len = op.data.len() as u64;
        if rng.below(100) < drop {
            fates.push(Fate::Drop);
        } else if len > 0 && rng.below(100) < tear {
            let sector = disk.sector as u64;
            let touched = (op.offset + len - 1) / sector - op.offset / sector + 1;
            fates.push(Fate::Tear(
                (0..touched).map(|_| rng.below(100) < survive).collect(),
            ));
        } else {
            fates.push(Fate::Whole);
        }
    }
    (order, fates)
}

fn off(pid: u32) -> u64 {
    pid as u64 * PAGE_SIZE as u64
}

fn stamped_disk(n: u32) -> MemDisk {
    let mut disk = MemDisk::new();
    let mut page = vec![0u8; PAGE_SIZE];
    for pid in 0..n {
        page[..4].copy_from_slice(&pid.to_le_bytes());
        disk.write_at(&page, off(pid)).unwrap();
    }
    disk
}

fn stamp_of(buf: &[u8]) -> u32 {
    u32::from_le_bytes(buf[..4].try_into().unwrap())
}

#[test]
fn fetch_reads_the_right_page_and_caches_it() {
    let mut cache = PageCache::open(stamped_disk(4), 4);
    let p = cache.fetch(2).unwrap();
    assert_eq!(stamp_of(p.read(&cache)), 2);
    assert_eq!(cache.loads(), 1);
    cache.release(p);
    let p = cache.fetch(2).unwrap();
    assert_eq!(stamp_of(p.read(&cache)), 2);
    assert_eq!(cache.hits(), 1);
    assert_eq!(cache.loads(), 1);
}

#[test]
fn eviction_reloads_correctly() {
    let mut cache = PageCache::open(stamped_disk(8), 2);
    let a = cache.fetch(0).unwrap();
    let b = cache.fetch(1).unwrap();
    cache.release(a);
    cache.release(b);
    let c = cache.fetch(2).unwrap();
    assert_eq!(stamp_of(c.read(&cache)), 2);
    assert_eq!(cache.evictions(), 1);
    cache.release(c);
    let a = cache.fetch(0).unwrap();
    assert_eq!(stamp_of(a.read(&cache)), 0);
}

#[test]
fn exhaustion_is_reported() {
    let mut cache = PageCache::open(stamped_disk(4), 2);
    let _a = cache.fetch(0).unwrap();
    let _b = cache.fetch(1).unwrap();
    assert!(
        matches!(cache.fetch(2), Err(CacheError::Exhausted)),
        "all frames pinned -> Exhausted, not a stall"
    );
}

struct CountingWal {
    flushed: u64,
}

impl WalSync for CountingWal {
    fn flushed(&self) -> u64 {
        self.flushed
    }
    fn dependable(&self) -> bool {
        true
    }
    fn flushed_lsn(&self) -> u64 {
        self.flushed
    }
    fn flush_until(&mut self, lsn: u64) -> Result<(), IoError> {
        self.flushed = self.flushed.max(lsn);
        Ok(())
    }
}

fn lsn_at_4(buf: &[u8]) -> u64 {
    u64::from_le_bytes(buf[4..12].try_into().unwrap())
}

#[test]
fn dirty_page_is_flushed_before_reuse_under_wal() {
    let mut cache = PageCache::open_wal(stamped_disk(8), 2, CountingWal { flushed: 0 }, 4);

    let p = cache.fetch(0).unwrap();
    let mut b = p.read(&cache).clone();
    b[4..12].copy_from_slice(&42u64.to_le_bytes());
    p.write(&mut cache, &b);
    cache.release(p);
    let p = cache.fetch(1).unwrap();
    cache.release(p);
    let p = cache.fetch(2).unwrap();
    cache.release(p);

    assert!(
        cache.flushes() >= 1,
        "the dirty page was flushed on eviction"
    );
    assert!(
        cache.wal.flushed_lsn() >= 42,
        "WAL was forced durable through the page LSN before its data write"
    );
    let p = cache.fetch(0).unwrap();
    assert_eq!(stamp_of(p.read(&cache)), 0);
    assert_eq!(
        lsn_at_4(p.read(&cache)),
        42,
        "the dirty write reached disk"
    );
}

const KEPT: u32 = 8;
const SCRATCH: u32 = 8;
const TOTAL: u32 = KEPT + SCRATCH;
const CAP: usize = 4;
const CHECKPOINTED: u32 = 100;

fn write_stamp(buf: &mut [u8], pid: u32, version: u32) {
    buf[..4].copy_from_slice(&pid.to_le_bytes());
    buf[4..8].copy_from_slice(&version.to_le_bytes());
    let crc = crc32(&buf[0..8]);
    buf[8..12].copy_from_slice(&crc.to_le_bytes());
}

/// A page's identity and version, and whether its checksum holds.
fn read_stamp(buf: &[u8]) -> (u32, u32, bool) {
    let pid = u32::from_le_bytes(buf[0..4].try_into().unwrap());
    let version = u32::from_le_bytes(buf[4..8].try_into().unwrap());
    let stored = u32::from_le_bytes(buf[8..12].try_into().unwrap());
    let ok = stored == crc32(&buf[0..8]);
    (pid, version, ok)
}

#[test]
fn checkpoint_survives_a_vicious_crash() {
    let mut total_pending = 0usize;

    for seed in 0..24u64 {
        let mut rng = Rng::seed(seed);
        let mut disk = FaultDisk::new(512);
        let mut zero = vec![0u8; PAGE_SIZE];
        for pid in 0..TOTAL {
            write_stamp(&mut zero, pid, 1);
            disk.write_at(&zero, off(pid)).unwrap();
        }
        disk.sync().unwrap();

        let mut cache = PageCache::open(disk, CAP);
        for pid in 0..KEPT {
            let p = cache.fetch(pid).unwrap();
            let mut b = p.read(&cache).clone();
            write_stamp(&mut b, pid, CHECKPOINTED);
            p.write(&mut cache, &b);
            cache.release(p);
        }
        cache.checkpoint().unwrap();

        for pid in KEPT..TOTAL {
            let p = cache.fetch(pid).unwrap();
            let mut b = p.read(&cache).clone();
            write_stamp(&mut b, pid, 200);
            p.write(&mut cache, &b);
            cache.release(p);
        }

        let mut disk = cache.file;
        let (order, fates) = crash_plan(&disk, &mut rng, 30, 40, 50, true);
        let report = disk.crash(&order, &fates);
        total_pending += report.pending_ops;

        let mut cache2 = PageCache::open(FaultDisk::from_image(512, disk.durable_image()), CAP);
        for pid in 0..KEPT {
            let p = cache2.fetch(pid).unwrap();
            let (rpid, ver, crc_ok) = read_stamp(p.read(&cache2));
            cache2.release(p);
            assert!(crc_ok, "seed {seed}: checkpointed page {pid} was torn");
            assert_eq!(rpid, pid, "seed {seed}: page {pid} identity");
            assert_eq!(
                ver, CHECKPOINTED,
                "seed {seed}: checkpointed page {pid} did not survive the crash byte-exact"
            );
        }
    }

    assert!(
        total_pending > 0,
        "no un-synced writes were ever in flight"
    );
}

struct FailNextWrite {
    inner: MemDisk,
    armed: bool,
}

impl BlockFile for FailNextWrite {
    fn image(&self) -> Image {
        unreachable!()
    }
    fn reliable(&self) -> bool {
        false
    }

    fn synced(&self) -> bool {
        unreachable!()
    }
    fn read_at(&mut self, buf: &mut Vec<u8>, offset: u64) -> Result<(), IoError> {
        self.inner.read_at(buf, offset)
    }
    fn write_at(&mut self, buf: &Vec<u8>, offset: u64) -> Result<(), IoError> {
        if self.armed {
            self.armed = false;
            return Err(IoError::Device);
        }
        self.inner.write_at(buf, offset)
    }
    fn sync(&mut self) -> Result<(), IoError> {
        self.inner.sync()
    }
    fn size(&mut self) -> Result<u64, IoError> {
        self.inner.size()
    }
    fn set_len(&mut self, len: u64) -> Result<(), IoError> {
        self.inner.set_len(len)
    }
}

#[test]
fn flush_failure_keeps_page_dirty_so_checkpoint_still_persists_it() {
    const MARK: u64 = 0xA11CE5;

    let disk = FailNextWrite {
        inner: MemDisk::new(),
        armed: false,
    };
    let mut cache = PageCache::open(disk, 1);
    let p0 = cache.new_page().unwrap();
    assert_eq!(p0.pid(), 0);
    let mut b = p0.read(&cache).clone();
    b[..8].copy_from_slice(&MARK.to_le_bytes());
    p0.write(&mut cache, &b);
    cache.release(p0);

    cache.file.armed = true;
    let r = cache.new_page();
    assert!(
        r.is_err(),
        "the injected flush failure should surface as an error"
    );

    assert_eq!(
        cache.page_count(),
        1,
        "a failed new_page left a hole below page_count()"
    );
    for pid in 0..cache.page_count() {
        let p = cache
            .fetch(pid)
            .expect("every page below page_count must be readable");
        cache.release(p);
    }

    cache.checkpoint().unwrap();

    let mut cache2 = PageCache::open(cache.file, 4);
    assert!(cache2.page_count() >= 1, "page 0 was never written to disk");
    let p0 = cache2.fetch(0).unwrap();
    let got = u64::from_le_bytes(p0.read(&cache2)[..8].try_into().unwrap());
    assert_eq!(
        got, MARK,
        "committed record lost: a failed flush marked the page clean and checkpoint skipped it"
    );
}

type Cache = PageCache<MemDisk, NoWal>;

fn keel_cache(disk: MemDisk, cap: usize) -> Cache {
    PageCache::open_formatted(disk, cap, NoWal, PageFormat::keel_page())
}

/// A new heap page with the given records.
fn heap_page(cache: &mut Cache, records: &[&[u8]]) -> u32 {
    let p = cache.new_page().unwrap();
    let mut sp = SlottedPage::init(PageBuf::from_vec(p.read(cache).clone()), PageType::Heap);
    for r in records {
        sp.insert(r).unwrap();
    }
    p.write(cache, sp.as_bytes());
    let pid = p.pid();
    cache.release(p);
    pid
}

#[test]
fn the_cache_stamps_so_the_caller_never_has_to() {
    let mut cache = keel_cache(MemDisk::new(), 2);
    for _ in 0..6 {
        heap_page(&mut cache, &[b"a record"]);
    }
    cache.checkpoint().unwrap();

    let mut disk = cache.file;
    let mut page = vec![0u8; PAGE_SIZE];
    let pages = disk.size().unwrap() / PAGE_SIZE as u64;
    assert!(pages >= 6, "expected the allocations to reach disk");
    for pid in 0..pages {
        disk.read_at(&mut page, pid * PAGE_SIZE as u64).unwrap();
        assert!(
            SlottedPage::from_bytes(PageBuf::from_vec(page.clone())).verify_checksum(),
            "page {pid} was written without a valid checksum"
        );
    }
}

#[test]
fn a_corrupt_page_is_surfaced_not_returned_as_data() {
    let mut cache = keel_cache(MemDisk::new(), 2);
    for _ in 0..3 {
        heap_page(&mut cache, &[b"payload"]);
    }
    cache.checkpoint().unwrap();

    let mut disk = cache.file;
    let mut page = vec![0u8; PAGE_SIZE];
    disk.read_at(&mut page, PAGE_SIZE as u64).unwrap();
    page[100] ^= 0xFF;
    disk.write_at(&page, PAGE_SIZE as u64).unwrap();

    let mut cache = keel_cache(disk, 2);
    assert!(
        matches!(cache.fetch(1), Err(CacheError::Corrupt(1))),
        "a damaged page was published as data instead of surfacing Corrupt"
    );
    let a = cache.fetch(0).expect("an intact page must still load");
    let b = cache.fetch(2).expect("an intact page must still load");
    cache.release(a);
    cache.release(b);
}

#[test]
fn the_opaque_format_leaves_bytes_untouched() {
    const MARK: u8 = 0xAB;
    let mut cache = PageCache::open(MemDisk::new(), 2);
    let p = cache.new_page().unwrap();
    p.write(&mut cache, &vec![MARK; PAGE_SIZE]);
    cache.release(p);
    cache.checkpoint().unwrap();
    let mut page = vec![0u8; PAGE_SIZE];
    cache.file.read_at(&mut page, 0).unwrap();
    assert!(
        page.iter().all(|&x| x == MARK),
        "the opaque format must not rewrite any byte of the page"
    );
}

fn blank(c: &mut Cache) -> u32 {
    let p = c.new_page().expect("alloc");
    let pid = p.pid();
    c.release(p);
    pid
}

#[test]
fn two_read_guards_can_be_held_at_once() {
    let mut c = keel_cache(MemDisk::new(), 16);
    let pa = blank(&mut c);
    let pb = blank(&mut c);

    let ra = c.fetch(pa).expect("fetch a");
    let rb = c.fetch(pb).expect("fetch b");
    let ga = ra.read(&c);
    let gb = rb.read(&c);
    assert_eq!(
        ga.len(),
        gb.len(),
        "both guards must be live simultaneously"
    );
}

#[test]
fn a_write_guard_on_the_child_while_reading_the_parent() {
    let mut c = keel_cache(MemDisk::new(), 16);
    let pp = blank(&mut c);
    let pc = blank(&mut c);

    let rp = c.fetch(pp).expect("fetch parent");
    let rc = c.fetch(pc).expect("fetch child");
    let mut gc = rc.read(&c).clone();
    gc[64] = 0xAB;
    rc.write(&mut c, &gc);
    assert_eq!(
        rp.read(&c).len(),
        rc.read(&c).len(),
        "coupled parent-read + child-write must coexist"
    );
    assert_eq!(rc.read(&c)[64], 0xAB);
    assert_eq!(rp.read(&c)[64], 0);
}

#[test]
fn fetching_under_pressure_while_holding_a_guard_does_not_wedge() {
    let mut c = keel_cache(MemDisk::new(), 4);
    let mut pids = Vec::new();
    for _ in 0..16 {
        pids.push(blank(&mut c));
    }

    let held = c.fetch(pids[0]).expect("fetch held");

    for &pid in &pids[1..] {
        let r = c
            .fetch(pid)
            .expect("fetch under pressure must not fail while a guard is held");
        assert_eq!(r.read(&c).len(), held.read(&c).len());
        c.release(r);
    }
    assert_eq!(c.live_pins(), 1);
}

#[test]
fn no_steal_never_writes_a_dirty_page_during_eviction() {
    let mut cache = keel_cache(MemDisk::new(), 2);
    cache.set_no_steal();

    for _ in 0..2 {
        heap_page(&mut cache, &[]);
    }
    assert!(
        matches!(cache.new_page(), Err(CacheError::Exhausted)),
        "no-steal must refuse rather than evict a dirty page"
    );
    assert_eq!(
        cache.flushes(),
        0,
        "no-steal wrote a dirty page during eviction"
    );
    assert_eq!(
        cache.file.size().unwrap(),
        0,
        "nothing should have reached disk yet"
    );

    cache.checkpoint().unwrap();
    assert!(cache.file.size().unwrap() >= 2 * PAGE_SIZE as u64);
}

#[test]
fn invalidate_discards_without_flushing_and_reverts_to_the_durable_page() {
    let mut cache = keel_cache(MemDisk::new(), 4);
    let pid = heap_page(&mut cache, &[b"committed"]);
    cache.checkpoint().unwrap();

    let p = cache.fetch(pid).unwrap();
    let mut sp = SlottedPage::from_bytes(PageBuf::from_vec(p.read(&cache).clone()));
    sp.insert(b"uncommitted").unwrap();
    p.write(&mut cache, sp.as_bytes());
    cache.release(p);
    cache.note_dirty(pid, 42);
    cache.invalidate(pid);
    assert!(
        cache.dpt_snapshot().iter().all(|&(p, _)| p != pid),
        "invalidate must drop the page from the DPT too"
    );

    let p = cache.fetch(pid).unwrap();
    let sp = SlottedPage::from_bytes(PageBuf::from_vec(p.read(&cache).clone()));
    let live = (0..sp.slot_count())
        .filter(|&s| sp.get(s).is_some())
        .count();
    assert_eq!(live, 1, "invalidate leaked an uncommitted record");
}

#[test]
fn dpt_tracks_the_oldest_reclsn_and_clears_on_flush() {
    let mut cache = keel_cache(MemDisk::new(), 4);
    let pid = heap_page(&mut cache, &[]);

    cache.note_dirty(pid, 100);
    cache.note_dirty(pid, 200);
    assert_eq!(cache.dpt_snapshot(), vec![(pid, 100)]);

    cache.flush_page(pid).unwrap();
    assert!(
        cache.dpt_snapshot().is_empty(),
        "a flushed page must leave the DPT"
    );
}

#[test]
fn fetch_for_redo_rebuilds_a_missing_or_torn_page() {
    let mut cache = keel_cache(MemDisk::new(), 2);
    let corrupt = heap_page(&mut cache, &[]);
    cache.checkpoint().unwrap();
    let mut disk = cache.file;
    let mut page = vec![0u8; PAGE_SIZE];
    disk.read_at(&mut page, 0).unwrap();
    page[80] ^= 0xFF;
    disk.write_at(&page, 0).unwrap();

    let mut cache = keel_cache(disk, 3);
    assert!(matches!(cache.fetch(corrupt), Err(CacheError::Corrupt(_))));
    let p = cache.fetch_for_redo(corrupt).unwrap();
    assert!(
        p.read(&cache).iter().all(|&x| x == 0),
        "redo should start from a blank page"
    );
    cache.release(p);

    let far = 9u32;
    let p = cache.fetch_for_redo(far).unwrap();
    assert_eq!(p.pid(), far);
    assert!(p.read(&cache).iter().all(|&x| x == 0));
    cache.release(p);
    assert!(
        cache.page_count() > far,
        "fetch_for_redo must extend the allocation watermark past the page it rebuilt"
    );
}

#[test]
fn a_page_that_does_not_exist_cannot_be_fetched() {
    let mut cache = keel_cache(MemDisk::new(), 2);
    assert!(matches!(
        cache.fetch(0),
        Err(CacheError::Io(IoError::UnexpectedEof))
    ));
    assert_eq!(cache.live_pins(), 0);
}

#[test]
fn pages_can_be_copied_replaced_and_appended() {
    let mut cache = PageCache::open(MemDisk::new(), 1);
    assert_eq!(cache.append(&vec![1u8; PAGE_SIZE]), Ok(0));
    assert_eq!(cache.append(&vec![2u8; PAGE_SIZE]), Ok(1));
    assert_eq!(cache.copy_of(0), Ok(vec![1u8; PAGE_SIZE]));
    let seen = cache.edit(0, |b| (vec![3u8; PAGE_SIZE], b[7])).unwrap();
    assert_eq!(seen, 1);
    assert_eq!(cache.copy_of(1), Ok(vec![2u8; PAGE_SIZE]));
    assert_eq!(cache.copy_of(0), Ok(vec![3u8; PAGE_SIZE]));
    assert_eq!(cache.allocations(), 2);
    assert_eq!(cache.live_pins(), 0);
}

#[test]
fn flushing_one_page_leaves_the_others_dirty() {
    let mut cache = PageCache::open(stamped_disk(3), 3);
    for pid in 0..3u32 {
        cache.edit(pid, |mut b| {
            b[100] = 7;
            (b, ())
        })
        .unwrap();
        cache.note_dirty(pid, 10 + pid as u64);
    }
    cache.flush_page(1).unwrap();
    assert_eq!(cache.flushes(), 1);
    assert_eq!(cache.dpt_snapshot(), vec![(0, 10), (2, 12)]);
    let image = cache.file.snapshot();
    assert_eq!(image[PAGE_SIZE + 100], 7);
    assert_eq!(image[100], 0);
    assert_eq!(image[2 * PAGE_SIZE + 100], 0);
    cache.flush_all().unwrap();
    assert_eq!(cache.flushes(), 3);
    assert!(cache.dpt_snapshot().is_empty());
}

#[test]
fn a_refused_fetch_under_no_steal_writes_nothing() {
    let mut cache = PageCache::open(stamped_disk(2), 1);
    cache.set_no_steal();
    cache.edit(0, |mut b| {
        b[200] = 1;
        (b, ())
    })
    .unwrap();
    let before = cache.file.snapshot();
    assert!(matches!(cache.fetch(1), Err(CacheError::Exhausted)));
    assert_eq!(cache.file.snapshot(), before);
    assert_eq!(cache.flushes(), 0);
    assert_eq!(cache.evictions(), 0);
}

/// A log that cannot be forced.
struct StuckWal;

impl WalSync for StuckWal {
    fn flushed(&self) -> u64 {
        unreachable!()
    }
    fn dependable(&self) -> bool {
        unreachable!()
    }
    fn flushed_lsn(&self) -> u64 {
        0
    }
    fn flush_until(&mut self, _lsn: u64) -> Result<(), IoError> {
        Err(IoError::Device)
    }
}

#[test]
fn a_page_that_the_log_does_not_cover_stays_off_the_disk() {
    let mut cache = PageCache::open_wal(stamped_disk(2), 1, StuckWal, 4);
    cache.edit(0, |mut b| {
        b[4..12].copy_from_slice(&42u64.to_le_bytes());
        (b, ())
    })
    .unwrap();
    let before = cache.file.snapshot();
    assert!(cache.flush_page(0).is_err());
    assert!(cache.fetch(1).is_err());
    assert!(cache.checkpoint().is_err());
    assert_eq!(cache.file.snapshot(), before);
    assert_eq!(cache.flushes(), 0);
}
