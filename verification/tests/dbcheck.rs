use keel::buffer::{BufferPool, NoWal};
use keel::dbcheck::{check_file, Violation};
use keel::faultfs::{Fate, FaultDisk};
use keel::heap::{HeapFile, Rid};
use keel::page::{raw, PageBuf, PageType, SlottedPage, PAGE_SIZE};
use keel::vfs::{BlockFile, MemDisk};

/// A small generator for reproducible random inputs.
struct Rng(u64);

impl Rng {
    fn seed(s: u64) -> Rng {
        Rng(s.wrapping_mul(0x9E37_79B9_7F4A_7C15) ^ 0x2545_F491_4F6C_DD1D)
    }
    fn next_u64(&mut self) -> u64 {
        self.0 ^= self.0 << 13;
        self.0 ^= self.0 >> 7;
        self.0 ^= self.0 << 17;
        self.0
    }
    fn below(&mut self, n: u64) -> u64 {
        self.next_u64() % n
    }
    fn range(&mut self, lo: u64, hi: u64) -> u64 {
        lo + self.below(hi - lo)
    }
}


/// What a crash does to the pending writes: the odds are in percent.
fn crash_plan(
    disk: &FaultDisk,
    rng: &mut Rng,
    drop: u64,
    tear: u64,
    survive: u64,
    reorder: bool,
) -> (Vec<usize>, Vec<Fate>) {
    let n = disk.pending.len();
    let mut order: Vec<usize> = (0..n).collect();
    if reorder {
        for i in (1..n).rev() {
            order.swap(i, rng.below(i as u64 + 1) as usize);
        }
    }
    let mut fates = Vec::new();
    for &i in &order {
        let op = &disk.pending[i];
        let len = op.data.len() as u64;
        if rng.below(100) < drop {
            fates.push(Fate::Drop);
        } else if len > 0 && rng.below(100) < tear {
            let sector = disk.sector as u64;
            let touched = (op.offset + len - 1) / sector - op.offset / sector + 1;
            fates.push(Fate::Tear(
                (0..touched).map(|_| rng.below(100) < survive).collect(),
            ));
        } else {
            fates.push(Fate::Whole);
        }
    }
    (order, fates)
}

type Pool<F> = BufferPool<F, NoWal>;

fn open<F: BlockFile>(file: F, frames: usize) -> (Pool<F>, HeapFile) {
    let mut bp = BufferPool::open_default(file, frames).unwrap();
    let h = HeapFile::open(&mut bp).unwrap();
    (bp, h)
}

#[test]
fn clean_heap_passes() {
    let (mut bp, mut h) = open(MemDisk::new(), 16);
    for i in 0..500 {
        h.insert(&mut bp, format!("row-{i}").as_bytes()).unwrap();
    }
    let mut rids = Vec::new();
    for i in 0..300 {
        rids.push(
            h.insert(
                &mut bp,
                format!("f-{i}-xxxxxxxxxxxxxxxxxxxxxxxx").as_bytes(),
            )
            .unwrap(),
        );
    }
    for r in rids.iter().step_by(5) {
        h.update(&mut bp, *r, &vec![b'Z'; 4000]).unwrap();
    }
    bp.checkpoint().unwrap();
    let report = check_file(&mut bp.file).unwrap();
    assert!(
        report.ok(),
        "clean heap should pass: {:?}",
        report.violations
    );
    assert!(report.tuples > 0);
    assert!(report.stubs > 0);
    assert_eq!(report.stubs, report.targets, "one target per stub");
}

#[test]
fn detects_bad_checksum() {
    let (mut bp, mut h) = open(MemDisk::new(), 4);
    h.insert(&mut bp, b"corrupt-me").unwrap();
    bp.checkpoint().unwrap();
    let mut disk = bp.file;
    let mut image = disk.snapshot();
    image[PAGE_SIZE / 2] ^= 0xFF;
    disk.install(image);
    let report = check_file(&mut disk).unwrap();
    assert!(report
        .violations
        .iter()
        .any(|v| matches!(v, Violation::BadChecksum { page: 0 })));
}

#[test]
fn benign_crash_preserves_checkpointed_data() {
    for seed in 0..16u64 {
        let mut committed: Vec<(Rid, Vec<u8>)> = Vec::new();
        let (mut bp, mut heap) = open(FaultDisk::new(512), 8);
        for i in 0..400 {
            let rec = format!("committed-{seed}-{i:04}").into_bytes();
            let rid = heap.insert(&mut bp, &rec).unwrap();
            committed.push((rid, rec));
        }
        bp.checkpoint().unwrap();
        let (mut bp, mut heap) = open(bp.file, 8);
        for i in 0..400 {
            let _ = heap
                .insert(&mut bp, format!("volatile-{i}").as_bytes())
                .unwrap();
        }
        let mut disk = bp.file;
        let (order, fates) = crash_plan(&disk, &mut Rng::seed(seed), 0, 0, 100, false);
        disk.crash(&order, &fates);

        let (mut bp, mut heap) = open(disk, 8);
        for (rid, rec) in &committed {
            assert_eq!(
                heap.get(&mut bp, *rid).unwrap().as_deref(),
                Some(rec.as_slice()),
                "seed {seed}: committed row lost after benign crash"
            );
        }
        assert!(
            check_file(&mut bp.file).unwrap().ok(),
            "seed {seed}: the check failed after a benign crash"
        );
    }
}

#[test]
fn vicious_crashes_are_always_detected() {
    let mut torn_pages_seen = 0u64;
    for seed in 0..200u64 {
        let mut rng = Rng::seed(seed ^ 0xA5A5);

        let (mut bp, mut heap) = open(FaultDisk::new(512), 6);
        let mut rids = Vec::new();
        let pad = "x".repeat(180);
        for i in 0..400 {
            rids.push(
                heap.insert(&mut bp, format!("r-{seed}-{i:04}-{pad}").as_bytes())
                    .unwrap(),
            );
        }
        bp.checkpoint().unwrap();
        for i in 400..1000 {
            match rng.below(3) {
                0 if !rids.is_empty() => {
                    let k = rng.below(rids.len() as u64) as usize;
                    let rec = vec![b'U'; rng.range(8, 300) as usize];
                    let _ = heap.update(&mut bp, rids[k], &rec);
                }
                1 if !rids.is_empty() => {
                    let k = rng.below(rids.len() as u64) as usize;
                    let _ = heap.delete(&mut bp, rids[k]);
                }
                _ => {
                    let rec = format!("r-{seed}-{i:04}-{pad}");
                    if let Ok(rid) = heap.insert(&mut bp, rec.as_bytes()) {
                        rids.push(rid);
                    }
                }
            }
        }
        bp.flush_all().unwrap();
        let mut disk = bp.file;
        let (order, fates) = crash_plan(&disk, &mut rng, 30, 40, 50, true);
        disk.crash(&order, &fates);

        let report = check_file(&mut disk).unwrap();

        for v in &report.violations {
            match v {
                Violation::BadStructure { page, why } => {
                    panic!("seed {seed}: torn page {page} slipped past the checksum: {why}")
                }
                Violation::BadRecordTag { rid, tag } => {
                    panic!("seed {seed}: garbage record accepted at {rid:?} tag {tag}")
                }
                _ => {}
            }
        }

        let has_checksum = report
            .violations
            .iter()
            .any(|v| matches!(v, Violation::BadChecksum { .. }));
        let has_downstream = report.violations.iter().any(|v| {
            matches!(
                v,
                Violation::DanglingForward { .. }
                    | Violation::OrphanTarget { .. }
                    | Violation::DoublyReferencedTarget { .. }
            )
        });
        assert!(
            !has_downstream || has_checksum,
            "seed {seed}: forward inconsistency with no torn page to explain it: {:?}",
            report.violations
        );
        if has_checksum {
            torn_pages_seen += 1;
        }
    }
    assert!(
        torn_pages_seen > 0,
        "expected some torn pages across the campaign"
    );
}

/// The image of a file of one heap page that holds the given raw cells.
fn one_page(cells: &[&[u8]]) -> MemDisk {
    let mut p = SlottedPage::init(PageBuf::zeroed(), PageType::Heap);
    for c in cells {
        p.insert(c).unwrap();
    }
    p.recompute_checksum();
    let mut disk = MemDisk::new();
    disk.install(p.as_bytes().to_vec());
    disk
}

#[test]
fn every_inconsistency_of_a_page_is_named() {
    let r = check_file(&mut one_page(&[&[9, 1]])).unwrap();
    assert!(matches!(
        r.violations.as_slice(),
        [Violation::BadRecordTag {
            rid: Rid { page: 0, slot: 0 },
            tag: 9
        }]
    ));
    let r = check_file(&mut one_page(&[&[1, 0, 0, 0, 0, 5, 0]])).unwrap();
    assert!(matches!(
        r.violations.as_slice(),
        [Violation::DanglingForward {
            stub: Rid { page: 0, slot: 0 },
            target: Rid { page: 0, slot: 5 }
        }]
    ));
    let r = check_file(&mut one_page(&[&[2, 7]])).unwrap();
    assert!(matches!(
        r.violations.as_slice(),
        [Violation::OrphanTarget {
            target: Rid { page: 0, slot: 0 }
        }]
    ));
    let stub: &[u8] = &[1, 0, 0, 0, 0, 0, 0];
    let r = check_file(&mut one_page(&[&[2, 7], stub, stub])).unwrap();
    assert_eq!(r.violations.len(), 1);
    match &r.violations[0] {
        Violation::DoublyReferencedTarget { target, stubs } => {
            assert_eq!(*target, Rid::new(0, 0));
            assert_eq!(*stubs, vec![Rid::new(0, 1), Rid::new(0, 2)]);
        }
        v => panic!("unexpected {v:?}"),
    }
}

#[test]
fn a_file_of_a_broken_length_is_ragged() {
    let mut disk = MemDisk::new();
    disk.install(vec![0u8; PAGE_SIZE + 3]);
    let r = check_file(&mut disk).unwrap();
    assert!(r
        .violations
        .iter()
        .any(|v| matches!(v, Violation::RaggedFile { bytes } if *bytes == PAGE_SIZE as u64 + 3)));
}

#[test]
fn a_consistent_checksum_does_not_hide_a_broken_header() {
    let mut p = SlottedPage::init(PageBuf::zeroed(), PageType::Heap);
    p.insert(&[0, 1]).unwrap();
    p.as_bytes_mut()[18] = 0xff;
    let mut image = p.as_bytes().to_vec();
    raw::stamp_checksum(&mut image);
    let mut disk = MemDisk::new();
    disk.install(image);
    let r = check_file(&mut disk).unwrap();
    assert!(matches!(
        r.violations.as_slice(),
        [Violation::BadStructure { page: 0, why }] if why.contains("free_start")
    ));
}
