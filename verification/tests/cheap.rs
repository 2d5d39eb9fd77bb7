use keel::buffer::NoWal;
use keel::cbuffer::PageCache;
use keel::cheap::{Heap, HeapError, Rid};
use keel::faultfs::{Fate, FaultDisk};
use keel::page::{PageBuf, PageType, SlottedPage, MAX_TUPLE_SIZE, PAGE_SIZE};
use keel::vfs::MemDisk;
use std::collections::{HashMap, HashSet};

/// A small generator for reproducible random inputs.
struct Rng(u64);

impl Rng {
    fn seed(s: u64) -> Rng {
        Rng(s.wrapping_mul(0x9E37_79B9_7F4A_7C15) ^ 0x2545_F491_4F6C_DD1D)
    }
    fn next_u64(&mut self) -> u64 {
        self.0 ^= self.0 << 13;
        self.0 ^= self.0 >> 7;
        self.0 ^= self.0 << 17;
        self.0
    }
    fn below(&mut self, n: u64) -> u64 {
        self.next_u64() % n
    }
}


/// What a crash does to the pending writes: the odds are in percent.
fn crash_plan(
    disk: &FaultDisk,
    rng: &mut Rng,
    drop: u64,
    tear: u64,
    survive: u64,
    reorder: bool,
) -> (Vec<usize>, Vec<Fate>) {
    let n = disk.pending.len();
    let mut order: Vec<usize> = (0..n).collect();
    if reorder {
        for i in (1..n).rev() {
            order.swap(i, rng.below(i as u64 + 1) as usize);
        }
    }
    let mut fates = Vec::new();
    for &i in &order {
        let op = &disk.pending[i];
        let len = op.data.len() as u64;
        if rng.below(100) < drop {
            fates.push(Fate::Drop);
        } else if len > 0 && rng.below(100) < tear {
            let sector = disk.sector as u64;
            let touched = (op.offset + len - 1) / sector - op.offset / sector + 1;
            fates.push(Fate::Tear(
                (0..touched).map(|_| rng.below(100) < survive).collect(),
            ));
        } else {
            fates.push(Fate::Whole);
        }
    }
    (order, fates)
}

fn rec_sized(key: u64, len: usize) -> Vec<u8> {
    let len = len.max(8);
    let mut v = vec![(key & 0xff) as u8; len];
    v[..8].copy_from_slice(&key.to_le_bytes());
    v
}

fn heap_of(frames: usize) -> Heap<MemDisk, NoWal> {
    Heap::open(PageCache::open(MemDisk::new(), frames))
}

fn all_pages_verify(cache: &mut PageCache<MemDisk, NoWal>) -> (u64, u64) {
    let mut ok = 0;
    let mut bad = 0;
    for pid in 0..cache.page_count() {
        let b = cache.copy_of(pid).unwrap();
        if SlottedPage::from_bytes(PageBuf::from_vec(b)).verify_checksum() {
            ok += 1;
        } else {
            bad += 1;
        }
    }
    (ok, bad)
}

#[test]
fn pagefull_after_compaction_keeps_checksum_valid() {
    let big = MAX_TUPLE_SIZE - 200;
    let mut heap = heap_of(4);
    heap.insert(&rec_sized(0, big)).unwrap();
    let small = heap.insert(&rec_sized(1, 50)).unwrap();
    assert!(heap.delete(small).unwrap());
    heap.insert(&rec_sized(2, big / 2)).unwrap();
    heap.checkpoint().unwrap();

    let mut cache = PageCache::open(heap.cache.file, 8);
    let (ok, bad) = all_pages_verify(&mut cache);
    assert_eq!(
        bad, 0,
        "{bad} page(s) failed checksum after checkpoint (stale checksum)"
    );
    assert!(
        ok >= 2,
        "expected the record to have spilled onto a second page"
    );

    let mut heap = Heap::open(PageCache::open(cache.file, 8));
    let keys: Vec<u64> = heap
        .scan()
        .unwrap()
        .iter()
        .map(|(_, r)| u64::from_le_bytes(r[..8].try_into().unwrap()))
        .collect();
    assert!(keys.contains(&0), "committed record 0 lost");
    assert!(keys.contains(&2), "record 2 lost");
}

#[test]
fn every_page_self_verifies_after_random_insert_delete() {
    for seed in 0..12u64 {
        let mut heap = heap_of(3);
        let mut rng = Rng::seed(0xA11CE ^ seed);
        let mut live = Vec::new();
        for k in 0..400u64 {
            if !live.is_empty() && rng.below(3) == 0 {
                let i = rng.below(live.len() as u64) as usize;
                let rid = live.swap_remove(i);
                heap.delete(rid).unwrap();
            } else {
                let len = 1 + rng.below((MAX_TUPLE_SIZE as u64) / 2) as usize;
                live.push(heap.insert(&rec_sized(k, len)).unwrap());
            }
        }
        heap.checkpoint().unwrap();
        let mut cache = PageCache::open(heap.cache.file, 8);
        let (_, bad) = all_pages_verify(&mut cache);
        assert_eq!(
            bad, 0,
            "seed {seed}: {bad} page(s) failed checksum after checkpoint"
        );
    }
}

const N: u64 = 900;
const M: u64 = 2400;
const FRAMES: usize = 3;

fn rec(key: u64) -> Vec<u8> {
    let mut v = vec![0u8; 16];
    v[..8].copy_from_slice(&key.to_le_bytes());
    v[8..].copy_from_slice(&key.to_le_bytes());
    v
}

#[test]
fn checkpoint_barrier_and_torn_detection_under_crash() {
    let mut total_pending = 0usize;

    for seed in 0..24u64 {
        let mut heap = Heap::open(PageCache::open(FaultDisk::new(512), FRAMES));
        for k in 0..N {
            heap.insert(&rec(k)).unwrap();
        }
        heap.checkpoint().unwrap();
        heap.seal();
        for k in N..N + M {
            heap.insert(&rec(k)).unwrap();
        }

        let mut disk = heap.cache.file;
        let (order, fates) = crash_plan(&disk, &mut Rng::seed(seed), 30, 40, 50, true);
        let report = disk.crash(&order, &fates);
        total_pending += report.pending_ops;

        let disk2 = FaultDisk::from_image(512, disk.durable_image());
        let mut cache = PageCache::open(disk2, FRAMES);
        let mut found: HashSet<u64> = HashSet::new();

        for pid in 0..cache.page_count() {
            let b = cache.copy_of(pid).unwrap();
            let sp = SlottedPage::from_bytes(PageBuf::from_vec(b));
            if !sp.verify_checksum() {
                continue;
            }
            if sp.page_type() != Some(PageType::Heap) {
                continue;
            }
            for slot in 0..sp.slot_count() {
                if let Some(r) = sp.get(slot) {
                    let a = u64::from_le_bytes(r[..8].try_into().unwrap());
                    let b2 = u64::from_le_bytes(r[8..16].try_into().unwrap());
                    assert_eq!(a, b2, "seed {seed}: an intact page yielded a torn record");
                    assert!(
                        a < N + M,
                        "seed {seed}: intact page yielded garbage key {a}"
                    );
                    found.insert(a);
                }
            }
        }

        for k in 0..N {
            assert!(
                found.contains(&k),
                "seed {seed}: committed key {k} missing after crash"
            );
        }
    }

    assert!(total_pending > 0, "no un-synced writes were in flight");
}

fn rec_for(counter: u64) -> Vec<u8> {
    let len = 8 + (counter as usize % 120);
    let mut v = vec![(counter & 0xff) as u8; len];
    v[..8].copy_from_slice(&counter.to_le_bytes());
    v
}

#[test]
fn heap_matches_hashmap_model_under_eviction() {
    for seed in 0..16u64 {
        let mut heap = heap_of(4);

        let mut model: HashMap<Rid, Vec<u8>> = HashMap::new();
        let mut all_rids: Vec<Rid> = Vec::new();
        let mut rng = Rng::seed(0xC0FFEE ^ seed);
        let mut counter = 0u64;

        for step in 0..3000u64 {
            match rng.below(10) {
                0..=5 => {
                    let rec = rec_for(counter);
                    counter += 1;
                    let rid = heap.insert(&rec).expect("insert");
                    model.insert(rid, rec);
                    all_rids.push(rid);
                }
                6..=7 if !all_rids.is_empty() => {
                    let rid = all_rids[rng.below(all_rids.len() as u64) as usize];
                    let got = heap.get(rid).expect("get");
                    assert_eq!(
                        got.as_ref(),
                        model.get(&rid),
                        "seed {seed} step {step}: get {rid:?} disagrees with model"
                    );
                }
                8 if !all_rids.is_empty() => {
                    let rid = all_rids[rng.below(all_rids.len() as u64) as usize];
                    let model_had = model.remove(&rid).is_some();
                    let heap_had = heap.delete(rid).expect("delete");
                    assert_eq!(
                        heap_had, model_had,
                        "seed {seed} step {step}: delete {rid:?} existence disagrees"
                    );
                }
                _ => {}
            }

            if step % 250 == 0 {
                let got: HashMap<Rid, Vec<u8>> = heap.scan().expect("scan").into_iter().collect();
                assert_eq!(got, model, "seed {seed} step {step}: scan != model");
            }
        }

        let got: HashMap<Rid, Vec<u8>> = heap.scan().expect("scan").into_iter().collect();
        assert_eq!(got, model, "seed {seed}: final scan != model");

        let rep = heap.verify().expect("verify");
        assert!(
            rep.is_clean(),
            "seed {seed}: heap invariants violated: {rep:?}"
        );
        assert_eq!(
            rep.live_records as usize,
            model.len(),
            "seed {seed}: verify counted a different number of live records than the model"
        );

        assert!(
            got.len() as u64 * 8 < PAGE_SIZE as u64 * 200,
            "sanity bound only"
        );
    }
}

#[test]
fn verify_names_damaged_and_foreign_pages() {
    let mut heap = heap_of(4);
    heap.insert(&vec![1u8; 4000]).unwrap();
    heap.insert(&vec![2u8; 6000]).unwrap();
    heap.insert(&vec![3u8; 6000]).unwrap();
    let mut bytes = heap.cache.copy_of(1).unwrap();
    bytes[4000] ^= 1;
    let len = bytes.len();
    heap.cache.edit(1, |_| (bytes, ())).unwrap();
    let mut foreign =
        SlottedPage::init(PageBuf::from_vec(vec![0u8; len]), PageType::Meta);
    foreign.recompute_checksum();
    let foreign = foreign.as_bytes().to_vec();
    heap.cache.edit(2, |_| (foreign, ())).unwrap();
    let rep = heap.verify().unwrap();
    assert_eq!(rep.pages, 3);
    assert_eq!(rep.bad_checksum, vec![1]);
    assert_eq!(rep.foreign_pages, vec![2]);
    assert!(!rep.is_clean());
}

#[test]
fn a_record_larger_than_a_page_is_refused() {
    let mut heap = heap_of(2);
    assert_eq!(
        heap.insert(&vec![0u8; MAX_TUPLE_SIZE + 1]),
        Err(HeapError::TooLarge)
    );
    assert!(heap.scan().unwrap().is_empty());
}

#[test]
fn a_deletion_of_nothing_takes_one_view_and_marks_the_page() {
    let mut heap = heap_of(4);
    let rid = heap.insert(b"one").unwrap();
    heap.checkpoint().unwrap();
    let flushes = heap.cache.flushes();
    let hits = heap.cache.hits();
    assert!(!heap.delete(Rid { slot: 9, ..rid }).unwrap());
    assert_eq!(heap.cache.hits(), hits + 1);
    heap.cache.flush_all().unwrap();
    assert_eq!(heap.cache.flushes(), flushes + 1);
    assert_eq!(heap.get(rid).unwrap().as_deref(), Some(&b"one"[..]));
}
