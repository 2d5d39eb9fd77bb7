use keel::buffer::{BufferError, BufferPool, NoWal};
use keel::cbuffer::{PageCache, PageFormat};
use keel::heap::{classify_record, HeapError, HeapFile, RecordKind, Rid};
use keel::pager::Pager;
use keel::vfs::MemDisk;
use std::collections::{BTreeMap, HashMap};

/// A small generator for reproducible random inputs.
struct Rng(u64);

impl Rng {
    fn seed(s: u64) -> Rng {
        Rng(s.wrapping_mul(0x9E37_79B9_7F4A_7C15) ^ 0x2545_F491_4F6C_DD1D)
    }
    fn next_u64(&mut self) -> u64 {
        self.0 ^= self.0 << 13;
        self.0 ^= self.0 >> 7;
        self.0 ^= self.0 << 17;
        self.0
    }
    fn below(&mut self, n: u64) -> u64 {
        self.next_u64() % n
    }
    fn range(&mut self, lo: u64, hi: u64) -> u64 {
        lo + self.below(hi - lo)
    }
    fn fill_bytes(&mut self, b: &mut [u8]) {
        for x in b.iter_mut() {
            *x = self.next_u64() as u8;
        }
    }
    fn choose_index(&mut self, n: usize) -> Option<usize> {
        if n == 0 {
            None
        } else {
            Some(self.below(n as u64) as usize)
        }
    }
}


type Pool = BufferPool<MemDisk, NoWal>;

fn fresh_pool(frames: usize) -> Pool {
    BufferPool::open_default(MemDisk::new(), frames).unwrap()
}

#[test]
fn lib_insert_get_delete() {
    let mut bp = fresh_pool(16);
    let mut h = HeapFile::open(&mut bp).unwrap();
    let r1 = h.insert(&mut bp, b"hello").unwrap();
    let r2 = h.insert(&mut bp, b"world").unwrap();
    assert_eq!(h.get(&mut bp, r1).unwrap().as_deref(), Some(&b"hello"[..]));
    assert_eq!(h.get(&mut bp, r2).unwrap().as_deref(), Some(&b"world"[..]));
    assert!(h.delete(&mut bp, r1).unwrap());
    assert_eq!(h.get(&mut bp, r1).unwrap(), None);
    assert!(!h.delete(&mut bp, r1).unwrap());
}

#[test]
fn update_in_place_and_grow() {
    let mut bp = fresh_pool(16);
    let mut h = HeapFile::open(&mut bp).unwrap();
    let r = h.insert(&mut bp, b"aaaaaaaa").unwrap();
    assert!(h.update(&mut bp, r, b"bb").unwrap());
    assert_eq!(h.get(&mut bp, r).unwrap().as_deref(), Some(&b"bb"[..]));
    assert!(h.update(&mut bp, r, b"cccccccccccccccccccc").unwrap());
    assert_eq!(
        h.get(&mut bp, r).unwrap().as_deref(),
        Some(&b"cccccccccccccccccccc"[..])
    );
}

#[test]
fn update_forces_forward_and_rid_stays_valid() {
    let mut bp = fresh_pool(16);
    let mut h = HeapFile::open(&mut bp).unwrap();
    let mut rids = Vec::new();
    for i in 0..200 {
        rids.push(
            h.insert(
                &mut bp,
                format!("row-{i:04}-xxxxxxxxxxxxxxxxxxxx").as_bytes(),
            )
            .unwrap(),
        );
    }
    let victim = rids[0];
    let big = vec![b'Z'; 4000];
    assert!(h.update(&mut bp, victim, &big).unwrap());
    assert_eq!(
        h.get(&mut bp, victim).unwrap().as_deref(),
        Some(big.as_slice())
    );
    assert!(
        h.stats().forwards_created >= 1,
        "the update should have forwarded"
    );
    assert!(h.stats().forward_hops >= 1);
}

#[test]
fn forwarded_tuple_updated_again_keeps_chain_length_one() {
    let mut bp = fresh_pool(16);
    let mut h = HeapFile::open(&mut bp).unwrap();
    let mut rids = Vec::new();
    for i in 0..200 {
        rids.push(
            h.insert(
                &mut bp,
                format!("row-{i:04}-yyyyyyyyyyyyyyyyyyyy").as_bytes(),
            )
            .unwrap(),
        );
    }
    let victim = rids[0];
    h.update(&mut bp, victim, &vec![b'A'; 4000]).unwrap();
    h.update(&mut bp, victim, &vec![b'B'; 5000]).unwrap();
    let before = h.stats().forward_hops;
    assert_eq!(h.get(&mut bp, victim).unwrap().unwrap().len(), 5000);
    assert_eq!(h.stats().forward_hops, before + 1);
    let g = h.get(&mut bp, victim).unwrap();
    assert_eq!(g.unwrap()[0], b'B');
}

#[test]
fn scan_yields_each_logical_tuple_once() {
    let mut bp = fresh_pool(16);
    let mut h = HeapFile::open(&mut bp).unwrap();
    let mut model: HashMap<Rid, Vec<u8>> = HashMap::new();
    for i in 0..300 {
        let rec = format!("scan-{i:04}").into_bytes();
        let rid = h.insert(&mut bp, &rec).unwrap();
        model.insert(rid, rec);
    }
    let keys: Vec<Rid> = model.keys().copied().collect();
    for (k, rid) in keys.iter().enumerate() {
        if k % 7 == 0 {
            let big = vec![b'X'; 3000];
            h.update(&mut bp, *rid, &big).unwrap();
            model.insert(*rid, big);
        }
    }
    let scanned = h.scan(&mut bp).unwrap();
    assert_eq!(scanned.len(), model.len(), "scan count must match model");
    let scanned_map: HashMap<Rid, Vec<u8>> = scanned.into_iter().collect();
    assert_eq!(scanned_map, model);
}

#[test]
fn stale_rid_recycled_as_forward_target_is_inert() {
    let mut bp = fresh_pool(16);
    let mut h = HeapFile::open(&mut bp).unwrap();
    let mut filler = Vec::new();
    for i in 0..300 {
        filler.push(
            h.insert(
                &mut bp,
                format!("fill-{i:04}-aaaaaaaaaaaaaaaaaaaa").as_bytes(),
            )
            .unwrap(),
        );
    }
    let stale = h
        .insert(&mut bp, b"soon-to-be-deleted-and-recycled")
        .unwrap();
    assert!(h.delete(&mut bp, stale).unwrap());
    let owner = filler[0];
    h.update(&mut bp, owner, &vec![b'Z'; 4000]).unwrap();
    assert!(h.stats().forwards_created >= 1);
    assert_eq!(h.get(&mut bp, stale).unwrap(), None);
    assert!(!h.delete(&mut bp, stale).unwrap());
    assert!(!h.update(&mut bp, stale, b"nope").unwrap());
    assert_eq!(h.get(&mut bp, owner).unwrap().unwrap().len(), 4000);
}

#[test]
fn lib_fuzz_vs_model() {
    for seed in 0..24 {
        let mut bp = fresh_pool(6);
        let mut h = HeapFile::open(&mut bp).unwrap();
        let mut rng = Rng::seed(seed);
        let mut model: BTreeMap<Rid, Vec<u8>> = BTreeMap::new();

        for _ in 0..4000 {
            match rng.below(4) {
                0 => {
                    let len = rng.range(8, 300) as usize;
                    let mut rec = vec![0u8; len];
                    rng.fill_bytes(&mut rec);
                    let rid = h.insert(&mut bp, &rec).unwrap();
                    assert!(!model.contains_key(&rid), "insert returned a live RID");
                    model.insert(rid, rec);
                }
                1 => {
                    if let Some(rid) = pick(&mut rng, &model) {
                        assert!(h.delete(&mut bp, rid).unwrap());
                        model.remove(&rid);
                    }
                }
                2 => {
                    if let Some(rid) = pick(&mut rng, &model) {
                        let len = rng.range(8, 4500) as usize;
                        let mut rec = vec![0u8; len];
                        rng.fill_bytes(&mut rec);
                        match h.update(&mut bp, rid, &rec) {
                            Ok(true) => {
                                model.insert(rid, rec);
                            }
                            Ok(false) => unreachable!(),
                            Err(HeapError::ForwardWontFit(_)) => {}
                            Err(e) => panic!("seed {seed}: {e:?}"),
                        }
                    }
                }
                _ => {
                    if let Some(rid) = pick(&mut rng, &model) {
                        assert_eq!(
                            h.get(&mut bp, rid).unwrap().as_deref(),
                            Some(model[&rid].as_slice())
                        );
                    }
                }
            }
        }

        for (rid, rec) in &model {
            assert_eq!(
                h.get(&mut bp, *rid).unwrap().as_deref(),
                Some(rec.as_slice()),
                "seed {seed}"
            );
        }
        let scanned: BTreeMap<Rid, Vec<u8>> = h.scan(&mut bp).unwrap().into_iter().collect();
        assert_eq!(scanned, model, "seed {seed}: scan diverged from model");
    }
}

fn pick(rng: &mut Rng, model: &BTreeMap<Rid, Vec<u8>>) -> Option<Rid> {
    let i = rng.choose_index(model.len())?;
    model.keys().nth(i).copied()
}

const FRAMES: usize = 6;
const N: u64 = 300;

/// Everything observable: the ordered live set, one probe for each record id, and
/// the hops taken and the pages allocated.
type Observed = (Vec<(u32, u16, Vec<u8>)>, Vec<Option<Vec<u8>>>, (u64, u64));

fn exercise<P: Pager>(bp: &mut P) -> Observed {
    let mut heap = HeapFile::open(bp).expect("open");
    let mut model: BTreeMap<(u32, u16), Vec<u8>> = BTreeMap::new();
    let mut rids = Vec::new();

    for i in 0..N {
        let rec = format!("rec-{i:04}").into_bytes();
        let rid = heap.insert(bp, &rec).expect("insert");
        model.insert((rid.page, rid.slot), rec);
        rids.push(rid);
    }

    let mut rng = Rng::seed(0xF02_2A2D);
    for (n, &rid) in rids.iter().enumerate() {
        if n % 3 != 0 {
            continue;
        }
        let big = vec![b'x'; 900 + rng.below(600) as usize];
        assert!(heap.update(bp, rid, &big).expect("update"), "update {rid:?}");
        model.insert((rid.page, rid.slot), big);
    }

    for (n, &rid) in rids.iter().enumerate() {
        if n % 5 == 0 {
            assert!(heap.delete(bp, rid).expect("delete"));
            model.remove(&(rid.page, rid.slot));
        }
    }

    let mut heap = HeapFile::open(bp).expect("reopen");

    let mut scan: Vec<(u32, u16, Vec<u8>)> = heap
        .scan(bp)
        .expect("scan")
        .into_iter()
        .map(|(rid, rec)| (rid.page, rid.slot, rec))
        .collect();
    scan.sort();

    let probes: Vec<Option<Vec<u8>>> = rids
        .iter()
        .map(|&r| heap.get(bp, r).expect("get"))
        .collect();

    let hops = heap.stats().forward_hops;
    let pages_allocated = bp.page_count() as u64;
    let model_scan: Vec<(u32, u16, Vec<u8>)> =
        model.into_iter().map(|((p, s), v)| (p, s, v)).collect();
    assert_eq!(scan, model_scan, "heap disagrees with the model");

    (scan, probes, (hops, pages_allocated))
}

fn cache(disk: MemDisk) -> PageCache<MemDisk, NoWal> {
    PageCache::open_formatted(disk, FRAMES, NoWal, PageFormat::keel_page())
}

#[test]
fn the_same_heap_agrees_on_both_pools() {
    let via_buffer = exercise(&mut fresh_pool(FRAMES));
    let via_cache = exercise(&mut cache(MemDisk::new()));

    assert_eq!(
        via_buffer.0, via_cache.0,
        "heap scans differ between the two pools"
    );
    assert_eq!(
        via_buffer.1, via_cache.1,
        "per-RID reads differ between the two pools"
    );
    assert!(
        via_buffer.2 .0 > 0,
        "no forward hops: the stub path never ran"
    );
    assert!(
        via_buffer.2 .1 > 1,
        "expected the relocations to have grown the heap over many pages"
    );
}

#[test]
fn a_heap_built_on_the_concurrent_cache_survives_reopen() {
    let mut first = cache(MemDisk::new());
    let mut heap = HeapFile::open(&mut first).unwrap();
    for i in 0..N {
        heap.insert(&mut first, format!("durable-{i:04}").as_bytes())
            .unwrap();
    }
    first.checkpoint().unwrap();
    let mut again = cache(first.file);
    let mut heap = HeapFile::open(&mut again).unwrap();
    let rows = heap.scan(&mut again).unwrap();
    assert_eq!(
        rows.len() as u64,
        N,
        "records lost across checkpoint+reopen"
    );
    assert!(rows.iter().all(|(_, r)| r.starts_with(b"durable-")));
}

#[test]
fn records_are_classified_by_their_tag() {
    assert_eq!(classify_record(&[0, 1, 2]), Ok(RecordKind::Tuple));
    assert_eq!(classify_record(&[1, 4, 0, 0, 0, 2, 0]), Ok(RecordKind::Forward(Rid::new(4, 2))));
    assert_eq!(classify_record(&[2, 9]), Ok(RecordKind::ForwardTarget));
    assert_eq!(classify_record(&[7]), Err(7));
    assert_eq!(classify_record(&[1, 4, 0]), Err(1));
    assert_eq!(classify_record(&[]), Err(255));
}

#[test]
fn record_ids_roundtrip() {
    let mut out = Vec::new();
    Rid::new(0x0102_0304, 0x0506).encode_into(&mut out);
    assert_eq!(out, vec![4, 3, 2, 1, 6, 5]);
    assert_eq!(Rid::decode(&out, 0), Rid::new(0x0102_0304, 0x0506));
}

#[test]
fn oversized_records_are_refused() {
    let mut bp = fresh_pool(4);
    let mut h = HeapFile::open(&mut bp).unwrap();
    let huge = vec![1u8; 9000];
    assert_eq!(h.insert(&mut bp, &huge), Err(HeapError::RecordTooLarge));
    let r = h.insert(&mut bp, b"x").unwrap();
    assert_eq!(h.update(&mut bp, r, &huge), Err(HeapError::RecordTooLarge));
    assert_eq!(h.get(&mut bp, r).unwrap().as_deref(), Some(&b"x"[..]));
    assert_eq!(h.stats().inserts, 1);
    assert_eq!(h.stats().updates, 0);
}

#[test]
fn no_page_is_taken_while_a_listed_page_has_room() {
    let mut bp = fresh_pool(8);
    let mut h = HeapFile::open(&mut bp).unwrap();
    let first = h.insert(&mut bp, b"one").unwrap();
    let count = bp.page_count();
    for i in 0..50 {
        let rid = h.insert(&mut bp, format!("rec-{i}").as_bytes()).unwrap();
        assert_eq!(rid.page, first.page);
    }
    assert_eq!(bp.page_count(), count);
    let big = vec![7u8; 8000];
    let rid = h.insert(&mut bp, &big).unwrap();
    assert_eq!(rid.page, count);
    assert_eq!(bp.page_count(), count + 1);
}

#[test]
fn heap_errors_have_texts() {
    assert_eq!(HeapError::RecordTooLarge.text(""), "record too large for a page");
    assert_eq!(HeapError::BadTag(9).text(""), "bad heap record tag 9");
    assert_eq!(
        HeapError::DanglingForward(Rid::new(3, 14)).text(""),
        "dangling forward to Rid { page: 3, slot: 14 }"
    );
    assert_eq!(
        HeapError::ForwardWontFit(Rid::new(0, 1)).text(""),
        "forward stub won't fit at Rid { page: 0, slot: 1 }"
    );
}

#[test]
fn a_scan_counts_the_stubs_it_follows() {
    let mut bp = fresh_pool(16);
    let mut h = HeapFile::open(&mut bp).unwrap();
    let rids: Vec<Rid> = (0..100)
        .map(|i| h.insert(&mut bp, format!("row-{i:03}-xxxxxxxxxxxxxxxx").as_bytes()).unwrap())
        .collect();
    for k in [3usize, 40, 77] {
        assert!(h.update(&mut bp, rids[k], &vec![b'Z'; 7000]).unwrap());
    }
    assert_eq!(h.stats().forwards_created, 3);
    let before = h.stats().forward_hops;
    assert_eq!(h.scan(&mut bp).unwrap().len(), 100);
    assert_eq!(h.stats().forward_hops, before + 3);
}

#[test]
fn a_damaged_page_keeps_the_heap_from_opening() {
    let mut bp = fresh_pool(16);
    let mut h = HeapFile::open(&mut bp).unwrap();
    for _ in 0..5 {
        h.insert(&mut bp, &vec![7u8; 5000]).unwrap();
    }
    bp.checkpoint().unwrap();
    let mut image = bp.file.snapshot();
    for page in [4usize, 2] {
        image[page * 8192 + 100] ^= 1;
    }
    let mut disk = MemDisk::new();
    disk.install(image);
    let mut bp = BufferPool::open_default(disk, 16).unwrap();
    assert!(matches!(
        HeapFile::open(&mut bp),
        Err(HeapError::Buffer(BufferError::Corrupt(2)))
    ));
}

#[test]
fn a_page_is_changed_through_one_view() {
    let mut bp = fresh_pool(4);
    let mut h = HeapFile::open(&mut bp).unwrap();
    let rid = h.insert(&mut bp, b"one").unwrap();
    let hits = bp.stats().hits;
    bp.with_page_mut(rid.page, |b| (b, ())).unwrap();
    assert_eq!(bp.stats().hits, hits + 1);
    assert_eq!(h.get(&mut bp, rid).unwrap().as_deref(), Some(&b"one"[..]));
}
