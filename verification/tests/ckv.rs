use keel::cbuffer::CacheError;
use keel::ckv::{KvError, PagedKv, BUCKET_CAP};
use keel::faultfs::{Fate, FaultDisk};
use keel::page::crc::crc32;
use keel::page::PAGE_SIZE;
use keel::vfs::{IoError, MemDisk};
use std::collections::HashMap;

/// A small generator for reproducible random inputs.
struct Rng(u64);

impl Rng {
    fn seed(s: u64) -> Rng {
        Rng(s.wrapping_mul(0x9E37_79B9_7F4A_7C15) ^ 0x2545_F491_4F6C_DD1D)
    }
    fn next_u64(&mut self) -> u64 {
        self.0 ^= self.0 << 13;
        self.0 ^= self.0 >> 7;
        self.0 ^= self.0 << 17;
        self.0
    }
    fn below(&mut self, n: u64) -> u64 {
        self.next_u64() % n
    }
}


/// What a crash does to the pending writes: the odds are in percent.
fn crash_plan(
    disk: &FaultDisk,
    rng: &mut Rng,
    drop: u64,
    tear: u64,
    survive: u64,
    reorder: bool,
) -> (Vec<usize>, Vec<Fate>) {
    let n = disk.pending.len();
    let mut order: Vec<usize> = (0..n).collect();
    if reorder {
        for i in (1..n).rev() {
            order.swap(i, rng.below(i as u64 + 1) as usize);
        }
    }
    let mut fates = Vec::new();
    for &i in &order {
        let op = &disk.pending[i];
        let len = op.data.len() as u64;
        if rng.below(100) < drop {
            fates.push(Fate::Drop);
        } else if len > 0 && rng.below(100) < tear {
            let sector = disk.sector as u64;
            let touched = (op.offset + len - 1) / sector - op.offset / sector + 1;
            fates.push(Fate::Tear(
                (0..touched).map(|_| rng.below(100) < survive).collect(),
            ));
        } else {
            fates.push(Fate::Whole);
        }
    }
    (order, fates)
}

fn fresh(buckets: u32, frames: usize) -> PagedKv<MemDisk> {
    PagedKv::create(MemDisk::new(), buckets, frames).unwrap()
}

fn bucket_of(k: u64, buckets: u32) -> u32 {
    (k.wrapping_mul(0x9E37_79B9_7F4A_7C15) >> 32) as u32 % buckets
}

#[test]
fn put_get_update_roundtrip() {
    let mut kv = fresh(8, 4);
    assert_eq!(kv.get(42).unwrap(), None);
    kv.put(42, 100).unwrap();
    assert_eq!(kv.get(42).unwrap(), Some(100));
    kv.put(42, 200).unwrap();
    assert_eq!(kv.get(42).unwrap(), Some(200));
    kv.update(42, 0, |v| v + 5).unwrap();
    assert_eq!(kv.get(42).unwrap(), Some(205));
    kv.update(99, 7, |v| v + 1).unwrap();
    assert_eq!(kv.get(99).unwrap(), Some(8));
}

#[test]
fn survives_reopen_after_checkpoint() {
    let mut kv = fresh(8, 4);
    for k in 0..50u64 {
        kv.put(k, k * 10).unwrap();
    }
    kv.checkpoint().unwrap();
    let mut kv = PagedKv::open(kv.cache.file, 8, 4);
    for k in 0..50u64 {
        assert_eq!(kv.get(k).unwrap(), Some(k * 10));
    }
}

#[test]
fn every_bucket_is_intact_after_writes() {
    let mut kv = fresh(8, 3);
    for k in 0..300u64 {
        kv.put(k, k).unwrap();
    }
    for bkt in 0..kv.buckets() {
        assert!(kv.bucket_intact(bkt).unwrap(), "bucket {bkt} checksum");
    }
}

#[test]
fn differential_vs_hashmap() {
    let mut kv = fresh(16, 6);
    let mut model: HashMap<u64, u64> = HashMap::new();
    let mut s = 0x2545_F491_4F6C_DD1Du64;
    let mut next = || {
        s ^= s << 13;
        s ^= s >> 7;
        s ^= s << 17;
        s
    };
    for _ in 0..5000 {
        let k = next() % 200;
        match next() % 3 {
            0 => {
                let v = next();
                kv.put(k, v).unwrap();
                model.insert(k, v);
            }
            1 => {
                kv.update(k, 0, |v| v.wrapping_add(1)).unwrap();
                let e = model.entry(k).or_insert(0);
                *e = e.wrapping_add(1);
            }
            _ => {
                assert_eq!(kv.get(k).unwrap(), model.get(&k).copied());
            }
        }
    }
    for k in 0..200u64 {
        assert_eq!(kv.get(k).unwrap(), model.get(&k).copied(), "key {k}");
    }
}

#[test]
fn crash_checkpoint_barrier_and_torn_detection_under_crash() {
    const BUCKETS: u32 = 8;
    const FRAMES: usize = 3;
    const KEYS: u64 = 120;
    // The later writes also add keys, so that a torn page can pair one version's
    // count with the other's entries.
    const EXTRA: u64 = 40;
    const BASE: u64 = 1_000;
    const NEWER: u64 = 2_000;
    let mut total_pending = 0usize;
    let mut seeds_with_full_survival = 0usize;

    for seed in 0..24u64 {
        let mut kv = PagedKv::create(FaultDisk::new(512), BUCKETS, FRAMES).unwrap();
        for k in 0..KEYS {
            kv.put(k, BASE).unwrap();
        }
        kv.checkpoint().unwrap();

        for k in 0..KEYS {
            kv.put(k, NEWER).unwrap();
        }
        for k in KEYS..KEYS + EXTRA {
            kv.put(k, NEWER).unwrap();
        }

        let mut disk = kv.cache.file;
        let (order, fates) = crash_plan(&disk, &mut Rng::seed(seed), 30, 40, 50, true);
        let report = disk.crash(&order, &fates);
        total_pending += report.pending_ops;

        let disk2 = FaultDisk::from_image(512, disk.durable_image());
        let mut kv = PagedKv::open(disk2, BUCKETS, FRAMES);

        let mut all_survived = true;
        for bkt in 0..BUCKETS {
            match kv.bucket_entries(bkt) {
                Ok(entries) => {
                    for (k, v) in entries {
                        assert!(
                            k < KEYS + EXTRA,
                            "seed {seed}: bucket {bkt} garbage key {k}"
                        );
                        assert_eq!(
                            bucket_of(k, BUCKETS),
                            bkt,
                            "seed {seed}: bucket {bkt} holds key {k} that hashes elsewhere"
                        );
                        assert!(
                            v == BASE || v == NEWER,
                            "seed {seed}: bucket {bkt} key {k} has value {v}"
                        );
                    }
                }
                Err(KvError::Corrupt(_)) => {
                    all_survived = false;
                }
                Err(e) => panic!("seed {seed}: unexpected {e:?}"),
            }
        }
        if all_survived {
            seeds_with_full_survival += 1;
        }
    }

    assert!(total_pending > 0, "no un-synced writes were in flight");
    assert!(
        seeds_with_full_survival > 0,
        "no seed left every bucket intact"
    );
}

#[test]
fn a_flipped_byte_is_detected_on_every_read_path() {
    const BUCKETS: u32 = 4;
    const FRAMES: usize = 4;
    const KEYS: u64 = 60;
    let mut kv = fresh(BUCKETS, FRAMES);
    for k in 0..KEYS {
        kv.put(k, 1_000 + k).unwrap();
    }
    kv.checkpoint().unwrap();

    const VICTIM: u32 = 1;
    let mut disk = kv.cache.file;
    let mut image = disk.snapshot();
    image[VICTIM as usize * PAGE_SIZE + 64] ^= 0xFF;
    disk.install(image);

    let mut kv = PagedKv::open(disk, BUCKETS, FRAMES);

    assert!(
        matches!(kv.bucket_entries(VICTIM), Err(KvError::Corrupt(b)) if b == VICTIM),
        "bucket_entries returned damaged bytes as valid data"
    );
    assert!(
        !kv.bucket_intact(VICTIM).unwrap(),
        "bucket_intact missed it"
    );

    assert!(
        matches!(kv.total(), Err(KvError::Corrupt(b)) if b == VICTIM),
        "total() silently summed a corrupt bucket"
    );

    let victim_key = (0..KEYS)
        .find(|&k| bucket_of(k, BUCKETS) == VICTIM)
        .expect("some key must hash to the victim bucket");
    assert!(
        matches!(kv.get(victim_key), Err(KvError::Corrupt(b)) if b == VICTIM),
        "get() returned data from a corrupt page"
    );
    assert!(
        matches!(kv.put(victim_key, 7), Err(KvError::Corrupt(b)) if b == VICTIM),
        "put() overwrote a corrupt page and re-sealed it"
    );
    assert!(
        matches!(kv.update(victim_key, 0, |v| v + 1), Err(KvError::Corrupt(b)) if b == VICTIM),
        "update() read-modify-wrote a corrupt page"
    );

    let ok_key = (0..KEYS)
        .find(|&k| bucket_of(k, BUCKETS) != VICTIM)
        .expect("some key must hash elsewhere");
    assert_eq!(kv.get(ok_key).unwrap(), Some(1_000 + ok_key));
}

#[test]
fn a_full_bucket_takes_no_new_key() {
    let mut kv = fresh(1, 2);
    for k in 0..BUCKET_CAP as u64 {
        kv.put(k, k).unwrap();
    }
    assert!(matches!(
        kv.put(BUCKET_CAP as u64, 0),
        Err(KvError::BucketFull(0))
    ));
    kv.put(3, 99).unwrap();
    assert_eq!(kv.get(3).unwrap(), Some(99));
    assert_eq!(kv.get(BUCKET_CAP as u64).unwrap(), None);
}

#[test]
fn the_total_is_the_sum_of_the_values() {
    let mut kv = fresh(4, 2);
    for k in 0..100u64 {
        kv.put(k, u64::MAX).unwrap();
    }
    assert_eq!(kv.total().unwrap(), 100 * u64::MAX as u128);
}

#[test]
fn an_overfull_bucket_still_serves_its_first_entries() {
    let mut kv = fresh(1, 2);
    for k in 0..BUCKET_CAP as u64 {
        kv.put(k, k + 1).unwrap();
    }
    kv.checkpoint().unwrap();
    let mut disk = kv.cache.file;
    let mut image = disk.snapshot();
    let count = BUCKET_CAP as u32 + 9;
    image[0..4].copy_from_slice(&count.to_le_bytes());
    let sum = crc32(&image[..PAGE_SIZE - 4]);
    image[PAGE_SIZE - 4..PAGE_SIZE].copy_from_slice(&sum.to_le_bytes());
    disk.install(image);
    let mut kv = PagedKv::open(disk, 1, 2);
    assert_eq!(kv.get(0).unwrap(), Some(1));
    assert_eq!(kv.get(BUCKET_CAP as u64 - 1).unwrap(), Some(BUCKET_CAP as u64));
}

#[test]
fn store_errors_have_texts() {
    assert_eq!(KvError::BucketFull(7).text(""), "bucket 7 full");
    assert_eq!(KvError::Corrupt(120).text(""), "bucket 120 failed checksum");
    assert_eq!(
        KvError::Cache(CacheError::Exhausted).text(""),
        "cache: page cache exhausted (all frames pinned)"
    );
    assert_eq!(
        KvError::Cache(CacheError::Corrupt(3)).text(""),
        "cache: page 3 failed its integrity check"
    );
    assert_eq!(
        KvError::Cache(CacheError::Io(IoError::Device)).text("disk on fire"),
        "cache: io: disk on fire"
    );
}

#[test]
fn a_refused_put_takes_one_view_and_marks_the_page() {
    let mut kv = fresh(1, 2);
    for k in 0..BUCKET_CAP as u64 {
        kv.put(k, k).unwrap();
    }
    kv.checkpoint().unwrap();
    let flushes = kv.cache.flushes();
    let hits = kv.cache.hits();
    assert!(kv.put(BUCKET_CAP as u64, 0).is_err());
    assert_eq!(kv.cache.hits(), hits + 1);
    kv.cache.flush_all().unwrap();
    assert_eq!(kv.cache.flushes(), flushes + 1);
    kv.update(5, 0, |v| v + 37).unwrap();
    assert_eq!(kv.cache.hits(), hits + 2);
    assert_eq!(kv.get(5).unwrap(), Some(42));
}
