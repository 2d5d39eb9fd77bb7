use keel::btree::check::Violation;
use keel::btree::{BTree, BtreeError};
use keel::buffer::{BufferPool, NoWal};
use keel::cbuffer::{PageCache, PageFormat};
use keel::heap::Rid;
use keel::keys::encode_value;
use keel::page::{raw, PageType, PAGE_SIZE};
use keel::pager::Pager;
use keel::types::{ColumnType, Value};
use keel::vfs::MemDisk;
use std::collections::BTreeMap;

/// A small generator for reproducible random inputs.
struct Rng(u64);

impl Rng {
    fn seed(s: u64) -> Rng {
        Rng(s.wrapping_mul(0x9E37_79B9_7F4A_7C15) ^ 0x2545_F491_4F6C_DD1D)
    }
    fn next_u64(&mut self) -> u64 {
        self.0 ^= self.0 << 13;
        self.0 ^= self.0 >> 7;
        self.0 ^= self.0 << 17;
        self.0
    }
    fn below(&mut self, n: u64) -> u64 {
        self.next_u64() % n
    }
    fn range(&mut self, lo: u64, hi: u64) -> u64 {
        lo + self.below(hi - lo)
    }
    fn fill_bytes(&mut self, b: &mut [u8]) {
        for x in b.iter_mut() {
            *x = self.next_u64() as u8;
        }
    }
    fn choose_index(&mut self, n: usize) -> Option<usize> {
        if n == 0 {
            None
        } else {
            Some(self.below(n as u64) as usize)
        }
    }
}


type Pool = BufferPool<MemDisk, NoWal>;

fn fresh(frames: usize) -> Pool {
    BufferPool::open_default(MemDisk::new(), frames).unwrap()
}

fn rid(i: u64) -> Rid {
    Rid::new((i >> 16) as u32, (i & 0xFFFF) as u16)
}

fn big(i: i64) -> Vec<u8> {
    encode_value(ColumnType::BigInt, &Value::BigInt(i))
}

#[test]
fn insert_get_basic() {
    let mut bp = fresh(32);
    let mut t = BTree::create(&mut bp).unwrap();
    for i in 0..1000u64 {
        t.insert(&mut bp, &big(i as i64), rid(i)).unwrap();
    }
    for i in 0..1000u64 {
        assert_eq!(t.get(&mut bp, &big(i as i64)).unwrap(), Some(rid(i)));
    }
    assert_eq!(t.get(&mut bp, &big(999999)).unwrap(), None);
    assert!(t.check(&mut bp).unwrap().ok());
    assert!(
        t.check(&mut bp).unwrap().height >= 1,
        "1000 keys should force splits"
    );
}

#[test]
fn replace_existing_key() {
    let mut bp = fresh(16);
    let mut t = BTree::create(&mut bp).unwrap();
    let k = encode_value(ColumnType::Int, &Value::Int(42));
    t.insert(&mut bp, &k, rid(1)).unwrap();
    t.insert(&mut bp, &k, rid(2)).unwrap();
    assert_eq!(t.get(&mut bp, &k).unwrap(), Some(rid(2)));
    assert_eq!(t.scan_all(&mut bp).unwrap().len(), 1);
}

#[test]
fn range_scan_is_ordered_and_bounded() {
    let mut bp = fresh(32);
    let mut t = BTree::create(&mut bp).unwrap();
    for i in 0..500u64 {
        t.insert(&mut bp, &big(i as i64), rid(i)).unwrap();
    }
    let got = t.range(&mut bp, &big(100), Some(&big(200))).unwrap();
    assert_eq!(got.len(), 100);
    for (idx, (_, r)) in got.iter().enumerate() {
        assert_eq!(*r, rid(100 + idx as u64));
    }
}

#[test]
fn persists_across_reopen() {
    let mut bp = fresh(32);
    let mut t = BTree::create(&mut bp).unwrap();
    for i in 0..2000u64 {
        t.insert(&mut bp, &big(i as i64), rid(i)).unwrap();
    }
    bp.checkpoint().unwrap();
    let mut bp = BufferPool::open_default(bp.file, 32).unwrap();
    let t = BTree::open(&mut bp).unwrap();
    assert!(t.check(&mut bp).unwrap().ok());
    for i in 0..2000u64 {
        assert_eq!(
            t.get(&mut bp, &big(i as i64)).unwrap(),
            Some(rid(i)),
            "key {i} lost after reopen"
        );
    }
}

#[test]
fn fuzz_vs_btreemap() {
    for seed in 0..12u64 {
        let mut bp = fresh(8);
        let mut t = BTree::create(&mut bp).unwrap();
        let mut model: BTreeMap<Vec<u8>, Rid> = BTreeMap::new();
        let mut rng = Rng::seed(seed);

        for step in 0..6000u64 {
            let key = adversarial_key(&mut rng);
            match rng.below(3) {
                0 => {
                    let r = rid(step);
                    t.insert(&mut bp, &key, r).unwrap();
                    model.insert(key, r);
                }
                1 => {
                    let existed_model = model.remove(&key).is_some();
                    let existed_tree = t.delete(&mut bp, &key).unwrap();
                    assert_eq!(existed_model, existed_tree, "seed {seed}: delete mismatch");
                }
                _ => {
                    assert_eq!(
                        t.get(&mut bp, &key).unwrap(),
                        model.get(&key).copied(),
                        "seed {seed}: get mismatch"
                    );
                }
            }
            if step % 500 == 0 {
                let report = t.check(&mut bp).unwrap();
                assert!(
                    report.ok(),
                    "seed {seed} step {step}: {:?}",
                    report.violations
                );
                let scanned: Vec<_> = t.scan_all(&mut bp).unwrap();
                let expected: Vec<_> = model.iter().map(|(k, r)| (k.clone(), *r)).collect();
                assert_eq!(scanned, expected, "seed {seed} step {step}: scan diverged");
            }
        }

        let scanned: Vec<_> = t.scan_all(&mut bp).unwrap();
        let expected: Vec<_> = model.iter().map(|(k, r)| (k.clone(), *r)).collect();
        assert_eq!(scanned, expected, "seed {seed}: final scan diverged");
        assert!(
            t.check(&mut bp).unwrap().ok(),
            "seed {seed}: final check failed"
        );
    }
}

fn adversarial_key(rng: &mut Rng) -> Vec<u8> {
    match rng.below(5) {
        0 => Vec::new(),
        1 => vec![0u8; rng.below(4) as usize],
        2 => {
            let mut k = b"prefix/".to_vec();
            for _ in 0..rng.below(6) {
                k.push(b'a' + rng.below(3) as u8);
            }
            k
        }
        3 => encode_value(ColumnType::Int, &Value::Int(rng.below(64) as i32 - 32)),
        _ => {
            let n = rng.below(40);
            (0..n).map(|_| b'a' + rng.below(4) as u8).collect()
        }
    }
}

const FRAMES: usize = 8;
const KEYS: u64 = 3000;

type Observed = (
    Vec<(Vec<u8>, u64)>,
    Vec<(Vec<u8>, u64)>,
    Vec<bool>,
    (u64, u64),
);

fn exercise<P: Pager>(bp: &mut P) -> Observed {
    let mut tree = BTree::create_rooted(bp).expect("create");
    let mut model: BTreeMap<Vec<u8>, u64> = BTreeMap::new();

    let mut order: Vec<u64> = (0..KEYS).collect();
    let mut rng = Rng::seed(0x5EED);
    for i in (1..order.len()).rev() {
        order.swap(i, rng.below(i as u64 + 1) as usize);
    }
    for &i in &order {
        let k = big(i as i64);
        let rid = Rid {
            page: (i / 10) as u32,
            slot: (i % 10) as u16,
        };
        tree.insert(bp, &k, rid).expect("insert");
        model.insert(k, i);
    }

    for &i in order.iter().filter(|i| *i % 7 == 0) {
        let k = big(i as i64);
        assert!(
            tree.delete(bp, &k).expect("delete"),
            "delete missed key {i}"
        );
        model.remove(&k);
    }

    let scan: Vec<(Vec<u8>, u64)> = tree
        .scan_all(bp)
        .expect("scan")
        .into_iter()
        .map(|(k, rid)| (k, rid.page as u64 * 10 + rid.slot as u64))
        .collect();

    let range: Vec<(Vec<u8>, u64)> = tree
        .range(bp, &big(100), Some(&big(200)))
        .expect("range")
        .into_iter()
        .map(|(k, rid)| (k, rid.page as u64 * 10 + rid.slot as u64))
        .collect();

    let probes: Vec<bool> = (0..KEYS)
        .step_by(3)
        .map(|i| tree.get(bp, &big(i as i64)).expect("get").is_some())
        .collect();

    let rep = tree.check(bp).expect("check");
    assert!(rep.ok(), "B-tree invariants violated: {rep:?}");

    let model_scan: Vec<(Vec<u8>, u64)> = model.into_iter().collect();
    assert_eq!(scan, model_scan, "tree disagrees with the BTreeMap model");

    (scan, range, probes, (rep.leaves, rep.entries))
}

fn cache(disk: MemDisk, frames: usize) -> PageCache<MemDisk, NoWal> {
    PageCache::open_formatted(disk, frames, NoWal, PageFormat::keel_page())
}

#[test]
fn the_same_btree_agrees_on_both_pools() {
    let via_buffer = exercise(&mut fresh(FRAMES));
    let via_cache = exercise(&mut cache(MemDisk::new(), FRAMES));

    assert_eq!(via_buffer.0, via_cache.0, "full scans differ between pools");
    assert_eq!(
        via_buffer.1, via_cache.1,
        "range scans differ between pools"
    );
    assert_eq!(
        via_buffer.2, via_cache.2,
        "point lookups differ between pools"
    );
    assert_eq!(
        via_buffer.3, via_cache.3,
        "tree shape (leaves, entries) differs between pools"
    );
    assert!(via_buffer.3 .0 > 1, "expected a multi-leaf tree");
}

#[test]
fn a_btree_built_on_the_concurrent_cache_survives_reopen() {
    let mut first = cache(MemDisk::new(), FRAMES);
    let mut tree = BTree::create_rooted(&mut first).unwrap();
    for i in 0..KEYS {
        tree.insert(
            &mut first,
            &big(i as i64),
            Rid {
                page: i as u32,
                slot: 0,
            },
        )
        .unwrap();
    }
    first.checkpoint().unwrap();
    let root = tree.root();

    let mut again = cache(first.file, FRAMES);
    let tree = BTree::open_rooted(&again, root);
    assert_eq!(tree.scan_all(&mut again).unwrap().len() as u64, KEYS);
    assert!(tree.get(&mut again, &big(123)).unwrap().is_some());
    assert!(
        tree.check(&mut again).unwrap().ok(),
        "invariants broken after reopen"
    );
}

const DEEP: usize = 4000;

/// A tree deep enough to have split many times, flushed to the image.
fn build() -> (Vec<u8>, u32, u32) {
    let mut first = cache(MemDisk::new(), 256);
    let mut tree = BTree::create(&mut first).expect("create");
    for n in 0..DEEP {
        tree.insert(
            &mut first,
            &(n as u64).to_be_bytes(),
            Rid {
                page: n as u32,
                slot: 0,
            },
        )
        .expect("insert");
    }
    assert!(
        tree.check(&mut first).expect("check").ok(),
        "the tree must be valid before we damage it"
    );
    let root = tree.root();
    let pages = first.page_count();
    first.checkpoint().expect("checkpoint");
    (first.file.snapshot(), root, pages)
}

fn valid_after(image: &[u8], root: u32) -> bool {
    let mut disk = MemDisk::new();
    disk.install(image.to_vec());
    let mut again = cache(disk, 256);
    let tree = BTree::open_rooted(&again, root);
    tree.check(&mut again).map(|r| r.ok()).unwrap_or(false)
}

#[test]
fn a_reachable_but_unwritten_page_is_never_accepted() {
    let (mut image, root, pages) = build();

    let mut accepted_a_lost_write = Vec::new();
    for pid in 1..pages {
        let off = pid as usize * PAGE_SIZE;
        let save = image[off..off + PAGE_SIZE].to_vec();
        image[off..off + PAGE_SIZE].fill(0);
        if valid_after(&image, root) {
            accepted_a_lost_write.push(pid);
        }
        image[off..off + PAGE_SIZE].copy_from_slice(&save);
    }

    assert!(
        accepted_a_lost_write.is_empty(),
        "the check called the tree valid after page(s) {accepted_a_lost_write:?} lost their write"
    );
}

#[test]
fn an_unreferenced_written_page_keeps_the_tree_valid() {
    let (image, root, _) = build();

    let mut disk = MemDisk::new();
    disk.install(image);
    let mut cache = cache(disk, 256);
    let orphan = cache.new_page().expect("alloc the would-be sibling");
    let orphan_pid = orphan.pid();
    let mut page = orphan.read(&cache).clone();
    raw::init_header(&mut page, PageType::BTreeLeaf);
    orphan.write(&mut cache, &page);
    cache.release(orphan);
    cache.checkpoint().expect("checkpoint");

    assert!(
        valid_after(&cache.file.snapshot(), root),
        "page {orphan_pid} is written and unreferenced: the tree must still be valid"
    );
}

#[test]
fn over_long_keys_are_refused() {
    let mut bp = fresh(8);
    let mut t = BTree::create(&mut bp).unwrap();
    let long = vec![b'k'; PAGE_SIZE];
    assert!(matches!(
        t.insert(&mut bp, &long, rid(1)),
        Err(BtreeError::KeyTooLarge)
    ));
    assert_eq!(t.scan_all(&mut bp).unwrap().len(), 0);
}

#[test]
fn deleting_twice_reports_the_absence() {
    let mut bp = fresh(8);
    let mut t = BTree::create(&mut bp).unwrap();
    t.insert(&mut bp, b"k", rid(1)).unwrap();
    assert!(t.delete(&mut bp, b"k").unwrap());
    assert!(!t.delete(&mut bp, b"k").unwrap());
    assert_eq!(t.get(&mut bp, b"k").unwrap(), None);
}

#[test]
fn the_check_names_a_page_that_is_no_node() {
    let mut bp = fresh(32);
    let mut t = BTree::create(&mut bp).unwrap();
    for i in 0..2000u64 {
        t.insert(&mut bp, &big(i as i64), rid(i)).unwrap();
    }
    assert!(t.check(&mut bp).unwrap().height > 0);
    let root = t.root();
    let mut page = bp.read_page(root).unwrap();
    raw::set_page_type(&mut page, PageType::Heap);
    bp.with_page_mut(root, |_| (page, ())).unwrap();
    match t.check(&mut bp) {
        Err(BtreeError::BadNode(p)) => assert_eq!(p, root),
        _ => panic!("expected a bad node"),
    }
    let away = BTree::open_rooted(&bp, 1_000_000);
    match away.check(&mut bp) {
        Err(BtreeError::Buffer(_)) => {}
        _ => panic!("expected a missing page"),
    }
}

#[test]
fn violations_have_texts() {
    let texts: Vec<String> = vec![
        Violation::LeafOrder(1),
        Violation::LeafBounds(23),
        Violation::LeafOverflow(4),
        Violation::ChildCount(5),
        Violation::SeparatorOrder(6),
        Violation::SeparatorBounds(7),
        Violation::Unbalanced(vec![1, 2, 10]),
        Violation::PrevLink {
            leaf: 8,
            prev: 9,
            seen: Some(12),
        },
        Violation::PrevLink {
            leaf: 8,
            prev: 9,
            seen: None,
        },
        Violation::ChainOrder(10),
        Violation::Chain {
            chain: vec![1],
            leaves: vec![],
        },
    ]
    .iter()
    .map(|v| v.text())
    .collect();
    assert_eq!(
        texts,
        vec![
            "leaf 1: keys not strictly ascending",
            "leaf 23: key out of subtree bounds",
            "leaf 4: overflows page",
            "internal 5: children != keys+1",
            "internal 6: separators not ascending",
            "internal 7: separator out of bounds",
            "unbalanced: leaf depths vary [1, 2, 10]",
            "leaf 8 prev=9 but predecessor was Some(12)",
            "leaf 8 prev=9 but predecessor was None",
            "keys not ascending across chain at leaf 10",
            "sibling chain [1] != DFS leaf order []",
        ]
    );
    assert_eq!(BtreeError::BadNode(3).text(""), "page 3 is not a B-tree node");
    assert_eq!(BtreeError::KeyTooLarge.text(""), "entry too large for a node");
}
