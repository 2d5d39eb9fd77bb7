use keel::faultfs::{Fate, FaultDisk};
use keel::vfs::{BlockFile, IoError};

const SECTOR: usize = 512;

/// A small generator for reproducible random inputs.
struct Rng(u64);

impl Rng {
    fn seed(s: u64) -> Rng {
        Rng(s.wrapping_mul(0x9E37_79B9_7F4A_7C15) ^ 0x2545_F491_4F6C_DD1D)
    }
    fn next_u64(&mut self) -> u64 {
        self.0 ^= self.0 << 13;
        self.0 ^= self.0 >> 7;
        self.0 ^= self.0 << 17;
        self.0
    }
    fn below(&mut self, n: u64) -> u64 {
        self.next_u64() % n
    }
    fn range(&mut self, lo: u64, hi: u64) -> u64 {
        lo + self.below(hi - lo)
    }
    fn fill_bytes(&mut self, b: &mut [u8]) {
        for x in b.iter_mut() {
            *x = self.next_u64() as u8;
        }
    }
    fn choose_index(&mut self, n: usize) -> Option<usize> {
        if n == 0 {
            None
        } else {
            Some(self.below(n as u64) as usize)
        }
    }
}


/// What a crash does to the pending writes: the odds are in percent.
fn crash_plan(
    disk: &FaultDisk,
    rng: &mut Rng,
    drop: u64,
    tear: u64,
    survive: u64,
    reorder: bool,
) -> (Vec<usize>, Vec<Fate>) {
    let n = disk.pending.len();
    let mut order: Vec<usize> = (0..n).collect();
    if reorder {
        for i in (1..n).rev() {
            order.swap(i, rng.below(i as u64 + 1) as usize);
        }
    }
    let mut fates = Vec::new();
    for &i in &order {
        let op = &disk.pending[i];
        let len = op.data.len() as u64;
        if rng.below(100) < drop {
            fates.push(Fate::Drop);
        } else if len > 0 && rng.below(100) < tear {
            let sector = disk.sector as u64;
            let touched = (op.offset + len - 1) / sector - op.offset / sector + 1;
            fates.push(Fate::Tear(
                (0..touched).map(|_| rng.below(100) < survive).collect(),
            ));
        } else {
            fates.push(Fate::Whole);
        }
    }
    (order, fates)
}

fn crash(disk: &mut FaultDisk, rng: &mut Rng) -> keel::faultfs::CrashReport {
    let (order, fates) = crash_plan(disk, rng, 30, 40, 50, true);
    disk.crash(&order, &fates)
}

fn read(disk: &mut FaultDisk, n: usize) -> Vec<u8> {
    let mut b = vec![0u8; n];
    disk.read_at(&mut b, 0).unwrap();
    b
}

#[test]
fn synced_writes_survive_crash() {
    let mut disk = FaultDisk::new(SECTOR);
    disk.write_at(&b"committed-data".to_vec(), 0).unwrap();
    disk.sync().unwrap();
    let report = crash(&mut disk, &mut Rng::seed(1));
    assert_eq!(report.pending_ops, 0);
    assert_eq!(&read(&mut disk, 14), b"committed-data");
}

#[test]
fn unsynced_writes_can_vanish() {
    let mut disk = FaultDisk::new(SECTOR);
    disk.write_at(&b"durable".to_vec(), 0).unwrap();
    disk.sync().unwrap();
    disk.write_at(&b"VOLATILE".to_vec(), 0).unwrap();
    let (order, fates) = crash_plan(&disk, &mut Rng::seed(2), 100, 0, 50, true);
    let report = disk.crash(&order, &fates);
    assert_eq!(report.dropped, 1);
    assert_eq!(
        &read(&mut disk, 7),
        b"durable",
        "the un-synced overwrite must have been lost"
    );
}

#[test]
fn benign_config_never_loses_unsynced() {
    let mut disk = FaultDisk::new(SECTOR);
    disk.write_at(&b"AAAA".to_vec(), 0).unwrap();
    disk.write_at(&b"BBBB".to_vec(), 4).unwrap();
    let (order, fates) = crash_plan(&disk, &mut Rng::seed(3), 0, 0, 100, false);
    let report = disk.crash(&order, &fates);
    assert_eq!(report.fully_applied, 2);
    assert_eq!(report.dropped, 0);
    assert_eq!(report.torn, 0);
    assert_eq!(&read(&mut disk, 8), b"AAAABBBB");
}

#[test]
fn tearing_splits_at_sector_boundaries() {
    let mut kept_seen = false;
    let mut lost_seen = false;
    for seed in 0..64 {
        let mut disk = FaultDisk::new(SECTOR);
        let payload = vec![0xABu8; 2 * SECTOR];
        disk.write_at(&payload, 0).unwrap();
        let (order, fates) = crash_plan(&disk, &mut Rng::seed(seed), 0, 100, 50, false);
        let report = disk.crash(&order, &fates);
        assert_eq!(report.torn, 1);
        if report.torn_sectors_kept > 0 {
            kept_seen = true;
        }
        if report.torn_sectors_lost > 0 {
            lost_seen = true;
        }
    }
    assert!(
        kept_seen && lost_seen,
        "tearing should both keep and lose sectors across seeds"
    );
}

#[test]
fn reproducible_from_seed() {
    let run = |seed: u64| {
        let mut disk = FaultDisk::new(SECTOR);
        disk.write_at(&b"one".to_vec(), 0).unwrap();
        disk.sync().unwrap();
        disk.write_at(&b"twotwotwo".to_vec(), 3).unwrap();
        disk.write_at(&b"three".to_vec(), 12).unwrap();
        crash(&mut disk, &mut Rng::seed(seed));
        disk.durable_image()
    };
    assert_eq!(run(0xBEEF), run(0xBEEF));
}

#[test]
fn repeated_crashes_stay_consistent() {
    let mut rng = Rng::seed(7);
    let mut disk = FaultDisk::new(SECTOR);
    disk.write_at(&b"base".to_vec(), 0).unwrap();
    disk.sync().unwrap();
    let base = disk.durable_image();
    disk.write_at(&b"xxxx".to_vec(), 0).unwrap();
    crash(&mut disk, &mut rng);
    assert!(disk.durable_image().len() >= base.len());
    let before = disk.durable_image();
    let report = crash(&mut disk, &mut rng);
    assert_eq!(report.pending_ops, 0);
    assert_eq!(disk.durable_image(), before);
}

#[test]
fn a_torn_write_keeps_exactly_the_surviving_sectors() {
    let mut disk = FaultDisk::from_image(SECTOR, vec![0u8; 3 * SECTOR]);
    disk.write_at(&vec![7u8; 2 * SECTOR], SECTOR as u64 / 2).unwrap();
    let report = disk.crash(&vec![0], &vec![Fate::Tear(vec![true, false, true])]);
    assert_eq!(report.torn, 1);
    assert_eq!(report.torn_sectors_kept, 2);
    assert_eq!(report.torn_sectors_lost, 1);
    let image = disk.durable_image();
    assert_eq!(disk.live_image(), image);
    assert!(image[..256].iter().all(|b| *b == 0));
    assert!(image[256..512].iter().all(|b| *b == 7));
    assert!(image[512..1024].iter().all(|b| *b == 0));
    assert!(image[1024..1280].iter().all(|b| *b == 7));
    assert!(image[1280..].iter().all(|b| *b == 0));
}

#[test]
fn counters_follow_the_calls() {
    let mut disk = FaultDisk::new(SECTOR);
    disk.write_at(&vec![1, 2, 3], 0).unwrap();
    disk.write_at(&vec![4], 3).unwrap();
    assert_eq!(disk.counters().writes, 2);
    assert_eq!(disk.counters().bytes_written, 4);
    assert_eq!(disk.counters().writes_since_sync, 2);
    assert_eq!(disk.pending_writes(), 2);
    disk.sync().unwrap();
    assert_eq!(disk.counters().syncs, 1);
    assert_eq!(disk.counters().writes_since_sync, 0);
    assert_eq!(disk.pending_writes(), 0);
    let mut b = vec![0u8; 5];
    assert_eq!(disk.read_at(&mut b, 0), Err(IoError::UnexpectedEof));
    assert_eq!(disk.size(), Ok(4));
}
