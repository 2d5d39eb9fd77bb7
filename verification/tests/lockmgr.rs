use keel::lockmgr::{Grant, LockManager, Mode, Resource};

const A: Resource = Resource::Row(1, 10);
const B: Resource = Resource::Row(1, 20);

#[test]
fn compatibility_matrix() {
    assert!(Mode::S.compatible(Mode::S));
    assert!(Mode::IS.compatible(Mode::IX));
    assert!(!Mode::S.compatible(Mode::X));
    assert!(!Mode::X.compatible(Mode::X));
    assert!(!Mode::S.compatible(Mode::IX));
    assert!(Mode::IS.compatible(Mode::SIX));
    assert!(!Mode::SIX.compatible(Mode::IX));
}

#[test]
fn shared_locks_coexist_exclusive_waits() {
    let mut lm = LockManager::new();
    assert_eq!(lm.lock(1, A, Mode::S), Grant::Granted);
    assert_eq!(lm.lock(2, A, Mode::S), Grant::Granted);
    assert_eq!(lm.lock(3, A, Mode::X), Grant::Waiting);
    lm.release_all(1);
    lm.release_all(2);
    assert_eq!(lm.holders(A), vec![(3, Mode::X)]);
}

#[test]
fn exclusive_blocks_then_grants() {
    let mut lm = LockManager::new();
    assert_eq!(lm.lock(1, A, Mode::X), Grant::Granted);
    assert_eq!(lm.lock(2, A, Mode::S), Grant::Waiting);
    lm.release_all(1);
    assert_eq!(lm.holders(A), vec![(2, Mode::S)]);
}

#[test]
fn deadlock_detected_with_youngest_victim() {
    let mut lm = LockManager::new();
    assert_eq!(lm.lock(1, A, Mode::X), Grant::Granted);
    assert_eq!(lm.lock(2, B, Mode::X), Grant::Granted);
    assert_eq!(lm.lock(1, B, Mode::X), Grant::Waiting);
    assert_eq!(lm.lock(2, A, Mode::X), Grant::Deadlock { victim: 2 });
}

#[test]
fn no_false_deadlock() {
    let mut lm = LockManager::new();
    assert_eq!(lm.lock(1, A, Mode::X), Grant::Granted);
    assert_eq!(lm.lock(2, A, Mode::X), Grant::Waiting);
    assert_eq!(lm.lock(3, A, Mode::X), Grant::Waiting);
    lm.release_all(1);
    assert_eq!(lm.holders(A), vec![(2, Mode::X)]);
}

#[test]
fn three_way_deadlock() {
    let mut lm = LockManager::new();
    let c = Resource::Row(1, 30);
    lm.lock(1, A, Mode::X);
    lm.lock(2, B, Mode::X);
    lm.lock(3, c, Mode::X);
    assert_eq!(lm.lock(1, B, Mode::X), Grant::Waiting);
    assert_eq!(lm.lock(2, c, Mode::X), Grant::Waiting);
    assert_eq!(lm.lock(3, A, Mode::X), Grant::Deadlock { victim: 3 });
}

#[test]
fn release_leaves_no_trace() {
    let mut lm = LockManager::new();
    lm.lock(1, A, Mode::X);
    lm.lock(1, B, Mode::S);
    lm.release_all(1);
    assert!(lm.holders(A).is_empty());
    assert!(lm.holders(B).is_empty());
    assert_eq!(lm.lock(2, A, Mode::X), Grant::Granted);
}
