use std::collections::BTreeSet;

use keel::mvcc::ssi::SsiStore;
use keel::mvcc::{visible, Clog, MvccError, MvccStore, Snapshot, Status, TxnId, Version, INVALID};

fn snap(xmax: TxnId, in_flight: &[TxnId]) -> Snapshot {
    Snapshot {
        xmax,
        in_flight: in_flight.iter().copied().collect::<BTreeSet<TxnId>>(),
    }
}

#[test]
fn visibility_basic_cases() {
    let mut clog = Clog::new();
    clog.set(1, Status::Committed);
    clog.set(2, Status::Aborted);
    clog.set(3, Status::InProgress);
    let s = snap(4, &[3]);

    assert!(visible(&Version::new(1), &s, &clog, INVALID));
    assert!(!visible(&Version::new(2), &s, &clog, INVALID));
    assert!(!visible(&Version::new(3), &s, &clog, 99));
    assert!(visible(&Version::new(3), &s, &clog, 3));
    assert!(!visible(&Version { xmin: 1, xmax: 1 }, &s, &clog, INVALID));
    assert!(visible(&Version { xmin: 1, xmax: 2 }, &s, &clog, INVALID));
    assert!(visible(&Version { xmin: 1, xmax: 3 }, &s, &clog, 99));
    assert!(!visible(&Version::new(5), &s, &clog, INVALID));
}

#[test]
fn visibility_invariants_exhaustive() {
    let txns = [1u64, 2, 3];
    let statuses = [Status::InProgress, Status::Committed, Status::Aborted];
    let mut checked = 0u64;
    for &s1 in &statuses {
        for &s2 in &statuses {
            for &s3 in &statuses {
                let mut clog = Clog::new();
                clog.set(1, s1);
                clog.set(2, s2);
                clog.set(3, s3);
                for xmin in txns {
                    for xmax in [INVALID, 1, 2, 3] {
                        for sx in [2u64, 3, 4] {
                            for infl in [vec![], vec![1], vec![2], vec![3], vec![2, 3]] {
                                let s = snap(sx, &infl);
                                for reader in [INVALID, 1, 2, 3] {
                                    let v = Version { xmin, xmax };
                                    let vis = visible(&v, &s, &clog, reader);
                                    checked += 1;

                                    if clog.get(xmin) == Status::Aborted && xmin != reader {
                                        assert!(
                                            !vis,
                                            "aborted insert visible: {v:?} r{reader}"
                                        );
                                    }
                                    if vis {
                                        let ins_ok = xmin == reader
                                            || (clog.is_committed(xmin) && s.precedes(xmin));
                                        assert!(ins_ok, "visible with bad insert: {v:?}");
                                    }
                                    if xmax == INVALID
                                        && clog.is_committed(xmin)
                                        && s.precedes(xmin)
                                    {
                                        assert!(vis, "committed live not visible: {v:?}");
                                    }
                                    if xmax == INVALID && xmin == reader && reader != INVALID {
                                        assert!(vis, "own live insert not visible: {v:?}");
                                    }
                                }
                            }
                        }
                    }
                }
            }
        }
    }
    assert!(checked > 5000, "expected a large matrix, got {checked}");
}

#[test]
fn snapshot_read_sees_pre_state() {
    let mut db = MvccStore::new();
    let x = db.bootstrap_row(100);

    let t1 = db.begin();
    let mut t2 = db.begin();
    db.update(&mut t2, x, 200).unwrap();
    db.commit(t2);

    assert_eq!(db.read(&t1, x).unwrap(), 100);

    let t3 = db.begin();
    assert_eq!(db.read(&t3, x).unwrap(), 200);
}

#[test]
fn first_updater_wins() {
    let mut db = MvccStore::new();
    let x = db.bootstrap_row(0);

    let mut t1 = db.begin();
    let mut t2 = db.begin();
    db.update(&mut t1, x, 1).unwrap();
    assert_eq!(db.update(&mut t2, x, 2), Err(MvccError::WriteConflict));
    db.commit(t1);
    db.abort(t2);
}

#[test]
fn aborted_version_does_not_poison_future_updates() {
    let mut db = MvccStore::new();
    let x = db.bootstrap_row(0);

    let mut t1 = db.begin();
    db.update(&mut t1, x, 1).unwrap();
    db.abort(t1);

    let mut t2 = db.begin();
    assert_eq!(
        db.update(&mut t2, x, 2),
        Ok(()),
        "aborted tail version poisoned the update (KEEL-0003)"
    );
    db.commit(t2);
    let t3 = db.begin();
    assert_eq!(db.read(&t3, x).unwrap(), 2);

    for i in 0..5 {
        let mut ta = db.begin();
        db.update(&mut ta, x, 100 + i).unwrap();
        db.abort(ta);
        let mut tb = db.begin();
        db.update(&mut tb, x, 200 + i).unwrap();
        db.commit(tb);
    }
    let tf = db.begin();
    assert_eq!(db.read(&tf, x).unwrap(), 204);
}

#[test]
fn vacuum_reclaims_dead_versions_safely() {
    let mut db = MvccStore::new();
    let x = db.bootstrap_row(0);

    for i in 1..=5 {
        let mut t = db.begin();
        db.update(&mut t, x, i).unwrap();
        db.commit(t);
        let mut a = db.begin();
        db.update(&mut a, x, 999).unwrap();
        db.abort(a);
    }
    assert!(db.version_count(x) > 6, "versions should have accumulated");

    let reclaimed = db.vacuum();
    assert!(reclaimed > 0);
    assert_eq!(
        db.version_count(x),
        1,
        "only the newest committed version remains"
    );
    let t = db.begin();
    assert_eq!(
        db.read(&t, x).unwrap(),
        5,
        "vacuum must not change the visible value"
    );
    db.commit(t);

    let old = db.begin();
    let mut w = db.begin();
    db.update(&mut w, x, 7).unwrap();
    db.commit(w);
    let reclaimed2 = db.vacuum();
    assert_eq!(
        db.read(&old, x).unwrap(),
        5,
        "active reader still sees its snapshot value"
    );
    let fresh = db.begin();
    assert_eq!(
        db.read(&fresh, x).unwrap(),
        7,
        "a fresh reader sees the latest"
    );
    db.commit(fresh);
    db.commit(old);
    let _ = reclaimed2;
}

#[test]
fn write_skew_is_permitted_under_si() {
    let mut db = MvccStore::new();
    let d1 = db.bootstrap_row(1);
    let d2 = db.bootstrap_row(1);

    let mut t1 = db.begin();
    let mut t2 = db.begin();

    let on_call_t1 = db.read(&t1, d1).unwrap() + db.read(&t1, d2).unwrap();
    let on_call_t2 = db.read(&t2, d1).unwrap() + db.read(&t2, d2).unwrap();
    assert_eq!(on_call_t1, 2);
    assert_eq!(on_call_t2, 2);

    db.update(&mut t1, d1, 0).unwrap();
    db.update(&mut t2, d2, 0).unwrap();
    db.commit(t1);
    db.commit(t2);

    let t3 = db.begin();
    let on_call = db.read(&t3, d1).unwrap() + db.read(&t3, d2).unwrap();
    assert_eq!(on_call, 0, "SI permitted write skew: both doctors off call");
}

#[test]
fn ssi_forbids_write_skew() {
    let mut db = SsiStore::new();
    let d1 = db.bootstrap_row(1);
    let d2 = db.bootstrap_row(1);

    let t1 = db.begin();
    let t2 = db.begin();

    assert_eq!(db.read(t1, d1).unwrap() + db.read(t1, d2).unwrap(), 2);
    assert_eq!(db.read(t2, d1).unwrap() + db.read(t2, d2).unwrap(), 2);
    db.update(t1, d1, 0).unwrap();
    db.update(t2, d2, 0).unwrap();

    assert_eq!(db.commit(t1), Ok(()));
    assert_eq!(db.commit(t2), Err(MvccError::Serialization));

    let t3 = db.begin();
    let on_call = db.read(t3, d1).unwrap() + db.read(t3, d2).unwrap();
    assert_eq!(on_call, 1, "SSI must preserve >= 1 on call");
}

#[test]
fn ssi_allows_benign_concurrency() {
    let mut db = SsiStore::new();
    let a = db.bootstrap_row(10);
    let b = db.bootstrap_row(20);

    let t1 = db.begin();
    let t2 = db.begin();
    assert_eq!(db.read(t1, a).unwrap(), 10);
    assert_eq!(db.read(t2, b).unwrap(), 20);
    db.update(t1, a, 11).unwrap();
    db.update(t2, b, 21).unwrap();
    assert_eq!(db.commit(t1), Ok(()));
    assert_eq!(db.commit(t2), Ok(()), "no dangerous structure -> no abort");

    let t3 = db.begin();
    assert_eq!(db.read(t3, a).unwrap(), 11);
    assert_eq!(db.read(t3, b).unwrap(), 21);
}

#[test]
fn ssi_read_only_never_aborts() {
    let mut db = SsiStore::new();
    let a = db.bootstrap_row(5);

    let reader = db.begin();
    let writer = db.begin();
    assert_eq!(db.read(reader, a).unwrap(), 5);
    db.update(writer, a, 6).unwrap();
    assert_eq!(db.commit(writer), Ok(()));
    assert_eq!(db.commit(reader), Ok(()));
}

#[test]
fn vacuum_spares_what_a_running_reader_sees() {
    let mut db = MvccStore::new();
    let x = db.bootstrap_row(1);
    let reader = db.begin();
    for v in 2..6 {
        let mut t = db.begin();
        db.update(&mut t, x, v).unwrap();
        db.commit(t);
        db.vacuum();
    }
    assert_eq!(db.read(&reader, x), Ok(1));
    db.commit(reader);
    assert!(db.vacuum() > 0);
    assert_eq!(db.version_count(x), 1);
}

#[test]
fn a_row_from_the_future_is_not_visible() {
    let mut db = MvccStore::new();
    let mut t = db.begin();
    let x = db.bootstrap_row(1);
    assert_eq!(db.read(&t, x), Err(MvccError::NotVisible));
    assert!(db.update(&mut t, x, 2).is_err());
}

#[test]
fn ssi_gives_finished_transactions_a_new_outcome() {
    let mut db = SsiStore::new();
    let x = db.bootstrap_row(1);
    let a = db.begin();
    db.update(a, x, 2).unwrap();
    db.commit(a).unwrap();
    let b = db.begin();
    assert_eq!(db.read(b, x), Ok(2));
    db.abort(a);
    assert_eq!(db.read(b, x), Ok(1));
    db.commit(a).unwrap();
    assert_eq!(db.read(b, x), Ok(2));
    db.update(a, x, 3).unwrap();
    assert_eq!(db.read(b, x), Ok(3));
}

#[test]
fn ssi_needs_both_edges_to_refuse() {
    let mut db = SsiStore::new();
    let x = db.bootstrap_row(1);
    let y = db.bootstrap_row(1);
    let t = db.begin();
    let w = db.begin();
    db.read(t, x).unwrap();
    db.update(w, x, 5).unwrap();
    db.commit(w).unwrap();
    db.update(t, y, 7).unwrap();
    assert_eq!(db.commit(t), Ok(()));

    let r = db.begin();
    let t = db.begin();
    let w = db.begin();
    db.read(r, y).unwrap();
    db.update(t, y, 8).unwrap();
    db.read(t, x).unwrap();
    db.update(w, x, 9).unwrap();
    db.commit(w).unwrap();
    assert_eq!(db.commit(t), Err(MvccError::Serialization));
    let later = db.begin();
    assert_eq!(db.read(later, y), Ok(7));
    assert_eq!(db.read(later, x), Ok(9));
}

#[test]
fn first_updater_wins_until_it_aborts() {
    let mut db = MvccStore::new();
    let x = db.bootstrap_row(1);
    let mut a = db.begin();
    let mut b = db.begin();
    db.update(&mut a, x, 2).unwrap();
    assert_eq!(db.update(&mut b, x, 3), Err(MvccError::WriteConflict));
    assert_eq!(db.version_count(x), 2);
    db.abort(a);
    db.update(&mut b, x, 3).unwrap();
    assert_eq!(db.version_count(x), 3);
    let mut c = db.begin();
    assert_eq!(db.read(&c, x), Ok(1));
    db.commit(b);
    assert_eq!(db.update(&mut c, x, 4), Err(MvccError::WriteConflict));
    let mut d = db.begin();
    db.update(&mut d, x, 5).unwrap();
    assert_eq!(db.read(&d, x), Ok(5));
    assert_eq!(db.read(&c, x), Ok(1));
}

#[test]
fn default_stores_are_new_and_beginning_changes_no_read() {
    let mut db = MvccStore::default();
    let x = db.bootstrap_row(7);
    let mut w = db.begin();
    let reader = db.begin();
    db.update(&mut w, x, 8).unwrap();
    assert_eq!(db.read(&reader, x).unwrap(), 7);
    let late = db.begin();
    assert_eq!(db.read(&reader, x).unwrap(), 7);
    assert_eq!(db.read(&w, x).unwrap(), 8);
    assert_eq!(db.read(&late, x).unwrap(), 7);

    let mut fresh = SsiStore::new();
    let mut ssi = SsiStore::default();
    assert_eq!(ssi.begin(), fresh.begin());
    let y = ssi.bootstrap_row(3);
    let t = ssi.begin();
    assert_eq!(ssi.read(t, y).unwrap(), 3);
    assert_eq!(ssi.commit(t), Ok(()));
}
