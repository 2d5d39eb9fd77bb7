use keel::db::borrowtrack::{BorrowKind, TrackedRefCell, Tracker};

#[test]
fn detector_reports_a_nested_shared_borrow() {
    let mut t = Tracker::new();
    let mut c = TrackedRefCell::labelled(vec![1u8, 2, 3], "selftest_cell".to_string(), &mut t);
    let before = t.findings().len();
    let outer = c.borrow(&mut t, &"outer".to_string());
    let inner = c.borrow(&mut t, &"inner".to_string());
    assert_eq!(c.deref(&outer).len(), c.deref(&inner).len());
    c.end(&mut t, inner);
    c.end(&mut t, outer);
    let after = t.findings();
    assert!(
        after.len() > before,
        "detector did not report a nested shared borrow"
    );
    assert!(
        after.iter().any(|f| f.label.contains("selftest_cell")),
        "finding did not name the cell"
    );
    assert_eq!(after[before].kind, BorrowKind::Shared);
    assert_eq!(after[before].depth, 1);
    assert_eq!(after[before].site, "inner");
}

#[test]
fn detector_stays_silent_on_sequential_borrows() {
    let mut t = Tracker::new();
    let mut c = TrackedRefCell::labelled(0u32, "sequential_cell".to_string(), &mut t);
    {
        let a = c.borrow(&mut t, &"a".to_string());
        c.end(&mut t, a);
    }
    {
        let b = c.borrow(&mut t, &"b".to_string());
        c.end(&mut t, b);
    }
    assert!(
        !t.findings().iter().any(|f| f.label.contains("sequential_cell")),
        "detector fired on non-nested borrows"
    );
}

#[test]
fn exclusive_borrows_change_the_value() {
    let mut t = Tracker::new();
    let mut c = TrackedRefCell::new(5u32, &mut t);
    let g = c.borrow_mut(&mut t, &"write".to_string());
    *c.deref_mut(&g) = 6;
    c.end_mut(&mut t, g);
    let r = c.borrow(&mut t, &"read".to_string());
    assert_eq!(*c.deref(&r), 6);
    c.end(&mut t, r);
    assert!(t.findings().is_empty());
}

#[test]
fn a_run_reports_only_the_cell_that_was_nested() {
    let mut t = Tracker::new();
    let mut a = TrackedRefCell::labelled(1u32, "quiet".to_string(), &mut t);
    let mut b = TrackedRefCell::labelled(2u32, "busy".to_string(), &mut t);
    let one = a.borrow(&mut t, &"s1".to_string());
    let two = b.borrow(&mut t, &"s2".to_string());
    a.end(&mut t, one);
    let three = a.borrow(&mut t, &"s3".to_string());
    let four = b.borrow(&mut t, &"s4".to_string());
    b.end(&mut t, four);
    b.end(&mut t, two);
    a.end(&mut t, three);
    assert!(!t.findings().iter().any(|f| f.label == "quiet"));
    assert!(t.findings().iter().any(|f| f.label == "busy" && f.site == "s4"));
}
