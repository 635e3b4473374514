use ordust::market::{DepthUpdate, Snapshot};
use ordust::reconciler::{ReconcileError, Reconciler};
use ordust::{Price, Qty};

fn make_snapshot(last_update_id: u64) -> Snapshot {
    Snapshot { last_update_id, bids: vec![(Price(100), Qty(1))], asks: vec![(Price(101), Qty(2))] }
}

fn make_diff(first_update_id: u64, final_update_id: u64) -> DepthUpdate {
    DepthUpdate { first_update_id, final_update_id, bids: vec![], asks: vec![] }
}

#[test]
fn test_successful_snapshot_bridging() {
    let mut reconciler = Reconciler::new();

    reconciler.on_diff(make_diff(90, 95)).unwrap();
    reconciler.on_diff(make_diff(96, 105)).unwrap();
    reconciler.on_diff(make_diff(106, 110)).unwrap();

    assert!(reconciler.book().is_none(), "Should be in Buffering state");

    let result = reconciler.on_snapshot(make_snapshot(100));

    assert!(result.is_ok());
    let book = reconciler.book().expect("Reconciler should now be Synced");
    assert_eq!(book.last_update_id(), 110);
}

#[test]
fn test_stale_snapshot_too_old() {
    let mut reconciler = Reconciler::new();

    reconciler.on_diff(make_diff(105, 110)).unwrap();

    let err = reconciler.on_snapshot(make_snapshot(100)).unwrap_err();

    assert!(matches!(err, ReconcileError::SnapshotTooOld));
    assert!(reconciler.book().is_none(), "State must remain Buffering on error");
}

#[test]
fn test_sequence_gap_during_snapshot_bridging() {
    let mut reconciler = Reconciler::new();

    reconciler.on_diff(make_diff(95, 102)).unwrap();
    reconciler.on_diff(make_diff(105, 110)).unwrap();

    let err = reconciler.on_snapshot(make_snapshot(100)).unwrap_err();

    assert!(matches!(err, ReconcileError::GapDetected { expected: 103, got: 105 }));
    assert!(reconciler.book().is_none(), "Must drop state back to Buffering");
}

#[test]
fn test_sequence_gap_on_live_diff() {
    let mut reconciler = Reconciler::new();

    reconciler.on_diff(make_diff(95, 102)).unwrap();
    reconciler.on_snapshot(make_snapshot(100)).unwrap();
    assert_eq!(reconciler.book().unwrap().last_update_id(), 102);

    reconciler.on_diff(make_diff(103, 105)).unwrap();
    assert_eq!(reconciler.book().unwrap().last_update_id(), 105);

    let err = reconciler.on_diff(make_diff(108, 112)).unwrap_err();

    assert!(matches!(err, ReconcileError::GapDetected { expected: 106, got: 108 }));
    assert!(reconciler.book().is_none());
}

#[test]
fn synced_book_holds_snapshot_and_applied_diffs() {
    let mut reconciler = Reconciler::new();
    reconciler
        .on_diff(DepthUpdate {
            first_update_id: 100,
            final_update_id: 101,
            bids: vec![(Price(100), Qty(0)), (Price(99), Qty(4))],
            asks: vec![(Price(102), Qty(3))],
        })
        .unwrap();
    reconciler.on_snapshot(make_snapshot(100)).unwrap();
    let book = reconciler.book().expect("synced");
    assert_eq!(book.last_update_id(), 101);
    assert_eq!(book.best_bid(), Some((Price(99), Qty(4))));
    assert_eq!(book.best_ask(), Some((Price(101), Qty(2))));
    // A second snapshot while synced changes nothing.
    reconciler.on_snapshot(make_snapshot(500)).unwrap();
    assert_eq!(reconciler.book().unwrap().last_update_id(), 101);
}

#[test]
fn snapshot_with_empty_buffer_is_too_old_and_resets() {
    let mut reconciler = Reconciler::new();
    assert!(matches!(reconciler.on_snapshot(make_snapshot(1)), Err(ReconcileError::SnapshotTooOld)));
    // The buffer was dropped: a diff then a snapshot that it covers syncs.
    reconciler.on_diff(make_diff(5, 9)).unwrap();
    reconciler.on_snapshot(make_snapshot(6)).unwrap();
    assert_eq!(reconciler.book().unwrap().last_update_id(), 9);
}

#[test]
fn snapshot_ids_fit_detects_overflow() {
    let mut reconciler = Reconciler::new();
    assert!(!reconciler.snapshot_ids_fit(&make_snapshot(u64::MAX)));
    assert!(reconciler.snapshot_ids_fit(&make_snapshot(100)));
    // A bridged update ending at u64::MAX followed by another would overflow.
    reconciler.on_diff(make_diff(100, u64::MAX)).unwrap();
    reconciler.on_diff(make_diff(5, 6)).unwrap();
    assert!(!reconciler.snapshot_ids_fit(&make_snapshot(100)));
    // A snapshot that no update bridges computes nothing further.
    assert!(reconciler.snapshot_ids_fit(&make_snapshot(7)));
}

#[test]
fn book_exists_only_after_a_snapshot_with_no_error_since() {
    let mut reconciler = Reconciler::new();
    reconciler.on_diff(make_diff(95, 102)).unwrap();
    assert!(reconciler.book().is_none());
    reconciler.on_snapshot(make_snapshot(100)).unwrap();
    assert!(reconciler.book().is_some());
    reconciler.on_diff(make_diff(103, 104)).unwrap();
    assert!(reconciler.book().is_some());
    assert!(reconciler.on_diff(make_diff(200, 201)).is_err());
    assert!(reconciler.book().is_none());
    // Diffs alone never bring the book back.
    reconciler.on_diff(make_diff(202, 203)).unwrap();
    assert!(reconciler.book().is_none());
    reconciler.on_snapshot(make_snapshot(201)).unwrap();
    assert_eq!(reconciler.book().map(|b| b.last_update_id()), Some(203));
}
