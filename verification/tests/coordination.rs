use asset_library::coordination::{
    CoordinatorError, ReconciliationCoordinator, ReserveStep, ScanCoordinator, ScanDeliveryWindow, WatchCoordinator, MAX_ACTIVE_SCANS,
    MAX_ACTIVE_WATCHES, SCAN_BATCH_QUEUE_CAPACITY,
};
use asset_library::reconciliation::RelinkCandidate;
use asset_library::scanner::ScanCancellation;
use uuid::Uuid;

fn new_id() -> u128 {
    Uuid::now_v7().as_u128()
}

#[test]
fn scan_delivery_waits_for_frontend_acknowledgement() {
    let mut delivery = ScanDeliveryWindow::default();
    for sequence in 0..SCAN_BATCH_QUEUE_CAPACITY {
        assert_eq!(delivery.try_reserve(sequence), ReserveStep::Reserved);
    }
    assert_eq!(delivery.try_reserve(SCAN_BATCH_QUEUE_CAPACITY), ReserveStep::Full);
    assert!(delivery.acknowledge(0));
    assert_eq!(delivery.try_reserve(SCAN_BATCH_QUEUE_CAPACITY), ReserveStep::Reserved);
    assert_eq!(delivery.pending_count(), SCAN_BATCH_QUEUE_CAPACITY);
}

#[test]
fn delivery_refuses_duplicate_sequences_and_ignores_unknown_acknowledgements() {
    let mut delivery = ScanDeliveryWindow::new();
    assert_eq!(delivery.try_reserve(3), ReserveStep::Reserved);
    assert_eq!(delivery.try_reserve(3), ReserveStep::Duplicate);
    assert!(!delivery.acknowledge(4));
    assert!(delivery.acknowledge(3));
    assert!(delivery.is_empty());
}

#[test]
fn scan_coordinator_cancels_and_releases_registered_scans() {
    let mut coordinator = ScanCoordinator::default();
    let scan_id = new_id();
    let root_id = new_id();
    let cancellation = ScanCancellation::new();
    coordinator.register(scan_id, root_id, cancellation.clone()).expect("register scan");
    assert_eq!(coordinator.try_reserve(scan_id, 7), Ok(ReserveStep::Reserved));
    assert_eq!(coordinator.acknowledge(scan_id, 7), Ok(true));
    assert_eq!(coordinator.acknowledge(scan_id, 7), Ok(false));
    assert!(coordinator.is_root_active(root_id));
    let required = vec![root_id];
    assert_eq!(coordinator.pending_authoritative(&required), 1);

    let duplicate = coordinator
        .register(new_id(), root_id, ScanCancellation::new())
        .expect_err("duplicate root scan");
    assert!(duplicate.message().contains("already being scanned"));

    assert!(coordinator.cancel(scan_id));
    assert!(cancellation.is_cancelled());
    coordinator.finish(scan_id);
    assert!(!coordinator.is_root_active(root_id));
    assert!(!coordinator.cancel(scan_id));
    coordinator.mark_authoritative(root_id);
    assert_eq!(coordinator.pending_authoritative(&required), 0);
}

#[test]
fn coordinators_bound_active_scan_and_watcher_threads() {
    let mut scans = ScanCoordinator::default();
    let mut watches = WatchCoordinator::default();
    for _ in 0..MAX_ACTIVE_SCANS {
        scans.register(new_id(), new_id(), ScanCancellation::new()).expect("scan capacity");
    }
    let refused = scans.register(new_id(), new_id(), ScanCancellation::new()).expect_err("scan limit");
    assert!(refused.message().contains("limit"));
    for _ in 0..MAX_ACTIVE_WATCHES {
        watches.register(new_id(), new_id(), ScanCancellation::new()).expect("watch capacity");
    }
    let refused = watches.register(new_id(), new_id(), ScanCancellation::new()).expect_err("watch limit");
    assert!(refused.message().contains("limit"));
}

#[test]
fn watch_coordinator_prevents_duplicate_root_watchers() {
    let mut coordinator = WatchCoordinator::default();
    let root_id = new_id();
    let first_id = new_id();
    let second_id = new_id();
    let cancellation = ScanCancellation::new();
    coordinator.register(first_id, root_id, cancellation.clone()).expect("register watch");

    let duplicate = coordinator
        .register(second_id, root_id, ScanCancellation::new())
        .expect_err("duplicate root");
    assert!(duplicate.message().contains("already watched"));
    assert_eq!(coordinator.active_count(), 1);
    assert!(coordinator.cancel(first_id));
    assert!(cancellation.is_cancelled());
    assert_eq!(coordinator.active_count(), 0);
    coordinator.finish(first_id);
    assert_eq!(coordinator.active_count(), 0);
}

#[test]
fn inactive_scans_are_refused_and_pending_batches_are_counted() {
    let mut coordinator = ScanCoordinator::new();
    let missing = new_id();
    assert_eq!(coordinator.acknowledge(missing, 1), Err(CoordinatorError::ScanNotActive(missing)));
    assert_eq!(
        CoordinatorError::ScanNotActive(missing).message(),
        format!("scan is no longer active: {}", Uuid::from_u128(missing))
    );
    let a = new_id();
    let b = new_id();
    coordinator.register(a, new_id(), ScanCancellation::new()).expect("first");
    coordinator.register(b, new_id(), ScanCancellation::new()).expect("second");
    assert_eq!(coordinator.try_reserve(a, 0), Ok(ReserveStep::Reserved));
    assert_eq!(coordinator.try_reserve(b, 0), Ok(ReserveStep::Reserved));
    assert_eq!(coordinator.try_reserve(b, 1), Ok(ReserveStep::Reserved));
    assert_eq!(coordinator.pending_batch_count(), 3);
    assert!(!coordinator.is_delivered(b));
    assert!(coordinator.is_delivered(missing));
    assert_eq!(coordinator.active_count(), 2);
}

fn candidate(candidate_id: u128, root_id: u128, sidecar_id: u128) -> RelinkCandidate {
    RelinkCandidate {
        candidate_id,
        root_id,
        sidecar_id,
        sidecar_path: "/r/old.png.asset.yml".into(),
        sidecar_digest: "digest".into(),
        asset_key: "/r/new.png".into(),
        asset_path: "/r/new.png".into(),
        size: 1,
        quick_fingerprint: Some("q".into()),
        sha256: "abc".into(),
        ambiguous: false,
    }
}

#[test]
fn relink_candidates_follow_the_latest_report_of_each_root() {
    let mut coordinator = ReconciliationCoordinator::default();
    coordinator.replace_report(1, vec![candidate(10, 1, 100), candidate(11, 1, 101)]);
    coordinator.replace_report(2, vec![candidate(20, 2, 200)]);
    assert_eq!(coordinator.candidate(10), Ok(candidate(10, 1, 100)));
    coordinator.replace_report(1, vec![candidate(12, 1, 100)]);
    assert!(coordinator.candidate(10).is_err());
    assert!(coordinator.candidate(12).is_ok());
    assert!(coordinator.candidate(20).is_ok());
    coordinator.resolve_sidecar(100);
    let missing = coordinator.candidate(12).expect_err("resolved Sidecar");
    assert_eq!(missing, format!("relink candidate is missing or stale: {}", Uuid::from_u128(12)));
    assert!(coordinator.candidate(20).is_ok());
}
