use asset_library::asset_core::{AssetIssue, AssetRecord};
use asset_library::diagnostics::{
    assemble_snapshot, AccessInput, DiagnosticBuild, DiagnosticLevel, DiagnosticRuntime, DiagnosticService,
    SnapshotInputs,
};
use asset_library::library::{add_root_to, LibraryConfig, LibraryRoot, LibraryRootError, RootOverlapKind, RootScanSettings};
use asset_library::platform::PlatformFamily;
use asset_library::protocol::ProtocolError;
use asset_library::reconciliation::{
    order_report, sidecar_needs_report, unlinked_candidates, MissingAsset, OrphanSidecar, OrphanSidecarState,
    RelinkCandidate,
};
use asset_library::scanner::{last_batch_due, EntryAction, ScanCompletion, ScanTally};
use asset_library::support::path_fingerprint;
use asset_library::worker_client::{
    check_request_source, check_source_location, response_payload_len, WorkerRunError, TRUNCATED_READ_MESSAGE,
};

fn root(id: u128, path: &str) -> LibraryRoot {
    LibraryRoot { id, path: path.into(), name: format!("root {id}"), enabled: true, scan: RootScanSettings::default() }
}

#[test]
fn nested_and_enclosing_roots_are_refused_with_their_kind() {
    let mut config = LibraryConfig::empty();
    add_root_to(&mut config, root(1, "/library/photos"), PlatformFamily::Linux).expect("first");
    match add_root_to(&mut config, root(2, "/library/photos/2024"), PlatformFamily::Linux) {
        Err(LibraryRootError::Overlap { kind, existing_path, path }) => {
            assert_eq!(kind, RootOverlapKind::InsideExisting);
            assert_eq!(existing_path, "/library/photos");
            assert_eq!(path, "/library/photos/2024");
        }
        other => panic!("unexpected {other:?}"),
    }
    assert!(matches!(
        add_root_to(&mut config, root(3, "/library"), PlatformFamily::Linux),
        Err(LibraryRootError::Overlap { kind: RootOverlapKind::ContainsExisting, .. })
    ));
    assert!(matches!(
        add_root_to(&mut config, root(4, "/library/photos/."), PlatformFamily::Linux),
        Err(LibraryRootError::Overlap { kind: RootOverlapKind::Duplicate, .. })
    ));
    assert_eq!(config.roots.len(), 1);
    add_root_to(&mut config, root(5, "/library/video"), PlatformFamily::Linux).expect("sibling");
    assert_eq!(config.roots.len(), 2);
}

#[test]
fn recorded_details_are_kept_by_name_like_a_map() {
    let mut service = DiagnosticService::new("/tmp/exports".into());
    let mut details: Vec<(String, String)> = Vec::new();
    for index in (0..20).rev() {
        details.push((format!("key-{index:02}"), format!("value {index}")));
    }
    details.push(("key-03".into(), "later".into()));
    let event = service.record(DiagnosticLevel::Warning, "scan", "slow", &details, "t".into());
    assert_eq!(event.details.len(), 16);
    let names: Vec<&str> = event.details.iter().map(|(name, _)| name.as_str()).collect();
    let expected: Vec<String> = (0..16).map(|index| format!("key-{index:02}")).collect();
    assert_eq!(names, expected.iter().map(String::as_str).collect::<Vec<_>>());
    assert_eq!(event.details[3].1, "later");
}

#[test]
fn plain_words_are_not_redacted_but_marked_paths_are() {
    let mut service = DiagnosticService::new("/tmp/exports".into());
    let details = vec![
        ("file".to_string(), "/Users/alice/Secret/logo.png".to_string()),
        ("word".to_string(), "photos".to_string()),
    ];
    let event = service.record(DiagnosticLevel::Error, "io", "denied", &details, "t".into());
    assert!(event.details[0].1.starts_with("[redacted-path:"));
    assert_eq!(event.details[0].1.len(), "[redacted-path:]".len() + 16);
    assert_eq!(event.details[1].1, "photos");
}

#[test]
fn untagged_records_name_their_file_and_extension() {
    let record = AssetRecord::untagged("k".into(), "/a/b/Photo.Final.JPG".into(), "image/jpeg".into(), 1, 2);
    assert_eq!(record.file_name, "Photo.Final.JPG");
    assert_eq!(record.extension.as_deref(), Some("jpg"));
    let hidden = AssetRecord::untagged("k".into(), "/a/.bashrc".into(), "text/plain".into(), 1, 2);
    assert_eq!(hidden.file_name, ".bashrc");
    assert_eq!(hidden.extension, None);
    let bare = AssetRecord::untagged("k".into(), "/a/README".into(), "text/plain".into(), 1, 2);
    assert_eq!(bare.extension, None);
}

#[test]
fn path_fingerprints_have_sixteen_digits() {
    let fingerprint = path_fingerprint("/library/photos");
    assert_eq!(fingerprint.len(), 16);
    assert!(fingerprint.chars().all(|c| c.is_ascii_hexdigit() && !c.is_ascii_uppercase()));
}

fn inputs() -> SnapshotInputs {
    SnapshotInputs {
        build: DiagnosticBuild {
            version: "1.0.0".into(),
            git_commit: "abc".into(),
            target: "x86_64".into(),
            profile: "release".into(),
            rustc: "1.80".into(),
        },
        runtime: DiagnosticRuntime { operating_system: "linux".into(), architecture: "x86_64".into() },
        application_schema: 1,
        saved_query: "tag:a".into(),
        saved_tag_filter_count: 2,
        cache_layout_version: 3,
        cache_startup_disposition: "reused".into(),
        cache_file_count: 4,
        cache_byte_count: 5,
        cache_entry_count: 6,
        asset_count: 7,
        active_scans: 1,
        active_watches: 2,
        scheduler_active: 3,
        scheduler_waiting: 4,
        scheduler_peak_active: 5,
        scheduler_peak_waiting: 6,
    }
}

#[test]
fn export_snapshots_count_and_fingerprint_configured_folders() {
    let roots = vec![
        AccessInput { enabled: true, access_status: "available".into(), path: "/library/photos".into() },
        AccessInput { enabled: false, access_status: "missing".into(), path: "/library/video".into() },
    ];
    let vaults = vec![AccessInput { enabled: true, access_status: "available".into(), path: "/notes".into() }];
    let snapshot = assemble_snapshot(inputs(), &roots, &vaults);
    assert_eq!(snapshot.configuration.library_root_count, 2);
    assert_eq!(snapshot.configuration.enabled_library_root_count, 1);
    assert_eq!(snapshot.configuration.obsidian_vault_count, 1);
    assert_eq!(snapshot.configuration.enabled_obsidian_vault_count, 1);
    assert!(snapshot.configuration.saved_query_present);
    assert_eq!(snapshot.library_roots[1].name, "library-root-2");
    assert_eq!(snapshot.library_roots[1].access_status, "missing");
    assert_eq!(snapshot.library_roots[0].path_fingerprint, path_fingerprint("/library/photos"));
    assert_eq!(snapshot.obsidian_vaults[0].name, "obsidian-vault-1");
    assert_eq!(snapshot.performance.cache_entries, 6);
    assert_eq!(snapshot.catalog.active_scan_count, 1);
    assert!(snapshot.recent_events.is_empty() && snapshot.event_summary.is_empty());
}

fn orphan(path: &str) -> OrphanSidecar {
    OrphanSidecar {
        sidecar_id: None,
        sidecar_path: path.into(),
        expected_asset_path: path.trim_end_matches(".asset.yml").into(),
        state: OrphanSidecarState::Invalid,
        message: None,
        candidate_count: 0,
    }
}

fn relink(sidecar: &str, asset: &str, id: u128) -> RelinkCandidate {
    RelinkCandidate {
        candidate_id: id,
        root_id: 1,
        sidecar_id: 9,
        sidecar_path: sidecar.into(),
        sidecar_digest: "d".into(),
        asset_key: asset.into(),
        asset_path: asset.into(),
        size: 1,
        quick_fingerprint: None,
        sha256: "s".into(),
        ambiguous: false,
    }
}

#[test]
fn reconciliation_reports_are_ordered_by_path() {
    let orphans = vec![orphan("/r/b.png.asset.yml"), orphan("/r/a/z.png.asset.yml"), orphan("/r/a.png.asset.yml")];
    let missing = vec![
        MissingAsset { sidecar_id: None, expected_asset_path: "/r/z.png".into(), sidecar_path: "/r/z.png.asset.yml".into() },
        MissingAsset { sidecar_id: None, expected_asset_path: "/r/c.png".into(), sidecar_path: "/r/c.png.asset.yml".into() },
    ];
    let moves = vec![relink("/r/b.asset.yml", "/r/y.png", 1), relink("/r/a.asset.yml", "/r/x.png", 2), relink("/r/b.asset.yml", "/r/q.png", 3)];
    let (orphans, missing, moves) = order_report(orphans, missing, moves);
    let orphan_paths: Vec<&str> = orphans.iter().map(|o| o.sidecar_path.as_str()).collect();
    assert_eq!(orphan_paths, vec!["/r/a/z.png.asset.yml", "/r/a.png.asset.yml", "/r/b.png.asset.yml"]);
    assert_eq!(missing[0].expected_asset_path, "/r/c.png");
    let ids: Vec<u128> = moves.iter().map(|m| m.candidate_id).collect();
    assert_eq!(ids, vec![2, 3, 1]);
}

#[test]
fn only_missing_or_mismatched_assets_get_a_report_and_unlinked_candidates_match_by_size() {
    let mut flagged = AssetRecord::untagged("k1".into(), "/r/a.png".into(), "image/png".into(), 10, 0);
    flagged.issues.push(AssetIssue::MismatchedSidecar("other".into()));
    let plain = AssetRecord::untagged("k2".into(), "/r/b.png".into(), "image/png".into(), 10, 0);
    let big = AssetRecord::untagged("k3".into(), "/r/c.png".into(), "image/png".into(), 11, 0);
    let assets = vec![flagged, plain, big];
    assert!(sidecar_needs_report(&assets, "/r/a.png", true));
    assert!(!sidecar_needs_report(&assets, "/r/b.png", true));
    assert!(sidecar_needs_report(&assets, "/r/b.png", false));
    assert_eq!(unlinked_candidates(&assets, &vec![true, true, true], 10), vec![0, 1]);
    assert_eq!(unlinked_candidates(&assets, &vec![true, false, true], 10), vec![0]);
}

#[test]
fn response_payloads_must_match_their_declaration() {
    assert_eq!(response_payload_len(4, 4, 10), Ok(4));
    assert_eq!(response_payload_len(11, 11, 10), Err(ProtocolError::PayloadTooLarge));
    assert_eq!(response_payload_len(4, 5, 10), Err(ProtocolError::TrailingBytes));
    assert_eq!(response_payload_len(4, 3, 10), Err(ProtocolError::Io(TRUNCATED_READ_MESSAGE.into())));
}

#[test]
fn sources_must_lie_inside_their_root() {
    assert_eq!(check_source_location("/r/a/b.png", "/r/a/b.png", "/r", true), Ok(()));
    assert_eq!(check_source_location("/r/a/b.png", "/r/a/../a/b.png", "/r", true), Err(WorkerRunError::SourceOutsideRoot));
    assert_eq!(check_source_location("/s/b.png", "/s/b.png", "/r", true), Err(WorkerRunError::SourceOutsideRoot));
    assert_eq!(check_source_location("/r/b.png", "/r/b.png", "/r", false), Err(WorkerRunError::SourceOutsideRoot));
    assert_eq!(check_request_source("/r/b.png", "/r", true, true), Ok(()));
    assert_eq!(check_request_source("/r/b.png", "/r", true, false), Err(WorkerRunError::InvalidSource));
    assert_eq!(check_request_source("/rb.png", "/r", true, true), Err(WorkerRunError::SourceOutsideRoot));
}

#[test]
fn scan_tallies_count_batches_and_ask_for_root_checks() {
    let mut tally = ScanTally::new();
    tally.record_entry(&EntryAction::Parse);
    tally.record_entry(&EntryAction::Skip);
    assert_eq!(tally.visited_files, 1);
    assert!(tally.record_batch(3, 1, false, false));
    assert_eq!(tally.sequence, 1);
    assert!(!tally.record_batch(2, 0, true, false));
    assert!(!tally.record_batch(1, 0, false, true));
    assert_eq!((tally.sequence, tally.asset_count, tally.problem_count), (2, 6, 1));
    assert_eq!(tally.finish(false), (ScanCompletion::Completed, true));
    assert_eq!(tally.finish(true), (ScanCompletion::Cancelled, false));
    assert!(last_batch_due(0, 1) && !last_batch_due(0, 0));
}
