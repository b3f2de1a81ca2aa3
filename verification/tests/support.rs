use asset_library::diagnostics::looks_like_path;
use asset_library::diagnostics::{DiagnosticLogPolicy, DiagnosticService};
use asset_library::asset_core::{AssetIssue, AssetRecord};
use asset_library::library::{LibraryRoot, LibraryRootStatus, RootAccessStatus, RootScanSettings};
use asset_library::support::{
    inspect_library_consistency, inspect_library_consistency_with, issue_finding, path_fingerprint, trace_asset,
    FileObservation, RecordObservation, SidecarReading, SupportSeverity, TraceObservation, TraceOutcome,
};

fn status(id: u128, path: &str, enabled: bool, access: RootAccessStatus) -> LibraryRootStatus {
    LibraryRootStatus {
        root: LibraryRoot {
            id,
            path: path.into(),
            name: "root".into(),
            enabled,
            scan: RootScanSettings::default(),
        },
        access_status: access,
        access_message: None,
    }
}

fn record(key: &str, id: Option<u128>, root: Option<u128>, path: &str) -> AssetRecord {
    let mut r = AssetRecord::untagged(key.into(), path.into(), "image/png".into(), 1, 0);
    r.id = id;
    r.root_id = root;
    r.relative_path = key.into();
    r
}

fn clean() -> RecordObservation {
    RecordObservation {
        asset: FileObservation::RegularFile,
        expected_sidecar: String::new(),
        sidecar: FileObservation::RegularFile,
    }
}

#[test]
fn fingerprints_are_short_digests() {
    assert_eq!(path_fingerprint("abc"), "ba7816bf8f01cfea");
}

#[test]
fn consistency_report_counts_roots_records_and_duplicates() {
    let roots = vec![
        status(1, "/lib/a", true, RootAccessStatus::Available),
        status(2, "/lib/b", true, RootAccessStatus::Missing),
        status(3, "/lib/c", false, RootAccessStatus::Missing),
    ];
    let mut damaged = record("damaged", Some(10), Some(1), "/lib/a/damaged.png");
    damaged.issues = vec![AssetIssue::MimeMismatch("png".into()), AssetIssue::MissingAsset];
    let records = vec![
        record("ok", Some(20), Some(1), "/lib/a/ok.png"),
        record("twin-1", Some(30), Some(1), "/lib/a/t1.png"),
        record("twin-2", Some(30), Some(2), "/lib/b/t2.png"),
        record("orphan", None, None, "/x/orphan.png"),
        record("stranger", None, Some(9), "/x/stranger.png"),
        record("outside", None, Some(1), "/elsewhere/out.png"),
        damaged,
    ];
    let mut observations = vec![clean(); records.len()];
    observations[0].asset = FileObservation::Missing;
    let report = inspect_library_consistency(&roots, &records, &observations, true, 5);
    let codes: Vec<&str> = report.findings.iter().map(|f| f.code.as_str()).collect();
    assert_eq!(
        codes,
        vec![
            "root-unavailable",
            "asset-missing",
            "missing-root-association",
            "unknown-root-association",
            "asset-outside-root",
            "mime-mismatch",
            "missing-asset",
            "duplicate-stable-id",
        ]
    );
    assert_eq!(report.summary.configured_roots, 3);
    assert_eq!(report.summary.catalog_assets, 7);
    assert_eq!(report.summary.findings, 8);
    assert_eq!(report.summary.warnings, 1);
    assert_eq!(report.summary.errors, 7);
    assert_eq!(report.roots[0].catalog_assets, 4);
    assert_eq!(report.roots[1].errors, 1);
    assert_eq!(report.roots[0].errors, 4);
    assert_eq!(report.roots[0].warnings, 1);
    assert!(!report.truncated);
    assert!(report.authoritative);
    assert_eq!(report.generated_unix_ms, 5);
    let duplicate = report.findings.last().expect("duplicate");
    assert_eq!(duplicate.asset_id, Some(30));
    assert_eq!(duplicate.root_id, Some(1));
    assert_eq!(duplicate.message, "stable ID is associated with 2 catalog records");
    assert_eq!(report.findings[0].message, "enabled root is missing");
    assert_eq!(report.findings[1].relative_path.as_deref(), Some("ok"));
    assert_eq!(report.findings[1].path_fingerprint.as_deref(), Some(path_fingerprint("/lib/a/ok.png").as_str()));
}

#[test]
fn consistency_finding_details_are_bounded_while_totals_remain_exact() {
    let roots = vec![status(1, "/lib", true, RootAccessStatus::Available)];
    let records: Vec<AssetRecord> = (0..600)
        .map(|n| record(&format!("r{n}"), None, Some(1), &format!("/lib/{n}.png")))
        .collect();
    let observations = vec![
        RecordObservation {
            asset: FileObservation::Symlink,
            expected_sidecar: String::new(),
            sidecar: FileObservation::Missing,
        };
        600
    ];
    let inside = vec![true; 600];
    let adjacent = vec![true; 600];
    let report = inspect_library_consistency_with(&roots, &records, &observations, &inside, &adjacent, false, 0);
    assert_eq!(report.summary.findings, 600);
    assert_eq!(report.summary.errors, 600);
    assert_eq!(report.findings.len(), 512);
    assert!(report.truncated);
    assert_eq!(report.roots[0].errors, 600);
}

#[test]
fn sidecar_observations_become_findings() {
    let roots = vec![status(1, "/lib", true, RootAccessStatus::Available)];
    let mut with_sidecar = record("s", Some(1), Some(1), "/lib/s.png");
    with_sidecar.sidecar_path = Some("/lib/other.asset.yml".into());
    with_sidecar.sidecar_state = Some(asset_library::asset_core::SidecarState {
        schema: 1,
        digest: "d".into(),
        size: 1,
        modified_unix_ms: 0,
        updated_at: String::new(),
    });
    let observations = vec![RecordObservation {
        asset: FileObservation::NotFile,
        expected_sidecar: "/lib/s.png.asset.yml".into(),
        sidecar: FileObservation::Missing,
    }];
    let report = inspect_library_consistency(&roots, &vec![with_sidecar], &observations, true, 0);
    let codes: Vec<&str> = report.findings.iter().map(|f| f.code.as_str()).collect();
    assert_eq!(codes, vec!["asset-not-file", "sidecar-association-mismatch", "sidecar-missing"]);
}

#[test]
fn issues_have_stable_codes() {
    assert_eq!(
        issue_finding(&AssetIssue::InvalidSidecar("x".into())),
        (SupportSeverity::Error, "invalid-sidecar", "Sidecar could not be parsed")
    );
    assert_eq!(issue_finding(&AssetIssue::UnsupportedFormat).1, "unsupported-format");
}

#[test]
fn traces_follow_each_matching_record() {
    let roots = vec![status(1, "/lib", true, RootAccessStatus::Available)];
    let mut first = record("a", Some(42), Some(1), "/lib/a.png");
    first.issues = vec![AssetIssue::UnsupportedFormat];
    let records = vec![first, record("b", Some(7), Some(1), "/lib/b.png"), record("c", Some(42), None, "/lib/c.png")];
    let observations = vec![
        TraceObservation { asset_present: true, sidecar_present: true, sidecar: SidecarReading::Parsed(42) },
        TraceObservation { asset_present: true, sidecar_present: false, sidecar: SidecarReading::Unparsed },
        TraceObservation { asset_present: false, sidecar_present: true, sidecar: SidecarReading::Parsed(1) },
    ];
    let report = trace_asset(42, &roots, &records, &observations, 9);
    assert_eq!(report.match_count, 2);
    assert_eq!(report.steps.len(), 9);
    assert_eq!(report.steps[0].code, "duplicate-id");
    assert_eq!(report.steps[0].outcome, TraceOutcome::Warning);
    assert_eq!(report.steps[0].message, "catalog lookup returned 2 record(s)");
    assert_eq!(report.steps[1].message, "root access is available");
    assert_eq!(report.steps[3].code, "id-matched");
    assert_eq!(report.steps[4].code, "issues-present");
    assert_eq!(report.steps[4].message, "catalog record contains 1 parser issue(s)");
    assert_eq!(report.steps[5].code, "missing-root");
    assert_eq!(report.steps[6].code, "missing-or-unsafe");
    assert_eq!(report.steps[7].code, "id-mismatch");
    assert_eq!(report.steps[8].code, "clean");
    assert_eq!(report.matches[0].issue_codes, vec!["unsupported-format".to_string()]);
    assert_eq!(report.matches[0].sidecar_id_matches, Some(true));
    assert_eq!(report.matches[1].sidecar_id_matches, Some(false));
    assert_eq!(report.matches[1].root_access_status, None);
    let missing = trace_asset(5, &roots, &records, &observations, 0);
    assert_eq!(missing.match_count, 0);
    assert_eq!(missing.steps[0].code, "not-found");
    assert_eq!(missing.steps[0].outcome, TraceOutcome::Error);
}

#[test]
fn runtime_log_summary_counts_present_files_and_saturates() {
    let service = DiagnosticService::with_log_policy(
        "/exports".into(),
        DiagnosticLogPolicy { max_file_bytes: 10, retained_files: 3 },
    )
    .expect("policy");
    let summary = service.runtime_log_summary(true, &vec![Some(4), None, Some(u64::MAX)]);
    assert_eq!(summary.file_count, 2);
    assert_eq!(summary.byte_count, u64::MAX);
    assert_eq!(summary.max_file_bytes, 10);
    assert_eq!(summary.retained_files, 3);
    let missing = service.runtime_log_summary(false, &vec![Some(4)]);
    assert_eq!(missing.file_count, 0);
    assert_eq!(missing.byte_count, 0);
}

#[test]
fn plain_words_do_not_look_like_paths() {
    assert!(!looks_like_path("abc"));
    assert!(!looks_like_path("photos/2024"));
    assert!(looks_like_path("~/Pictures"));
    assert!(looks_like_path("C:\\Users\\me"));
    assert!(looks_like_path("/library/photos"));
}
