use asset_library::asset_core::AssetRecord;
use asset_library::batch::{
    check_confirmation, BatchPreflightConfirmation, BatchPreflightError, PreflightPlans, StoredPlan, StoredPlanSummary,
};
use asset_library::catalog::AssetCatalog;
use asset_library::ignore::IgnoreRules;
use asset_library::library::{
    remove_root_from, update_root_in, validate_config_with, LibraryConfig, LibraryRoot, LibraryRootError,
    RootOverlapKind, RootScanSettings, UpdateLibraryRoot,
};
use asset_library::platform::PlatformFamily;
use asset_library::query_parse::parse_query;
use asset_library::query_rewrite::{rewrite_query_tag, TagRenameMode};
use asset_library::reconciliation::{
    assemble_report, check_relink_paths, OrphanRead, ReconciliationError, OrphanSidecarState, RelinkCandidate, SidecarFinding,
    MISSING_FINGERPRINT_MESSAGE,
};

fn root(id: u128, path: &str) -> LibraryRoot {
    LibraryRoot {
        id,
        path: path.into(),
        name: format!("root {id}"),
        enabled: true,
        scan: RootScanSettings::default(),
    }
}

fn config(roots: Vec<LibraryRoot>) -> LibraryConfig {
    let mut c = LibraryConfig::empty();
    c.roots = roots;
    c
}

#[test]
fn validation_with_absolute_flags_accepts_separate_roots() {
    let c = config(vec![root(1, "/a/photos"), root(2, "/a/video")]);
    assert_eq!(validate_config_with(&c, &vec![true, true], PlatformFamily::Linux), Ok(()));
}

#[test]
fn validation_refuses_the_first_failing_root_in_check_order() {
    let mut named = root(2, "/a/video");
    named.name = "   ".into();
    let c = config(vec![root(1, "/a/photos"), named, root(1, "/b")]);
    assert_eq!(
        validate_config_with(&c, &vec![true, true, true], PlatformFamily::Linux),
        Err(LibraryRootError::InvalidName(String::new()))
    );

    let c = config(vec![root(1, "/a/photos"), root(1, "/b")]);
    assert_eq!(
        validate_config_with(&c, &vec![true, true], PlatformFamily::Linux),
        Err(LibraryRootError::InvalidConfig(
            "duplicate root id 00000000-0000-0000-0000-000000000001".into()
        ))
    );

    let mut ignoring = root(3, "/c");
    ignoring.scan.ignore = vec![" ".into()];
    let c = config(vec![ignoring]);
    assert_eq!(
        validate_config_with(&c, &vec![false], PlatformFamily::Linux),
        Err(LibraryRootError::InvalidIgnore("rules cannot be empty".into()))
    );

    let c = config(vec![root(1, "/a"), root(2, "relative")]);
    assert_eq!(
        validate_config_with(&c, &vec![true, false], PlatformFamily::Linux),
        Err(LibraryRootError::InvalidPath("relative".into()))
    );

    let mut linking = root(4, "/d");
    linking.scan.follow_symlinks = true;
    let c = config(vec![linking]);
    assert_eq!(
        validate_config_with(&c, &vec![true], PlatformFamily::Linux),
        Err(LibraryRootError::InvalidConfig("root /d enables forbidden symlink traversal".into()))
    );
}

#[test]
fn validation_refuses_the_first_overlapping_root() {
    let c = config(vec![root(1, "/a"), root(2, "/b"), root(3, "/a/x"), root(4, "/b/y")]);
    assert_eq!(
        validate_config_with(&c, &vec![true, true, true, true], PlatformFamily::Linux),
        Err(LibraryRootError::Overlap {
            path: "/a/x".into(),
            kind: RootOverlapKind::InsideExisting,
            existing_path: "/a".into(),
        })
    );
    let mut c = config(vec![root(1, "/a")]);
    c.schema = 2;
    assert_eq!(
        validate_config_with(&c, &vec![true], PlatformFamily::Linux),
        Err(LibraryRootError::InvalidConfig("unsupported schema 2".into()))
    );
}

#[test]
fn updates_of_a_present_root_with_valid_fields_succeed() {
    let mut c = config(vec![root(1, "/a"), root(2, "/b")]);
    let k = update_root_in(
        &mut c,
        UpdateLibraryRoot { id: 2, name: Some(" Video ".into()), enabled: Some(false), ignore: Some(vec!["*.tmp".into()]) },
    )
    .expect("update");
    assert_eq!(k, 1);
    assert_eq!(c.roots[1].name, "Video");
    assert!(!c.roots[1].enabled);
    assert_eq!(c.roots[1].scan.ignore, vec!["*.tmp".to_string()]);
    let before = c.clone();
    assert_eq!(
        update_root_in(&mut c, UpdateLibraryRoot { id: 2, name: None, enabled: None, ignore: Some(vec![" ".into()]) }),
        Err(LibraryRootError::InvalidIgnore("rules cannot be empty".into()))
    );
    assert_eq!(c, before);
}

#[test]
fn removing_a_present_root_succeeds_and_an_absent_one_is_not_found() {
    let mut c = config(vec![root(1, "/a"), root(2, "/b")]);
    let removed = remove_root_from(&mut c, 1).expect("remove");
    assert_eq!(removed.id, 1);
    assert_eq!(c.roots.len(), 1);
    assert_eq!(remove_root_from(&mut c, 1), Err(LibraryRootError::NotFound(1)));
}

#[test]
fn valid_ignore_rules_compile_into_a_set() {
    let rules = IgnoreRules::compile(&vec!["*.tmp".to_string(), "cache/**".into()]).expect("rules");
    assert!(rules.is_ignored("a.tmp"));
    assert!(rules.is_ignored("cache/x/y.png"));
    assert!(!rules.is_ignored("dir/a.tmp"));
    assert!(IgnoreRules::compile(&vec!["[".to_string()]).is_err());
}

fn confirmation() -> BatchPreflightConfirmation {
    BatchPreflightConfirmation {
        operation_id: 10,
        snapshot_id: 20,
        catalog_revision: 3,
        requested_count: 4,
        executable_count: 2,
        confirmation_digest: "abc".into(),
    }
}

#[test]
fn confirmations_are_checked_against_the_stored_plan() {
    let stored = StoredPlanSummary { summary: confirmation(), expires_unix_ms: 1_000 };
    assert_eq!(check_confirmation(None, 0, &confirmation()), Err(BatchPreflightError::OperationNotFound));
    assert_eq!(check_confirmation(Some(&stored), 1_000, &confirmation()), Err(BatchPreflightError::OperationExpired));
    assert_eq!(check_confirmation(Some(&stored), 999, &confirmation()), Ok(()));
    let mut stale = confirmation();
    stale.executable_count += 1;
    assert_eq!(check_confirmation(Some(&stored), 999, &stale), Err(BatchPreflightError::PreflightStale));
    let mut stale = confirmation();
    stale.confirmation_digest = "abd".into();
    assert_eq!(check_confirmation(Some(&stored), 999, &stale), Err(BatchPreflightError::PreflightStale));
}

fn candidate(id: u128, sidecar: &str, asset: &str) -> RelinkCandidate {
    RelinkCandidate {
        candidate_id: id,
        root_id: 1,
        sidecar_id: 9,
        sidecar_path: sidecar.into(),
        sidecar_digest: "digest".into(),
        asset_key: asset.into(),
        asset_path: asset.into(),
        size: 68,
        quick_fingerprint: None,
        sha256: "abc".into(),
        ambiguous: false,
    }
}

#[test]
fn reports_list_each_orphan_in_path_order_with_its_candidates() {
    let findings = vec![
        SidecarFinding {
            sidecar_path: "/r/z.png.asset.yml".into(),
            expected_asset_path: "/r/z.png".into(),
            read: OrphanRead::Read { id: 5, has_fingerprint: true },
            candidates: vec![candidate(1, "/r/z.png.asset.yml", "/r/b.png"), candidate(2, "/r/z.png.asset.yml", "/r/a.png")],
        },
        SidecarFinding {
            sidecar_path: "/r/a.png.asset.yml".into(),
            expected_asset_path: "/r/a0.png".into(),
            read: OrphanRead::Read { id: 6, has_fingerprint: false },
            candidates: vec![candidate(3, "/r/a.png.asset.yml", "/r/c.png")],
        },
        SidecarFinding {
            sidecar_path: "/r/m.png.asset.yml".into(),
            expected_asset_path: "/r/m.png".into(),
            read: OrphanRead::Failed("bad yaml".into()),
            candidates: vec![],
        },
    ];
    let report = assemble_report(77, findings);
    assert_eq!(report.root_id, 77);
    let paths: Vec<&str> = report.orphan_sidecars.iter().map(|o| o.sidecar_path.as_str()).collect();
    assert_eq!(paths, vec!["/r/a.png.asset.yml", "/r/m.png.asset.yml", "/r/z.png.asset.yml"]);
    assert_eq!(report.orphan_sidecars[0].state, OrphanSidecarState::MissingFingerprint);
    assert_eq!(report.orphan_sidecars[0].message.as_deref(), Some(MISSING_FINGERPRINT_MESSAGE));
    assert_eq!(report.orphan_sidecars[1].state, OrphanSidecarState::Invalid);
    assert_eq!(report.orphan_sidecars[1].sidecar_id, None);
    assert_eq!(report.orphan_sidecars[2].state, OrphanSidecarState::Ready);
    assert_eq!(report.orphan_sidecars[2].candidate_count, 2);
    let missing: Vec<&str> = report.missing_assets.iter().map(|m| m.expected_asset_path.as_str()).collect();
    assert_eq!(missing, vec!["/r/a0.png", "/r/m.png", "/r/z.png"]);
    assert_eq!(report.missing_assets[0].sidecar_id, Some(6));
    assert_eq!(report.pending_moves.len(), 2);
    assert_eq!(report.pending_moves[0].asset_path, "/r/a.png");
    assert_eq!(report.pending_moves[1].asset_path, "/r/b.png");
    assert!(report.pending_moves.iter().all(|c| c.ambiguous));
}

fn rooted(key: &str, root_id: u128) -> AssetRecord {
    let mut r = AssetRecord::untagged(key.into(), key.into(), "image/png".into(), 5, 0);
    r.root_id = Some(root_id);
    r
}

#[test]
fn reconciling_one_root_keeps_the_records_of_other_roots() {
    let mut catalog = AssetCatalog::default();
    catalog.ingest(vec![rooted("/a/1.png", 1), rooted("/b/1.png", 2), rooted("/a/2.png", 1)]);
    let outcome = catalog.reconcile_root(1, &Vec::new(), vec![rooted("/a/3.png", 1), rooted("/a/0.png", 1)]);
    assert_eq!(outcome.removed_keys, vec!["/a/1.png", "/a/2.png"]);
    assert_eq!(catalog.root_records(2), vec![rooted("/b/1.png", 2)]);
    assert_eq!(catalog.root_records(1), vec![rooted("/a/0.png", 1), rooted("/a/3.png", 1)]);
}

fn plan(operation_id: u128, expires_unix_ms: i64, target_count: usize) -> StoredPlan<&'static str> {
    let mut summary = confirmation();
    summary.operation_id = operation_id;
    StoredPlan { summary, expires_unix_ms, target_count, payload: "patch" }
}

#[test]
fn the_plan_store_prunes_bounds_resolves_and_releases() {
    let mut plans = PreflightPlans::new();
    for id in 0..16u128 {
        plans.store(plan(id, 1_000, 10), 0).expect("within budget");
    }
    assert_eq!(plans.len(), 16);
    assert_eq!(plans.target_total(), 160);
    assert_eq!(plans.store(plan(99, 1_000, 1), 0), Err(BatchPreflightError::SessionBudgetExceeded));
    assert_eq!(plans.len(), 16);
    plans.store(plan(99, 2_000, 99_990), 1_000).expect("expired plans were pruned");
    assert_eq!(plans.len(), 1);
    assert_eq!(plans.store(plan(100, 3_000, 11), 1_500), Err(BatchPreflightError::SessionBudgetExceeded));

    let mut confirm = confirmation();
    confirm.operation_id = 99;
    assert_eq!(plans.resolve(&confirm, 1_500), Ok(0));
    assert_eq!(plans.plan(0).payload, "patch");
    let mut stale = confirm.clone();
    stale.requested_count += 1;
    assert_eq!(plans.resolve(&stale, 1_500), Err(BatchPreflightError::PreflightStale));
    confirm.operation_id = 7;
    assert_eq!(plans.resolve(&confirm, 1_500), Err(BatchPreflightError::OperationNotFound));
    confirm.operation_id = 99;
    assert_eq!(plans.resolve(&confirm, 2_000), Err(BatchPreflightError::OperationExpired));
    assert_eq!(plans.len(), 0);
    plans.store(plan(5, 9_000, 1), 2_000).expect("store");
    assert!(plans.release(5));
    assert!(!plans.release(5));
}

#[test]
fn relinks_stay_inside_the_root_and_never_overwrite() {
    assert_eq!(check_relink_paths("/r", "/r/a.png.asset.yml", "/r/b/new.png", "/r/b/new.png.asset.yml", false), Ok(()));
    assert_eq!(
        check_relink_paths("/r", "/r/a.png.asset.yml", "/other/new.png", "/other/new.png.asset.yml", false),
        Err(ReconciliationError::OutsideRoot)
    );
    assert_eq!(
        check_relink_paths("/r", "/r/a.png.asset.yml", "/r/new.png", "/r/new.png.asset.yml", true),
        Err(ReconciliationError::DestinationExists("/r/new.png.asset.yml".into()))
    );
}

#[test]
fn renaming_an_absent_tag_keeps_the_expression_and_its_query() {
    let expression = "ui/icon -draft any:(a|b) type:image";
    let result = rewrite_query_tag(expression, "missing", "other", TagRenameMode::Exact).expect("rename");
    assert_eq!(result.node_count, 0);
    assert_eq!(result.expression, expression);
    assert_eq!(parse_query(&result.expression).expect("parse"), parse_query(expression).expect("parse"));
}
