use asset_library::asset_core::{AssetDimensions, AssetIssue, AssetRecord};
use asset_library::batch::{
    budget_allows, check_target, failure_message, resolve_selection, sidecar_matches, tally_outcomes,
    BatchFailureKind, ItemOutcome, RootRuntimeState, SidecarObservation, SidecarVersion, TargetObservation,
};
use asset_library::asset_core::SidecarState;
use asset_library::scanner::{
    batch_due, completion_for, entry_action, enrichment_for, is_metadata_file_name, measured_dimensions, media_issue,
    merge_adjacent_sidecar, mime_mismatch_issue, native_metadata_plan, note_deadline, should_visit_entry, unix_ms_of,
    AudioContainer, Enrichment, EntryAction, MediaFailure, NativeMetadataPlan, ScanCancellation, ScanCompletion,
    SidecarContent, SidecarRead, VideoContainer, WalkEntry,
};

#[test]
fn metadata_files_are_never_parsed_as_assets() {
    assert!(is_metadata_file_name("photo.png.asset.yml"));
    assert!(is_metadata_file_name(".asset-library.yml"));
    assert!(!is_metadata_file_name("photo.png"));
    assert_eq!(entry_action(&WalkEntry::File("a.png.asset.yml".into())), EntryAction::Skip);
    assert_eq!(entry_action(&WalkEntry::File("a.png".into())), EntryAction::Parse);
    assert_eq!(entry_action(&WalkEntry::Other), EntryAction::Skip);
    assert_eq!(
        entry_action(&WalkEntry::Symlink),
        EntryAction::Problem("symbolic link skipped because link traversal is disabled".into())
    );
    assert_eq!(entry_action(&WalkEntry::Failed("denied".into())), EntryAction::Problem("denied".into()));
}

#[test]
fn hidden_and_ignored_entries_are_skipped_below_the_root() {
    assert!(should_visit_entry(0, ".hidden-root", true, true));
    assert!(!should_visit_entry(1, ".git", true, false));
    assert!(should_visit_entry(1, ".git", false, false));
    assert!(!should_visit_entry(2, "cache", false, true));
    assert!(should_visit_entry(2, "photos", true, false));
}

#[test]
fn batches_are_due_at_the_bound_and_cancellation_is_observed() {
    assert!(!batch_due(1, 1, 2));
    assert!(batch_due(2, 0, 2));
    assert!(batch_due(0, 2, 2));
    let cancellation = ScanCancellation::new();
    assert!(!cancellation.is_cancelled());
    let shared = cancellation.clone();
    shared.cancel();
    assert!(cancellation.is_cancelled());
    assert_eq!(completion_for(cancellation.is_cancelled()), ScanCompletion::Cancelled);
    assert_eq!(completion_for(false), ScanCompletion::Completed);
}

#[test]
fn enrichment_follows_the_content_type() {
    assert_eq!(enrichment_for("image/png"), Enrichment::RasterDimensions);
    assert_eq!(enrichment_for("image/svg+xml"), Enrichment::Svg);
    assert_eq!(enrichment_for("video/quicktime"), Enrichment::Video(VideoContainer::Mov));
    assert_eq!(enrichment_for("audio/flac"), Enrichment::Audio(AudioContainer::Flac));
    assert_eq!(enrichment_for("application/pdf"), Enrichment::Nothing);
}

#[test]
fn enrichment_issues_have_stable_messages() {
    assert_eq!(
        mime_mismatch_issue("png", Some("jpg"), Some("jpeg")),
        AssetIssue::MimeMismatch("content identifies png but the .jpg extension identifies jpeg".into())
    );
    assert_eq!(
        mime_mismatch_issue("png", Some("xyz"), None),
        AssetIssue::MimeMismatch("content identifies png but the .xyz extension identifies an unknown format".into())
    );
    assert_eq!(
        media_issue(true, MediaFailure::Unreadable),
        Some(AssetIssue::UnreadableFile("video enrichment could not reread the source".into()))
    );
    assert_eq!(
        media_issue(false, MediaFailure::ResourceLimited),
        Some(AssetIssue::ResourceLimited("audio container inspection limit reached".into()))
    );
    assert_eq!(media_issue(true, MediaFailure::UnsupportedFeature), None);
    assert_eq!(measured_dimensions(3, 4), Ok(AssetDimensions { width: 3, height: 4 }));
    assert!(matches!(measured_dimensions(usize::MAX, 1), Err(AssetIssue::InvalidImageMetadata(_))));
}

#[test]
fn a_zero_deadline_is_noted_once() {
    let mut issues = Vec::new();
    note_deadline(&mut issues, 0);
    note_deadline(&mut issues, 0);
    assert_eq!(
        issues,
        vec![AssetIssue::ResourceLimited("file enrichment stopped after the 0 ms cooperative deadline".into())]
    );
}

#[test]
fn native_metadata_respects_the_size_limit() {
    assert_eq!(native_metadata_plan("image/jpeg", 10, 10), NativeMetadataPlan::Read);
    assert_eq!(
        native_metadata_plan("image/png", 11, 10),
        NativeMetadataPlan::Skip(AssetIssue::ResourceLimited(
            "native metadata skipped because the source exceeds the 10 byte safety limit".into()
        ))
    );
    assert_eq!(native_metadata_plan("image/gif", 11, 10), NativeMetadataPlan::NotApplicable);
    assert_eq!(unix_ms_of(false, 5), None);
    assert_eq!(unix_ms_of(true, 5), Some(5));
    assert_eq!(unix_ms_of(true, u128::MAX), Some(i64::MAX));
}

fn scanned() -> AssetRecord {
    AssetRecord::untagged("/a.png".into(), "/a.png".into(), "image/png".into(), 5, 0)
}

fn content(fingerprint_size: Option<u64>) -> SidecarContent {
    SidecarContent {
        schema: 1,
        id: 42,
        updated_at: "2024-01-01T00:00:00Z".into(),
        tags: vec!["ui/icon".into()],
        rating: 3,
        favorite: true,
        note: "n".into(),
        aliases: vec!["alias".into()],
        fingerprint_size,
    }
}

#[test]
fn adjacent_sidecars_merge_only_when_their_fingerprint_matches() {
    let mut absent = scanned();
    merge_adjacent_sidecar(&mut absent, "/a.png.asset.yml".into(), 5, 100, SidecarRead::Absent);
    assert_eq!(absent, scanned());

    let mut merged = scanned();
    merge_adjacent_sidecar(
        &mut merged,
        "/a.png.asset.yml".into(),
        5,
        100,
        SidecarRead::Read {
            content: content(Some(5)),
            digest: "d".into(),
            size: 9,
            modified_unix_ms: 1,
            quick_fingerprint_agrees: true,
        },
    );
    assert_eq!(merged.id, Some(42));
    assert_eq!(merged.tags, vec!["ui/icon".to_owned()]);
    assert_eq!(merged.rating, 3);
    assert_eq!(merged.sidecar_path.as_deref(), Some("/a.png.asset.yml"));
    assert_eq!(merged.sidecar_state.as_ref().map(|s| s.digest.as_str()), Some("d"));

    let mut mismatched = scanned();
    merge_adjacent_sidecar(
        &mut mismatched,
        "/a.png.asset.yml".into(),
        5,
        100,
        SidecarRead::Read {
            content: content(Some(6)),
            digest: "d".into(),
            size: 9,
            modified_unix_ms: 1,
            quick_fingerprint_agrees: true,
        },
    );
    assert_eq!(mismatched.id, None);
    assert_eq!(
        mismatched.issues,
        vec![AssetIssue::MismatchedSidecar("Sidecar fingerprint does not match the adjacent asset".into())]
    );

    let mut large = scanned();
    merge_adjacent_sidecar(&mut large, "/a.png.asset.yml".into(), 5, 100, SidecarRead::TooLarge);
    assert_eq!(
        large.issues,
        vec![AssetIssue::ResourceLimited(
            "Sidecar parsing skipped because the file exceeds the 100 byte safety limit".into()
        )]
    );
}

fn available() -> TargetObservation {
    TargetObservation {
        root_state: Some(RootRuntimeState::Available),
        root_canonicalized: true,
        asset_canonicalized: true,
        inside_root_file: true,
        metadata: Some((5, Some(7))),
        fingerprinted: true,
        sidecar: SidecarObservation::Absent,
    }
}

#[test]
fn preflight_checks_targets_in_order() {
    assert_eq!(check_target(Some(5), Some(7), None, &available()), None);
    let mut disabled = available();
    disabled.root_state = Some(RootRuntimeState::Disabled);
    assert_eq!(check_target(Some(5), Some(7), None, &disabled), Some(BatchFailureKind::RootDisabled));
    let mut outside = available();
    outside.root_state = None;
    assert_eq!(check_target(Some(5), Some(7), None, &outside), Some(BatchFailureKind::AuthorizationLost));
    assert_eq!(check_target(Some(6), Some(7), None, &available()), Some(BatchFailureKind::SourceChanged));
    let state = SidecarState {
        schema: 1,
        digest: "d".into(),
        size: 3,
        modified_unix_ms: 4,
        updated_at: "t".into(),
    };
    assert_eq!(check_target(Some(5), Some(7), Some(&state), &available()), Some(BatchFailureKind::SidecarConflict));
    let mut read = available();
    read.sidecar = SidecarObservation::Read(SidecarVersion {
        digest: "d".into(),
        size: 3,
        modified_unix_ms: 4,
    });
    assert_eq!(check_target(Some(5), Some(7), Some(&state), &read), None);
    let version = SidecarVersion {
        digest: "e".into(),
        size: 3,
        modified_unix_ms: 4,
    };
    assert!(!sidecar_matches(Some(&state), Some(&version)));
    assert!(sidecar_matches(None, None));
}

#[test]
fn selections_resolve_by_key_then_by_unique_stable_id() {
    assert_eq!(resolve_selection(true, None, 0), Ok(false));
    assert_eq!(resolve_selection(false, None, 1), Err(BatchFailureKind::AssetMissing));
    assert_eq!(resolve_selection(false, Some(1), 1), Ok(true));
    assert_eq!(resolve_selection(false, Some(1), 0), Err(BatchFailureKind::AssetMissing));
    assert_eq!(resolve_selection(false, Some(1), 2), Err(BatchFailureKind::AssetMovedAmbiguous));
    assert_eq!(failure_message(BatchFailureKind::SidecarConflict), "Sidecar changed since cataloging");
}

#[test]
fn tally_counts_conflicts_and_unavailable_targets() {
    let keys: Vec<String> = vec!["a".into(), "b".into(), "c".into(), "d".into()];
    let outcomes = vec![
        ItemOutcome::Resolved { moved: true, failure: None },
        ItemOutcome::Unresolved(BatchFailureKind::AssetMovedAmbiguous),
        ItemOutcome::Resolved { moved: false, failure: Some(BatchFailureKind::RootOffline) },
        ItemOutcome::Resolved { moved: false, failure: Some(BatchFailureKind::SidecarConflict) },
    ];
    let tally = tally_outcomes(&keys, &outcomes);
    assert_eq!(tally.executable_count, 1);
    assert_eq!(tally.requires_stable_id_count, 1);
    assert_eq!(tally.conflict_count, 2);
    assert_eq!(tally.unavailable_count, 1);
    assert_eq!(tally.failure_count, 3);
    let listed: Vec<(&str, BatchFailureKind)> = tally.failures.iter().map(|f| (f.key.as_str(), f.kind)).collect();
    assert_eq!(
        listed,
        vec![
            ("b", BatchFailureKind::AssetMovedAmbiguous),
            ("c", BatchFailureKind::RootOffline),
            ("d", BatchFailureKind::SidecarConflict),
        ]
    );
    assert_eq!(tally.failures[2].message, "Sidecar changed since cataloging");
    assert!(budget_allows(0, 0, 100_000));
    assert!(!budget_allows(0, 0, 100_001));
    assert!(!budget_allows(16, 0, 1));
}
