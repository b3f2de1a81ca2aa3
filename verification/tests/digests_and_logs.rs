use asset_library::asset_core::{AssetIssue, AssetRecord};
use asset_library::diagnostics::{
    sha256_hex, validate_ui_values, DiagnosticLogPolicy, DiagnosticService, TagFilterPreference,
};
use asset_library::formats::recognize_format;
use asset_library::scanner::{
    apply_raster_dimensions, check_scan_start, merge_adjacent_sidecar, ScanRefusal, SidecarContent, SidecarRead,
};
use asset_library::support::path_fingerprint;

#[test]
fn diagnostic_path_fingerprints_are_stable_and_redacted() {
    let path = "/private/library/client-a/secret.png";
    let fingerprint = path_fingerprint(path);
    assert_eq!(fingerprint, path_fingerprint(path));
    assert_eq!(fingerprint.len(), 16);
    assert!(!fingerprint.contains("secret"));
    assert_ne!(fingerprint, path_fingerprint("/another/path"));
}

#[test]
fn rejects_invalid_or_unbounded_preferences() {
    let no_filters: Vec<(String, TagFilterPreference)> = Vec::new();
    let error = validate_ui_values("line one\nline two", &no_filters).expect_err("newline");
    assert_eq!(error, "saved query must be one line and at most 4096 characters");
    assert!(validate_ui_values("favorite:true", &no_filters).is_ok());
}

#[test]
fn file_digests_are_lower_case_sha256() {
    assert_eq!(sha256_hex(b"abc"), "ba7816bf8f01cfea414140de5dae2223b00361a396177a9cb410ff61f20015ad");
    assert_eq!(
        sha256_hex(b""),
        "e3b0c44298fc1c149afbf4c8996fb92427ae41e4649b934ca495991b7852b855"
    );
}

#[test]
fn runtime_log_summary_counts_only_retained_files() {
    let service = DiagnosticService::with_log_policy(
        "/exports".into(),
        DiagnosticLogPolicy { max_file_bytes: 220, retained_files: 3 },
    )
    .expect("policy");
    let summary = service.runtime_log_summary(true, &vec![Some(100), Some(200), Some(220), Some(50), Some(60)]);
    assert_eq!(summary.file_count, 3);
    assert_eq!(summary.byte_count, 520);
    assert_eq!(summary.retained_files, 3);
}

#[test]
fn a_mismatched_sidecar_contributes_nothing() {
    let mut asset = AssetRecord::untagged("k".into(), "/r/a.png".into(), "image/png".into(), 10, 0);
    let content = SidecarContent {
        schema: 1,
        id: 7,
        updated_at: "t".into(),
        tags: vec!["rejected".into()],
        rating: 5,
        favorite: true,
        note: "rejected note".into(),
        aliases: vec!["alias".into()],
        fingerprint_size: Some(11),
    };
    let read = SidecarRead::Read { content, digest: "d".into(), size: 3, modified_unix_ms: 4, quick_fingerprint_agrees: true };
    merge_adjacent_sidecar(&mut asset, "/r/a.png.asset.yml".into(), 10, 4096, read);
    assert_eq!(asset.id, None);
    assert!(asset.tags.is_empty() && asset.aliases.is_empty());
    assert_eq!((asset.rating, asset.favorite), (0, false));
    assert!(asset.note.is_empty());
    assert_eq!(asset.sidecar_state, None);
    assert!(matches!(asset.issues.last(), Some(AssetIssue::MismatchedSidecar(_))));
    assert_eq!(asset.sidecar_path.as_deref(), Some("/r/a.png.asset.yml"));
}

#[test]
fn a_damaged_png_stays_visible_with_an_image_metadata_issue() {
    let recognition = recognize_format(Some("png"), &[]).expect("extension fallback");
    assert_eq!(recognition.descriptor.mime, "image/png");
    let mut asset = AssetRecord::untagged("k".into(), "/r/damaged.png".into(), "image/png".into(), 0, 0);
    let read = imagesize::blob_size(&[]).map(|size| (size.width, size.height)).map_err(|error| error.to_string());
    assert!(read.is_err());
    apply_raster_dimensions(&mut asset, read);
    assert_eq!(asset.dimensions, None);
    assert!(matches!(asset.issues.last(), Some(AssetIssue::InvalidImageMetadata(_))));
    let mut sized = AssetRecord::untagged("k".into(), "/r/a.png".into(), "image/png".into(), 0, 0);
    apply_raster_dimensions(&mut sized, Ok((640, 480)));
    assert_eq!(sized.dimensions.map(|d| (d.width, d.height)), Some((640, 480)));
    assert!(sized.issues.is_empty());
}

#[test]
fn scans_refuse_empty_batches_before_missing_roots_and_unreadable_files_stay_visible() {
    assert_eq!(check_scan_start(0, false, "/r"), Err(ScanRefusal::InvalidBatchSize));
    assert_eq!(check_scan_start(64, false, "/r"), Err(ScanRefusal::InvalidRoot("/r".into())));
    assert_eq!(check_scan_start(64, true, "/r"), Ok(()));
    let asset = AssetRecord::unavailable(Some(3), "/r/a.JPG".into(), "a.JPG".into(), "image/jpeg".into(), "denied".into());
    assert_eq!(asset.size, None);
    assert_eq!(asset.relative_path, "a.JPG");
    assert_eq!(asset.extension.as_deref(), Some("jpg"));
    assert_eq!(asset.issues, vec![AssetIssue::UnreadableFile("denied".into())]);
}

#[test]
fn merged_sidecar_tags_and_aliases_form_sorted_sets() {
    let mut asset = AssetRecord::untagged("k".into(), "/r/a.png".into(), "image/png".into(), 10, 0);
    let content = SidecarContent {
        schema: 1,
        id: 7,
        updated_at: "t".into(),
        tags: vec!["travel".into(), "beach".into(), "travel".into()],
        rating: 4,
        favorite: true,
        note: "kept".into(),
        aliases: vec!["z".into(), "a".into()],
        fingerprint_size: Some(10),
    };
    let read = SidecarRead::Read { content, digest: "d".into(), size: 3, modified_unix_ms: 4, quick_fingerprint_agrees: true };
    merge_adjacent_sidecar(&mut asset, "/r/a.png.asset.yml".into(), 10, 4096, read);
    assert_eq!(asset.tags, vec!["beach".to_string(), "travel".into()]);
    assert_eq!(asset.aliases, vec!["a".to_string(), "z".into()]);
    assert_eq!(asset.id, Some(7));
    assert_eq!((asset.rating, asset.favorite, asset.note.as_str()), (4, true, "kept"));
}
