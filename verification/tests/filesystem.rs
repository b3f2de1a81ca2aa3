use std::collections::BTreeSet;
use std::time::Duration;

use asset_library::asset_core::{AssetKind, AssetRecord};
use asset_library::events::{
    coalesce_changes, normalize_event, FsChange, FsChangeKind, FsRescanReason, WatchEvent, WatchEventKind,
    WatchOptions,
};
use asset_library::formats::{format_registry, recognize_format, RecognitionSource};
use asset_library::isobmff::{classify_file_type, IsoBmffKind};
use asset_library::platform::{
    inspect_relative_path_compatibility, path_relation_for_platform, platform_path_key,
    PathCompatibilityIssueKind, PathRelation, PlatformFamily,
};

#[test]
fn classifies_supported_mime_families() {
    assert_eq!(AssetKind::from_mime("image/png"), AssetKind::Image);
    assert_eq!(AssetKind::from_mime("video/mp4"), AssetKind::Video);
    assert_eq!(AssetKind::from_mime("audio/mpeg"), AssetKind::Audio);
    assert_eq!(AssetKind::from_mime("application/pdf"), AssetKind::Pdf);
    assert_eq!(AssetKind::from_mime("text/plain"), AssetKind::Other);
}

#[test]
fn untagged_records_take_kind_and_lower_case_extension_from_the_file() {
    let record = AssetRecord::untagged("k".into(), "/photos/Beach.JPG".into(), "image/jpeg".into(), 12, 34);
    assert_eq!(record.kind, AssetKind::Image);
    assert_eq!(record.extension.as_deref(), Some("jpg"));
    assert_eq!(record.file_name, "Beach.JPG");
    assert_eq!(record.relative_path, "/photos/Beach.JPG");
    assert_eq!(record.size, Some(12));
    assert_eq!(record.modified_unix_ms, Some(34));
    assert!(record.tags.is_empty());
}

fn change(kind: FsChangeKind, path: &str) -> FsChange {
    FsChange {
        kind,
        paths: vec![path.to_owned()],
        reason: None,
    }
}

fn move_change(from: &str, to: &str) -> FsChange {
    FsChange {
        kind: FsChangeKind::Move,
        paths: vec![from.to_owned(), to.to_owned()],
        reason: None,
    }
}

fn event(kind: WatchEventKind, paths: &[&str]) -> WatchEvent {
    WatchEvent {
        kind,
        paths: paths.iter().map(|path| (*path).to_owned()).collect(),
    }
}

#[test]
fn normalizes_platform_events_and_ignores_reads() {
    let path = "/library/new.png";
    assert_eq!(
        normalize_event(&event(WatchEventKind::Create, &[path])).expect("create").kind,
        FsChangeKind::Create
    );
    assert_eq!(
        normalize_event(&event(WatchEventKind::ModifyOther, &[path])).expect("modify").kind,
        FsChangeKind::Modify
    );
    assert_eq!(
        normalize_event(&event(WatchEventKind::Remove, &[path])).expect("remove").kind,
        FsChangeKind::Delete
    );
    assert!(normalize_event(&event(WatchEventKind::AccessOther, &[path])).is_none());
    assert_eq!(
        normalize_event(&event(WatchEventKind::AccessCloseWrite, &[path]))
            .expect("close write")
            .kind,
        FsChangeKind::Modify
    );
}

#[test]
fn default_watch_batch_is_bounded_by_time_and_count() {
    let options = WatchOptions::default();

    assert_eq!(options.settle_time, Duration::from_millis(120));
    assert_eq!(options.max_batch_latency, Duration::from_millis(750));
    assert_eq!(options.max_batch_events, 4_096);
}

#[test]
fn requires_rescan_for_a_rename_without_both_endpoints() {
    let change = normalize_event(&event(WatchEventKind::RenameOther, &["/library/old.png"])).expect("ambiguous rename");

    assert_eq!(change.kind, FsChangeKind::RescanRequired);
    assert_eq!(change.reason, Some(FsRescanReason::AmbiguousRename));
}

#[test]
fn folds_duplicate_and_atomic_save_events_deterministically() {
    let root = "/library";
    let target = "/library/asset.png.asset.yml";
    let temporary = "/library/.tmpABCD";
    let batch = coalesce_changes(
        root,
        vec![
            change(FsChangeKind::Create, temporary),
            change(FsChangeKind::Modify, temporary),
            move_change(temporary, target),
            change(FsChangeKind::Modify, target),
            change(FsChangeKind::Modify, target),
        ],
        5,
    );

    assert_eq!(batch.raw_event_count, 5);
    assert_eq!(batch.changes, [change(FsChangeKind::Modify, target)]);
}

#[test]
fn cancels_ephemeral_creates_and_treats_replacement_as_modify() {
    let root = "/library";
    let transient = "/library/transient.png";
    let replaced = "/library/replaced.png";
    let batch = coalesce_changes(
        root,
        vec![
            change(FsChangeKind::Create, transient),
            change(FsChangeKind::Delete, transient),
            change(FsChangeKind::Delete, replaced),
            change(FsChangeKind::Create, replaced),
        ],
        4,
    );

    assert_eq!(batch.changes, [change(FsChangeKind::Modify, replaced)]);
}

#[test]
fn preserves_an_unambiguous_move_once() {
    let root = "/library";
    let old = "/library/old.png";
    let new = "/library/new.png";
    let batch = coalesce_changes(root, vec![move_change(old, new), move_change(old, new)], 2);

    assert_eq!(batch.changes, [move_change(old, new)]);
}

#[test]
fn rejects_paths_outside_the_authorized_root() {
    let root = "/library";
    let batch = coalesce_changes(root, vec![change(FsChangeKind::Create, "/private/escape.png")], 1);

    assert!(batch.requires_rescan());
    assert_eq!(batch.changes[0].paths.as_slice(), &[root.to_owned()]);
    assert_eq!(batch.changes[0].reason, Some(FsRescanReason::OutOfScope));

    let traversal = coalesce_changes(
        root,
        vec![change(FsChangeKind::Modify, "/library/../private/escape.png")],
        1,
    );
    assert_eq!(traversal.changes[0].reason, Some(FsRescanReason::OutOfScope));
}

#[test]
fn registry_identifiers_mimes_and_extensions_are_unique_and_kinds_match() {
    let mut ids = BTreeSet::new();
    let mut mimes = BTreeSet::new();
    let mut extensions = BTreeSet::new();
    for descriptor in &format_registry() {
        assert!(ids.insert(descriptor.id));
        assert!(mimes.insert(descriptor.mime));
        assert_eq!(AssetKind::from_mime(descriptor.mime), descriptor.kind);
        assert!(!descriptor.extensions.is_empty());
        for extension in descriptor.extensions {
            assert!(extensions.insert(*extension));
        }
    }
}

#[test]
fn recognizes_every_registered_signature() {
    let fixtures: [(&str, &[u8]); 15] = [
        ("png", b"\x89PNG\r\n\x1a\n"),
        ("jpeg", b"\xff\xd8\xff\xe0"),
        ("gif", b"GIF89a"),
        ("webp", b"RIFF\x04\x00\x00\x00WEBP"),
        ("svg", b"<?xml version=\"1.0\"?><svg viewBox=\"0 0 1 1\">"),
        ("avif", b"\x00\x00\x00\x18ftypavif\x00\x00\x00\x00avif"),
        ("heic", b"\x00\x00\x00\x18ftypheic\x00\x00\x00\x00heic"),
        ("heif", b"\x00\x00\x00\x18ftypheif\x00\x00\x00\x00heif"),
        ("mp4", b"\x00\x00\x00\x18ftypisom\x00\x00\x00\x00isom"),
        ("mov", b"\x00\x00\x00\x18ftypqt  \x00\x00\x00\x00qt  "),
        ("webm", b"\x1a\x45\xdf\xa3\x08webm"),
        ("mp3", b"ID3\x04\x00"),
        ("wav", b"RIFF\x04\x00\x00\x00WAVE"),
        ("flac", b"fLaC"),
        ("pdf", b"%PDF-1.7"),
    ];
    for (id, bytes) in fixtures {
        let recognition = recognize_format(None, bytes).expect("registered signature");
        assert_eq!(recognition.descriptor.id, id);
        assert_eq!(recognition.source, RecognitionSource::Content);
    }
}

#[test]
fn content_is_authoritative_when_a_known_extension_conflicts() {
    let recognition = recognize_format(Some("jpg"), b"%PDF-1.7").expect("pdf signature");
    assert_eq!(recognition.descriptor.id, "pdf");
    assert_eq!(recognition.source, RecognitionSource::Content);
    assert!(recognition.extension_mismatch);
}

#[test]
fn a_known_extension_retains_truncated_content() {
    let recognition = recognize_format(Some("SVG"), b"").expect("extension fallback");
    assert_eq!(recognition.descriptor.id, "svg");
    assert_eq!(recognition.source, RecognitionSource::Extension);
    assert!(!recognition.extension_mismatch);
}

#[test]
fn unknown_content_and_extension_are_not_recognized() {
    assert!(recognize_format(Some("xyz"), b"plain text").is_none());
    assert!(recognize_format(None, b"").is_none());
}

#[test]
fn classifies_major_and_compatible_image_brands_without_allocating() {
    assert_eq!(classify_file_type(b"\0\0\0\x18ftypavif\0\0\0\0mif1"), Some(IsoBmffKind::Avif));
    assert_eq!(classify_file_type(b"\0\0\0\x1cftypmif1\0\0\0\0heixmif1"), Some(IsoBmffKind::Heic));
    assert_eq!(classify_file_type(b"\0\0\0\x18ftypmif1\0\0\0\0mif1"), Some(IsoBmffKind::Heif));
}

#[test]
fn honors_ftyp_boundaries_and_rejects_malformed_or_unknown_boxes() {
    assert_eq!(
        classify_file_type(b"\0\0\0\x10ftypisom\0\0\0\0avif"),
        Some(IsoBmffKind::Mp4),
        "bytes after the declared ftyp box must not become compatible brands"
    );
    assert_eq!(classify_file_type(b"\0\0\0\x08ftypavif"), None);
    assert_eq!(classify_file_type(b"\0\0\0\x18freeavif\0\0\0\0avif"), None);
    assert_eq!(classify_file_type(b"\0\0\0\x18ftypzzzz\0\0\0\0zzzz"), None);
}

#[test]
fn supports_extended_and_open_ended_ftyp_boxes_within_the_prefix() {
    assert_eq!(
        classify_file_type(b"\0\0\0\x01ftyp\0\0\0\0\0\0\0\x20avif\0\0\0\0mif1"),
        Some(IsoBmffKind::Avif)
    );
    assert_eq!(classify_file_type(b"\0\0\0\0ftypheic\0\0\0\0mif1"), Some(IsoBmffKind::Heic));
}

#[test]
fn recognizes_the_additional_heif_sequence_and_still_image_brands() {
    for brand in [b"heim", b"heis", b"hevm", b"hevs"] {
        let mut bytes = b"\0\0\0\x18ftypxxxx\0\0\0\0xxxx".to_vec();
        bytes[8..12].copy_from_slice(brand);
        assert_eq!(classify_file_type(&bytes), Some(IsoBmffKind::Heic));
    }
}

#[test]
fn p2_platform_windows_keys_are_case_insensitive_and_unicode_normalized() {
    assert_eq!(
        platform_path_key("Design/Caf\u{e9}.PNG", PlatformFamily::Windows),
        platform_path_key("design/Cafe\u{301}.png", PlatformFamily::Windows)
    );
    assert_eq!(
        path_relation_for_platform("/Library/Art", "/library/art/icons", PlatformFamily::Windows),
        PathRelation::Ancestor
    );
}

#[test]
fn p2_platform_macos_normalizes_unicode_without_assuming_volume_case_mode() {
    assert_eq!(
        platform_path_key("Caf\u{e9}.png", PlatformFamily::MacOs),
        platform_path_key("Cafe\u{301}.png", PlatformFamily::MacOs)
    );
    assert_ne!(
        platform_path_key("Logo.png", PlatformFamily::MacOs),
        platform_path_key("logo.png", PlatformFamily::MacOs)
    );
}

#[test]
fn p2_platform_linux_keys_preserve_case_and_unicode_spelling() {
    assert_ne!(
        platform_path_key("Logo.png", PlatformFamily::Linux),
        platform_path_key("logo.png", PlatformFamily::Linux)
    );
    assert_ne!(
        platform_path_key("Caf\u{e9}.png", PlatformFamily::Linux),
        platform_path_key("Cafe\u{301}.png", PlatformFamily::Linux)
    );
}

#[test]
fn p2_platform_windows_portability_diagnostics_cover_names_characters_and_length() {
    let issues = inspect_relative_path_compatibility("references/CON.txt/bad?.png/trailing. ");
    assert!(issues.iter().any(|issue| {
        issue.kind == PathCompatibilityIssueKind::WindowsReservedName && issue.component.as_deref() == Some("CON.txt")
    }));
    assert!(issues.iter().any(|issue| {
        issue.kind == PathCompatibilityIssueKind::WindowsForbiddenCharacter
            && issue.component.as_deref() == Some("bad?.png")
    }));
    assert!(issues.iter().any(|issue| {
        issue.kind == PathCompatibilityIssueKind::WindowsTrailingDotOrSpace
            && issue.component.as_deref() == Some("trailing. ")
    }));

    let long_path = format!("{}.png", "a".repeat(260));
    assert!(inspect_relative_path_compatibility(&long_path)
        .iter()
        .any(|issue| issue.kind == PathCompatibilityIssueKind::WindowsLegacyLength));
}

#[test]
fn path_relations_are_converse_and_linux_is_case_sensitive() {
    assert_eq!(
        path_relation_for_platform("/a/b", "/a", PlatformFamily::Linux),
        PathRelation::Descendant
    );
    assert_eq!(
        path_relation_for_platform("/a", "/a/b", PlatformFamily::Linux),
        PathRelation::Ancestor
    );
    assert_eq!(
        path_relation_for_platform("/A", "/a", PlatformFamily::Linux),
        PathRelation::Distinct
    );
    assert_eq!(
        path_relation_for_platform("/a", "/a", PlatformFamily::Linux),
        PathRelation::Same
    );
}
