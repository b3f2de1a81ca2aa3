use std::collections::BTreeSet;

use asset_library::asset_core::{AssetIssue, AssetKind, AssetRecord, SidecarState};
use asset_library::catalog::{
    merge_sidecar_into_record, stable_moves, AssetCatalog, AssetEditTarget, CommittedSidecar, EditFailureKind, QueryAssetsInput,
};
use asset_library::query_model::{AssetQuery, QueryParseErrorKind};
use uuid::Uuid;

fn record(key: &str, path: &str) -> AssetRecord {
    AssetRecord::untagged(key.into(), path.into(), "image/png".into(), 5, 0)
}

fn tags(values: &[&str]) -> Vec<String> {
    values.iter().map(|tag| (*tag).to_owned()).collect()
}

#[test]
fn parsed_query_returns_deterministic_keys_and_visible_errors() {
    let mut first = record("first", "/assets/first.PNG");
    first.tags = tags(&["ui/icon", "color/blue"]);
    first.favorite = true;
    let mut second = record("second", "/assets/second.jpg");
    second.tags = tags(&["ui/photo", "color/red"]);
    let mut draft = record("draft", "/assets/draft.mp4");
    draft.mime = "video/mp4".into();
    draft.kind = AssetKind::Video;
    draft.tags = tags(&["ui/icon", "color/blue", "draft"]);
    draft.favorite = true;
    let mut catalog = AssetCatalog::default();
    catalog.ingest(vec![first, second, draft]);

    let result = catalog
        .query_assets(&QueryAssetsInput {
            expression: "ui/* any:(color/blue|color/red) -draft type:image ext:png|jpg favorite:true".into(),
        })
        .expect("query assets");

    assert_eq!(result.keys, vec!["first"]);
    assert_eq!(result.total_assets, 3);
    assert_eq!(
        result.query.extensions.iter().cloned().collect::<BTreeSet<String>>(),
        BTreeSet::from(["jpg".to_owned(), "png".to_owned()])
    );

    let all = catalog
        .query_assets(&QueryAssetsInput {
            expression: String::new(),
        })
        .expect("empty query");
    assert_eq!(all.keys, vec!["draft", "first", "second"]);

    let error = catalog
        .query_assets(&QueryAssetsInput {
            expression: "kind:image".into(),
        })
        .expect_err("unknown filters are visible");
    assert_eq!(error.kind, QueryParseErrorKind::UnknownFilter);
    assert_eq!(error.offset, 0);
}

#[test]
fn root_consistency_reset_removes_only_derived_records() {
    let first_root = Uuid::now_v7().as_u128();
    let second_root = Uuid::now_v7().as_u128();
    let mut first = record("first", "/assets/first.png");
    first.root_id = Some(first_root);
    first.tags = tags(&["old"]);
    let mut second = record("second", "/other/second.png");
    second.root_id = Some(second_root);
    second.tags = tags(&["keep"]);
    let mut catalog = AssetCatalog::default();
    catalog.ingest(vec![first, second]);

    assert_eq!(catalog.remove_root(first_root), 1);
    assert!(catalog.get("first").is_none());
    let mut old_tag = AssetQuery::new();
    old_tag.all_tags = tags(&["old"]);
    assert!(catalog.query(&old_tag).is_empty());
    assert!(catalog.get("second").is_some());
    assert_eq!(catalog.remove_root(first_root), 0);
}

#[test]
fn stable_moves_report_only_unique_identities_under_new_keys() {
    let moved_id = 7u128;
    let mut before = record("/assets/old.png", "/assets/old.png");
    before.id = Some(moved_id);
    let mut after = before.clone();
    after.key = "/assets/archive/new.png".into();
    let mut unchanged = record("/assets/same.png", "/assets/same.png");
    unchanged.id = Some(9);
    let mut twin_a = record("/assets/a.png", "/assets/a.png");
    twin_a.id = Some(3);
    let mut twin_b = record("/assets/b.png", "/assets/b.png");
    twin_b.id = Some(3);
    let mut twin_new = record("/assets/c.png", "/assets/c.png");
    twin_new.id = Some(3);
    let moves = stable_moves(
        &vec![before, unchanged.clone(), twin_a, twin_b],
        &vec![after.clone(), unchanged, twin_new],
    );
    assert_eq!(moves.len(), 1);
    assert_eq!(moves[0].id, moved_id);
    assert_eq!(moves[0].from_key, "/assets/old.png");
    assert_eq!(moves[0].to_key, after.key);
}

#[test]
fn stable_moves_are_ordered_by_previous_key() {
    let mut z = record("/z.png", "/z.png");
    z.id = Some(1);
    let mut a = record("/a.png", "/a.png");
    a.id = Some(2);
    let mut z2 = z.clone();
    z2.key = "/y/z.png".into();
    let mut a2 = a.clone();
    a2.key = "/y/a.png".into();
    let moves = stable_moves(&vec![z, a], &vec![z2, a2]);
    let from: Vec<&str> = moves.iter().map(|m| m.from_key.as_str()).collect();
    assert_eq!(from, vec!["/a.png", "/z.png"]);
}

#[test]
fn removed_root_keys_lists_only_that_roots_vanished_keys() {
    let mut kept = record("/r/kept.png", "/r/kept.png");
    kept.root_id = Some(1);
    let mut gone = record("/r/gone.png", "/r/gone.png");
    gone.root_id = Some(1);
    let mut other = record("/o/other.png", "/o/other.png");
    other.root_id = Some(2);
    let mut catalog = AssetCatalog::new();
    catalog.ingest(vec![kept.clone(), gone, other]);
    assert_eq!(catalog.removed_root_keys(1, &vec![kept]), vec!["/r/gone.png"]);
    assert_eq!(catalog.removed_root_keys(2, &Vec::new()), vec!["/o/other.png"]);
}

#[test]
fn edit_targets_must_exist_and_match_the_cataloged_digest() {
    let mut with_sidecar = record("a", "/a.png");
    with_sidecar.sidecar_state = Some(SidecarState {
        schema: 1,
        digest: "d1".into(),
        size: 3,
        modified_unix_ms: 0,
        updated_at: "2024-01-01T00:00:00Z".into(),
    });
    let plain = record("b", "/b.png");
    let mut catalog = AssetCatalog::new();
    catalog.ingest(vec![with_sidecar, plain]);
    let target = |key: &str, digest: Option<&str>| AssetEditTarget {
        key: key.into(),
        expected_sidecar_digest: digest.map(str::to_owned),
    };
    assert_eq!(catalog.check_edit_target(&target("a", Some("d1"))), Ok(()));
    assert_eq!(catalog.check_edit_target(&target("a", Some("d2"))), Err(EditFailureKind::Conflict));
    assert_eq!(catalog.check_edit_target(&target("a", None)), Err(EditFailureKind::Conflict));
    assert_eq!(catalog.check_edit_target(&target("b", None)), Ok(()));
    assert_eq!(catalog.check_edit_target(&target("b", Some("d1"))), Err(EditFailureKind::Conflict));
    assert_eq!(catalog.check_edit_target(&target("missing", None)), Err(EditFailureKind::NotFound));
}

#[test]
fn completed_root_reconciliation_preserves_a_unique_stable_identity_move() {
    let root_id = Uuid::now_v7().as_u128();
    let stable_id = Uuid::now_v7().as_u128();
    let mut previous = record("/assets/old.png", "/assets/old.png");
    previous.root_id = Some(root_id);
    previous.id = Some(stable_id);
    previous.tags = tags(&["identity/preserved"]);
    let mut moved = previous.clone();
    moved.key = "/assets/archive/new.png".into();
    moved.path = "/assets/archive/new.png".into();
    let mut stale = record("/assets/stale.png", "/assets/stale.png");
    stale.root_id = Some(root_id);
    let mut catalog = AssetCatalog::default();
    catalog.ingest(vec![previous.clone(), moved.clone(), stale]);

    let outcome = catalog.reconcile_root(root_id, &vec![previous], vec![moved.clone()]);

    assert_eq!(outcome.moved_assets.len(), 1);
    assert_eq!(outcome.moved_assets[0].id, stable_id);
    assert_eq!(outcome.moved_assets[0].from_key, "/assets/old.png");
    assert_eq!(outcome.moved_assets[0].to_key, moved.key);
    assert_eq!(outcome.removed_keys, vec!["/assets/old.png", "/assets/stale.png"]);
    assert_eq!(catalog.root_records(root_id), vec![moved]);
}

#[test]
fn reconciliation_restores_only_new_or_changed_records_in_key_order() {
    let mut same = record("/r/same.png", "/r/same.png");
    same.root_id = Some(1);
    let mut changed = record("/r/changed.png", "/r/changed.png");
    changed.root_id = Some(1);
    let mut catalog = AssetCatalog::new();
    catalog.ingest(vec![same.clone(), changed.clone()]);
    let mut edited = changed.clone();
    edited.rating = 5;
    let mut fresh = record("/r/a-new.png", "/r/a-new.png");
    fresh.root_id = Some(1);
    let outcome = catalog.reconcile_root(1, &Vec::new(), vec![same.clone(), edited.clone(), fresh.clone()]);
    assert_eq!(outcome.restored_records, vec![fresh.clone(), edited.clone()]);
    assert!(outcome.removed_keys.is_empty());
    assert!(outcome.moved_assets.is_empty());
    assert_eq!(catalog.root_records(1), vec![fresh, edited, same]);
    assert!(catalog.root_records(2).is_empty());
}

fn committed(id: u128) -> CommittedSidecar {
    CommittedSidecar {
        schema: 1,
        id,
        updated_at: "2024-05-01T00:00:00Z".into(),
        tags: tags(&["project/eagle"]),
        rating: 4,
        favorite: true,
        note: "kept".into(),
        aliases: tags(&["hero"]),
    }
}

#[test]
fn committed_sidecars_replace_user_metadata_and_clear_invalid_sidecar_issues() {
    let mut asset = record("/a.png", "/a.png");
    asset.issues = vec![
        AssetIssue::InvalidSidecar("broken".into()),
        AssetIssue::MimeMismatch("m".into()),
        AssetIssue::InvalidSidecar("again".into()),
    ];
    merge_sidecar_into_record(&mut asset, "/a.png.asset.yml".into(), committed(7), "d".into(), 12, 34);
    assert_eq!(asset.id, Some(7));
    assert_eq!(asset.tags, tags(&["project/eagle"]));
    assert_eq!(asset.rating, 4);
    assert!(asset.favorite);
    assert_eq!(asset.aliases, tags(&["hero"]));
    assert_eq!(asset.issues, vec![AssetIssue::MimeMismatch("m".into())]);
    assert_eq!(asset.sidecar_path.as_deref(), Some("/a.png.asset.yml"));
    assert_eq!(
        asset.sidecar_state,
        Some(SidecarState {
            schema: 1,
            digest: "d".into(),
            size: 12,
            modified_unix_ms: 34,
            updated_at: "2024-05-01T00:00:00Z".into(),
        })
    );
    assert_eq!(asset.mime, "image/png");
}

#[test]
fn applying_a_committed_sidecar_updates_the_index_immediately() {
    let mut catalog = AssetCatalog::new();
    catalog.ingest(vec![record("/a.png", "/a.png")]);
    assert!(catalog
        .apply_committed_sidecar("/missing.png", "/m.asset.yml".into(), committed(1), "d".into(), 1, 1)
        .is_none());
    let updated = catalog
        .apply_committed_sidecar("/a.png", "/a.png.asset.yml".into(), committed(3), "d".into(), 1, 1)
        .expect("cataloged key");
    assert_eq!(updated.id, Some(3));
    assert_eq!(catalog.get("/a.png"), Some(&updated));
    let mut eagle = AssetQuery::new();
    eagle.all_tags = tags(&["project/eagle"]);
    assert_eq!(catalog.query(&eagle), vec!["/a.png"]);
    assert_eq!(catalog.len(), 1);
}
