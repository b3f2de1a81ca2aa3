use std::collections::BTreeSet;

use asset_library::asset_core::{AssetDimensions, AssetRecord, MediaProperties, NativeImageMetadata};
use asset_library::index::{record_matches_query, AssetIndex};
use asset_library::query_model::AssetQuery;
use asset_library::query_parse::parse_query;
use uuid::Uuid;

fn answer(keys: Vec<String>) -> BTreeSet<String> {
    keys.into_iter().collect()
}

fn record(key: &str, tags: &[&str], favorite: bool) -> AssetRecord {
    typed_record(key, "png", "image/png", tags, favorite)
}

fn typed_record(key: &str, extension: &str, mime: &str, tags: &[&str], favorite: bool) -> AssetRecord {
    let mut record = AssetRecord::untagged(
        key.into(),
        format!("/{key}.{extension}"),
        mime.into(),
        1,
        0,
    );
    let mut set: Vec<String> = Vec::new();
    for tag in tags {
        if !set.iter().any(|existing| existing == tag) {
            set.push((*tag).to_owned());
        }
    }
    record.tags = set;
    record.favorite = favorite;
    record
}

fn advanced_record(key: &str, root_id: Option<Uuid>) -> AssetRecord {
    let mut record = typed_record(key, "jpg", "image/jpeg", &["portfolio"], true);
    record.root_id = root_id.map(|id| id.as_u128());
    record.relative_path = format!("Brand Assets/{key}.jpg");
    record.size = Some(20 * 1024 * 1024);
    record.created_unix_ms = Some(1_700_000_000_000);
    record.modified_unix_ms = Some(1_800_000_000_000);
    record.dimensions = Some(AssetDimensions {
        width: 1080,
        height: 1920,
    });
    record.native_metadata = Some(NativeImageMetadata {
        orientation: Some(6),
        ..NativeImageMetadata::default()
    });
    record.media = Some(MediaProperties {
        duration_ms: Some(30_000),
        page_count: Some(2),
        color_space: Some("srgb".into()),
        has_alpha: Some(false),
        ..MediaProperties::default()
    });
    record.rating = 4;
    record.note = "  curated  ".into();
    record
}

#[test]
fn combines_all_any_excluded_and_namespace_tags() {
    let index = AssetIndex::from_records(vec![
        record("a", &["ui/icon", "color/blue"], true),
        typed_record("b", "jpg", "image/jpeg", &["ui/photo", "color/red"], false),
        typed_record("c", "mp4", "video/mp4", &["ui/icon", "color/blue", "draft"], true),
        record("namespace-only", &["ui", "color/blue"], true),
    ]);
    let query = parse_query("ui/* any:(color/blue|color/red) -draft type:image ext:png|jpg favorite:true")
        .expect("parse query");

    assert_eq!(answer(index.query(&query)), BTreeSet::from(["a".into()]));

    let and_query = parse_query("ui/icon color/blue").expect("parse AND query");
    assert_eq!(
        answer(index.query(&and_query)),
        BTreeSet::from(["a".into(), "c".into()])
    );
}

#[test]
fn upsert_replaces_old_postings() {
    let mut index = AssetIndex::from_records(vec![record("a", &["old"], false)]);
    index.upsert(record("a", &["new"], true));

    let old = AssetQuery {
        all_tags: vec!["old".into()],
        ..AssetQuery::default()
    };
    let new = AssetQuery {
        all_tags: vec!["new".into()],
        favorite: Some(true),
        ..AssetQuery::default()
    };

    assert!(index.query(&old).is_empty());
    assert_eq!(answer(index.query(&new)), BTreeSet::from(["a".into()]));
}

#[test]
fn clear_removes_records_and_all_postings() {
    let mut index = AssetIndex::from_records(vec![
        record("a", &["ui/icon"], true),
        record("b", &["color/blue"], false),
    ]);

    index.clear();

    assert!(index.is_empty());
    assert!(index.query(&AssetQuery::default()).is_empty());
    assert!(index
        .query(&AssetQuery {
            all_tags: vec!["ui/icon".into()],
            ..AssetQuery::default()
        })
        .is_empty());
}

#[test]
fn upsert_replaces_extension_postings() {
    let mut index = AssetIndex::from_records(vec![typed_record("a", "png", "image/png", &[], false)]);
    index.upsert(typed_record("a", "jpg", "image/jpeg", &[], false));

    assert!(index.query(&parse_query("ext:png").expect("PNG query")).is_empty());
    assert_eq!(
        answer(index.query(&parse_query("ext:JPG").expect("JPEG query"))),
        BTreeSet::from(["a".into()])
    );
}

#[test]
fn multiple_or_groups_are_combined_with_and() {
    let index = AssetIndex::from_records(vec![
        record("a", &["color/blue", "usage/hero"], false),
        record("b", &["color/red", "usage/card"], false),
        record("c", &["color/blue", "usage/other"], false),
        record("d", &["color/green", "usage/hero"], false),
    ]);
    let query = parse_query("any:(color/blue|color/red) any:(usage/hero|usage/card)").expect("parse OR groups");

    assert_eq!(
        answer(index.query(&query)),
        BTreeSet::from(["a".into(), "b".into()])
    );
}

#[test]
fn large_query_matches_an_independent_linear_filter() {
    let records = (0..10_000)
        .map(|index| {
            let mut tags = Vec::new();
            if index % 2 == 0 {
                tags.push("group/even");
            }
            if index % 11 == 0 {
                tags.push("state/draft");
            }
            record(&index.to_string(), &tags, index % 13 == 0)
        })
        .collect::<Vec<_>>();
    let expected = records
        .iter()
        .filter(|record| {
            record.tags.iter().any(|tag| tag == "group/even") && !record.tags.iter().any(|tag| tag == "state/draft")
        })
        .map(|record| record.key.clone())
        .collect::<BTreeSet<_>>();
    let index = AssetIndex::from_records(records);
    let query = AssetQuery {
        all_tags: vec!["group/even".into()],
        excluded_tags: vec!["state/draft".into()],
        ..AssetQuery::default()
    };

    assert_eq!(answer(index.query(&query)), expected);
}

#[test]
fn advanced_ranges_use_display_dimensions_and_exact_missing_semantics() {
    let root = Uuid::parse_str("0198e8c0-7451-7af1-8bca-0123456789ab").expect("root");
    let known = advanced_record("éclair", Some(root));
    let mut unknown = typed_record("unknown", "jpg", "image/jpeg", &[], false);
    unknown.size = None;
    unknown.created_unix_ms = None;
    unknown.modified_unix_ms = None;
    unknown.dimensions = None;
    unknown.media = None;
    let index = AssetIndex::from_records(vec![known, unknown]);

    for expression in [
        "portfolio".to_owned(),
        format!("root:{root}"),
        "path:écl".to_owned(),
        "rating:>=4".to_owned(),
        "size:>=10MiB".to_owned(),
        "width:1920".to_owned(),
        "height:1080".to_owned(),
        "aspect:16/9".to_owned(),
        "orientation:landscape".to_owned(),
        "created:>=2023-01-01T00:00:00Z".to_owned(),
        "modified:<2030-01-01T00:00:00Z".to_owned(),
        "duration:30s".to_owned(),
        "pages:2".to_owned(),
        "color-space:srgb".to_owned(),
        "has-note:true".to_owned(),
        "has-alpha:false".to_owned(),
    ] {
        assert_eq!(
            answer(index.query(&parse_query(&expression).expect("single advanced predicate"))),
            BTreeSet::from(["éclair".into()]),
            "expression: {expression}",
        );
    }

    let query = parse_query(&format!(
        "portfolio root:{root} path:écl rating:>=4 size:>=10MiB width:1920 \
         height:1080 aspect:16/9 orientation:landscape \
         created:>=2023-01-01T00:00:00Z modified:<2030-01-01T00:00:00Z \
         duration:30s pages:2 color-space:srgb has-note:true has-alpha:false",
    ))
    .expect("advanced query");
    assert_eq!(answer(index.query(&query)), BTreeSet::from(["éclair".into()]));

    let unknown_query = parse_query(
        "size:unknown width:unknown created:unknown modified:unknown \
         duration:unknown pages:unknown color-space:unknown has-alpha:unknown root:unknown",
    )
    .expect("unknown query");
    assert_eq!(
        answer(index.query(&unknown_query)),
        BTreeSet::from(["unknown".into()])
    );
}

#[test]
fn root_postings_are_replaced_and_removed_without_stale_matches() {
    let root_a = Uuid::parse_str("0198e8c0-7451-7af1-8bca-0123456789ab").expect("root A");
    let root_b = Uuid::parse_str("0198e8c0-7451-7af1-8bca-abcdef012345").expect("root B");
    let mut index = AssetIndex::from_records(vec![advanced_record("asset", Some(root_a))]);
    index.upsert(advanced_record("asset", Some(root_b)));

    assert!(index
        .query(&parse_query(&format!("root:{root_a}")).expect("root A query"))
        .is_empty());
    assert_eq!(
        answer(index.query(&parse_query(&format!("root:{root_b}")).expect("root B query"))),
        BTreeSet::from(["asset".into()])
    );
    index.remove("asset");
    assert!(index
        .query(&parse_query(&format!("root:{root_b}")).expect("removed root query"))
        .is_empty());
}

#[test]
fn category_postings_are_replaced_and_removed_without_stale_matches() {
    let mut index = AssetIndex::from_records(vec![advanced_record("asset", None)]);
    let mut replacement = advanced_record("asset", None);
    replacement.dimensions = Some(AssetDimensions {
        width: 640,
        height: 640,
    });
    replacement.native_metadata = None;
    replacement.note.clear();
    replacement.media = Some(MediaProperties {
        color_space: Some("display-p3".into()),
        has_alpha: Some(true),
        ..MediaProperties::default()
    });
    index.upsert(replacement);

    for stale in ["orientation:landscape", "color-space:srgb", "has-note:true", "has-alpha:false"] {
        assert!(
            index.query(&parse_query(stale).expect("stale category query")).is_empty(),
            "stale posting matched: {stale}",
        );
    }
    for current in ["orientation:square", "color-space:display-p3", "has-note:false", "has-alpha:true"] {
        assert_eq!(
            answer(index.query(&parse_query(current).expect("current category query"))),
            BTreeSet::from(["asset".into()]),
            "current posting missing: {current}",
        );
    }

    index.remove("asset");
    assert!(index
        .query(&parse_query("orientation:square").expect("removed category query"))
        .is_empty());
}

#[test]
fn video_display_rotation_changes_effective_dimensions() {
    let mut record = typed_record("rotated-video", "mp4", "video/mp4", &[], false);
    record.dimensions = Some(AssetDimensions {
        width: 1080,
        height: 1920,
    });
    record.media = Some(MediaProperties {
        display_quarter_turns: Some(1),
        ..MediaProperties::default()
    });
    let index = AssetIndex::from_records(vec![record]);

    for expression in ["width:1920", "height:1080", "aspect:16/9", "orientation:landscape"] {
        assert_eq!(
            answer(index.query(&parse_query(expression).expect("rotated video query"))),
            BTreeSet::from(["rotated-video".into()]),
            "expression: {expression}",
        );
    }
}

#[test]
fn answers_come_in_key_order_and_get_sees_the_latest_record() {
    let mut index = AssetIndex::from_records(vec![
        record("b", &["x"], false),
        record("a", &["x"], false),
        record("c", &["y"], false),
        record("a", &["x", "z"], true),
    ]);
    assert_eq!(index.len(), 3);
    let all = index.query(&AssetQuery::default());
    assert_eq!(all, vec!["a".to_string(), "b".to_string(), "c".to_string()]);
    assert!(index.get("a").expect("a").favorite);
    assert_eq!(index.remove("b").map(|r| r.key), Some("b".to_string()));
    assert!(index.get("b").is_none());
    assert!(index.remove("b").is_none());
    assert_eq!(index.query(&parse_query("x").expect("x")), vec!["a".to_string()]);
}

#[test]
fn a_record_matches_a_query_on_its_own() {
    let r = advanced_record("own", None);
    assert!(record_matches_query(&r, &parse_query("width:1920 -draft").expect("q")));
    assert!(!record_matches_query(&r, &parse_query("portrait-only orientation:portrait").expect("q")));
    assert!(!record_matches_query(&r, &parse_query("root:unknown has-note:false").expect("q")));
}
