use std::collections::BTreeSet;

use asset_library::asset_core::AssetKind;
use asset_library::query_model::{
    AssetQuery, InstantField, IntegerField, NullableBoolean, Orientation, QueryParseErrorKind,
    RangeBound, RangeConstraint, Ratio, RatioField, UnknownField,
};
use asset_library::query_nodes::QueryTagNodeKind;
use asset_library::query_parse::parse_query;
use asset_library::query_rewrite::{
    parse_query_with_tag_nodes, rewrite_query_tag, QueryTagRewriteError, TagRenameMode,
};

fn set(values: &[String]) -> BTreeSet<String> {
    values.iter().cloned().collect()
}

fn names(values: &[&str]) -> BTreeSet<String> {
    values.iter().map(|value| value.to_string()).collect()
}

fn integer_range(query: &AssetQuery, field: IntegerField) -> RangeConstraint<u64> {
    query
        .integer_ranges
        .iter()
        .find(|(key, _)| *key == field)
        .map(|(_, range)| *range)
        .expect("integer range")
}

fn instant_range(query: &AssetQuery, field: InstantField) -> RangeConstraint<i64> {
    query
        .instant_ranges
        .iter()
        .find(|(key, _)| *key == field)
        .map(|(_, range)| *range)
        .expect("instant range")
}

fn ratio_range(query: &AssetQuery, field: RatioField) -> RangeConstraint<Ratio> {
    query
        .ratio_ranges
        .iter()
        .find(|(key, _)| *key == field)
        .map(|(_, range)| *range)
        .expect("ratio range")
}

#[test]
fn empty_expression_matches_the_default_query() {
    assert_eq!(parse_query(" \t\n").expect("empty query"), AssetQuery::default());
}

#[test]
fn parses_tags_or_groups_and_normalized_field_filters() {
    let parsed = parse_query(
        r#"ui/* "visual style/minimal" any:(color/blue|color/red) -state/draft type:IMAGE|video ext:.PNG|Jpeg favorite:true"#,
    )
    .expect("parse query");

    assert_eq!(set(&parsed.all_tags), names(&["ui/*", "visual style/minimal"]));
    assert_eq!(parsed.any_tag_groups.len(), 1);
    assert_eq!(set(&parsed.any_tag_groups[0]), names(&["color/blue", "color/red"]));
    assert_eq!(set(&parsed.excluded_tags), names(&["state/draft"]));
    let kinds: BTreeSet<AssetKind> = parsed.kinds.iter().copied().collect();
    assert_eq!(kinds, BTreeSet::from([AssetKind::Image, AssetKind::Video]));
    assert_eq!(set(&parsed.extensions), names(&["jpeg", "png"]));
    assert_eq!(parsed.favorite, Some(true));
    assert!(parsed.integer_ranges.is_empty());
    assert!(parsed.unknown_fields.is_empty());
    assert!(parsed.path_contains.is_empty());
}

#[test]
fn supports_multiple_or_groups_and_explicit_colon_tags() {
    let parsed = parse_query(
        r"any:(color/blue|color/red) any:(usage/hero|usage/card) tag:source:camera -tag:state:old",
    )
    .expect("parse query");

    assert_eq!(parsed.any_tag_groups.len(), 2);
    assert!(set(&parsed.all_tags).contains("source:camera"));
    assert!(set(&parsed.excluded_tags).contains("state:old"));
}

#[test]
fn reports_actionable_syntax_errors_instead_of_an_empty_query() {
    let cases = [
        ("any:(only)", QueryParseErrorKind::InvalidOrGroup),
        ("ui*", QueryParseErrorKind::InvalidWildcard),
        ("kind:image", QueryParseErrorKind::UnknownFilter),
        ("type:document", QueryParseErrorKind::InvalidType),
        ("ext:png.exe", QueryParseErrorKind::InvalidExtension),
        ("favorite:yes", QueryParseErrorKind::InvalidFavorite),
        ("favorite:true favorite:false", QueryParseErrorKind::ConflictingFavorite),
        ("tag:", QueryParseErrorKind::EmptyTag),
        (r#""unclosed"#, QueryParseErrorKind::UnclosedQuote),
        ("tag\\", QueryParseErrorKind::TrailingEscape),
    ];

    for (expression, expected) in cases {
        let error = parse_query(expression).expect_err(expression);
        assert_eq!(error.kind, expected, "expression: {expression}");
        assert!(!error.message.is_empty());
    }

    let too_long = format!("tag:{}", "x".repeat(129));
    assert_eq!(
        parse_query(&too_long).expect_err("reject long tag").kind,
        QueryParseErrorKind::TagTooLong
    );
}

#[test]
fn reports_exact_tag_node_spans_without_treating_fields_or_prefixes_as_tags() {
    let expression = r#"ui/icon tag:ui/icon -ui/icon any:(ui/icon|ui/icons|"visual style") path:"ui/icon" color-space:ui-icon ui/*"#;
    let (_, nodes) = parse_query_with_tag_nodes(expression).expect("parse tag nodes");
    let exact = nodes.iter().filter(|node| node.value == "ui/icon").collect::<Vec<_>>();

    assert_eq!(exact.len(), 4);
    assert_eq!(
        exact.iter().map(|node| node.kind).collect::<Vec<_>>(),
        [
            QueryTagNodeKind::All,
            QueryTagNodeKind::Explicit,
            QueryTagNodeKind::Excluded,
            QueryTagNodeKind::AnyMember,
        ]
    );
    assert_eq!(
        exact
            .iter()
            .map(|node| &expression[node.span.start..node.span.end])
            .collect::<Vec<_>>(),
        ["ui/icon", "tag:ui/icon", "-ui/icon", "ui/icon"]
    );
    assert!(nodes.iter().any(|node| node.value == "ui/icons"));
    assert!(nodes.iter().any(|node| node.value == "ui/*"));
    assert!(!nodes.iter().any(|node| node.value == "color-space:ui-icon"));
}

#[test]
fn rewrites_only_selected_tag_nodes_and_reaudits_the_ast() {
    let expression = r#"ui/icon tag:ui/icon -ui/icon any:(ui/icon|ui/icons) path:"ui/icon" color-space:ui-icon ui/*"#;
    let rewritten = rewrite_query_tag(expression, "ui/icon", "design:icon", TagRenameMode::Exact)
        .expect("rewrite exact tags");

    assert_eq!(rewritten.node_count, 4);
    assert_eq!(
        rewritten.expression,
        r#"tag:design:icon tag:design:icon -tag:design:icon any:(design:icon|ui/icons) path:"ui/icon" color-space:ui-icon ui/*"#
    );
    let after = parse_query(&rewritten.expression).expect("rewritten AST");
    let before = parse_query(expression).expect("source AST");
    let mut expected_all = set(&before.all_tags);
    expected_all.remove("ui/icon");
    expected_all.insert("design:icon".into());
    assert_eq!(set(&after.all_tags), expected_all);
    let mut expected_excluded = set(&before.excluded_tags);
    expected_excluded.remove("ui/icon");
    expected_excluded.insert("design:icon".into());
    assert_eq!(set(&after.excluded_tags), expected_excluded);
    let mut expected_group = set(&before.any_tag_groups[0]);
    expected_group.remove("ui/icon");
    expected_group.insert("design:icon".into());
    assert_eq!(set(&after.any_tag_groups[0]), expected_group);
    assert_eq!(after.path_contains, before.path_contains);
    assert_eq!(set(&after.color_spaces), set(&before.color_spaces));
}

#[test]
fn preserves_quoted_context_for_unicode_and_whitespace_tags() {
    let ordinary = rewrite_query_tag(
        r#""视觉 风格" any:("视觉 风格"|other)"#,
        "视觉 风格",
        "新的 风格",
        TagRenameMode::Exact,
    )
    .expect("rewrite locally quoted tags");
    assert_eq!(ordinary.expression, r#""新的 风格" any:("新的 风格"|other)"#);

    let whole_token = rewrite_query_tag(
        r#""any:(old tag|other)""#,
        "old tag",
        "new tag",
        TagRenameMode::Exact,
    )
    .expect("rewrite member inside whole-token quotes");
    assert_eq!(whole_token.expression, r#""any:(new tag|other)""#);
}

#[test]
fn wildcard_rewrite_requires_an_explicit_namespace_operation() {
    assert!(matches!(
        rewrite_query_tag("ui/* ui/icon", "ui/*", "design/*", TagRenameMode::Exact),
        Err(QueryTagRewriteError::InvalidTag)
    ));
    let rewritten = rewrite_query_tag(
        "ui/* ui/icon",
        "ui/*",
        "design/*",
        TagRenameMode::NamespaceWildcard,
    )
    .expect("rewrite namespace wildcard");
    assert_eq!(rewritten.expression, "design/* ui/icon");
    assert_eq!(rewritten.node_count, 1);
}

#[test]
fn refuses_invalid_sources_and_or_groups_collapsed_by_a_rename() {
    assert!(matches!(
        rewrite_query_tag("\"open", "old", "new", TagRenameMode::Exact),
        Err(QueryTagRewriteError::InvalidQuery(_))
    ));
    assert!(matches!(
        rewrite_query_tag("any:(old|new)", "old", "new", TagRenameMode::Exact),
        Err(QueryTagRewriteError::RewriteInvalid(_))
    ));
}

#[test]
fn parses_and_normalizes_integer_time_and_ratio_ranges() {
    let query = parse_query(
        "rating:>=4 size:<2MiB width:>=1920 width:<4096 height:1080 \
         duration:>=30s pages:>=2 aspect:>=32/18 \
         modified:>=2026-08-19T00:00:00+08:00",
    )
    .expect("advanced query");
    assert_eq!(
        integer_range(&query, IntegerField::Size).upper,
        Some(RangeBound { value: 2 * 1024 * 1024, inclusive: false })
    );
    assert_eq!(
        integer_range(&query, IntegerField::Width),
        RangeConstraint {
            lower: Some(RangeBound { value: 1920, inclusive: true }),
            upper: Some(RangeBound { value: 4096, inclusive: false }),
        }
    );
    assert_eq!(
        ratio_range(&query, RatioField::Aspect).lower,
        Some(RangeBound { value: Ratio { numerator: 16, denominator: 9 }, inclusive: true })
    );
    assert_eq!(
        instant_range(&query, InstantField::Modified).lower,
        Some(RangeBound { value: 1_787_068_800_000, inclusive: true })
    );
}

#[test]
fn parses_enum_boolean_root_path_and_unknown_predicates() {
    let root_a = "0198e8c0-7451-7af1-8bca-0123456789ab";
    let root_b = "0198e8c0-7451-7af1-8bca-abcdef012345";
    let query = parse_query(&format!(
        r#"orientation:landscape|square root:{root_a}\|{root_b} path:"Brand Assets/é" color-space:srgb\|display-p3 has-note:true has-alpha:unknown size:unknown"#,
    ))
    .expect("categorical query");
    assert_eq!(query.root_ids.len(), 2);
    assert_eq!(query.path_contains, ["Brand Assets/é"]);
    assert_eq!(query.has_note, Some(true));
    assert_eq!(query.has_alpha, Some(NullableBoolean::Unknown));
    assert!(query.unknown_fields.contains(&UnknownField::Size));
    let orientations: BTreeSet<Orientation> = query.orientations.iter().copied().collect();
    assert_eq!(orientations, BTreeSet::from([Orientation::Landscape, Orientation::Square]));
}

#[test]
fn preserves_version_one_ast_while_adding_advanced_fields() {
    let query = parse_query(
        "ui/* any:(color/blue|color/red) -draft type:image|video ext:png favorite:true",
    )
    .expect("version one query");
    assert!(query.integer_ranges.is_empty());
    assert!(query.instant_ranges.is_empty());
    assert!(query.ratio_ranges.is_empty());
    assert!(query.unknown_fields.is_empty());
    assert_eq!(query.favorite, Some(true));
}

#[test]
fn rejects_every_new_stable_error_family() {
    let cases = [
        ("size:!10", QueryParseErrorKind::InvalidOperator),
        ("width:1.5", QueryParseErrorKind::InvalidInteger),
        ("size:10MB", QueryParseErrorKind::InvalidUnit),
        ("size:18446744073709551616", QueryParseErrorKind::NumericOverflow),
        ("aspect:16/0", QueryParseErrorKind::InvalidRatio),
        ("modified:2026-08-19", QueryParseErrorKind::InvalidDate),
        ("orientation:wide", QueryParseErrorKind::InvalidEnum),
        ("root:NOT-A-UUID", QueryParseErrorKind::InvalidRootId),
        (r#"path:"../escape""#, QueryParseErrorKind::InvalidPath),
        (r#"path:"Brand\\escape""#, QueryParseErrorKind::InvalidPath),
        ("rating:unknown", QueryParseErrorKind::UnsupportedUnknown),
        ("width:>=10 width:<10", QueryParseErrorKind::ConflictingRange),
        ("has-note:true has-note:false", QueryParseErrorKind::ConflictingValue),
    ];
    for (expression, kind) in cases {
        let parsed = parse_query(expression).expect_err(expression);
        assert_eq!(parsed.kind, kind, "{expression}");
        assert_eq!(parsed.offset, expression.rfind(' ').map_or(0, |offset| offset + 1));
    }
}

#[test]
fn rejects_unknown_mixed_with_known_and_integer_overflow_after_units() {
    assert_eq!(
        parse_query("width:unknown width:>=1").expect_err("known and unknown").kind,
        QueryParseErrorKind::ConflictingValue
    );
    assert_eq!(
        parse_query("size:18446744073709551615TiB").expect_err("unit overflow").kind,
        QueryParseErrorKind::NumericOverflow
    );
}

#[test]
fn advanced_errors_keep_zero_based_utf8_byte_offsets() {
    let expression = "标签 size:!10";
    let parsed = parse_query(expression).expect_err("invalid operator");
    assert_eq!(parsed.kind, QueryParseErrorKind::InvalidOperator);
    assert_eq!(parsed.offset, "标签 ".len());
}

#[test]
fn truncates_fractional_instants_toward_zero() {
    let positive = parse_query("modified:1970-01-01T00:00:00.0009Z").expect("positive instant");
    let negative = parse_query("modified:1969-12-31T23:59:59.9991Z").expect("negative instant");
    assert_eq!(
        instant_range(&positive, InstantField::Modified).lower,
        Some(RangeBound { value: 0, inclusive: true })
    );
    assert_eq!(
        instant_range(&negative, InstantField::Modified).lower,
        Some(RangeBound { value: 0, inclusive: true })
    );
}
