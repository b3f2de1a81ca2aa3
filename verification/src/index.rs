//! The in-memory asset index: records kept in key order, and the evaluation of a parsed
//! query against them.
//!
//! A record matches a query when it meets every clause of the query; the index answers a
//! query with the keys of its matching records, in key order.
use vstd::prelude::*;

use crate::asset_core::AssetRecord;
use crate::events::{compare_text, lemma_text_less_irreflexive, text_less, Order3};
use crate::query_filters::{nfc_chars, nfc_form};
use crate::query_model::{
    contains_member, contains_str, str_groups, strs, AssetQuery, InstantField, IntegerField,
    NullableBoolean, Orientation, QueryModel, RangeConstraint, Ratio, RatioField, UnknownField,
};
use crate::query_values::RangeValue;
use crate::text::{
    chars_of, contains_slice, ends_with, has_infix, has_prefix, has_suffix, lower_chars, lower_seq,
    starts_with, string_from, subslice, trim, trim_seq,
};

verus! {

// ----------------------------------------------------------------------------------------
// What a record shows to the query language.
// ----------------------------------------------------------------------------------------

/// EXIF orientations 5 to 8 turn the stored image by a quarter.
pub open spec fn image_swaps_axes(r: AssetRecord) -> bool {
    match r.native_metadata {
        Some(m) => match m.orientation {
            Some(o) => 5 <= o <= 8,
            None => false,
        },
        None => false,
    }
}

/// An odd number of display quarter turns of a video swaps its axes.
pub open spec fn video_swaps_axes(r: AssetRecord) -> bool {
    match r.media {
        Some(m) => match m.display_quarter_turns {
            Some(t) => t % 2 == 1,
            None => false,
        },
        None => false,
    }
}

/// Width and height as displayed.
pub open spec fn display_dimensions(r: AssetRecord) -> Option<(u32, u32)> {
    match r.dimensions {
        None => None,
        Some(d) => if image_swaps_axes(r) || video_swaps_axes(r) {
            Some((d.height, d.width))
        } else {
            Some((d.width, d.height))
        },
    }
}

pub open spec fn orientation_of(width: u32, height: u32) -> Orientation {
    if width > height {
        Orientation::Landscape
    } else if width < height {
        Orientation::Portrait
    } else {
        Orientation::Square
    }
}

pub open spec fn record_orientation(r: AssetRecord) -> Option<Orientation> {
    match display_dimensions(r) {
        Some((w, h)) => Some(orientation_of(w, h)),
        None => None,
    }
}

pub open spec fn media_color_space(r: AssetRecord) -> Option<Seq<char>> {
    match r.media {
        Some(m) => match m.color_space {
            Some(c) => Some(c@),
            None => None,
        },
        None => None,
    }
}

pub open spec fn media_has_alpha(r: AssetRecord) -> Option<bool> {
    match r.media {
        Some(m) => m.has_alpha,
        None => None,
    }
}

pub open spec fn media_duration(r: AssetRecord) -> Option<u64> {
    match r.media {
        Some(m) => m.duration_ms,
        None => None,
    }
}

pub open spec fn media_pages(r: AssetRecord) -> Option<u32> {
    match r.media {
        Some(m) => m.page_count,
        None => None,
    }
}

/// A note counts when something but whitespace is left of it.
pub open spec fn note_present(r: AssetRecord) -> bool {
    trim_seq(r.note@).len() > 0
}

pub open spec fn integer_value(r: AssetRecord, f: IntegerField) -> Option<u64> {
    match f {
        IntegerField::Rating => Some(r.rating as u64),
        IntegerField::Size => r.size,
        IntegerField::Width => match display_dimensions(r) {
            Some((w, _)) => Some(w as u64),
            None => None,
        },
        IntegerField::Height => match display_dimensions(r) {
            Some((_, h)) => Some(h as u64),
            None => None,
        },
        IntegerField::Duration => media_duration(r),
        IntegerField::Pages => match media_pages(r) {
            Some(p) => Some(p as u64),
            None => None,
        },
    }
}

pub open spec fn instant_value(r: AssetRecord, f: InstantField) -> Option<i64> {
    match f {
        InstantField::Created => r.created_unix_ms,
        InstantField::Modified => r.modified_unix_ms,
    }
}

/// The displayed aspect ratio, width over height.
pub open spec fn ratio_value(r: AssetRecord, f: RatioField) -> Option<Ratio> {
    match display_dimensions(r) {
        Some((w, h)) => Some(Ratio { numerator: w, denominator: h }),
        None => None,
    }
}

/// A value lies within a range: above a lower bound, or at an inclusive one; below an
/// upper bound, or at an inclusive one.
pub open spec fn in_range<T: RangeValue>(c: RangeConstraint<T>, v: T) -> bool {
    &&& match c.lower {
        None => true,
        Some(b) => v.above(b.value) || (b.inclusive && !b.value.above(v)),
    }
    &&& match c.upper {
        None => true,
        Some(b) => b.value.above(v) || (b.inclusive && !v.above(b.value)),
    }
}

pub open spec fn field_unknown(r: AssetRecord, f: UnknownField) -> bool {
    match f {
        UnknownField::Size => r.size is None,
        UnknownField::Width | UnknownField::Height | UnknownField::Aspect
            | UnknownField::Orientation => display_dimensions(r) is None,
        UnknownField::Created => r.created_unix_ms is None,
        UnknownField::Modified => r.modified_unix_ms is None,
        UnknownField::Duration => media_duration(r) is None,
        UnknownField::Pages => media_pages(r) is None,
        UnknownField::Root => r.root_id is None,
        UnknownField::ColorSpace => media_color_space(r) is None,
        UnknownField::HasAlpha => media_has_alpha(r) is None,
    }
}

pub open spec fn slash_char(c: char) -> char {
    if c == '\\' {
        '/'
    } else {
        c
    }
}

/// The root-relative path that `path:` fragments are searched in: forward slashes, NFC.
pub open spec fn searchable_path(r: AssetRecord) -> Seq<char> {
    nfc_form(r.relative_path@.map_values(|c: char| slash_char(c)))
}

/// A tag expression: `namespace/*` selects every tag under `namespace/`; any other
/// expression selects the tag itself.
pub open spec fn tag_matches(tags: Seq<Seq<char>>, expression: Seq<char>) -> bool {
    if has_suffix(expression, "/*"@) {
        exists|i: int|
            0 <= i < tags.len() && has_prefix(
                #[trigger] tags[i],
                expression.subrange(0, expression.len() - 1),
            )
    } else {
        tags.contains(expression)
    }
}

pub open spec fn alpha_matches(actual: Option<bool>, wanted: NullableBoolean) -> bool {
    match wanted {
        NullableBoolean::Known(v) => actual == Some(v),
        NullableBoolean::Unknown => actual is None,
    }
}

/// Some expression of an OR group selects the record.
pub open spec fn group_matches(tags: Seq<Seq<char>>, group: Seq<Seq<char>>) -> bool {
    exists|i: int| 0 <= i < group.len() && tag_matches(tags, #[trigger] group[i])
}

pub open spec fn tags_match(r: AssetRecord, q: QueryModel) -> bool {
    let tags = strs(r.tags@);
    &&& forall|i: int| 0 <= i < q.all_tags.len() ==> tag_matches(tags, #[trigger] q.all_tags[i])
    &&& forall|g: int|
        0 <= g < q.any_tag_groups.len() ==> #[trigger] group_matches(tags, q.any_tag_groups[g])
    &&& forall|i: int|
        0 <= i < q.excluded_tags.len() ==> !tag_matches(tags, #[trigger] q.excluded_tags[i])
}

pub open spec fn categories_match(r: AssetRecord, q: QueryModel) -> bool {
    &&& q.kinds.len() > 0 ==> q.kinds.contains(r.kind)
    &&& q.extensions.len() > 0 ==> (r.extension matches Some(e) && q.extensions.contains(
        lower_seq(e@),
    ))
    &&& q.favorite matches Some(f) ==> r.favorite == f
    &&& q.root_ids.len() > 0 ==> (r.root_id matches Some(id) && q.root_ids.contains(id))
    &&& q.orientations.len() > 0 ==> (record_orientation(r) matches Some(o)
        && q.orientations.contains(o))
    &&& q.color_spaces.len() > 0 ==> (media_color_space(r) matches Some(c)
        && q.color_spaces.contains(c))
    &&& q.has_note matches Some(h) ==> note_present(r) == h
    &&& q.has_alpha matches Some(a) ==> alpha_matches(media_has_alpha(r), a)
}

pub open spec fn ranges_match(r: AssetRecord, q: QueryModel) -> bool {
    &&& forall|i: int|
        0 <= i < q.integer_ranges.len() ==> (integer_value(r, #[trigger] q.integer_ranges[i].0) matches Some(
            v,
        ) && in_range(q.integer_ranges[i].1, v))
    &&& forall|i: int|
        0 <= i < q.instant_ranges.len() ==> (instant_value(r, #[trigger] q.instant_ranges[i].0) matches Some(
            v,
        ) && in_range(q.instant_ranges[i].1, v))
    &&& forall|i: int|
        0 <= i < q.ratio_ranges.len() ==> (ratio_value(r, #[trigger] q.ratio_ranges[i].0) matches Some(
            v,
        ) && in_range(q.ratio_ranges[i].1, v))
    &&& forall|i: int| 0 <= i < q.unknown_fields.len() ==> field_unknown(r, #[trigger] q.unknown_fields[i])
    &&& forall|i: int|
        0 <= i < q.path_contains.len() ==> has_infix(searchable_path(r), #[trigger] q.path_contains[i])
}

/// A record meets every clause of the query.
pub open spec fn record_matches(r: AssetRecord, q: QueryModel) -> bool {
    tags_match(r, q) && categories_match(r, q) && ranges_match(r, q)
}

// ----------------------------------------------------------------------------------------
// The index as a sequence of records in strictly increasing key order.
// ----------------------------------------------------------------------------------------

pub open spec fn sorted_keys(s: Seq<AssetRecord>) -> bool {
    forall|i: int, j: int| 0 <= i < j < s.len() ==> text_less(#[trigger] s[i].key@, #[trigger] s[j].key@)
}

/// The first index from `i` on whose key is not below `k`: where `k` is found or goes.
pub open spec fn key_position(s: Seq<AssetRecord>, k: Seq<char>, i: int) -> int
    decreases s.len() - i,
{
    if i < 0 || i >= s.len() {
        s.len() as int
    } else if text_less(s[i].key@, k) {
        key_position(s, k, i + 1)
    } else {
        i
    }
}

pub open spec fn lookup(s: Seq<AssetRecord>, k: Seq<char>) -> Option<AssetRecord> {
    let p = key_position(s, k, 0);
    if p < s.len() && s[p].key@ == k {
        Some(s[p])
    } else {
        None
    }
}

/// The index after storing `r`: it replaces the record of its key or goes in key order.
pub open spec fn upserted(s: Seq<AssetRecord>, r: AssetRecord) -> Seq<AssetRecord> {
    let p = key_position(s, r.key@, 0);
    if p < s.len() && s[p].key@ == r.key@ {
        s.update(p, r)
    } else {
        s.insert(p, r)
    }
}

pub open spec fn removed(s: Seq<AssetRecord>, k: Seq<char>) -> Seq<AssetRecord> {
    let p = key_position(s, k, 0);
    if p < s.len() && s[p].key@ == k {
        s.remove(p)
    } else {
        s
    }
}

/// The index built by storing each record in turn.
pub open spec fn upsert_all(s: Seq<AssetRecord>, rs: Seq<AssetRecord>) -> Seq<AssetRecord>
    decreases rs.len(),
{
    if rs.len() == 0 {
        s
    } else {
        upserted(upsert_all(s, rs.drop_last()), rs.last())
    }
}

/// The index without the records of a root.
pub open spec fn without_root(s: Seq<AssetRecord>, root_id: u128) -> Seq<AssetRecord>
    decreases s.len(),
{
    if s.len() == 0 {
        s
    } else {
        let rest = without_root(s.drop_last(), root_id);
        if s.last().root_id == Some(root_id) {
            rest
        } else {
            rest.push(s.last())
        }
    }
}

/// The keys of the records that match, in index order.
pub open spec fn matching_keys(s: Seq<AssetRecord>, q: QueryModel) -> Seq<Seq<char>>
    decreases s.len(),
{
    if s.len() == 0 {
        seq![]
    } else {
        let rest = matching_keys(s.drop_last(), q);
        if record_matches(s.last(), q) {
            rest.push(s.last().key@)
        } else {
            rest
        }
    }
}

// ----------------------------------------------------------------------------------------
// The order of keys.
// ----------------------------------------------------------------------------------------

pub proof fn lemma_text_less_asymmetric(a: Seq<char>, b: Seq<char>)
    ensures
        text_less(a, b) ==> !text_less(b, a),
    decreases a.len(),
{
    if a.len() > 0 && b.len() > 0 && a[0] == b[0] {
        lemma_text_less_asymmetric(a.drop_first(), b.drop_first());
    }
}

pub proof fn lemma_text_less_transitive(a: Seq<char>, b: Seq<char>, c: Seq<char>)
    ensures
        text_less(a, b) && text_less(b, c) ==> text_less(a, c),
    decreases a.len(),
{
    if a.len() > 0 && b.len() > 0 && c.len() > 0 {
        lemma_text_less_transitive(a.drop_first(), b.drop_first(), c.drop_first());
    }
}

pub proof fn lemma_text_less_total(a: Seq<char>, b: Seq<char>)
    ensures
        a == b || text_less(a, b) || text_less(b, a),
    decreases a.len(),
{
    if a.len() > 0 && b.len() > 0 && a[0] == b[0] {
        lemma_text_less_total(a.drop_first(), b.drop_first());
        if a.drop_first() == b.drop_first() {
            assert(a =~= seq![a[0]] + a.drop_first());
            assert(b =~= seq![b[0]] + b.drop_first());
        }
    } else if a.len() == 0 && b.len() == 0 {
        assert(a =~= b);
    }
}

/// Where a key stands in a sorted index: every key before the position is below it, and
/// every key from the position on is not.
pub proof fn lemma_key_position(s: Seq<AssetRecord>, k: Seq<char>, i: int)
    requires
        sorted_keys(s),
        0 <= i <= s.len(),
    ensures
        i <= key_position(s, k, i) <= s.len(),
        forall|j: int| i <= j < key_position(s, k, i) ==> text_less(#[trigger] s[j].key@, k),
        forall|j: int| key_position(s, k, i) <= j < s.len() ==> !text_less(#[trigger] s[j].key@, k),
        forall|j: int|
            key_position(s, k, i) < j < s.len() ==> #[trigger] s[j].key@ != k,
    decreases s.len() - i,
{
    if i < s.len() {
        if text_less(s[i].key@, k) {
            lemma_key_position(s, k, i + 1);
        } else {
            assert forall|j: int| i <= j < s.len() implies !text_less(#[trigger] s[j].key@, k) && (i < j ==> s[j].key@ != k) by {
                if i < j {
                    lemma_text_less_total(s[i].key@, k);
                    if text_less(s[j].key@, k) {
                        lemma_text_less_transitive(s[i].key@, s[j].key@, k);
                    }
                    if s[j].key@ == k {
                        lemma_text_less_asymmetric(s[i].key@, s[j].key@);
                        lemma_text_less_irreflexive(k);
                    }
                } else {
                }
            }
        }
    }
}

/// In a sorted index, `lookup` finds the record of a key wherever it stands.
pub proof fn lemma_lookup_at(s: Seq<AssetRecord>, j: int)
    requires
        sorted_keys(s),
        0 <= j < s.len(),
    ensures
        lookup(s, s[j].key@) == Some(s[j]),
        key_position(s, s[j].key@, 0) == j,
{
    let k = s[j].key@;
    lemma_key_position(s, k, 0);
    let p = key_position(s, k, 0);
    lemma_text_less_irreflexive(k);
    if p > j {
        assert(text_less(s[j].key@, k));
    }
    if p < j {
        assert(s[j].key@ != k);
    }
}

pub proof fn lemma_lookup_some(s: Seq<AssetRecord>, k: Seq<char>)
    requires
        sorted_keys(s),
    ensures
        lookup(s, k) matches Some(r) ==> r.key@ == k && s.contains(r),
        lookup(s, k) is None ==> forall|j: int| 0 <= j < s.len() ==> #[trigger] s[j].key@ != k,
{
    lemma_key_position(s, k, 0);
    let p = key_position(s, k, 0);
    if p < s.len() && s[p].key@ == k {
        assert(s[p] == s[p]);
        assert(s.contains(s[p]));
    } else {
        assert forall|j: int| 0 <= j < s.len() implies #[trigger] s[j].key@ != k by {
            if s[j].key@ == k {
                lemma_text_less_irreflexive(k);
            }
        }
    }
}

/// In a sorted index, a key that no record has is not found.
pub proof fn lemma_lookup_none(s: Seq<AssetRecord>, k: Seq<char>)
    requires
        sorted_keys(s),
        forall|j: int| 0 <= j < s.len() ==> #[trigger] s[j].key@ != k,
    ensures
        lookup(s, k) is None,
{
    lemma_key_position(s, k, 0);
}

/// Two sorted indexes that hold the same record under a key, or none, agree on it.
pub proof fn lemma_lookup_same(s: Seq<AssetRecord>, t: Seq<AssetRecord>, k: Seq<char>)
    requires
        sorted_keys(s),
        sorted_keys(t),
        forall|j: int| 0 <= j < s.len() && #[trigger] s[j].key@ == k ==> t.contains(s[j]),
        forall|j: int| 0 <= j < t.len() && #[trigger] t[j].key@ == k ==> s.contains(t[j]),
    ensures
        lookup(t, k) == lookup(s, k),
{
    lemma_lookup_some(s, k);
    lemma_lookup_some(t, k);
    match lookup(s, k) {
        Some(x) => {
            let j = choose|j: int| 0 <= j < s.len() && s[j] == x;
            assert(s[j].key@ == k);
            assert(t.contains(s[j]));
            let m = choose|m: int| 0 <= m < t.len() && t[m] == s[j];
            lemma_lookup_at(t, m);
            lemma_lookup_at(s, j);
        },
        None => {
            if lookup(t, k) is Some {
                let y = lookup(t, k)->0;
                let m = choose|m: int| 0 <= m < t.len() && t[m] == y;
                assert(t[m].key@ == k);
                let j = choose|j: int| 0 <= j < s.len() && s[j] == t[m];
                assert(s[j].key@ == k);
            }
        },
    }
}

/// Storing a record keeps the keys in order, makes the record the one found under its
/// key, leaves every other key's record as it was, and adds a record only for a new key.
pub proof fn lemma_upserted(s: Seq<AssetRecord>, r: AssetRecord)
    requires
        sorted_keys(s),
    ensures
        sorted_keys(upserted(s, r)),
        lookup(upserted(s, r), r.key@) == Some(r),
        forall|k: Seq<char>| k != r.key@ ==> #[trigger] lookup(upserted(s, r), k) == lookup(s, k),
        upserted(s, r).len() == if lookup(s, r.key@) is Some { s.len() } else { s.len() + 1 },
{
    let k = r.key@;
    let p = key_position(s, k, 0);
    lemma_key_position(s, k, 0);
    let t = upserted(s, r);
    if p < s.len() && s[p].key@ == k {
        assert(t == s.update(p, r));
        assert(sorted_keys(t)) by {
            assert forall|i: int, j: int| 0 <= i < j < t.len() implies text_less(#[trigger] t[i].key@, #[trigger] t[j].key@) by {
                assert(t[i].key@ == s[i].key@);
                assert(t[j].key@ == s[j].key@);
            }
        }
        lemma_lookup_at(t, p);
        assert forall|k2: Seq<char>| k2 != k implies #[trigger] lookup(t, k2) == lookup(s, k2) by {
            assert forall|j: int| 0 <= j < s.len() && #[trigger] s[j].key@ == k2 implies t.contains(s[j]) by {
                assert(j != p);
                assert(t[j] == s[j]);
            }
            assert forall|j: int| 0 <= j < t.len() && #[trigger] t[j].key@ == k2 implies s.contains(t[j]) by {
                assert(j != p);
                assert(t[j] == s[j]);
            }
            lemma_lookup_same(s, t, k2);
        }
    } else {
        assert(t == s.insert(p, r));
        assert forall|j: int| p <= j < s.len() implies text_less(k, #[trigger] s[j].key@) by {
            lemma_text_less_total(k, s[j].key@);
        }
        assert(sorted_keys(t)) by {
            assert forall|i: int, j: int| 0 <= i < j < t.len() implies text_less(#[trigger] t[i].key@, #[trigger] t[j].key@) by {
                if j < p {
                    assert(t[i] == s[i] && t[j] == s[j]);
                } else if j == p {
                    assert(t[i] == s[i]);
                } else if i == p {
                    assert(t[j] == s[j - 1]);
                } else if i < p {
                    assert(t[i] == s[i] && t[j] == s[j - 1]);
                } else {
                    assert(t[i] == s[i - 1] && t[j] == s[j - 1]);
                }
            }
        }
        assert(t[p] == r);
        lemma_lookup_at(t, p);
        assert forall|k2: Seq<char>| k2 != k implies #[trigger] lookup(t, k2) == lookup(s, k2) by {
            assert forall|j: int| 0 <= j < s.len() && #[trigger] s[j].key@ == k2 implies t.contains(s[j]) by {
                if j < p {
                    assert(t[j] == s[j]);
                } else {
                    assert(t[j + 1] == s[j]);
                }
            }
            assert forall|j: int| 0 <= j < t.len() && #[trigger] t[j].key@ == k2 implies s.contains(t[j]) by {
                if j < p {
                    assert(t[j] == s[j]);
                } else if j > p {
                    assert(t[j] == s[j - 1]);
                }
            }
            lemma_lookup_same(s, t, k2);
        }
        assert forall|j: int| 0 <= j < s.len() implies #[trigger] s[j].key@ != k by {
            if j < p {
                lemma_text_less_irreflexive(k);
            }
        }
        lemma_lookup_none(s, k);
    }
    lemma_lookup_some(s, k);
    if p < s.len() && s[p].key@ == k {
        lemma_lookup_at(s, p);
    }
}

/// Removing a key keeps the keys in order, leaves nothing under that key and every other
/// key's record as it was.
pub proof fn lemma_removed(s: Seq<AssetRecord>, k: Seq<char>)
    requires
        sorted_keys(s),
    ensures
        sorted_keys(removed(s, k)),
        lookup(removed(s, k), k) is None,
        forall|k2: Seq<char>| k2 != k ==> #[trigger] lookup(removed(s, k), k2) == lookup(s, k2),
        removed(s, k).len() == if lookup(s, k) is Some { s.len() - 1 } else { s.len() as int },
{
    let p = key_position(s, k, 0);
    lemma_key_position(s, k, 0);
    let t = removed(s, k);
    if p < s.len() && s[p].key@ == k {
        assert(t == s.remove(p));
        assert(sorted_keys(t)) by {
            assert forall|i: int, j: int| 0 <= i < j < t.len() implies text_less(#[trigger] t[i].key@, #[trigger] t[j].key@) by {
                if j < p {
                    assert(t[i] == s[i] && t[j] == s[j]);
                } else if i < p {
                    assert(t[i] == s[i] && t[j] == s[j + 1]);
                } else {
                    assert(t[i] == s[i + 1] && t[j] == s[j + 1]);
                }
            }
        }
        assert forall|j: int| 0 <= j < t.len() implies #[trigger] t[j].key@ != k by {
            if j < p {
                assert(t[j] == s[j]);
                lemma_text_less_irreflexive(k);
            } else {
                assert(t[j] == s[j + 1]);
            }
        }
        lemma_lookup_none(t, k);
        assert forall|k2: Seq<char>| k2 != k implies #[trigger] lookup(t, k2) == lookup(s, k2) by {
            assert forall|j: int| 0 <= j < s.len() && #[trigger] s[j].key@ == k2 implies t.contains(s[j]) by {
                if j < p {
                    assert(t[j] == s[j]);
                } else {
                    assert(j != p);
                    assert(t[j - 1] == s[j]);
                }
            }
            assert forall|j: int| 0 <= j < t.len() && #[trigger] t[j].key@ == k2 implies s.contains(t[j]) by {
                if j < p {
                    assert(t[j] == s[j]);
                } else {
                    assert(t[j] == s[j + 1]);
                }
            }
            lemma_lookup_same(s, t, k2);
        }
        lemma_lookup_at(s, p);
    } else {
        assert forall|j: int| 0 <= j < s.len() implies #[trigger] s[j].key@ != k by {
            if j < p {
                lemma_text_less_irreflexive(k);
            }
        }
        lemma_lookup_none(s, k);
    }
}

/// A key is among the matching keys exactly when some record under it matches.
pub proof fn lemma_matching_keys_member(s: Seq<AssetRecord>, q: QueryModel, k: Seq<char>)
    ensures
        matching_keys(s, q).contains(k) <==> exists|j: int|
            0 <= j < s.len() && #[trigger] s[j].key@ == k && record_matches(s[j], q),
    decreases s.len(),
{
    if s.len() > 0 {
        let d = s.drop_last();
        lemma_matching_keys_member(d, q, k);
        let rest = matching_keys(d, q);
        if matching_keys(s, q).contains(k) {
            if rest.contains(k) {
                let j = choose|j: int| 0 <= j < d.len() && #[trigger] d[j].key@ == k && record_matches(d[j], q);
                assert(s[j] == d[j]);
            } else {
                let m = choose|m: int| 0 <= m < matching_keys(s, q).len() && matching_keys(s, q)[m] == k;
                assert(record_matches(s.last(), q));
                assert(m == rest.len());
                assert(s[s.len() - 1].key@ == k);
            }
        }
        if exists|j: int| 0 <= j < s.len() && #[trigger] s[j].key@ == k && record_matches(s[j], q) {
            let j = choose|j: int| 0 <= j < s.len() && #[trigger] s[j].key@ == k && record_matches(s[j], q);
            if j < s.len() - 1 {
                assert(d[j] == s[j]);
                assert(rest.contains(k));
                let m = choose|m: int| 0 <= m < rest.len() && rest[m] == k;
                if record_matches(s.last(), q) {
                    assert(matching_keys(s, q)[m] == k);
                }
            } else {
                assert(matching_keys(s, q) == rest.push(k));
                assert(matching_keys(s, q)[rest.len() as int] == k);
            }
        }
    }
}

/// What a query answers: a key is returned exactly when the index holds a record under
/// it and that record matches the query.
pub proof fn lemma_query_returns_matching_records(s: Seq<AssetRecord>, q: QueryModel, k: Seq<char>)
    requires
        sorted_keys(s),
    ensures
        matching_keys(s, q).contains(k) <==> (lookup(s, k) matches Some(r) && record_matches(r, q)),
{
    lemma_matching_keys_member(s, q, k);
    lemma_lookup_some(s, k);
    if matching_keys(s, q).contains(k) {
        let j = choose|j: int| 0 <= j < s.len() && #[trigger] s[j].key@ == k && record_matches(s[j], q);
        lemma_lookup_at(s, j);
    }
    if lookup(s, k) is Some {
        let r = lookup(s, k)->0;
        let j = choose|j: int| 0 <= j < s.len() && s[j] == r;
        assert(s[j].key@ == k);
    }
}

/// The records have distinct keys.
pub open spec fn distinct_keys(rs: Seq<AssetRecord>) -> bool {
    forall|i: int, j: int| 0 <= i < j < rs.len() ==> #[trigger] rs[i].key@ != #[trigger] rs[j].key@
}

/// Storing records with distinct keys keeps the index sorted, finds each of them under its
/// key, and leaves every other key's record as it was.
pub proof fn lemma_upsert_all_lookup(s: Seq<AssetRecord>, rs: Seq<AssetRecord>)
    requires
        sorted_keys(s),
        distinct_keys(rs),
    ensures
        sorted_keys(upsert_all(s, rs)),
        forall|i: int| 0 <= i < rs.len() ==> lookup(upsert_all(s, rs), #[trigger] rs[i].key@) == Some(rs[i]),
        forall|k: Seq<char>|
            (forall|i: int| 0 <= i < rs.len() ==> #[trigger] rs[i].key@ != k) ==> #[trigger] lookup(upsert_all(s, rs), k)
                == lookup(s, k),
    decreases rs.len(),
{
    if rs.len() > 0 {
        let d = rs.drop_last();
        assert(distinct_keys(d)) by {
            assert forall|i: int, j: int| 0 <= i < j < d.len() implies #[trigger] d[i].key@ != #[trigger] d[j].key@ by {
                assert(d[i] == rs[i] && d[j] == rs[j]);
            }
        }
        lemma_upsert_all_lookup(s, d);
        let t = upsert_all(s, d);
        lemma_upserted(t, rs.last());
        assert forall|i: int| 0 <= i < rs.len() implies lookup(upsert_all(s, rs), #[trigger] rs[i].key@) == Some(rs[i]) by {
            if i < rs.len() - 1 {
                assert(d[i] == rs[i]);
                assert(rs[i].key@ != rs[rs.len() - 1].key@);
            }
        }
        assert forall|k: Seq<char>|
            (forall|i: int| 0 <= i < rs.len() ==> #[trigger] rs[i].key@ != k) implies #[trigger] lookup(upsert_all(s, rs), k)
                == lookup(s, k) by {
            assert(rs[rs.len() - 1].key@ != k);
            assert forall|i: int| 0 <= i < d.len() implies #[trigger] d[i].key@ != k by {
                assert(d[i] == rs[i]);
            }
        }
    }
}

/// An index built from records with distinct keys answers a query with exactly the keys of
/// the records that match it.
pub proof fn lemma_query_of_records(rs: Seq<AssetRecord>, q: QueryModel, k: Seq<char>)
    requires
        distinct_keys(rs),
    ensures
        matching_keys(upsert_all(Seq::<AssetRecord>::empty(), rs), q).contains(k) <==> exists|i: int|
            0 <= i < rs.len() && #[trigger] rs[i].key@ == k && record_matches(rs[i], q),
{
    let e = Seq::<AssetRecord>::empty();
    lemma_upsert_all_lookup(e, rs);
    let t = upsert_all(e, rs);
    lemma_query_returns_matching_records(t, q, k);
    if exists|i: int| 0 <= i < rs.len() && #[trigger] rs[i].key@ == k {
        let i = choose|i: int| 0 <= i < rs.len() && #[trigger] rs[i].key@ == k;
        assert(lookup(t, rs[i].key@) == Some(rs[i]));
        if exists|j: int| 0 <= j < rs.len() && #[trigger] rs[j].key@ == k && record_matches(rs[j], q) {
            let j = choose|j: int| 0 <= j < rs.len() && #[trigger] rs[j].key@ == k && record_matches(rs[j], q);
            assert(i == j);
        }
    } else {
        assert(lookup(t, k) == lookup(e, k));
        lemma_lookup_none(e, k);
    }
}

/// The keys a query returns from a sorted index are strictly increasing.
pub proof fn lemma_matching_keys_sorted(s: Seq<AssetRecord>, q: QueryModel)
    requires
        sorted_keys(s),
    ensures
        forall|i: int, j: int| 0 <= i < j < matching_keys(s, q).len() ==> text_less(
            #[trigger] matching_keys(s, q)[i],
            #[trigger] matching_keys(s, q)[j],
        ),
    decreases s.len(),
{
    if s.len() > 0 {
        let d = s.drop_last();
        assert(sorted_keys(d)) by {
            assert forall|i: int, j: int| 0 <= i < j < d.len() implies text_less(#[trigger] d[i].key@, #[trigger] d[j].key@) by {
                assert(d[i] == s[i] && d[j] == s[j]);
            }
        }
        lemma_matching_keys_sorted(d, q);
        let rest = matching_keys(d, q);
        if record_matches(s.last(), q) {
            let m = matching_keys(s, q);
            assert forall|i: int, j: int| 0 <= i < j < m.len() implies text_less(#[trigger] m[i], #[trigger] m[j]) by {
                if j < rest.len() {
                    assert(m[i] == rest[i] && m[j] == rest[j]);
                } else {
                    assert(m[i] == rest[i]);
                    assert(rest.contains(rest[i]));
                    lemma_matching_keys_member(d, q, rest[i]);
                    let k = choose|k: int| 0 <= k < d.len() && #[trigger] d[k].key@ == rest[i] && record_matches(d[k], q);
                    assert(s[k] == d[k]);
                }
            }
        }
    }
}

/// A query over an index built from records with distinct keys is a linear filter of the
/// records: it returns, each once and in increasing order, the keys of exactly the records
/// that match.
pub proof fn lemma_query_is_linear_filter(rs: Seq<AssetRecord>, q: QueryModel)
    requires
        distinct_keys(rs),
    ensures
        forall|k: Seq<char>| #[trigger] matching_keys(upsert_all(Seq::<AssetRecord>::empty(), rs), q).contains(k)
            <==> exists|i: int| 0 <= i < rs.len() && #[trigger] rs[i].key@ == k && record_matches(rs[i], q),
        forall|i: int, j: int| 0 <= i < j < matching_keys(upsert_all(Seq::<AssetRecord>::empty(), rs), q).len() ==> text_less(
            #[trigger] matching_keys(upsert_all(Seq::<AssetRecord>::empty(), rs), q)[i],
            #[trigger] matching_keys(upsert_all(Seq::<AssetRecord>::empty(), rs), q)[j],
        ),
{
    assert forall|k: Seq<char>| #[trigger] matching_keys(upsert_all(Seq::<AssetRecord>::empty(), rs), q).contains(k)
        <==> exists|i: int| 0 <= i < rs.len() && #[trigger] rs[i].key@ == k && record_matches(rs[i], q) by {
        lemma_query_of_records(rs, q, k);
    }
    lemma_upsert_all_lookup(Seq::<AssetRecord>::empty(), rs);
    lemma_matching_keys_sorted(upsert_all(Seq::<AssetRecord>::empty(), rs), q);
}

/// Storing a record under a key that already holds one replaces it entirely: afterwards a
/// query finds the key exactly when the new record matches, as in an index holding only the
/// new record, whatever the old record held.
pub proof fn lemma_upsert_replaces(s: Seq<AssetRecord>, old_record: AssetRecord, new_record: AssetRecord, q: QueryModel)
    requires
        sorted_keys(s),
        old_record.key@ == new_record.key@,
    ensures
        lookup(upserted(upserted(s, old_record), new_record), new_record.key@) == Some(new_record),
        matching_keys(upserted(upserted(s, old_record), new_record), q).contains(new_record.key@) <==> record_matches(
            new_record,
            q,
        ),
        matching_keys(upserted(upserted(s, old_record), new_record), q).contains(new_record.key@) <==> matching_keys(
            upsert_all(Seq::<AssetRecord>::empty(), seq![new_record]),
            q,
        ).contains(new_record.key@),
{
    lemma_upserted(s, old_record);
    let t = upserted(s, old_record);
    lemma_upserted(t, new_record);
    let u = upserted(t, new_record);
    lemma_query_returns_matching_records(u, q, new_record.key@);
    let single = seq![new_record];
    assert(distinct_keys(single));
    lemma_query_of_records(single, q, new_record.key@);
    assert(single[0].key@ == new_record.key@);
}

// ----------------------------------------------------------------------------------------
// Executable matching.
// ----------------------------------------------------------------------------------------

fn tag_matches_exec(tags: &Vec<String>, expression: &[char]) -> (b: bool)
    ensures
        b == tag_matches(strs(tags@), expression@),
{
    let suffix = chars_of("/*");
    proof {
        reveal_strlit("/*");
    }
    if ends_with(expression, &suffix) {
        let prefix = subslice(expression, 0, expression.len() - 1);
        let mut i: usize = 0;
        while i < tags.len()
            invariant
                i <= tags.len(),
                has_suffix(expression@, "/*"@),
                "/*"@.len() == 2,
                prefix@ == expression@.subrange(0, expression@.len() - 1),
                forall|j: int| 0 <= j < i ==> !has_prefix(#[trigger] strs(tags@)[j], prefix@),
            decreases tags.len() - i,
        {
            let t = chars_of(tags[i].as_str());
            assert(strs(tags@)[i as int] == t@);
            if starts_with(&t, &prefix) {
                assert(has_prefix(strs(tags@)[i as int], expression@.subrange(0, expression@.len() - 1)));
                return true;
            }
            i = i + 1;
        }
        false
    } else {
        contains_str(tags, expression)
    }
}

fn group_matches_exec(tags: &Vec<String>, group: &Vec<String>) -> (b: bool)
    ensures
        b == group_matches(strs(tags@), strs(group@)),
{
    let mut i: usize = 0;
    while i < group.len()
        invariant
            i <= group.len(),
            forall|j: int| 0 <= j < i ==> !tag_matches(strs(tags@), #[trigger] strs(group@)[j]),
        decreases group.len() - i,
    {
        let e = chars_of(group[i].as_str());
        assert(strs(group@)[i as int] == e@);
        if tag_matches_exec(tags, &e) {
            return true;
        }
        i = i + 1;
    }
    false
}

fn tags_match_exec(r: &AssetRecord, q: &AssetQuery) -> (b: bool)
    ensures
        b == tags_match(*r, q@),
{
    let mut i: usize = 0;
    while i < q.all_tags.len()
        invariant
            i <= q.all_tags.len(),
            forall|j: int| 0 <= j < i ==> tag_matches(strs(r.tags@), #[trigger] q@.all_tags[j]),
        decreases q.all_tags.len() - i,
    {
        let e = chars_of(q.all_tags[i].as_str());
        assert(q@.all_tags[i as int] == e@);
        if !tag_matches_exec(&r.tags, &e) {
            return false;
        }
        i = i + 1;
    }
    let mut g: usize = 0;
    while g < q.any_tag_groups.len()
        invariant
            g <= q.any_tag_groups.len(),
            forall|j: int| 0 <= j < q@.all_tags.len() ==> tag_matches(strs(r.tags@), #[trigger] q@.all_tags[j]),
            forall|j: int| 0 <= j < g ==> #[trigger] group_matches(strs(r.tags@), q@.any_tag_groups[j]),
        decreases q.any_tag_groups.len() - g,
    {
        assert(q@.any_tag_groups[g as int] == strs(q.any_tag_groups@[g as int]@));
        if !group_matches_exec(&r.tags, &q.any_tag_groups[g]) {
            return false;
        }
        g = g + 1;
    }
    let mut x: usize = 0;
    while x < q.excluded_tags.len()
        invariant
            x <= q.excluded_tags.len(),
            forall|j: int| 0 <= j < q@.all_tags.len() ==> tag_matches(strs(r.tags@), #[trigger] q@.all_tags[j]),
            forall|j: int| 0 <= j < q@.any_tag_groups.len() ==> #[trigger] group_matches(strs(r.tags@), q@.any_tag_groups[j]),
            forall|j: int| 0 <= j < x ==> !tag_matches(strs(r.tags@), #[trigger] q@.excluded_tags[j]),
        decreases q.excluded_tags.len() - x,
    {
        let e = chars_of(q.excluded_tags[x].as_str());
        assert(q@.excluded_tags[x as int] == e@);
        if tag_matches_exec(&r.tags, &e) {
            return false;
        }
        x = x + 1;
    }
    true
}

fn display_dimensions_exec(r: &AssetRecord) -> (d: Option<(u32, u32)>)
    ensures
        d == display_dimensions(*r),
{
    match r.dimensions {
        None => None,
        Some(dims) => {
            let image_swaps = match &r.native_metadata {
                Some(m) => match m.orientation {
                    Some(o) => 5 <= o && o <= 8,
                    None => false,
                },
                None => false,
            };
            let video_swaps = match &r.media {
                Some(m) => match m.display_quarter_turns {
                    Some(t) => t % 2 == 1,
                    None => false,
                },
                None => false,
            };
            if image_swaps || video_swaps {
                Some((dims.height, dims.width))
            } else {
                Some((dims.width, dims.height))
            }
        },
    }
}

fn record_orientation_exec(r: &AssetRecord) -> (o: Option<Orientation>)
    ensures
        o == record_orientation(*r),
{
    match display_dimensions_exec(r) {
        Some((w, h)) => if w > h {
            Some(Orientation::Landscape)
        } else if w < h {
            Some(Orientation::Portrait)
        } else {
            Some(Orientation::Square)
        },
        None => None,
    }
}

fn media_color_space_exec(r: &AssetRecord) -> (c: Option<Vec<char>>)
    ensures
        match c {
            Some(v) => media_color_space(*r) == Some(v@),
            None => media_color_space(*r) is None,
        },
{
    match &r.media {
        Some(m) => match &m.color_space {
            Some(c) => Some(chars_of(c.as_str())),
            None => None,
        },
        None => None,
    }
}

fn media_has_alpha_exec(r: &AssetRecord) -> (a: Option<bool>)
    ensures
        a == media_has_alpha(*r),
{
    match &r.media {
        Some(m) => m.has_alpha,
        None => None,
    }
}

fn note_present_exec(r: &AssetRecord) -> (b: bool)
    ensures
        b == note_present(*r),
{
    trim(&chars_of(r.note.as_str())).len() > 0
}

fn categories_match_exec(r: &AssetRecord, q: &AssetQuery) -> (b: bool)
    ensures
        b == categories_match(*r, q@),
{
    if q.kinds.len() > 0 && !contains_member(&q.kinds, r.kind) {
        return false;
    }
    if q.extensions.len() > 0 {
        match &r.extension {
            None => {
                return false;
            },
            Some(e) => {
                let lowered = lower_chars(&chars_of(e.as_str()));
                if !contains_str(&q.extensions, &lowered) {
                    return false;
                }
            },
        }
    }
    match q.favorite {
        Some(f) => if r.favorite != f {
            return false;
        },
        None => {},
    }
    if q.root_ids.len() > 0 {
        match r.root_id {
            None => {
                return false;
            },
            Some(id) => if !contains_member(&q.root_ids, id) {
                return false;
            },
        }
    }
    if q.orientations.len() > 0 {
        match record_orientation_exec(r) {
            None => {
                return false;
            },
            Some(o) => if !contains_member(&q.orientations, o) {
                return false;
            },
        }
    }
    if q.color_spaces.len() > 0 {
        match media_color_space_exec(r) {
            None => {
                return false;
            },
            Some(c) => if !contains_str(&q.color_spaces, &c) {
                return false;
            },
        }
    }
    match q.has_note {
        Some(h) => if note_present_exec(r) != h {
            return false;
        },
        None => {},
    }
    match q.has_alpha {
        Some(NullableBoolean::Known(v)) => {
            let actual = media_has_alpha_exec(r);
            match actual {
                Some(x) => if x != v {
                    return false;
                },
                None => {
                    return false;
                },
            }
        },
        Some(NullableBoolean::Unknown) => if media_has_alpha_exec(r).is_some() {
            return false;
        },
        None => {},
    }
    true
}

fn in_range_exec<T: RangeValue>(c: &RangeConstraint<T>, v: T) -> (b: bool)
    ensures
        b == in_range(*c, v),
{
    let lower_ok = match c.lower {
        None => true,
        Some(bound) => v.is_above(&bound.value) || (bound.inclusive && !bound.value.is_above(&v)),
    };
    let upper_ok = match c.upper {
        None => true,
        Some(bound) => bound.value.is_above(&v) || (bound.inclusive && !v.is_above(&bound.value)),
    };
    lower_ok && upper_ok
}

fn integer_value_exec(r: &AssetRecord, f: IntegerField) -> (v: Option<u64>)
    ensures
        v == integer_value(*r, f),
{
    match f {
        IntegerField::Rating => Some(r.rating as u64),
        IntegerField::Size => r.size,
        IntegerField::Width => match display_dimensions_exec(r) {
            Some((w, _)) => Some(w as u64),
            None => None,
        },
        IntegerField::Height => match display_dimensions_exec(r) {
            Some((_, h)) => Some(h as u64),
            None => None,
        },
        IntegerField::Duration => match &r.media {
            Some(m) => m.duration_ms,
            None => None,
        },
        IntegerField::Pages => match &r.media {
            Some(m) => match m.page_count {
                Some(p) => Some(p as u64),
                None => None,
            },
            None => None,
        },
    }
}

fn field_unknown_exec(r: &AssetRecord, f: UnknownField) -> (b: bool)
    ensures
        b == field_unknown(*r, f),
{
    match f {
        UnknownField::Size => r.size.is_none(),
        UnknownField::Width | UnknownField::Height | UnknownField::Aspect
            | UnknownField::Orientation => display_dimensions_exec(r).is_none(),
        UnknownField::Created => r.created_unix_ms.is_none(),
        UnknownField::Modified => r.modified_unix_ms.is_none(),
        UnknownField::Duration => integer_value_exec(r, IntegerField::Duration).is_none(),
        UnknownField::Pages => integer_value_exec(r, IntegerField::Pages).is_none(),
        UnknownField::Root => r.root_id.is_none(),
        UnknownField::ColorSpace => media_color_space_exec(r).is_none(),
        UnknownField::HasAlpha => media_has_alpha_exec(r).is_none(),
    }
}

fn searchable_path_exec(r: &AssetRecord) -> (p: Vec<char>)
    ensures
        p@ == searchable_path(*r),
{
    let path = chars_of(r.relative_path.as_str());
    let mut out: Vec<char> = Vec::new();
    let mut i: usize = 0;
    while i < path.len()
        invariant
            i <= path.len(),
            out@ == path@.subrange(0, i as int).map_values(|c: char| slash_char(c)),
        decreases path.len() - i,
    {
        let c = path[i];
        out.push(if c == '\\' { '/' } else { c });
        assert(path@.subrange(0, i + 1).map_values(|c: char| slash_char(c)) =~= path@.subrange(0, i as int).map_values(|c: char| slash_char(c)).push(slash_char(c)));
        i = i + 1;
    }
    assert(path@.subrange(0, path@.len() as int) =~= path@);
    nfc_chars(&out)
}

fn ranges_match_exec(r: &AssetRecord, q: &AssetQuery) -> (b: bool)
    ensures
        b == ranges_match(*r, q@),
{
    let mut i: usize = 0;
    while i < q.integer_ranges.len()
        invariant
            i <= q.integer_ranges.len(),
            forall|j: int| 0 <= j < i ==> (integer_value(*r, #[trigger] q@.integer_ranges[j].0) matches Some(v) && in_range(q@.integer_ranges[j].1, v)),
        decreases q.integer_ranges.len() - i,
    {
        let (f, c) = q.integer_ranges[i];
        match integer_value_exec(r, f) {
            None => {
                return false;
            },
            Some(v) => if !in_range_exec(&c, v) {
                return false;
            },
        }
        i = i + 1;
    }
    let mut k: usize = 0;
    while k < q.instant_ranges.len()
        invariant
            k <= q.instant_ranges.len(),
            forall|j: int| 0 <= j < q@.integer_ranges.len() ==> (integer_value(*r, #[trigger] q@.integer_ranges[j].0) matches Some(v) && in_range(q@.integer_ranges[j].1, v)),
            forall|j: int| 0 <= j < k ==> (instant_value(*r, #[trigger] q@.instant_ranges[j].0) matches Some(v) && in_range(q@.instant_ranges[j].1, v)),
        decreases q.instant_ranges.len() - k,
    {
        let (f, c) = q.instant_ranges[k];
        let value = match f {
            InstantField::Created => r.created_unix_ms,
            InstantField::Modified => r.modified_unix_ms,
        };
        match value {
            None => {
                return false;
            },
            Some(v) => if !in_range_exec(&c, v) {
                return false;
            },
        }
        k = k + 1;
    }
    let mut m: usize = 0;
    while m < q.ratio_ranges.len()
        invariant
            m <= q.ratio_ranges.len(),
            forall|j: int| 0 <= j < q@.integer_ranges.len() ==> (integer_value(*r, #[trigger] q@.integer_ranges[j].0) matches Some(v) && in_range(q@.integer_ranges[j].1, v)),
            forall|j: int| 0 <= j < q@.instant_ranges.len() ==> (instant_value(*r, #[trigger] q@.instant_ranges[j].0) matches Some(v) && in_range(q@.instant_ranges[j].1, v)),
            forall|j: int| 0 <= j < m ==> (ratio_value(*r, #[trigger] q@.ratio_ranges[j].0) matches Some(v) && in_range(q@.ratio_ranges[j].1, v)),
        decreases q.ratio_ranges.len() - m,
    {
        let (f, c) = q.ratio_ranges[m];
        assert(q@.ratio_ranges[m as int] == (f, c));
        match display_dimensions_exec(r) {
            None => {
                assert(ratio_value(*r, q@.ratio_ranges[m as int].0) is None);
                return false;
            },
            Some((w, h)) => {
                let v = Ratio { numerator: w, denominator: h };
                assert(ratio_value(*r, q@.ratio_ranges[m as int].0) == Some(v));
                if !in_range_exec(&c, v) {
                    return false;
                }
            },
        }
        m = m + 1;
    }
    let mut u: usize = 0;
    while u < q.unknown_fields.len()
        invariant
            u <= q.unknown_fields.len(),
            forall|j: int| 0 <= j < q@.integer_ranges.len() ==> (integer_value(*r, #[trigger] q@.integer_ranges[j].0) matches Some(v) && in_range(q@.integer_ranges[j].1, v)),
            forall|j: int| 0 <= j < q@.instant_ranges.len() ==> (instant_value(*r, #[trigger] q@.instant_ranges[j].0) matches Some(v) && in_range(q@.instant_ranges[j].1, v)),
            forall|j: int| 0 <= j < q@.ratio_ranges.len() ==> (ratio_value(*r, #[trigger] q@.ratio_ranges[j].0) matches Some(v) && in_range(q@.ratio_ranges[j].1, v)),
            forall|j: int| 0 <= j < u ==> field_unknown(*r, #[trigger] q@.unknown_fields[j]),
        decreases q.unknown_fields.len() - u,
    {
        if !field_unknown_exec(r, q.unknown_fields[u]) {
            assert(!field_unknown(*r, q@.unknown_fields[u as int]));
            return false;
        }
        u = u + 1;
    }
    if q.path_contains.len() > 0 {
        let path = searchable_path_exec(r);
        let mut x: usize = 0;
        while x < q.path_contains.len()
            invariant
                x <= q.path_contains.len(),
                path@ == searchable_path(*r),
                forall|j: int| 0 <= j < x ==> has_infix(searchable_path(*r), #[trigger] q@.path_contains[j]),
            decreases q.path_contains.len() - x,
        {
            let fragment = chars_of(q.path_contains[x].as_str());
            assert(q@.path_contains[x as int] == fragment@);
            if !contains_slice(&path, &fragment) {
                return false;
            }
            x = x + 1;
        }
    }
    true
}

/// Whether a record meets every clause of a query.
pub fn record_matches_query(r: &AssetRecord, q: &AssetQuery) -> (b: bool)
    ensures
        b == record_matches(*r, q@),
{
    tags_match_exec(r, q) && categories_match_exec(r, q) && ranges_match_exec(r, q)
}

// ----------------------------------------------------------------------------------------
// The index.
// ----------------------------------------------------------------------------------------

/// Asset records by key, answering queries. The records are kept in strictly increasing
/// key order (by scalar value, the order of the keys' UTF-8 bytes), so each key has at most
/// one record and answers come in key order.
#[derive(Debug)]
pub struct AssetIndex {
    records: Vec<AssetRecord>,
}

impl AssetIndex {
    #[verifier::type_invariant]
    spec fn keys_in_order(self) -> bool {
        sorted_keys(self.records@)
    }
}

impl View for AssetIndex {
    type V = Seq<AssetRecord>;

    closed spec fn view(&self) -> Seq<AssetRecord> {
        self.records@
    }
}

/// The position of a key in the records: where it is found or would go.
fn find_position(records: &Vec<AssetRecord>, key: &[char]) -> (p: usize)
    ensures
        p == key_position(records@, key@, 0),
{
    let mut i: usize = 0;
    while i < records.len()
        invariant
            i <= records.len(),
            key_position(records@, key@, 0) == key_position(records@, key@, i as int),
        decreases records.len() - i,
    {
        let k = chars_of(records[i].key.as_str());
        match compare_text(&k, key) {
            Order3::Before => {
                i = i + 1;
            },
            _ => {
                return i;
            },
        }
    }
    i
}

fn holds_key(records: &Vec<AssetRecord>, p: usize, key: &[char]) -> (b: bool)
    ensures
        b == (p < records@.len() && records@[p as int].key@ == key@),
{
    if p < records.len() {
        let k = chars_of(records[p].key.as_str());
        crate::text::slice_eq(&k, key)
    } else {
        false
    }
}

impl AssetIndex {
    pub fn new() -> (index: AssetIndex)
        ensures
            index@ == Seq::<AssetRecord>::empty(),
            sorted_keys(index@),
    {
        AssetIndex { records: Vec::new() }
    }

    /// The index of the given records, stored one after another; a later record replaces an
    /// earlier one with the same key. When the keys are distinct, the index holds each record
    /// under its key, and a query returns the keys of exactly the records that match it, as
    /// a linear filter of the records would.
    pub fn from_records(records: Vec<AssetRecord>) -> (index: AssetIndex)
        ensures
            index@ == upsert_all(Seq::<AssetRecord>::empty(), records@),
            sorted_keys(index@),
            distinct_keys(records@) ==> forall|i: int|
                0 <= i < records@.len() ==> lookup(index@, #[trigger] records@[i].key@) == Some(records@[i]),
            distinct_keys(records@) ==> forall|q: QueryModel, k: Seq<char>| #[trigger] matching_keys(index@, q).contains(k)
                <==> exists|i: int| 0 <= i < records@.len() && #[trigger] records@[i].key@ == k && record_matches(
                records@[i],
                q,
            ),
    {
        let ghost rs = records@;
        let mut index = AssetIndex::new();
        index.upsert_each(records);
        proof {
            if distinct_keys(rs) {
                lemma_upsert_all_lookup(Seq::<AssetRecord>::empty(), rs);
                assert forall|q: QueryModel, k: Seq<char>| #[trigger] matching_keys(index@, q).contains(k) <==> exists|i: int|
                    0 <= i < rs.len() && #[trigger] rs[i].key@ == k && record_matches(rs[i], q) by {
                    lemma_query_of_records(rs, q, k);
                }
            }
        }
        index
    }

    /// Stores the given records one after another.
    pub fn upsert_each(&mut self, records: Vec<AssetRecord>)
        ensures
            final(self)@ == upsert_all(old(self)@, records@),
            sorted_keys(final(self)@),
    {
        proof {
            use_type_invariant(&*self);
        }
        let ghost original = records@;
        let ghost start = self@;
        let n = records.len();
        let mut rest = records;
        let mut reversed: Vec<AssetRecord> = Vec::new();
        while rest.len() > 0
            invariant
                n == original.len(),
                rest@ == original.subrange(0, rest@.len() as int),
                reversed@.len() + rest@.len() == n,
                forall|j: int| 0 <= j < reversed@.len() ==> #[trigger] reversed@[j] == original[n - 1 - j],
            decreases rest@.len(),
        {
            match rest.pop() {
                Some(r) => {
                    reversed.push(r);
                },
                None => {},
            }
        }
        assert(original.subrange(0, 0) =~= Seq::<AssetRecord>::empty());
        while reversed.len() > 0
            invariant
                n == original.len(),
                reversed@.len() <= n,
                forall|j: int| 0 <= j < reversed@.len() ==> #[trigger] reversed@[j] == original[n - 1 - j],
                self@ == upsert_all(start, original.subrange(0, n - reversed@.len())),
                sorted_keys(self@),
            decreases reversed@.len(),
        {
            let ghost done = n - reversed@.len();
            match reversed.pop() {
                Some(r) => {
                    assert(r == original[done]);
                    self.upsert(r);
                    assert(original.subrange(0, done + 1).drop_last() =~= original.subrange(0, done));
                    assert(original.subrange(0, done + 1).last() == original[done]);
                },
                None => {},
            }
        }
        assert(original.subrange(0, n as int) =~= original);
    }

    /// Removes every record of a root and says how many there were.
    pub fn remove_root_records(&mut self, root_id: u128) -> (removed: usize)
        ensures
            final(self)@ == without_root(old(self)@, root_id),
            removed == old(self)@.len() - final(self)@.len(),
            sorted_keys(final(self)@),
    {
        proof {
            use_type_invariant(&*self);
        }
        let ghost original = self@;
        let n = self.records.len();
        let mut records: Vec<AssetRecord> = Vec::new();
        std::mem::swap(&mut records, &mut self.records);
        let mut reversed: Vec<AssetRecord> = Vec::new();
        while records.len() > 0
            invariant
                n == original.len(),
                records@ == original.subrange(0, records@.len() as int),
                reversed@.len() + records@.len() == n,
                forall|j: int| 0 <= j < reversed@.len() ==> #[trigger] reversed@[j] == original[n - 1 - j],
            decreases records@.len(),
        {
            match records.pop() {
                Some(r) => {
                    reversed.push(r);
                },
                None => {},
            }
        }
        let mut kept: Vec<AssetRecord> = Vec::new();
        assert(original.subrange(0, 0) =~= Seq::<AssetRecord>::empty());
        while reversed.len() > 0
            invariant
                n == original.len(),
                sorted_keys(original),
                reversed@.len() <= n,
                forall|j: int| 0 <= j < reversed@.len() ==> #[trigger] reversed@[j] == original[n - 1 - j],
                kept@ == without_root(original.subrange(0, n - reversed@.len()), root_id),
                kept@.len() <= n - reversed@.len(),
                sorted_keys(kept@),
                forall|j: int, k: int| 0 <= j < kept@.len() && n - reversed@.len() <= k < n ==> text_less(
                    #[trigger] kept@[j].key@,
                    #[trigger] original[k].key@,
                ),
            decreases reversed@.len(),
        {
            let ghost done = n - reversed@.len();
            let ghost prefix = original.subrange(0, done);
            assert(original.subrange(0, done + 1).drop_last() =~= prefix);
            assert(original.subrange(0, done + 1).last() == original[done]);
            match reversed.pop() {
                Some(r) => {
                    assert(r == original[done]);
                    if r.root_id != Some(root_id) {
                        let ghost before = kept@;
                        kept.push(r);
                        assert(sorted_keys(kept@)) by {
                            assert forall|a: int, b: int| 0 <= a < b < kept@.len() implies text_less(#[trigger] kept@[a].key@, #[trigger] kept@[b].key@) by {
                                if b == kept@.len() - 1 {
                                    assert(kept@[b] == original[done]);
                                    assert(kept@[a] == before[a]);
                                } else {
                                    assert(kept@[a] == before[a] && kept@[b] == before[b]);
                                }
                            }
                        }
                        assert forall|j: int, k: int| 0 <= j < kept@.len() && done + 1 <= k < n implies text_less(
                            #[trigger] kept@[j].key@,
                            #[trigger] original[k].key@,
                        ) by {
                            if j == kept@.len() - 1 {
                                assert(kept@[j] == original[done]);
                            } else {
                                assert(kept@[j] == before[j]);
                            }
                        }
                    }
                },
                None => {},
            }
        }
        assert(original.subrange(0, n as int) =~= original);
        let removed = n - kept.len();
        self.records = kept;
        removed
    }

    pub fn len(&self) -> (n: usize)
        ensures
            n == self@.len(),
    {
        self.records.len()
    }

    pub fn is_empty(&self) -> (b: bool)
        ensures
            b == (self@.len() == 0),
    {
        self.records.len() == 0
    }

    /// Stores a record, replacing the one with the same key.
    pub fn upsert(&mut self, record: AssetRecord)
        ensures
            final(self)@ == upserted(old(self)@, record),
            sorted_keys(final(self)@),
            lookup(final(self)@, record.key@) == Some(record),
            forall|q: QueryModel| #[trigger] matching_keys(final(self)@, q).contains(record.key@) <==> record_matches(record, q),
    {
        proof {
            use_type_invariant(&*self);
            lemma_upserted(self@, record);
            assert forall|q: QueryModel| #[trigger] matching_keys(upserted(self@, record), q).contains(record.key@)
                <==> record_matches(record, q) by {
                lemma_query_returns_matching_records(upserted(self@, record), q, record.key@);
            }
        }
        let key = chars_of(record.key.as_str());
        let p = find_position(&self.records, &key);
        let found = holds_key(&self.records, p, &key);
        let mut records: Vec<AssetRecord> = Vec::new();
        std::mem::swap(&mut records, &mut self.records);
        if found {
            records.set(p, record);
        } else {
            proof {
                lemma_key_position(records@, key@, 0);
            }
            records.insert(p, record);
        }
        self.records = records;
    }

    /// Removes and returns the record of a key.
    pub fn remove(&mut self, key: &str) -> (r: Option<AssetRecord>)
        ensures
            r == lookup(old(self)@, key@),
            final(self)@ == removed(old(self)@, key@),
            sorted_keys(final(self)@),
            lookup(final(self)@, key@) is None,
    {
        proof {
            use_type_invariant(&*self);
            lemma_removed(self@, key@);
        }
        let k = chars_of(key);
        let p = find_position(&self.records, &k);
        if holds_key(&self.records, p, &k) {
            let mut records: Vec<AssetRecord> = Vec::new();
            std::mem::swap(&mut records, &mut self.records);
            let r = records.remove(p);
            self.records = records;
            Some(r)
        } else {
            None
        }
    }

    pub fn clear(&mut self)
        ensures
            final(self)@ == Seq::<AssetRecord>::empty(),
            sorted_keys(final(self)@),
    {
        self.records = Vec::new();
    }

    /// The record of a key.
    pub fn get(&self, key: &str) -> (r: Option<&AssetRecord>)
        ensures
            match r {
                Some(x) => lookup(self@, key@) == Some(*x),
                None => lookup(self@, key@) is None,
            },
            sorted_keys(self@),
    {
        proof {
            use_type_invariant(self);
        }
        let k = chars_of(key);
        let p = find_position(&self.records, &k);
        if holds_key(&self.records, p, &k) {
            Some(&self.records[p])
        } else {
            None
        }
    }

    /// The keys of the records that match the query, in key order.
    pub fn query(&self, query: &AssetQuery) -> (keys: Vec<String>)
        ensures
            strs(keys@) == matching_keys(self@, query@),
            sorted_keys(self@),
    {
        proof {
            use_type_invariant(self);
        }
        let mut keys: Vec<String> = Vec::new();
        let mut i: usize = 0;
        while i < self.records.len()
            invariant
                i <= self.records@.len(),
                strs(keys@) == matching_keys(self.records@.subrange(0, i as int), query@),
            decreases self.records@.len() - i,
        {
            let ghost sub = self.records@.subrange(0, i + 1);
            assert(sub.drop_last() =~= self.records@.subrange(0, i as int));
            let ghost before = keys@;
            if record_matches_query(&self.records[i], query) {
                keys.push(self.records[i].key.clone());
                assert(strs(keys@) =~= strs(before).push(self.records@[i as int].key@));
            }
            i = i + 1;
        }
        assert(self.records@.subrange(0, self.records@.len() as int) =~= self.records@);
        keys
    }
}

impl Default for AssetIndex {
    fn default() -> (index: AssetIndex)
        ensures
            index@ == Seq::<AssetRecord>::empty(),
    {
        AssetIndex::new()
    }
}

} // verus!
