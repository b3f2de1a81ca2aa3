//! Field-by-field comparison and copying of asset records: two records are the same when
//! every field holds the same value, text and lists compared by content.
use vstd::prelude::*;

use crate::asset_core::{AssetDimensions, AssetIssue, AssetRecord, MediaProperties, NativeImageMetadata, SidecarState};

verus! {

pub open spec fn texts(v: Seq<String>) -> Seq<Seq<char>> {
    v.map_values(|s: String| s@)
}

pub open spec fn same_text(a: Option<String>, b: Option<String>) -> bool {
    match (a, b) {
        (None, None) => true,
        (Some(x), Some(y)) => x@ == y@,
        _ => false,
    }
}

pub open spec fn same_issue(a: AssetIssue, b: AssetIssue) -> bool {
    match (a, b) {
        (AssetIssue::InvalidSidecar(x), AssetIssue::InvalidSidecar(y)) => x@ == y@,
        (AssetIssue::MismatchedSidecar(x), AssetIssue::MismatchedSidecar(y)) => x@ == y@,
        (AssetIssue::UnreadableFile(x), AssetIssue::UnreadableFile(y)) => x@ == y@,
        (AssetIssue::InvalidImageMetadata(x), AssetIssue::InvalidImageMetadata(y)) => x@ == y@,
        (AssetIssue::InvalidNativeMetadata(x), AssetIssue::InvalidNativeMetadata(y)) => x@ == y@,
        (AssetIssue::MimeMismatch(x), AssetIssue::MimeMismatch(y)) => x@ == y@,
        (AssetIssue::UnsafeEmbeddedContent(x), AssetIssue::UnsafeEmbeddedContent(y)) => x@ == y@,
        (AssetIssue::ResourceLimited(x), AssetIssue::ResourceLimited(y)) => x@ == y@,
        (AssetIssue::MissingAsset, AssetIssue::MissingAsset) => true,
        (AssetIssue::UnsupportedFormat, AssetIssue::UnsupportedFormat) => true,
        _ => false,
    }
}

pub open spec fn same_issues(a: Seq<AssetIssue>, b: Seq<AssetIssue>) -> bool {
    a.len() == b.len() && forall|i: int| 0 <= i < a.len() ==> same_issue(#[trigger] a[i], b[i])
}

pub open spec fn same_sidecar_state(a: Option<SidecarState>, b: Option<SidecarState>) -> bool {
    match (a, b) {
        (None, None) => true,
        (Some(x), Some(y)) => x.schema == y.schema && x.digest@ == y.digest@ && x.size == y.size && x.modified_unix_ms
            == y.modified_unix_ms && x.updated_at@ == y.updated_at@,
        _ => false,
    }
}

pub open spec fn same_native(a: Option<NativeImageMetadata>, b: Option<NativeImageMetadata>) -> bool {
    match (a, b) {
        (None, None) => true,
        (Some(x), Some(y)) => {
            &&& x.orientation == y.orientation
            &&& same_text(x.captured_at, y.captured_at)
            &&& same_text(x.camera_make, y.camera_make)
            &&& same_text(x.camera_model, y.camera_model)
            &&& same_text(x.lens_model, y.lens_model)
            &&& same_text(x.software, y.software)
            &&& same_text(x.artist, y.artist)
            &&& same_text(x.copyright, y.copyright)
        },
        _ => false,
    }
}

pub open spec fn same_media(a: Option<MediaProperties>, b: Option<MediaProperties>) -> bool {
    match (a, b) {
        (None, None) => true,
        (Some(x), Some(y)) => {
            &&& x.duration_ms == y.duration_ms
            &&& x.page_count == y.page_count
            &&& same_text(x.color_space, y.color_space)
            &&& x.has_alpha == y.has_alpha
            &&& x.display_quarter_turns == y.display_quarter_turns
            &&& x.video_track_count == y.video_track_count
            &&& x.audio_track_count == y.audio_track_count
            &&& same_text(x.codec, y.codec)
            &&& x.sample_rate_hz == y.sample_rate_hz
            &&& x.channel_count == y.channel_count
            &&& x.bit_depth == y.bit_depth
        },
        _ => false,
    }
}

/// Two records hold the same values in every field.
pub open spec fn same_record(a: AssetRecord, b: AssetRecord) -> bool {
    &&& a.key@ == b.key@
    &&& a.id == b.id
    &&& a.root_id == b.root_id
    &&& a.path@ == b.path@
    &&& a.relative_path@ == b.relative_path@
    &&& same_text(a.sidecar_path, b.sidecar_path)
    &&& same_sidecar_state(a.sidecar_state, b.sidecar_state)
    &&& a.file_name@ == b.file_name@
    &&& same_text(a.extension, b.extension)
    &&& a.mime@ == b.mime@
    &&& a.kind == b.kind
    &&& a.size == b.size
    &&& a.created_unix_ms == b.created_unix_ms
    &&& a.modified_unix_ms == b.modified_unix_ms
    &&& a.file_read_only == b.file_read_only
    &&& a.dimensions == b.dimensions
    &&& same_native(a.native_metadata, b.native_metadata)
    &&& same_media(a.media, b.media)
    &&& texts(a.tags@) == texts(b.tags@)
    &&& a.rating == b.rating
    &&& a.favorite == b.favorite
    &&& a.note@ == b.note@
    &&& texts(a.aliases@) == texts(b.aliases@)
    &&& same_issues(a.issues@, b.issues@)
}

fn text_eq(a: &String, b: &String) -> (r: bool)
    ensures
        r == (a@ == b@),
{
    crate::text::slice_eq(&crate::text::chars_of(a.as_str()), &crate::text::chars_of(b.as_str()))
}

fn copy_text(s: &String) -> (r: String)
    ensures
        r@ == s@,
{
    crate::text::string_from(&crate::text::chars_of(s.as_str()))
}

fn opt_text_eq(a: &Option<String>, b: &Option<String>) -> (r: bool)
    ensures
        r == same_text(*a, *b),
{
    match (a, b) {
        (None, None) => true,
        (Some(x), Some(y)) => text_eq(x, y),
        _ => false,
    }
}

fn copy_opt_text(a: &Option<String>) -> (r: Option<String>)
    ensures
        same_text(r, *a),
{
    match a {
        None => None,
        Some(x) => Some(copy_text(x)),
    }
}

fn opt_eq_u32(a: Option<u32>, b: Option<u32>) -> (r: bool)
    ensures
        r == (a == b),
{
    match (a, b) {
        (None, None) => true,
        (Some(x), Some(y)) => x == y,
        _ => false,
    }
}

fn opt_eq_u64(a: Option<u64>, b: Option<u64>) -> (r: bool)
    ensures
        r == (a == b),
{
    match (a, b) {
        (None, None) => true,
        (Some(x), Some(y)) => x == y,
        _ => false,
    }
}

fn opt_eq_i64(a: Option<i64>, b: Option<i64>) -> (r: bool)
    ensures
        r == (a == b),
{
    match (a, b) {
        (None, None) => true,
        (Some(x), Some(y)) => x == y,
        _ => false,
    }
}

fn opt_eq_u128(a: Option<u128>, b: Option<u128>) -> (r: bool)
    ensures
        r == (a == b),
{
    match (a, b) {
        (None, None) => true,
        (Some(x), Some(y)) => x == y,
        _ => false,
    }
}

fn opt_eq_bool(a: Option<bool>, b: Option<bool>) -> (r: bool)
    ensures
        r == (a == b),
{
    match (a, b) {
        (None, None) => true,
        (Some(x), Some(y)) => x == y,
        _ => false,
    }
}

fn opt_eq_dims(a: Option<AssetDimensions>, b: Option<AssetDimensions>) -> (r: bool)
    ensures
        r == (a == b),
{
    match (a, b) {
        (None, None) => true,
        (Some(x), Some(y)) => x == y,
        _ => false,
    }
}


fn texts_eq(a: &Vec<String>, b: &Vec<String>) -> (r: bool)
    ensures
        r == (texts(a@) == texts(b@)),
{
    if a.len() != b.len() {
        assert(texts(a@).len() != texts(b@).len());
        return false;
    }
    let mut i: usize = 0;
    while i < a.len()
        invariant
            i <= a@.len(),
            a@.len() == b@.len(),
            forall|j: int| 0 <= j < i ==> a@[j]@ == b@[j]@,
        decreases a@.len() - i,
    {
        if !text_eq(&a[i], &b[i]) {
            assert(texts(a@)[i as int] != texts(b@)[i as int]);
            return false;
        }
        i = i + 1;
    }
    assert(texts(a@) =~= texts(b@));
    true
}

fn copy_texts(v: &Vec<String>) -> (r: Vec<String>)
    ensures
        texts(r@) == texts(v@),
{
    let mut r: Vec<String> = Vec::new();
    let mut i: usize = 0;
    while i < v.len()
        invariant
            i <= v@.len(),
            r@.len() == i,
            forall|j: int| 0 <= j < i ==> r@[j]@ == v@[j]@,
        decreases v@.len() - i,
    {
        r.push(copy_text(&v[i]));
        i = i + 1;
    }
    assert(texts(r@) =~= texts(v@));
    r
}

fn issue_eq(a: &AssetIssue, b: &AssetIssue) -> (r: bool)
    ensures
        r == same_issue(*a, *b),
{
    match (a, b) {
        (AssetIssue::InvalidSidecar(x), AssetIssue::InvalidSidecar(y)) => text_eq(x, y),
        (AssetIssue::MismatchedSidecar(x), AssetIssue::MismatchedSidecar(y)) => text_eq(x, y),
        (AssetIssue::UnreadableFile(x), AssetIssue::UnreadableFile(y)) => text_eq(x, y),
        (AssetIssue::InvalidImageMetadata(x), AssetIssue::InvalidImageMetadata(y)) => text_eq(x, y),
        (AssetIssue::InvalidNativeMetadata(x), AssetIssue::InvalidNativeMetadata(y)) => text_eq(x, y),
        (AssetIssue::MimeMismatch(x), AssetIssue::MimeMismatch(y)) => text_eq(x, y),
        (AssetIssue::UnsafeEmbeddedContent(x), AssetIssue::UnsafeEmbeddedContent(y)) => text_eq(x, y),
        (AssetIssue::ResourceLimited(x), AssetIssue::ResourceLimited(y)) => text_eq(x, y),
        (AssetIssue::MissingAsset, AssetIssue::MissingAsset) => true,
        (AssetIssue::UnsupportedFormat, AssetIssue::UnsupportedFormat) => true,
        _ => false,
    }
}

fn copy_issue(a: &AssetIssue) -> (r: AssetIssue)
    ensures
        same_issue(r, *a),
{
    match a {
        AssetIssue::InvalidSidecar(x) => AssetIssue::InvalidSidecar(copy_text(x)),
        AssetIssue::MismatchedSidecar(x) => AssetIssue::MismatchedSidecar(copy_text(x)),
        AssetIssue::UnreadableFile(x) => AssetIssue::UnreadableFile(copy_text(x)),
        AssetIssue::InvalidImageMetadata(x) => AssetIssue::InvalidImageMetadata(copy_text(x)),
        AssetIssue::InvalidNativeMetadata(x) => AssetIssue::InvalidNativeMetadata(copy_text(x)),
        AssetIssue::MimeMismatch(x) => AssetIssue::MimeMismatch(copy_text(x)),
        AssetIssue::UnsafeEmbeddedContent(x) => AssetIssue::UnsafeEmbeddedContent(copy_text(x)),
        AssetIssue::ResourceLimited(x) => AssetIssue::ResourceLimited(copy_text(x)),
        AssetIssue::MissingAsset => AssetIssue::MissingAsset,
        AssetIssue::UnsupportedFormat => AssetIssue::UnsupportedFormat,
    }
}

fn issues_eq(a: &Vec<AssetIssue>, b: &Vec<AssetIssue>) -> (r: bool)
    ensures
        r == same_issues(a@, b@),
{
    if a.len() != b.len() {
        return false;
    }
    let mut i: usize = 0;
    while i < a.len()
        invariant
            i <= a@.len(),
            a@.len() == b@.len(),
            forall|j: int| 0 <= j < i ==> same_issue(#[trigger] a@[j], b@[j]),
        decreases a@.len() - i,
    {
        if !issue_eq(&a[i], &b[i]) {
            return false;
        }
        i = i + 1;
    }
    true
}

fn copy_issues(v: &Vec<AssetIssue>) -> (r: Vec<AssetIssue>)
    ensures
        same_issues(r@, v@),
{
    let mut r: Vec<AssetIssue> = Vec::new();
    let mut i: usize = 0;
    while i < v.len()
        invariant
            i <= v@.len(),
            r@.len() == i,
            forall|j: int| 0 <= j < i ==> same_issue(#[trigger] r@[j], v@[j]),
        decreases v@.len() - i,
    {
        r.push(copy_issue(&v[i]));
        i = i + 1;
    }
    r
}

fn sidecar_state_eq(a: &Option<SidecarState>, b: &Option<SidecarState>) -> (r: bool)
    ensures
        r == same_sidecar_state(*a, *b),
{
    match (a, b) {
        (None, None) => true,
        (Some(x), Some(y)) => x.schema == y.schema && text_eq(&x.digest, &y.digest) && x.size == y.size
            && x.modified_unix_ms == y.modified_unix_ms && text_eq(&x.updated_at, &y.updated_at),
        _ => false,
    }
}

fn copy_sidecar_state(a: &Option<SidecarState>) -> (r: Option<SidecarState>)
    ensures
        same_sidecar_state(r, *a),
{
    match a {
        None => None,
        Some(x) => Some(SidecarState {
            schema: x.schema,
            digest: copy_text(&x.digest),
            size: x.size,
            modified_unix_ms: x.modified_unix_ms,
            updated_at: copy_text(&x.updated_at),
        }),
    }
}

fn native_eq(a: &Option<NativeImageMetadata>, b: &Option<NativeImageMetadata>) -> (r: bool)
    ensures
        r == same_native(*a, *b),
{
    match (a, b) {
        (None, None) => true,
        (Some(x), Some(y)) => opt_eq_u32(x.orientation, y.orientation)
            && opt_text_eq(&x.captured_at, &y.captured_at)
            && opt_text_eq(&x.camera_make, &y.camera_make)
            && opt_text_eq(&x.camera_model, &y.camera_model)
            && opt_text_eq(&x.lens_model, &y.lens_model)
            && opt_text_eq(&x.software, &y.software)
            && opt_text_eq(&x.artist, &y.artist)
            && opt_text_eq(&x.copyright, &y.copyright)
        ,
        _ => false,
    }
}

fn copy_native(a: &Option<NativeImageMetadata>) -> (r: Option<NativeImageMetadata>)
    ensures
        same_native(r, *a),
{
    match a {
        None => None,
        Some(x) => Some(NativeImageMetadata {
            orientation: x.orientation,
            captured_at: copy_opt_text(&x.captured_at),
            camera_make: copy_opt_text(&x.camera_make),
            camera_model: copy_opt_text(&x.camera_model),
            lens_model: copy_opt_text(&x.lens_model),
            software: copy_opt_text(&x.software),
            artist: copy_opt_text(&x.artist),
            copyright: copy_opt_text(&x.copyright),
        }),
    }
}

fn media_eq(a: &Option<MediaProperties>, b: &Option<MediaProperties>) -> (r: bool)
    ensures
        r == same_media(*a, *b),
{
    match (a, b) {
        (None, None) => true,
        (Some(x), Some(y)) => true
            && opt_eq_u64(x.duration_ms, y.duration_ms)
            && opt_eq_u32(x.page_count, y.page_count)
            && opt_text_eq(&x.color_space, &y.color_space)
            && opt_eq_bool(x.has_alpha, y.has_alpha)
            && opt_eq_u32(x.display_quarter_turns, y.display_quarter_turns)
            && opt_eq_u32(x.video_track_count, y.video_track_count)
            && opt_eq_u32(x.audio_track_count, y.audio_track_count)
            && opt_text_eq(&x.codec, &y.codec)
            && opt_eq_u32(x.sample_rate_hz, y.sample_rate_hz)
            && opt_eq_u32(x.channel_count, y.channel_count)
            && opt_eq_u32(x.bit_depth, y.bit_depth)
        ,
        _ => false,
    }
}

fn copy_media(a: &Option<MediaProperties>) -> (r: Option<MediaProperties>)
    ensures
        same_media(r, *a),
{
    match a {
        None => None,
        Some(x) => Some(MediaProperties {
            duration_ms: x.duration_ms,
            page_count: x.page_count,
            color_space: copy_opt_text(&x.color_space),
            has_alpha: x.has_alpha,
            display_quarter_turns: x.display_quarter_turns,
            video_track_count: x.video_track_count,
            audio_track_count: x.audio_track_count,
            codec: copy_opt_text(&x.codec),
            sample_rate_hz: x.sample_rate_hz,
            channel_count: x.channel_count,
            bit_depth: x.bit_depth,
        }),
    }
}

/// Whether two records hold the same values in every field.
pub fn records_same(a: &AssetRecord, b: &AssetRecord) -> (r: bool)
    ensures
        r == same_record(*a, *b),
{
    text_eq(&a.key, &b.key) && opt_eq_u128(a.id, b.id) && opt_eq_u128(a.root_id, b.root_id) && text_eq(&a.path, &b.path)
        && text_eq(&a.relative_path, &b.relative_path) && opt_text_eq(&a.sidecar_path, &b.sidecar_path)
        && sidecar_state_eq(&a.sidecar_state, &b.sidecar_state) && text_eq(&a.file_name, &b.file_name)
        && opt_text_eq(&a.extension, &b.extension) && text_eq(&a.mime, &b.mime) && a.kind == b.kind
        && opt_eq_u64(a.size, b.size) && opt_eq_i64(a.created_unix_ms, b.created_unix_ms) && opt_eq_i64(
        a.modified_unix_ms,
        b.modified_unix_ms,
    ) && opt_eq_bool(a.file_read_only, b.file_read_only) && opt_eq_dims(a.dimensions, b.dimensions) && native_eq(
        &a.native_metadata,
        &b.native_metadata,
    ) && media_eq(&a.media, &b.media) && texts_eq(&a.tags, &b.tags) && a.rating == b.rating && a.favorite
        == b.favorite && text_eq(&a.note, &b.note) && texts_eq(&a.aliases, &b.aliases) && issues_eq(
        &a.issues,
        &b.issues,
    )
}

/// A copy of a record, field by field.
pub fn copy_record(a: &AssetRecord) -> (r: AssetRecord)
    ensures
        same_record(r, *a),
{
    AssetRecord {
        key: copy_text(&a.key),
        id: a.id,
        root_id: a.root_id,
        path: copy_text(&a.path),
        relative_path: copy_text(&a.relative_path),
        sidecar_path: copy_opt_text(&a.sidecar_path),
        sidecar_state: copy_sidecar_state(&a.sidecar_state),
        file_name: copy_text(&a.file_name),
        extension: copy_opt_text(&a.extension),
        mime: copy_text(&a.mime),
        kind: a.kind,
        size: a.size,
        created_unix_ms: a.created_unix_ms,
        modified_unix_ms: a.modified_unix_ms,
        file_read_only: a.file_read_only,
        dimensions: a.dimensions,
        native_metadata: copy_native(&a.native_metadata),
        media: copy_media(&a.media),
        tags: copy_texts(&a.tags),
        rating: a.rating,
        favorite: a.favorite,
        note: copy_text(&a.note),
        aliases: copy_texts(&a.aliases),
        issues: copy_issues(&a.issues),
    }
}

} // verus!
