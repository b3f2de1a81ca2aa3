//! Asset classification shared by the scanner, the catalog and the query language.
use vstd::prelude::*;

use crate::platform::{plain_extension, plain_file_name, plain_path};
use crate::text::{chars_of, has_prefix, lower_chars, lower_seq, slice_eq, starts_with, string_from};

verus! {

#[derive(Debug, Clone, Copy, PartialEq, Eq, Structural, PartialOrd, Ord, Hash)]
pub enum AssetKind {
    Image,
    Video,
    Audio,
    Pdf,
    Other,
}

/// The kind that a MIME type selects: its top-level family, or `application/pdf`.
pub open spec fn kind_for_mime(mime: Seq<char>) -> AssetKind {
    if has_prefix(mime, "image/"@) {
        AssetKind::Image
    } else if has_prefix(mime, "video/"@) {
        AssetKind::Video
    } else if has_prefix(mime, "audio/"@) {
        AssetKind::Audio
    } else if mime == "application/pdf"@ {
        AssetKind::Pdf
    } else {
        AssetKind::Other
    }
}

impl AssetKind {
    pub fn from_mime(mime: &str) -> (kind: AssetKind)
        ensures
            kind == kind_for_mime(mime@),
    {
        let m = chars_of(mime);
        if starts_with(&m, &chars_of("image/")) {
            AssetKind::Image
        } else if starts_with(&m, &chars_of("video/")) {
            AssetKind::Video
        } else if starts_with(&m, &chars_of("audio/")) {
            AssetKind::Audio
        } else if slice_eq(&m, &chars_of("application/pdf")) {
            AssetKind::Pdf
        } else {
            AssetKind::Other
        }
    }
}

#[derive(Debug, Clone, PartialEq, Eq)]
pub enum AssetIssue {
    InvalidSidecar(String),
    MismatchedSidecar(String),
    UnreadableFile(String),
    InvalidImageMetadata(String),
    InvalidNativeMetadata(String),
    MimeMismatch(String),
    UnsafeEmbeddedContent(String),
    ResourceLimited(String),
    MissingAsset,
    UnsupportedFormat,
}

#[derive(Debug, Clone, Copy, PartialEq, Eq, Structural)]
pub struct AssetDimensions {
    pub width: u32,
    pub height: u32,
}

#[derive(Debug, Clone, PartialEq, Eq)]
pub struct SidecarState {
    pub schema: u32,
    pub digest: String,
    pub size: u64,
    pub modified_unix_ms: i64,
    pub updated_at: String,
}

#[derive(Debug, Clone, PartialEq, Eq, Default)]
pub struct NativeImageMetadata {
    pub orientation: Option<u32>,
    pub captured_at: Option<String>,
    pub camera_make: Option<String>,
    pub camera_model: Option<String>,
    pub lens_model: Option<String>,
    pub software: Option<String>,
    pub artist: Option<String>,
    pub copyright: Option<String>,
}

impl NativeImageMetadata {
    /// True when no field was read from the image.
    pub open spec fn spec_is_empty(&self) -> bool {
        &&& self.orientation is None
        &&& self.captured_at is None
        &&& self.camera_make is None
        &&& self.camera_model is None
        &&& self.lens_model is None
        &&& self.software is None
        &&& self.artist is None
        &&& self.copyright is None
    }

    pub fn is_empty(&self) -> (r: bool)
        ensures
            r == self.spec_is_empty(),
    {
        self.orientation.is_none() && self.captured_at.is_none() && self.camera_make.is_none()
            && self.camera_model.is_none() && self.lens_model.is_none() && self.software.is_none()
            && self.artist.is_none() && self.copyright.is_none()
    }
}

/// Container-level properties of audio, video and document assets.
#[derive(Debug, Clone, PartialEq, Eq, Default)]
pub struct MediaProperties {
    pub duration_ms: Option<u64>,
    pub page_count: Option<u32>,
    pub color_space: Option<String>,
    pub has_alpha: Option<bool>,
    pub display_quarter_turns: Option<u32>,
    pub video_track_count: Option<u32>,
    pub audio_track_count: Option<u32>,
    pub codec: Option<String>,
    pub sample_rate_hz: Option<u32>,
    pub channel_count: Option<u32>,
    pub bit_depth: Option<u32>,
}

/// One asset as the catalog and the index know it. Identifiers are UUIDs as 128-bit
/// integers; paths are kept as text; `tags` and `aliases` are sets without duplicates.
#[derive(Debug, Clone, PartialEq, Eq)]
pub struct AssetRecord {
    pub key: String,
    pub id: Option<u128>,
    pub root_id: Option<u128>,
    pub path: String,
    pub relative_path: String,
    pub sidecar_path: Option<String>,
    pub sidecar_state: Option<SidecarState>,
    pub file_name: String,
    pub extension: Option<String>,
    pub mime: String,
    pub kind: AssetKind,
    pub size: Option<u64>,
    pub created_unix_ms: Option<i64>,
    pub modified_unix_ms: Option<i64>,
    pub file_read_only: Option<bool>,
    pub dimensions: Option<AssetDimensions>,
    pub native_metadata: Option<NativeImageMetadata>,
    pub media: Option<MediaProperties>,
    pub tags: Vec<String>,
    pub rating: u8,
    pub favorite: bool,
    pub note: String,
    pub aliases: Vec<String>,
    pub issues: Vec<AssetIssue>,
}

/// `Path::file_name` of the platform, as text (lossy). How a path splits depends on the
/// platform; for a plain path it is the final component when that is a `Normal` one.
#[verifier::external_body]
fn path_file_name(path: &str) -> (r: Option<String>)
    ensures
        plain_path(path@) ==> match plain_file_name(path@) {
            Some(n) => r matches Some(x) && x@ == n,
            None => r is None,
        },
{
    std::path::Path::new(path).file_name().map(|name| name.to_string_lossy().into_owned())
}

/// `Path::extension` of the platform, as text (lossy). How a path splits depends on the
/// platform; for a plain path it is what follows the final `.` of the file name, unless
/// that `.` is the name's first character.
#[verifier::external_body]
fn path_extension(path: &str) -> (r: Option<String>)
    ensures
        plain_path(path@) ==> match plain_extension(path@) {
            Some(e) => r matches Some(x) && x@ == e,
            None => r is None,
        },
{
    std::path::Path::new(path).extension().map(|ext| ext.to_string_lossy().into_owned())
}

impl AssetRecord {
    /// A record of a file just seen on disk: no sidecar, no user metadata, the kind from
    /// the MIME type and the extension in ASCII lower case.
    pub fn untagged(key: String, path: String, mime: String, size: u64, modified_unix_ms: i64) -> (r: AssetRecord)
        ensures
            r.key@ == key@,
            r.path@ == path@,
            r.relative_path@ == path@,
            r.mime@ == mime@,
            r.kind == kind_for_mime(mime@),
            r.size == Some(size),
            r.modified_unix_ms == Some(modified_unix_ms),
            r.extension matches Some(e) ==> e@ == lower_seq(e@),
            plain_path(path@) ==> r.file_name@ == match plain_file_name(path@) {
                Some(n) => n,
                None => Seq::<char>::empty(),
            },
            plain_path(path@) ==> match plain_extension(path@) {
                Some(e) => r.extension matches Some(x) && x@ == lower_seq(e),
                None => r.extension is None,
            },
            r.id is None && r.root_id is None && r.sidecar_path is None && r.sidecar_state is None,
            r.created_unix_ms is None && r.file_read_only is None && r.dimensions is None,
            r.native_metadata is None && r.media is None,
            r.tags@.len() == 0 && r.aliases@.len() == 0 && r.issues@.len() == 0,
            r.rating == 0 && !r.favorite && r.note@.len() == 0,
    {
        let file_name = match path_file_name(path.as_str()) {
            Some(name) => name,
            None => String::new(),
        };
        let extension = match path_extension(path.as_str()) {
            Some(ext) => {
                let lowered = lower_chars(&chars_of(ext.as_str()));
                proof {
                    assert(lower_seq(lowered@) =~= lowered@);
                }
                Some(string_from(&lowered))
            },
            None => None,
        };
        let kind = AssetKind::from_mime(mime.as_str());
        let relative_path = path.clone();
        AssetRecord {
            key,
            id: None,
            root_id: None,
            path,
            relative_path,
            sidecar_path: None,
            sidecar_state: None,
            file_name,
            extension,
            mime,
            kind,
            size: Some(size),
            created_unix_ms: None,
            modified_unix_ms: Some(modified_unix_ms),
            file_read_only: None,
            dimensions: None,
            native_metadata: None,
            media: None,
            tags: Vec::new(),
            rating: 0,
            favorite: false,
            note: String::new(),
            aliases: Vec::new(),
            issues: Vec::new(),
        }
    }
}

impl AssetRecord {
    /// A record of a file that was seen but could not be read: kept visible under the MIME
    /// type its extension names, with no size or time, and the failure as its one issue.
    pub fn unavailable(root_id: Option<u128>, path: String, relative_path: String, mime: String, message: String) -> (r: AssetRecord)
        ensures
            r.key@ == path@ && r.path@ == path@,
            r.relative_path == relative_path,
            r.root_id == root_id,
            r.mime@ == mime@,
            r.kind == kind_for_mime(mime@),
            r.size is None && r.modified_unix_ms is None,
            r.issues@ == seq![AssetIssue::UnreadableFile(message)],
            r.id is None && r.sidecar_path is None && r.sidecar_state is None,
            r.created_unix_ms is None && r.file_read_only is None && r.dimensions is None,
            r.native_metadata is None && r.media is None,
            r.tags@.len() == 0 && r.aliases@.len() == 0,
            r.rating == 0 && !r.favorite && r.note@.len() == 0,
            plain_path(path@) ==> r.file_name@ == match plain_file_name(path@) {
                Some(n) => n,
                None => Seq::<char>::empty(),
            },
            plain_path(path@) ==> match plain_extension(path@) {
                Some(e) => r.extension matches Some(x) && x@ == lower_seq(e),
                None => r.extension is None,
            },
    {
        let key = string_from(&chars_of(path.as_str()));
        let mut asset = AssetRecord::untagged(key, path, mime, 0, 0);
        asset.root_id = root_id;
        asset.relative_path = relative_path;
        asset.size = None;
        asset.modified_unix_ms = None;
        asset.issues.push(AssetIssue::UnreadableFile(message));
        assert(asset.issues@ =~= seq![AssetIssue::UnreadableFile(message)]);
        asset
    }
}

} // verus!
