//! The decisions of a library scan: its options, which entries it visits and keeps, when
//! it hands out a batch, how each file is enriched according to its format, which issues
//! the enrichment steps record, and how an adjacent Sidecar's user metadata is merged.
//!
//! Walking directories, reading files and parsing formats stay with the caller, which
//! hands in what it found.
use std::sync::atomic::AtomicBool;
use std::sync::Arc;

use vstd::prelude::*;

use crate::asset_core::{AssetDimensions, AssetIssue, AssetRecord, SidecarState};
use crate::diagnostics::{decimal, decimal_text_u64};
use crate::library::{sorted_texts, text_set};
use crate::query_model::strs;
use crate::text::{chars_of, concat, ends_with, has_suffix, slice_eq, string_from};

verus! {

/// How a scan walks a root and bounds the work it does per file.
#[derive(Debug, Clone, PartialEq, Eq)]
pub struct ScanOptions {
    pub recursive: bool,
    pub ignore_hidden: bool,
    pub ignore: Vec<String>,
    pub batch_size: usize,
    pub max_native_metadata_bytes: u64,
    pub max_sidecar_bytes: u64,
    pub file_parse_timeout_ms: u64,
}

impl Default for ScanOptions {
    /// Recursive, skipping hidden entries, 64 files per batch, 256 MiB of native metadata,
    /// 4 MiB of Sidecar and five seconds per file.
    fn default() -> (o: ScanOptions)
        ensures
            o.recursive && o.ignore_hidden && o.ignore@.len() == 0,
            o.batch_size == 64,
            o.max_native_metadata_bytes == 268435456,
            o.max_sidecar_bytes == 4194304,
            o.file_parse_timeout_ms == 5000,
    {
        ScanOptions {
            recursive: true,
            ignore_hidden: true,
            ignore: Vec::new(),
            batch_size: 64,
            max_native_metadata_bytes: 268435456,
            max_sidecar_bytes: 4194304,
            file_parse_timeout_ms: 5000,
        }
    }
}

/// A path the scan could not take in, and why.
#[derive(Debug, Clone, PartialEq, Eq)]
pub struct ScanProblem {
    pub path: String,
    pub message: String,
}

#[derive(Debug, Clone, Copy, PartialEq, Eq, Structural)]
pub enum ScanCompletion {
    Completed,
    Cancelled,
}

/// A cancellation flag shared by a scan and whoever may stop it. Another holder may set it
/// at any time, so nothing is claimed of what a read returns.
#[derive(Debug, Clone)]
pub struct ScanCancellation {
    cancelled: Arc<AtomicBool>,
}

impl ScanCancellation {
    pub fn new() -> (c: ScanCancellation) {
        ScanCancellation { cancelled: Arc::new(AtomicBool::new(false)) }
    }

    pub fn cancel(&self) {
        self.cancelled.store(true, std::sync::atomic::Ordering::Release);
    }

    pub fn is_cancelled(&self) -> (b: bool) {
        self.cancelled.load(std::sync::atomic::Ordering::Acquire)
    }
}

impl Default for ScanCancellation {
    fn default() -> (c: ScanCancellation) {
        ScanCancellation::new()
    }
}

/// How a scan ended.
pub fn completion_for(cancelled: bool) -> (c: ScanCompletion)
    ensures
        c == if cancelled { ScanCompletion::Cancelled } else { ScanCompletion::Completed },
{
    if cancelled {
        ScanCompletion::Cancelled
    } else {
        ScanCompletion::Completed
    }
}

// ----------------------------------------------------------------------------------------
// Walking.
// ----------------------------------------------------------------------------------------

/// The metadata files of the library itself: Sidecars and the root marker.
pub open spec fn metadata_file_name(name: Seq<char>) -> bool {
    has_suffix(name, ".asset.yml"@) || name == ".asset-library.yml"@
}

pub fn is_metadata_file_name(name: &str) -> (b: bool)
    ensures
        b == metadata_file_name(name@),
{
    let n = chars_of(name);
    ends_with(&n, &chars_of(".asset.yml")) || slice_eq(&n, &chars_of(".asset-library.yml"))
}

/// A walked entry is visited: the root itself always; below it, hidden names are skipped
/// when asked, and so is whatever the ignore rules match.
pub open spec fn visits(depth: nat, name: Seq<char>, ignore_hidden: bool, ignored: bool) -> bool {
    depth == 0 || (!(ignore_hidden && name.len() > 0 && name[0] == '.') && !ignored)
}

pub fn should_visit_entry(depth: usize, name: &str, ignore_hidden: bool, ignored: bool) -> (b: bool)
    ensures
        b == visits(depth as nat, name@, ignore_hidden, ignored),
{
    if depth == 0 {
        return true;
    }
    let n = chars_of(name);
    if ignore_hidden && n.len() > 0 && n[0] == '.' {
        return false;
    }
    !ignored
}

/// What a walked entry turned out to be.
#[derive(Debug, Clone, PartialEq, Eq)]
pub enum WalkEntry {
    /// A regular file, with its file name.
    File(String),
    Symlink,
    Other,
    /// The walk failed there, with the failure's message.
    Failed(String),
}

/// What a scan does with a walked entry.
#[derive(Debug, Clone, PartialEq, Eq)]
pub enum EntryAction {
    /// Parse the file in the next batch.
    Parse,
    /// Report a problem at the entry's path.
    Problem(String),
    Skip,
}

pub open spec fn entry_action_spec(entry: WalkEntry) -> Option<Seq<char>> {
    match entry {
        WalkEntry::Symlink => Some("symbolic link skipped because link traversal is disabled"@),
        WalkEntry::Failed(m) => Some(m@),
        _ => None,
    }
}

pub fn entry_action(entry: &WalkEntry) -> (a: EntryAction)
    ensures
        match *entry {
            WalkEntry::File(name) => if metadata_file_name(name@) { a == EntryAction::Skip } else { a == EntryAction::Parse },
            WalkEntry::Other => a == EntryAction::Skip,
            _ => a matches EntryAction::Problem(m) && Some(m@) == entry_action_spec(*entry),
        },
{
    match entry {
        WalkEntry::File(name) => if is_metadata_file_name(name.as_str()) {
            EntryAction::Skip
        } else {
            EntryAction::Parse
        },
        WalkEntry::Symlink => EntryAction::Problem(string_from(&chars_of("symbolic link skipped because link traversal is disabled"))),
        WalkEntry::Other => EntryAction::Skip,
        WalkEntry::Failed(message) => EntryAction::Problem(string_from(&chars_of(message.as_str()))),
    }
}

/// A batch is handed out once either its paths or its problems reach the batch size.
pub fn batch_due(paths: usize, problems: usize, batch_size: usize) -> (b: bool)
    ensures
        b == (paths >= batch_size || problems >= batch_size),
{
    paths >= batch_size || problems >= batch_size
}

/// Why a scan does not start.
#[derive(Debug, Clone, PartialEq, Eq)]
pub enum ScanRefusal {
    /// Batches must hold at least one entry.
    InvalidBatchSize,
    /// The root is not a directory.
    InvalidRoot(String),
}

/// Whether a scan may start: a batch size of at least one, then a root that is a directory.
pub fn check_scan_start(batch_size: usize, root_is_dir: bool, root: &str) -> (r: Result<(), ScanRefusal>)
    ensures
        batch_size == 0 ==> r == Err::<(), ScanRefusal>(ScanRefusal::InvalidBatchSize),
        batch_size > 0 && !root_is_dir ==> (r matches Err(ScanRefusal::InvalidRoot(p)) && p@ == root@),
        batch_size > 0 && root_is_dir ==> r is Ok,
{
    if batch_size == 0 {
        return Err(ScanRefusal::InvalidBatchSize);
    }
    if !root_is_dir {
        return Err(ScanRefusal::InvalidRoot(string_from(&chars_of(root))));
    }
    Ok(())
}

/// What a scan has counted so far: the sequence number of its next batch, the files it
/// visited, and the assets and problems it handed out.
#[derive(Debug, Clone, Copy, PartialEq, Eq, Structural)]
pub struct ScanTally {
    pub sequence: usize,
    pub visited_files: usize,
    pub asset_count: usize,
    pub problem_count: usize,
}

impl ScanTally {
    pub fn new() -> (t: ScanTally)
        ensures
            t.sequence == 0 && t.visited_files == 0 && t.asset_count == 0 && t.problem_count == 0,
    {
        ScanTally { sequence: 0, visited_files: 0, asset_count: 0, problem_count: 0 }
    }

    /// Counts a walked entry: a file to parse is a visited file.
    pub fn record_entry(&mut self, action: &EntryAction)
        requires
            old(self).visited_files < usize::MAX,
        ensures
            final(self).visited_files == old(self).visited_files + if *action == EntryAction::Parse { 1int } else { 0int },
            final(self).sequence == old(self).sequence,
            final(self).asset_count == old(self).asset_count,
            final(self).problem_count == old(self).problem_count,
    {
        match action {
            EntryAction::Parse => {
                self.visited_files = self.visited_files + 1;
            },
            _ => {},
        }
    }

    /// Counts a batch that was handed out. A batch handed out during the walk moves the
    /// sequence on, and unless the scan was cancelled the root must then be found still
    /// available; the last batch, after the walk, does neither.
    pub fn record_batch(&mut self, assets: usize, problems: usize, cancelled: bool, last: bool) -> (check_root: bool)
        requires
            old(self).asset_count + assets <= usize::MAX,
            old(self).problem_count + problems <= usize::MAX,
            old(self).sequence < usize::MAX,
        ensures
            final(self).asset_count == old(self).asset_count + assets,
            final(self).problem_count == old(self).problem_count + problems,
            final(self).visited_files == old(self).visited_files,
            final(self).sequence == if last { old(self).sequence as int } else { old(self).sequence + 1 },
            check_root == (!cancelled && !last),
    {
        self.asset_count = self.asset_count + assets;
        self.problem_count = self.problem_count + problems;
        if !last {
            self.sequence = self.sequence + 1;
        }
        !cancelled && !last
    }

    /// How the scan ended, and whether the root must be found still available first.
    pub fn finish(&self, cancelled: bool) -> (r: (ScanCompletion, bool))
        ensures
            r.0 == if cancelled { ScanCompletion::Cancelled } else { ScanCompletion::Completed },
            r.1 == !cancelled,
    {
        (completion_for(cancelled), !cancelled)
    }
}

/// Whether the walk left anything for a last batch.
pub fn last_batch_due(paths: usize, problems: usize) -> (b: bool)
    ensures
        b == (paths > 0 || problems > 0),
{
    paths > 0 || problems > 0
}

// ----------------------------------------------------------------------------------------
// Enriching one file.
// ----------------------------------------------------------------------------------------

#[derive(Debug, Clone, Copy, PartialEq, Eq, Structural)]
pub enum VideoContainer {
    Mp4,
    Mov,
    Webm,
}

#[derive(Debug, Clone, Copy, PartialEq, Eq, Structural)]
pub enum AudioContainer {
    Mp3,
    Wav,
    Flac,
}

/// Which enrichment a format gets.
#[derive(Debug, Clone, Copy, PartialEq, Eq, Structural)]
pub enum Enrichment {
    RasterDimensions,
    Svg,
    Video(VideoContainer),
    Audio(AudioContainer),
    Nothing,
}

pub open spec fn enrichment_spec(mime: Seq<char>) -> Enrichment {
    if mime == "image/png"@ || mime == "image/jpeg"@ || mime == "image/gif"@ || mime == "image/webp"@ {
        Enrichment::RasterDimensions
    } else if mime == "image/svg+xml"@ {
        Enrichment::Svg
    } else if mime == "video/mp4"@ {
        Enrichment::Video(VideoContainer::Mp4)
    } else if mime == "video/quicktime"@ {
        Enrichment::Video(VideoContainer::Mov)
    } else if mime == "video/webm"@ {
        Enrichment::Video(VideoContainer::Webm)
    } else if mime == "audio/mpeg"@ {
        Enrichment::Audio(AudioContainer::Mp3)
    } else if mime == "audio/wav"@ {
        Enrichment::Audio(AudioContainer::Wav)
    } else if mime == "audio/flac"@ {
        Enrichment::Audio(AudioContainer::Flac)
    } else {
        Enrichment::Nothing
    }
}

proof fn lemma_texts_differ(a: Seq<char>, b: Seq<char>, k: int)
    requires
        a.len() != b.len() || (0 <= k < a.len() && k < b.len() && a[k] != b[k]),
    ensures
        a != b,
{
}

/// The enrichment of each registered format, whatever its place in the registry: the
/// raster images whose dimensions are read from the file (PNG, JPEG, GIF and WebP) are
/// exactly the registered images other than SVG and the HEIF family (AVIF, HEIC, HEIF);
/// SVG gets its own enrichment, every video format a video container and every audio
/// format an audio container.
pub proof fn lemma_registered_enrichment()
    ensures
        forall|i: int|
            0 <= i < crate::formats::spec_registry().len() ==> {
                let d = #[trigger] crate::formats::spec_registry()[i];
                &&& (enrichment_spec(d.mime@) is RasterDimensions <==> (d.kind == crate::asset_core::AssetKind::Image
                    && d.id@ != "svg"@ && d.id@ != "avif"@ && d.id@ != "heic"@ && d.id@ != "heif"@))
                &&& (d.id@ == "svg"@ ==> enrichment_spec(d.mime@) is Svg)
                &&& (d.kind == crate::asset_core::AssetKind::Video ==> enrichment_spec(d.mime@) is Video)
                &&& (d.kind == crate::asset_core::AssetKind::Audio ==> enrichment_spec(d.mime@) is Audio)
            },
{
    reveal_strlit("application/pdf");
    reveal_strlit("audio/flac");
    reveal_strlit("audio/mpeg");
    reveal_strlit("audio/wav");
    reveal_strlit("avif");
    reveal_strlit("flac");
    reveal_strlit("gif");
    reveal_strlit("heic");
    reveal_strlit("heif");
    reveal_strlit("image/avif");
    reveal_strlit("image/gif");
    reveal_strlit("image/heic");
    reveal_strlit("image/heif");
    reveal_strlit("image/jpeg");
    reveal_strlit("image/png");
    reveal_strlit("image/svg+xml");
    reveal_strlit("image/webp");
    reveal_strlit("jpeg");
    reveal_strlit("mov");
    reveal_strlit("mp3");
    reveal_strlit("mp4");
    reveal_strlit("pdf");
    reveal_strlit("png");
    reveal_strlit("svg");
    reveal_strlit("video/mp4");
    reveal_strlit("video/quicktime");
    reveal_strlit("video/webm");
    reveal_strlit("wav");
    reveal_strlit("webm");
    reveal_strlit("webp");
    lemma_texts_differ("image/png"@, "image/jpeg"@, -1);
    lemma_texts_differ("image/png"@, "image/gif"@, 6);
    lemma_texts_differ("image/png"@, "image/webp"@, -1);
    lemma_texts_differ("image/png"@, "image/svg+xml"@, -1);
    lemma_texts_differ("image/png"@, "image/avif"@, -1);
    lemma_texts_differ("image/png"@, "image/heic"@, -1);
    lemma_texts_differ("image/png"@, "image/heif"@, -1);
    lemma_texts_differ("image/png"@, "video/mp4"@, 0);
    lemma_texts_differ("image/png"@, "video/quicktime"@, -1);
    lemma_texts_differ("image/png"@, "video/webm"@, -1);
    lemma_texts_differ("image/png"@, "audio/mpeg"@, -1);
    lemma_texts_differ("image/png"@, "audio/wav"@, 0);
    lemma_texts_differ("image/png"@, "audio/flac"@, -1);
    lemma_texts_differ("image/png"@, "application/pdf"@, -1);
    lemma_texts_differ("image/jpeg"@, "image/gif"@, -1);
    lemma_texts_differ("image/jpeg"@, "image/webp"@, 6);
    lemma_texts_differ("image/jpeg"@, "image/svg+xml"@, -1);
    lemma_texts_differ("image/jpeg"@, "image/avif"@, 6);
    lemma_texts_differ("image/jpeg"@, "image/heic"@, 6);
    lemma_texts_differ("image/jpeg"@, "image/heif"@, 6);
    lemma_texts_differ("image/jpeg"@, "video/mp4"@, -1);
    lemma_texts_differ("image/jpeg"@, "video/quicktime"@, -1);
    lemma_texts_differ("image/jpeg"@, "video/webm"@, 0);
    lemma_texts_differ("image/jpeg"@, "audio/mpeg"@, 0);
    lemma_texts_differ("image/jpeg"@, "audio/wav"@, -1);
    lemma_texts_differ("image/jpeg"@, "audio/flac"@, 0);
    lemma_texts_differ("image/jpeg"@, "application/pdf"@, -1);
    lemma_texts_differ("image/gif"@, "image/webp"@, -1);
    lemma_texts_differ("image/gif"@, "image/svg+xml"@, -1);
    lemma_texts_differ("image/gif"@, "image/avif"@, -1);
    lemma_texts_differ("image/gif"@, "image/heic"@, -1);
    lemma_texts_differ("image/gif"@, "image/heif"@, -1);
    lemma_texts_differ("image/gif"@, "video/mp4"@, 0);
    lemma_texts_differ("image/gif"@, "video/quicktime"@, -1);
    lemma_texts_differ("image/gif"@, "video/webm"@, -1);
    lemma_texts_differ("image/gif"@, "audio/mpeg"@, -1);
    lemma_texts_differ("image/gif"@, "audio/wav"@, 0);
    lemma_texts_differ("image/gif"@, "audio/flac"@, -1);
    lemma_texts_differ("image/gif"@, "application/pdf"@, -1);
    lemma_texts_differ("image/webp"@, "image/svg+xml"@, -1);
    lemma_texts_differ("image/webp"@, "image/avif"@, 6);
    lemma_texts_differ("image/webp"@, "image/heic"@, 6);
    lemma_texts_differ("image/webp"@, "image/heif"@, 6);
    lemma_texts_differ("image/webp"@, "video/mp4"@, -1);
    lemma_texts_differ("image/webp"@, "video/quicktime"@, -1);
    lemma_texts_differ("image/webp"@, "video/webm"@, 0);
    lemma_texts_differ("image/webp"@, "audio/mpeg"@, 0);
    lemma_texts_differ("image/webp"@, "audio/wav"@, -1);
    lemma_texts_differ("image/webp"@, "audio/flac"@, 0);
    lemma_texts_differ("image/webp"@, "application/pdf"@, -1);
    lemma_texts_differ("image/svg+xml"@, "image/avif"@, -1);
    lemma_texts_differ("image/svg+xml"@, "image/heic"@, -1);
    lemma_texts_differ("image/svg+xml"@, "image/heif"@, -1);
    lemma_texts_differ("image/svg+xml"@, "video/mp4"@, -1);
    lemma_texts_differ("image/svg+xml"@, "video/quicktime"@, -1);
    lemma_texts_differ("image/svg+xml"@, "video/webm"@, -1);
    lemma_texts_differ("image/svg+xml"@, "audio/mpeg"@, -1);
    lemma_texts_differ("image/svg+xml"@, "audio/wav"@, -1);
    lemma_texts_differ("image/svg+xml"@, "audio/flac"@, -1);
    lemma_texts_differ("image/svg+xml"@, "application/pdf"@, -1);
    lemma_texts_differ("image/avif"@, "image/heic"@, 6);
    lemma_texts_differ("image/avif"@, "image/heif"@, 6);
    lemma_texts_differ("image/avif"@, "video/mp4"@, -1);
    lemma_texts_differ("image/avif"@, "video/quicktime"@, -1);
    lemma_texts_differ("image/avif"@, "video/webm"@, 0);
    lemma_texts_differ("image/avif"@, "audio/mpeg"@, 0);
    lemma_texts_differ("image/avif"@, "audio/wav"@, -1);
    lemma_texts_differ("image/avif"@, "audio/flac"@, 0);
    lemma_texts_differ("image/avif"@, "application/pdf"@, -1);
    lemma_texts_differ("image/heic"@, "image/heif"@, 9);
    lemma_texts_differ("image/heic"@, "video/mp4"@, -1);
    lemma_texts_differ("image/heic"@, "video/quicktime"@, -1);
    lemma_texts_differ("image/heic"@, "video/webm"@, 0);
    lemma_texts_differ("image/heic"@, "audio/mpeg"@, 0);
    lemma_texts_differ("image/heic"@, "audio/wav"@, -1);
    lemma_texts_differ("image/heic"@, "audio/flac"@, 0);
    lemma_texts_differ("image/heic"@, "application/pdf"@, -1);
    lemma_texts_differ("image/heif"@, "video/mp4"@, -1);
    lemma_texts_differ("image/heif"@, "video/quicktime"@, -1);
    lemma_texts_differ("image/heif"@, "video/webm"@, 0);
    lemma_texts_differ("image/heif"@, "audio/mpeg"@, 0);
    lemma_texts_differ("image/heif"@, "audio/wav"@, -1);
    lemma_texts_differ("image/heif"@, "audio/flac"@, 0);
    lemma_texts_differ("image/heif"@, "application/pdf"@, -1);
    lemma_texts_differ("video/mp4"@, "video/quicktime"@, -1);
    lemma_texts_differ("video/mp4"@, "video/webm"@, -1);
    lemma_texts_differ("video/mp4"@, "audio/mpeg"@, -1);
    lemma_texts_differ("video/mp4"@, "audio/wav"@, 0);
    lemma_texts_differ("video/mp4"@, "audio/flac"@, -1);
    lemma_texts_differ("video/mp4"@, "application/pdf"@, -1);
    lemma_texts_differ("video/quicktime"@, "video/webm"@, -1);
    lemma_texts_differ("video/quicktime"@, "audio/mpeg"@, -1);
    lemma_texts_differ("video/quicktime"@, "audio/wav"@, -1);
    lemma_texts_differ("video/quicktime"@, "audio/flac"@, -1);
    lemma_texts_differ("video/quicktime"@, "application/pdf"@, 0);
    lemma_texts_differ("video/webm"@, "audio/mpeg"@, 0);
    lemma_texts_differ("video/webm"@, "audio/wav"@, -1);
    lemma_texts_differ("video/webm"@, "audio/flac"@, 0);
    lemma_texts_differ("video/webm"@, "application/pdf"@, -1);
    lemma_texts_differ("audio/mpeg"@, "audio/wav"@, -1);
    lemma_texts_differ("audio/mpeg"@, "audio/flac"@, 6);
    lemma_texts_differ("audio/mpeg"@, "application/pdf"@, -1);
    lemma_texts_differ("audio/wav"@, "audio/flac"@, -1);
    lemma_texts_differ("audio/wav"@, "application/pdf"@, -1);
    lemma_texts_differ("audio/flac"@, "application/pdf"@, -1);
    lemma_texts_differ("png"@, "jpeg"@, -1);
    lemma_texts_differ("png"@, "gif"@, 0);
    lemma_texts_differ("png"@, "webp"@, -1);
    lemma_texts_differ("png"@, "svg"@, 0);
    lemma_texts_differ("png"@, "avif"@, -1);
    lemma_texts_differ("png"@, "heic"@, -1);
    lemma_texts_differ("png"@, "heif"@, -1);
    lemma_texts_differ("jpeg"@, "gif"@, -1);
    lemma_texts_differ("jpeg"@, "webp"@, 0);
    lemma_texts_differ("jpeg"@, "svg"@, -1);
    lemma_texts_differ("jpeg"@, "avif"@, 0);
    lemma_texts_differ("jpeg"@, "heic"@, 0);
    lemma_texts_differ("jpeg"@, "heif"@, 0);
    lemma_texts_differ("gif"@, "webp"@, -1);
    lemma_texts_differ("gif"@, "svg"@, 0);
    lemma_texts_differ("gif"@, "avif"@, -1);
    lemma_texts_differ("gif"@, "heic"@, -1);
    lemma_texts_differ("gif"@, "heif"@, -1);
    lemma_texts_differ("webp"@, "svg"@, -1);
    lemma_texts_differ("webp"@, "avif"@, 0);
    lemma_texts_differ("webp"@, "heic"@, 0);
    lemma_texts_differ("webp"@, "heif"@, 0);
    lemma_texts_differ("svg"@, "avif"@, -1);
    lemma_texts_differ("svg"@, "heic"@, -1);
    lemma_texts_differ("svg"@, "heif"@, -1);
    lemma_texts_differ("avif"@, "heic"@, 0);
    lemma_texts_differ("avif"@, "heif"@, 0);
    lemma_texts_differ("heic"@, "heif"@, 3);
    lemma_texts_differ("mp4"@, "svg"@, 0);
    lemma_texts_differ("mov"@, "svg"@, 0);
    lemma_texts_differ("webm"@, "svg"@, -1);
    lemma_texts_differ("mp3"@, "svg"@, 0);
    lemma_texts_differ("wav"@, "svg"@, 0);
    lemma_texts_differ("flac"@, "svg"@, -1);
    lemma_texts_differ("pdf"@, "svg"@, 0);
    let r = crate::formats::spec_registry();
    assert(r.len() == 15);
    assert forall|i: int| 0 <= i < r.len() implies {
        let d = #[trigger] r[i];
        &&& (enrichment_spec(d.mime@) is RasterDimensions <==> (d.kind == crate::asset_core::AssetKind::Image
            && d.id@ != "svg"@ && d.id@ != "avif"@ && d.id@ != "heic"@ && d.id@ != "heif"@))
        &&& (d.id@ == "svg"@ ==> enrichment_spec(d.mime@) is Svg)
        &&& (d.kind == crate::asset_core::AssetKind::Video ==> enrichment_spec(d.mime@) is Video)
        &&& (d.kind == crate::asset_core::AssetKind::Audio ==> enrichment_spec(d.mime@) is Audio)
    } by {
        if i == 0 {
            assert(r[i] == r[0]);
            assert(r[0].kind == crate::asset_core::AssetKind::Image && r[0].mime@ == "image/png"@ && r[0].id@ == "png"@);
        } else if i == 1 {
            assert(r[i] == r[1]);
            assert(r[1].kind == crate::asset_core::AssetKind::Image && r[1].mime@ == "image/jpeg"@ && r[1].id@ == "jpeg"@);
        } else if i == 2 {
            assert(r[i] == r[2]);
            assert(r[2].kind == crate::asset_core::AssetKind::Image && r[2].mime@ == "image/gif"@ && r[2].id@ == "gif"@);
        } else if i == 3 {
            assert(r[i] == r[3]);
            assert(r[3].kind == crate::asset_core::AssetKind::Image && r[3].mime@ == "image/webp"@ && r[3].id@ == "webp"@);
        } else if i == 4 {
            assert(r[i] == r[4]);
            assert(r[4].kind == crate::asset_core::AssetKind::Image && r[4].mime@ == "image/svg+xml"@ && r[4].id@ == "svg"@);
        } else if i == 5 {
            assert(r[i] == r[5]);
            assert(r[5].kind == crate::asset_core::AssetKind::Image && r[5].mime@ == "image/avif"@ && r[5].id@ == "avif"@);
        } else if i == 6 {
            assert(r[i] == r[6]);
            assert(r[6].kind == crate::asset_core::AssetKind::Image && r[6].mime@ == "image/heic"@ && r[6].id@ == "heic"@);
        } else if i == 7 {
            assert(r[i] == r[7]);
            assert(r[7].kind == crate::asset_core::AssetKind::Image && r[7].mime@ == "image/heif"@ && r[7].id@ == "heif"@);
        } else if i == 8 {
            assert(r[i] == r[8]);
            assert(r[8].kind == crate::asset_core::AssetKind::Video && r[8].mime@ == "video/mp4"@ && r[8].id@ == "mp4"@);
        } else if i == 9 {
            assert(r[i] == r[9]);
            assert(r[9].kind == crate::asset_core::AssetKind::Video && r[9].mime@ == "video/quicktime"@ && r[9].id@ == "mov"@);
        } else if i == 10 {
            assert(r[i] == r[10]);
            assert(r[10].kind == crate::asset_core::AssetKind::Video && r[10].mime@ == "video/webm"@ && r[10].id@ == "webm"@);
        } else if i == 11 {
            assert(r[i] == r[11]);
            assert(r[11].kind == crate::asset_core::AssetKind::Audio && r[11].mime@ == "audio/mpeg"@ && r[11].id@ == "mp3"@);
        } else if i == 12 {
            assert(r[i] == r[12]);
            assert(r[12].kind == crate::asset_core::AssetKind::Audio && r[12].mime@ == "audio/wav"@ && r[12].id@ == "wav"@);
        } else if i == 13 {
            assert(r[i] == r[13]);
            assert(r[13].kind == crate::asset_core::AssetKind::Audio && r[13].mime@ == "audio/flac"@ && r[13].id@ == "flac"@);
        } else if i == 14 {
            assert(r[i] == r[14]);
            assert(r[14].kind == crate::asset_core::AssetKind::Pdf && r[14].mime@ == "application/pdf"@ && r[14].id@ == "pdf"@);
        }
    }
}

fn is_text(a: &[char], b: &str) -> (r: bool)
    ensures
        r == (a@ == b@),
{
    slice_eq(a, &chars_of(b))
}

pub fn enrichment_for(mime: &str) -> (e: Enrichment)
    ensures
        e == enrichment_spec(mime@),
{
    let m = chars_of(mime);
    if is_text(&m, "image/png") || is_text(&m, "image/jpeg") || is_text(&m, "image/gif") || is_text(&m, "image/webp") {
        Enrichment::RasterDimensions
    } else if is_text(&m, "image/svg+xml") {
        Enrichment::Svg
    } else if is_text(&m, "video/mp4") {
        Enrichment::Video(VideoContainer::Mp4)
    } else if is_text(&m, "video/quicktime") {
        Enrichment::Video(VideoContainer::Mov)
    } else if is_text(&m, "video/webm") {
        Enrichment::Video(VideoContainer::Webm)
    } else if is_text(&m, "audio/mpeg") {
        Enrichment::Audio(AudioContainer::Mp3)
    } else if is_text(&m, "audio/wav") {
        Enrichment::Audio(AudioContainer::Wav)
    } else if is_text(&m, "audio/flac") {
        Enrichment::Audio(AudioContainer::Flac)
    } else {
        Enrichment::Nothing
    }
}

/// The issue recorded when content and extension disagree.
pub open spec fn mismatch_message(content_id: Seq<char>, extension: Option<Seq<char>>, extension_id: Option<Seq<char>>) -> Seq<char> {
    "content identifies "@ + content_id + " but the ."@ + (match extension {
        Some(e) => e,
        None => seq![],
    }) + " extension identifies "@ + (match extension_id {
        Some(i) => i,
        None => "an unknown format"@,
    })
}

pub fn mime_mismatch_issue(content_id: &str, extension: Option<&str>, extension_id: Option<&str>) -> (i: AssetIssue)
    ensures
        i matches AssetIssue::MimeMismatch(m) && m@ == mismatch_message(
            content_id@,
            match extension {
                Some(e) => Some(e@),
                None => None,
            },
            match extension_id {
                Some(x) => Some(x@),
                None => None,
            },
        ),
{
    let ext = match extension {
        Some(e) => chars_of(e),
        None => Vec::new(),
    };
    let known = match extension_id {
        Some(x) => chars_of(x),
        None => chars_of("an unknown format"),
    };
    let text = concat(
        &concat(&concat(&concat(&chars_of("content identifies "), &chars_of(content_id)), &chars_of(" but the .")), &ext),
        &concat(&chars_of(" extension identifies "), &known),
    );
    proof {
        assert(text@ =~= mismatch_message(
            content_id@,
            match extension {
                Some(e) => Some(e@),
                None => None,
            },
            match extension_id {
                Some(x) => Some(x@),
                None => None,
            },
        ));
    }
    AssetIssue::MimeMismatch(string_from(&text))
}

/// Whether a record already carries a resource-limit issue.
pub open spec fn has_resource_issue(issues: Seq<AssetIssue>) -> bool {
    exists|i: int| 0 <= i < issues.len() && (#[trigger] issues[i]) is ResourceLimited
}

pub open spec fn deadline_message(timeout_ms: u64) -> Seq<char> {
    "file enrichment stopped after the "@ + decimal(timeout_ms as nat) + " ms cooperative deadline"@
}

/// Notes that a file's enrichment ran out of time, once: a record that already carries a
/// resource-limit issue is left as it is.
pub fn note_deadline(issues: &mut Vec<AssetIssue>, timeout_ms: u64)
    ensures
        has_resource_issue(old(issues)@) ==> final(issues)@ == old(issues)@,
        !has_resource_issue(old(issues)@) ==> (final(issues)@.len() == old(issues)@.len() + 1 && final(issues)@.subrange(
            0,
            old(issues)@.len() as int,
        ) == old(issues)@ && (final(issues)@.last() matches AssetIssue::ResourceLimited(m) && m@ == deadline_message(timeout_ms))),
{
    let mut i: usize = 0;
    while i < issues.len()
        invariant
            i <= issues@.len(),
            forall|j: int| 0 <= j < i ==> !(#[trigger] issues@[j] is ResourceLimited),
        decreases issues@.len() - i,
    {
        if let AssetIssue::ResourceLimited(_) = &issues[i] {
            return;
        }
        i = i + 1;
    }
    let text = concat(
        &concat(&chars_of("file enrichment stopped after the "), &decimal_text_u64(timeout_ms)),
        &chars_of(" ms cooperative deadline"),
    );
    issues.push(AssetIssue::ResourceLimited(string_from(&text)));
    assert(issues@.subrange(0, old(issues)@.len() as int) =~= old(issues)@);
}

/// Dimensions measured by a reader that counts in machine words fit the record only when
/// both fit 32 bits.
pub fn measured_dimensions(width: usize, height: usize) -> (r: Result<AssetDimensions, AssetIssue>)
    ensures
        width <= u32::MAX && height <= u32::MAX ==> r == Ok::<AssetDimensions, AssetIssue>(
            AssetDimensions { width: width as u32, height: height as u32 },
        ),
        !(width <= u32::MAX && height <= u32::MAX) ==> (r matches Err(AssetIssue::InvalidImageMetadata(m))
            && m@ == "image dimensions exceed the supported range"@),
{
    if width <= u32::MAX as usize && height <= u32::MAX as usize {
        Ok(AssetDimensions { width: width as u32, height: height as u32 })
    } else {
        Err(AssetIssue::InvalidImageMetadata(string_from(&chars_of("image dimensions exceed the supported range"))))
    }
}

/// Records what reading a raster image's dimensions gave: the dimensions when they fit,
/// otherwise an issue that keeps the damaged file visible.
pub fn apply_raster_dimensions(asset: &mut AssetRecord, read: Result<(usize, usize), String>)
    ensures
        match read {
            Ok((w, h)) => if w <= u32::MAX && h <= u32::MAX {
                &&& final(asset).dimensions == Some(AssetDimensions { width: w as u32, height: h as u32 })
                &&& final(asset).issues == old(asset).issues
            } else {
                &&& final(asset).dimensions == old(asset).dimensions
                &&& final(asset).issues@ == old(asset).issues@.push(final(asset).issues@.last())
                &&& final(asset).issues@.last() matches AssetIssue::InvalidImageMetadata(m)
                &&& m@ == "image dimensions exceed the supported range"@
            },
            Err(message) => final(asset).dimensions == old(asset).dimensions && final(asset).issues@ == old(asset).issues@.push(
                AssetIssue::InvalidImageMetadata(message),
            ),
        },
        final(asset).key == old(asset).key && final(asset).path == old(asset).path && final(asset).mime == old(asset).mime,
        final(asset).size == old(asset).size && final(asset).kind == old(asset).kind,
        user_fields_kept(*old(asset), *final(asset)),
{
    match read {
        Ok((width, height)) => match measured_dimensions(width, height) {
            Ok(dimensions) => {
                asset.dimensions = Some(dimensions);
            },
            Err(issue) => {
                asset.issues.push(issue);
            },
        },
        Err(message) => {
            asset.issues.push(AssetIssue::InvalidImageMetadata(message));
        },
    }
}

/// How a container inspection failed.
#[derive(Debug, Clone, Copy, PartialEq, Eq, Structural)]
pub enum MediaFailure {
    Unreadable,
    SourceChanged,
    InvalidContent,
    ResourceLimited,
    UnsupportedFeature,
}

/// The issue a failed container inspection records; an unsupported feature records none.
pub open spec fn media_issue_spec(video: bool, failure: MediaFailure) -> Option<(int, Seq<char>)> {
    let noun = if video { "video"@ } else { "audio"@ };
    match failure {
        MediaFailure::Unreadable => Some((0, noun + " enrichment could not reread the source"@)),
        MediaFailure::SourceChanged => Some((1, noun + " source changed during container inspection"@)),
        MediaFailure::InvalidContent => Some((1, noun + " container metadata is malformed"@)),
        MediaFailure::ResourceLimited => Some((2, noun + " container inspection limit reached"@)),
        MediaFailure::UnsupportedFeature => None,
    }
}

/// The kind of an issue as a number, for the issues that media inspection records.
pub open spec fn issue_class(i: AssetIssue) -> Option<(int, Seq<char>)> {
    match i {
        AssetIssue::UnreadableFile(m) => Some((0, m@)),
        AssetIssue::InvalidNativeMetadata(m) => Some((1, m@)),
        AssetIssue::ResourceLimited(m) => Some((2, m@)),
        _ => None,
    }
}

pub fn media_issue(video: bool, failure: MediaFailure) -> (r: Option<AssetIssue>)
    ensures
        match media_issue_spec(video, failure) {
            None => r is None,
            Some(expected) => r matches Some(i) && issue_class(i) == Some(expected),
        },
{
    let noun = if video { chars_of("video") } else { chars_of("audio") };
    match failure {
        MediaFailure::Unreadable => Some(AssetIssue::UnreadableFile(string_from(&concat(&noun, &chars_of(" enrichment could not reread the source"))))),
        MediaFailure::SourceChanged => Some(AssetIssue::InvalidNativeMetadata(string_from(&concat(&noun, &chars_of(" source changed during container inspection"))))),
        MediaFailure::InvalidContent => Some(AssetIssue::InvalidNativeMetadata(string_from(&concat(&noun, &chars_of(" container metadata is malformed"))))),
        MediaFailure::ResourceLimited => Some(AssetIssue::ResourceLimited(string_from(&concat(&noun, &chars_of(" container inspection limit reached"))))),
        MediaFailure::UnsupportedFeature => None,
    }
}

/// Native metadata is read from JPEG, PNG and WebP images within the size limit; a larger
/// image records that it was skipped.
pub open spec fn native_metadata_format(mime: Seq<char>) -> bool {
    mime == "image/jpeg"@ || mime == "image/png"@ || mime == "image/webp"@
}

#[derive(Debug, Clone, PartialEq, Eq)]
pub enum NativeMetadataPlan {
    Read,
    Skip(AssetIssue),
    NotApplicable,
}

pub open spec fn skipped_message(limit: u64) -> Seq<char> {
    "native metadata skipped because the source exceeds the "@ + decimal(limit as nat) + " byte safety limit"@
}

pub fn native_metadata_plan(mime: &str, size: u64, limit: u64) -> (p: NativeMetadataPlan)
    ensures
        !native_metadata_format(mime@) ==> p == NativeMetadataPlan::NotApplicable,
        native_metadata_format(mime@) && size <= limit ==> p == NativeMetadataPlan::Read,
        native_metadata_format(mime@) && size > limit ==> (p matches NativeMetadataPlan::Skip(AssetIssue::ResourceLimited(m))
            && m@ == skipped_message(limit)),
{
    let m = chars_of(mime);
    if !(is_text(&m, "image/jpeg") || is_text(&m, "image/png") || is_text(&m, "image/webp")) {
        return NativeMetadataPlan::NotApplicable;
    }
    if size <= limit {
        return NativeMetadataPlan::Read;
    }
    let text = concat(
        &concat(&chars_of("native metadata skipped because the source exceeds the "), &decimal_text_u64(limit)),
        &chars_of(" byte safety limit"),
    );
    NativeMetadataPlan::Skip(AssetIssue::ResourceLimited(string_from(&text)))
}

/// A time as milliseconds since the Unix epoch: none before the epoch, saturated to the
/// range of `i64`.
pub open spec fn unix_ms(after_epoch: bool, millis: u128) -> Option<i64> {
    if !after_epoch {
        None
    } else if millis > i64::MAX {
        Some(i64::MAX)
    } else {
        Some(millis as i64)
    }
}

pub fn unix_ms_of(after_epoch: bool, millis: u128) -> (r: Option<i64>)
    ensures
        r == unix_ms(after_epoch, millis),
{
    if !after_epoch {
        None
    } else if millis > i64::MAX as u128 {
        Some(i64::MAX)
    } else {
        Some(millis as i64)
    }
}

// ----------------------------------------------------------------------------------------
// Merging an adjacent Sidecar.
// ----------------------------------------------------------------------------------------

/// What a Sidecar holds that the scan uses: its schema, stable ID, update time, the
/// user metadata, and the fingerprint of its asset when it has one.
#[derive(Debug, Clone, PartialEq, Eq)]
pub struct SidecarContent {
    pub schema: u32,
    pub id: u128,
    pub updated_at: String,
    pub tags: Vec<String>,
    pub rating: u8,
    pub favorite: bool,
    pub note: String,
    pub aliases: Vec<String>,
    /// The asset size the Sidecar was written for.
    pub fingerprint_size: Option<u64>,
}

/// How reading the adjacent Sidecar went.
#[derive(Debug, Clone, PartialEq, Eq)]
pub enum SidecarRead {
    /// No regular file is there.
    Absent,
    /// The file is larger than the limit; it was not parsed.
    TooLarge,
    /// It could not be parsed; the message says why.
    Invalid(String),
    /// It was read: its content, its version on disk, and whether the asset's quick
    /// fingerprint agrees with the one it declares (true when it declares none).
    Read { content: SidecarContent, digest: String, size: u64, modified_unix_ms: i64, quick_fingerprint_agrees: bool },
}

pub open spec fn sidecar_too_large_message(limit: u64) -> Seq<char> {
    "Sidecar parsing skipped because the file exceeds the "@ + decimal(limit as nat) + " byte safety limit"@
}

/// Whether a Sidecar read is merged: it was read, and its fingerprint agrees with the asset.
pub open spec fn sidecar_accepted(read: SidecarRead, asset_size: u64) -> bool {
    read matches SidecarRead::Read { content, quick_fingerprint_agrees, .. } && !(content.fingerprint_size matches Some(s)
        && s != asset_size) && quick_fingerprint_agrees
}

/// The user metadata and Sidecar state of a record are as they were.
pub open spec fn user_fields_kept(before: AssetRecord, after: AssetRecord) -> bool {
    &&& after.id == before.id
    &&& after.tags == before.tags
    &&& after.rating == before.rating
    &&& after.favorite == before.favorite
    &&& after.note == before.note
    &&& after.aliases == before.aliases
    &&& after.sidecar_state == before.sidecar_state
}

/// Merges an adjacent Sidecar into a freshly scanned record. File-derived fields stay as
/// they were; a Sidecar whose fingerprint does not match the asset contributes nothing.
pub fn merge_adjacent_sidecar(asset: &mut AssetRecord, sidecar_path: String, asset_size: u64, max_sidecar_bytes: u64, read: SidecarRead)
    ensures
        read is Absent ==> *final(asset) == *old(asset),
        !(read is Absent) ==> final(asset).sidecar_path == Some(sidecar_path),
        final(asset).key == old(asset).key && final(asset).path == old(asset).path && final(asset).mime == old(asset).mime,
        final(asset).kind == old(asset).kind && final(asset).size == old(asset).size && final(asset).dimensions == old(asset).dimensions,
        read is TooLarge ==> (final(asset).issues@.len() == old(asset).issues@.len() + 1
            && final(asset).issues@.drop_last() == old(asset).issues@
            && (final(asset).issues@.last() matches AssetIssue::ResourceLimited(m) && m@ == sidecar_too_large_message(max_sidecar_bytes))),
        !sidecar_accepted(read, asset_size) ==> user_fields_kept(*old(asset), *final(asset)),
        read matches SidecarRead::Invalid(message) ==> final(asset).issues@ == old(asset).issues@.push(AssetIssue::InvalidSidecar(message)),
        read matches SidecarRead::Read { content, digest, size, modified_unix_ms, quick_fingerprint_agrees } ==> if (content.fingerprint_size matches Some(s) && s != asset_size) || !quick_fingerprint_agrees {
            &&& final(asset).issues@.len() == old(asset).issues@.len() + 1
            &&& final(asset).issues@.drop_last() == old(asset).issues@
            &&& final(asset).issues@.last() matches AssetIssue::MismatchedSidecar(m)
            &&& m@ == "Sidecar fingerprint does not match the adjacent asset"@
            &&& final(asset).id == old(asset).id && final(asset).tags == old(asset).tags
        } else {
            &&& final(asset).sidecar_state == Some(SidecarState { schema: content.schema, digest, size, modified_unix_ms, updated_at: content.updated_at })
            &&& final(asset).id == Some(content.id)
            &&& sorted_texts(strs(final(asset).tags@))
            &&& (forall|x: Seq<char>| #[trigger] strs(final(asset).tags@).contains(x) <==> strs(content.tags@).contains(x))
            &&& final(asset).rating == content.rating
            &&& final(asset).favorite == content.favorite
            &&& final(asset).note == content.note
            &&& sorted_texts(strs(final(asset).aliases@))
            &&& (forall|x: Seq<char>| #[trigger] strs(final(asset).aliases@).contains(x) <==> strs(content.aliases@).contains(x))
            &&& final(asset).issues == old(asset).issues
        },
{
    match read {
        SidecarRead::Absent => {},
        SidecarRead::TooLarge => {
            asset.sidecar_path = Some(sidecar_path);
            let text = concat(
                &concat(&chars_of("Sidecar parsing skipped because the file exceeds the "), &decimal_text_u64(max_sidecar_bytes)),
                &chars_of(" byte safety limit"),
            );
            asset.issues.push(AssetIssue::ResourceLimited(string_from(&text)));
        },
        SidecarRead::Invalid(message) => {
            asset.sidecar_path = Some(sidecar_path);
            asset.issues.push(AssetIssue::InvalidSidecar(message));
        },
        SidecarRead::Read { content, digest, size, modified_unix_ms, quick_fingerprint_agrees } => {
            asset.sidecar_path = Some(sidecar_path);
            let size_differs = match content.fingerprint_size {
                Some(s) => s != asset_size,
                None => false,
            };
            if size_differs || !quick_fingerprint_agrees {
                asset.issues.push(AssetIssue::MismatchedSidecar(string_from(&chars_of("Sidecar fingerprint does not match the adjacent asset"))));
                return;
            }
            asset.sidecar_state = Some(SidecarState {
                schema: content.schema,
                digest,
                size,
                modified_unix_ms,
                updated_at: content.updated_at,
            });
            asset.id = Some(content.id);
            asset.tags = text_set(&content.tags);
            asset.rating = content.rating;
            asset.favorite = content.favorite;
            asset.note = content.note;
            asset.aliases = text_set(&content.aliases);
        },
    }
}

} // verus!
