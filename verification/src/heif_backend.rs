//! The decisions of the HEIF decoding backend that do not need the decoder itself: the
//! security limits it is given, the dimensions it accepts and produces, the description of
//! the primary image, the layout of decoded pixel rows, the bounded PNG output buffer, the
//! payload that describes a PNG, and how decoder failures are reported.
use vstd::prelude::*;

use crate::diagnostics::{hex_of, hex_text, sha256_digest, sha256_of};
use crate::protocol::{HeifProperties, PngPayload, WorkerErrorCode, WorkerLimits, WorkerRequest};
use crate::text::{chars_of, string_from};

verus! {

pub const MAX_COLOR_PROFILE_BYTES: u32 = 1048576;

pub const MAX_ITEMS: u32 = 1024;

pub const MAX_TILES: u64 = 65536;

/// A stable, path-free failure of the backend.
#[derive(Debug, Clone, PartialEq, Eq)]
pub struct BackendFailure {
    pub code: WorkerErrorCode,
    pub message: &'static str,
}

impl BackendFailure {
    pub fn new(code: WorkerErrorCode, message: &'static str) -> (f: BackendFailure)
        ensures
            f.code == code,
            f.message == message,
    {
        BackendFailure { code, message }
    }
}

/// A decoder limit tightened to a hard cap; zero, which would disable the limit, is
/// replaced by the cap.
pub open spec fn restricted(existing: int, hard_cap: int) -> int {
    if existing == 0 {
        hard_cap
    } else if existing < hard_cap {
        existing
    } else {
        hard_cap
    }
}

pub fn restrict_u64(existing: u64, hard_cap: u64) -> (r: u64)
    ensures
        r == restricted(existing as int, hard_cap as int),
        r <= hard_cap,
        r > 0 || hard_cap == 0,
{
    if existing == 0 {
        hard_cap
    } else if existing < hard_cap {
        existing
    } else {
        hard_cap
    }
}

pub fn restrict_u32(existing: u32, hard_cap: u32) -> (r: u32)
    ensures
        r == restricted(existing as int, hard_cap as int),
        r <= hard_cap,
        r > 0 || hard_cap == 0,
{
    if existing == 0 {
        hard_cap
    } else if existing < hard_cap {
        existing
    } else {
        hard_cap
    }
}

/// The security limits of the decoder.
#[derive(Debug, Clone, Copy, PartialEq, Eq, Structural)]
pub struct SecurityLimits {
    pub max_image_size_pixels: u64,
    pub max_memory_block_size: u64,
    pub max_total_memory: u64,
    pub max_color_profile_size: u32,
    pub max_items: u32,
    pub max_number_of_tiles: u64,
}

/// The pixel budget of a request: a quarter of its decode bytes, at least one.
pub open spec fn pixel_budget(limits: WorkerLimits) -> int {
    if limits.max_decode_bytes / 4 >= 1 {
        (limits.max_decode_bytes / 4) as int
    } else {
        1
    }
}

/// The decoder's own limits, each tightened to what the request and the worker allow.
pub fn security_limits_for(existing: SecurityLimits, limits: &WorkerLimits) -> (r: SecurityLimits)
    ensures
        r.max_image_size_pixels == restricted(existing.max_image_size_pixels as int, pixel_budget(*limits)),
        r.max_memory_block_size == restricted(existing.max_memory_block_size as int, limits.max_decode_bytes as int),
        r.max_total_memory == restricted(existing.max_total_memory as int, limits.max_decode_bytes as int),
        r.max_color_profile_size == restricted(existing.max_color_profile_size as int, MAX_COLOR_PROFILE_BYTES as int),
        r.max_items == restricted(existing.max_items as int, MAX_ITEMS as int),
        r.max_number_of_tiles == restricted(existing.max_number_of_tiles as int, MAX_TILES as int),
{
    let quarter = limits.max_decode_bytes / 4;
    let max_pixels = if quarter >= 1 { quarter } else { 1 };
    SecurityLimits {
        max_image_size_pixels: restrict_u64(existing.max_image_size_pixels, max_pixels),
        max_memory_block_size: restrict_u64(existing.max_memory_block_size, limits.max_decode_bytes),
        max_total_memory: restrict_u64(existing.max_total_memory, limits.max_decode_bytes),
        max_color_profile_size: restrict_u32(existing.max_color_profile_size, MAX_COLOR_PROFILE_BYTES),
        max_items: restrict_u32(existing.max_items, MAX_ITEMS),
        max_number_of_tiles: restrict_u64(existing.max_number_of_tiles, MAX_TILES),
    }
}

/// Source dimensions a request admits: both nonzero, within its largest dimension, and
/// with no more pixels than a quarter of its decode bytes.
pub open spec fn dimensions_admitted(limits: WorkerLimits, width: u32, height: u32) -> bool {
    &&& width != 0
    &&& height != 0
    &&& width <= limits.max_source_dimension
    &&& height <= limits.max_source_dimension
    &&& width * height <= limits.max_decode_bytes / 4
}

pub fn validate_dimensions(request: &WorkerRequest, width: u32, height: u32) -> (r: Result<(), BackendFailure>)
    ensures
        r is Ok <==> dimensions_admitted(request.limits, width, height),
        r matches Err(f) ==> f.code == WorkerErrorCode::ResourceLimited,
{
    let w = width as u64;
    let h = height as u64;
    assert(w * h <= u64::MAX) by (nonlinear_arith)
        requires
            w <= u32::MAX,
            h <= u32::MAX,
    ;
    let pixels = w * h;
    if width == 0 || height == 0 || width > request.limits.max_source_dimension
        || height > request.limits.max_source_dimension || pixels > request.limits.max_decode_bytes / 4 {
        return Err(BackendFailure::new(WorkerErrorCode::ResourceLimited, "image dimensions exceed the worker limit"));
    }
    Ok(())
}

/// The size of a thumbnail: the source size when it fits within `max_edge`, else the
/// longer edge becomes `max_edge` and the shorter is scaled down by the same factor,
/// rounded down, but never below one.
pub open spec fn fitted(width: u32, height: u32, max_edge: u32) -> (int, int) {
    if width <= max_edge && height <= max_edge {
        (width as int, height as int)
    } else if width >= height {
        let scaled = (height as int * max_edge as int) / width as int;
        (max_edge as int, if scaled >= 1 { scaled } else { 1 })
    } else {
        let scaled = (width as int * max_edge as int) / height as int;
        (if scaled >= 1 { scaled } else { 1 }, max_edge as int)
    }
}

proof fn lemma_scaled_edge(short: u32, long: u32, max_edge: u32)
    requires
        short <= long,
        max_edge < long,
    ensures
        (short as int * max_edge as int) / long as int <= short,
        (short as int * max_edge as int) / long as int <= max_edge,
{
    assert((short as int * max_edge as int) / long as int <= short) by (nonlinear_arith)
        requires
            0 <= short,
            0 <= max_edge < long,
    ;
    assert((short as int * max_edge as int) / long as int <= max_edge) by (nonlinear_arith)
        requires
            0 <= short <= long,
            0 <= max_edge,
            long > 0,
    ;
}

proof fn lemma_product_fits(a: u32, b: u32)
    ensures
        a as u64 * b as u64 <= u64::MAX,
        a as u64 * b as u64 == a as int * b as int,
{
    assert(a as int * b as int <= u64::MAX) by (nonlinear_arith)
        requires
            0 <= a <= u32::MAX,
            0 <= b <= u32::MAX,
    ;
}

/// Fits a source into a thumbnail edge. It never upscales an edge of at least one, keeps
/// both edges within `max_edge` and at least one when it scales, and keeps a source that
/// already fits.
pub fn fit_dimensions(width: u32, height: u32, max_edge: u32) -> (r: (u32, u32))
    ensures
        (r.0 as int, r.1 as int) == fitted(width, height, max_edge),
        width <= max_edge && height <= max_edge ==> r == (width, height),
        !(width <= max_edge && height <= max_edge) ==> {
            &&& (width >= 1 ==> r.0 <= width)
            &&& (height >= 1 ==> r.1 <= height)
            &&& (max_edge >= 1 ==> r.0 <= max_edge && r.1 <= max_edge && r.0 >= 1 && r.1 >= 1)
        },
{
    if width <= max_edge && height <= max_edge {
        return (width, height);
    }
    if width >= height {
        proof {
            lemma_scaled_edge(height, width, max_edge);
            lemma_product_fits(height, max_edge);
        }
        let scaled = (height as u64 * max_edge as u64) / width as u64;
        let edge = if scaled >= 1 { scaled as u32 } else { 1 };
        (max_edge, edge)
    } else {
        proof {
            lemma_scaled_edge(width, height, max_edge);
            lemma_product_fits(width, max_edge);
        }
        let scaled = (width as u64 * max_edge as u64) / height as u64;
        let edge = if scaled >= 1 { scaled as u32 } else { 1 };
        (edge, max_edge)
    }
}

/// How many images a container may hold.
pub open spec fn image_count_admitted(count: nat) -> bool {
    0 < count <= MAX_ITEMS
}

/// The colour description of the primary image: an NCLX profile wins over a raw (ICC) one.
pub open spec fn color_space_name(has_nclx: bool, has_raw_profile: bool) -> Option<Seq<char>> {
    if has_nclx {
        Some("nclx"@)
    } else if has_raw_profile {
        Some("icc"@)
    } else {
        None
    }
}

/// Describes the primary image once its dimensions and the container's image count are
/// admitted: orientation one, the colour description and whether it has alpha.
pub fn describe_primary_image(
    request: &WorkerRequest,
    width: u32,
    height: u32,
    image_count: usize,
    has_nclx: bool,
    has_raw_profile: bool,
    has_alpha: bool,
) -> (r: Result<HeifProperties, BackendFailure>)
    ensures
        r is Ok <==> dimensions_admitted(request.limits, width, height) && image_count_admitted(image_count as nat),
        r matches Err(f) ==> f.code == WorkerErrorCode::ResourceLimited,
        r matches Ok(p) ==> {
            &&& p.width == width && p.height == height
            &&& p.orientation == Some(1u8)
            &&& p.has_alpha == Some(has_alpha)
            &&& p.image_count == image_count
            &&& match p.color_space {
                Some(c) => color_space_name(has_nclx, has_raw_profile) == Some(c@),
                None => color_space_name(has_nclx, has_raw_profile) is None,
            }
        },
{
    validate_dimensions(request, width, height)?;
    if image_count == 0 || image_count > MAX_ITEMS as usize {
        return Err(BackendFailure::new(WorkerErrorCode::ResourceLimited, "image count exceeds the worker limit"));
    }
    let color_space = if has_nclx {
        Some(string_from(&chars_of("nclx")))
    } else if has_raw_profile {
        Some(string_from(&chars_of("icc")))
    } else {
        None
    };
    Ok(HeifProperties {
        width,
        height,
        orientation: Some(1),
        color_space,
        has_alpha: Some(has_alpha),
        image_count: image_count as u32,
    })
}

/// Bytes per decoded row and per image for an interleaved RGB or RGBA plane, when they
/// fit in memory.
pub open spec fn plane_sizes(width: u32, height: u32, has_alpha: bool) -> Option<(int, int)> {
    let channels: int = if has_alpha { 4 } else { 3 };
    let row = width as int * channels;
    if row > usize::MAX || row * height as int > usize::MAX {
        None
    } else {
        Some((row, row * height as int))
    }
}

pub fn plane_layout(width: u32, height: u32, has_alpha: bool) -> (r: Result<(usize, usize), BackendFailure>)
    ensures
        match plane_sizes(width, height, has_alpha) {
            Some((row, total)) => r matches Ok((a, b)) && a == row && b == total,
            None => r matches Err(f) && f.code == WorkerErrorCode::ResourceLimited,
        },
{
    let channels: usize = if has_alpha { 4 } else { 3 };
    let w = width as usize;
    let row = match w.checked_mul(channels) {
        Some(v) => v,
        None => {
            return Err(BackendFailure::new(WorkerErrorCode::ResourceLimited, "decoded row is too large"));
        },
    };
    match row.checked_mul(height as usize) {
        Some(total) => Ok((row, total)),
        None => Err(BackendFailure::new(WorkerErrorCode::ResourceLimited, "decoded image is too large")),
    }
}

/// The first `row_bytes` of each of the first `height` rows of a plane, rows `stride`
/// bytes apart, one after another.
pub open spec fn packed_rows(data: Seq<u8>, stride: int, height: int, row_bytes: int) -> Seq<u8>
    decreases height,
{
    if height <= 0 {
        seq![]
    } else {
        packed_rows(data, stride, height - 1, row_bytes) + data.subrange(
            (height - 1) * stride,
            (height - 1) * stride + row_bytes,
        )
    }
}

/// A plane is usable when its rows hold a full pixel row and it holds all its rows.
pub open spec fn plane_usable(data_len: int, stride: int, height: int, row_bytes: int) -> bool {
    stride >= row_bytes && data_len >= stride * height
}

proof fn lemma_row_in_plane(stride: int, height: int, row_bytes: int, i: int)
    requires
        0 <= i < height,
        0 <= row_bytes <= stride,
    ensures
        i * stride + row_bytes <= stride * height,
        0 <= i * stride,
{
    assert(i * stride + row_bytes <= stride * height) by (nonlinear_arith)
        requires
            0 <= i < height,
            0 <= row_bytes <= stride,
    ;
    assert(0 <= i * stride) by (nonlinear_arith)
        requires
            0 <= i,
            0 <= stride,
    ;
}

/// Copies the pixel rows out of a decoded plane, dropping the padding after each row.
pub fn pack_rows(data: &[u8], stride: usize, height: u32, row_bytes: usize) -> (r: Result<Vec<u8>, BackendFailure>)
    requires
        stride > 0 || row_bytes > 0,
    ensures
        plane_usable(data@.len() as int, stride as int, height as int, row_bytes as int) ==> (r matches Ok(v)
            && v@ == packed_rows(data@, stride as int, height as int, row_bytes as int)),
        !plane_usable(data@.len() as int, stride as int, height as int, row_bytes as int) ==> (r matches Err(f)
            && f.code == WorkerErrorCode::DecodeFailed),
{
    let n = data.len();
    proof {
        assert(stride as int * height as int <= u128::MAX) by (nonlinear_arith)
            requires
                0 <= stride <= usize::MAX,
                usize::MAX <= u64::MAX,
                0 <= height <= u32::MAX,
        ;
    }
    if stride < row_bytes || (n as u128) < (stride as u128) * (height as u128) {
        proof {
            assert((stride as u128) * (height as u128) == stride as int * height as int) by (nonlinear_arith)
                requires
                    stride <= usize::MAX,
                    height <= u32::MAX,
            ;
        }
        return Err(BackendFailure::new(WorkerErrorCode::DecodeFailed, "decoded RGB plane is invalid"));
    }
    proof {
        assert((stride as u128) * (height as u128) == stride as int * height as int) by (nonlinear_arith)
            requires
                stride <= usize::MAX,
                height <= u32::MAX,
        ;
    }
    let mut pixels: Vec<u8> = Vec::new();
    let mut i: u32 = 0;
    while i < height
        invariant
            i <= height,
            n == data@.len(),
            stride >= row_bytes,
            stride as int * height as int <= n,
            pixels@ == packed_rows(data@, stride as int, i as int, row_bytes as int),
        decreases height - i,
    {
        proof {
            lemma_row_in_plane(stride as int, height as int, row_bytes as int, i as int);
        }
        let start = (i as usize) * stride;
        let mut k: usize = 0;
        let ghost before = pixels@;
        while k < row_bytes
            invariant
                k <= row_bytes,
                n == data@.len(),
                start + row_bytes <= n,
                pixels@ == before + data@.subrange(start as int, start + k),
            decreases row_bytes - k,
        {
            pixels.push(data[start + k]);
            assert(data@.subrange(start as int, start + k + 1) =~= data@.subrange(start as int, start + k).push(data@[start + k]));
            k = k + 1;
        }
        i = i + 1;
        assert(start == (i - 1) * stride);
    }
    Ok(pixels)
}

/// Why a bounded writer refused bytes.
#[derive(Debug, Clone, Copy, PartialEq, Eq, Structural)]
pub enum OutputLimitExceeded {
    Exceeded,
}

/// An in-memory output that refuses to grow beyond its maximum; once it refuses, it
/// remembers that it overflowed.
#[derive(Debug)]
pub struct BoundedWriter {
    bytes: Vec<u8>,
    maximum: usize,
    overflowed: bool,
}

impl BoundedWriter {
    #[verifier::type_invariant]
    spec fn within_maximum(self) -> bool {
        self.bytes@.len() <= self.maximum
    }

    pub closed spec fn written(self) -> Seq<u8> {
        self.bytes@
    }

    pub closed spec fn limit(self) -> nat {
        self.maximum as nat
    }

    pub closed spec fn has_overflowed(self) -> bool {
        self.overflowed
    }

    /// An empty writer that holds at most `maximum` bytes; refused when that many bytes
    /// cannot be addressed.
    pub fn new(maximum: u64) -> (r: Result<BoundedWriter, BackendFailure>)
        ensures
            maximum <= usize::MAX ==> (r matches Ok(w) && w.written() == Seq::<u8>::empty()
                && w.limit() == maximum && !w.has_overflowed()),
            maximum > usize::MAX ==> (r matches Err(f) && f.code == WorkerErrorCode::ResourceLimited),
    {
        if maximum > usize::MAX as u64 {
            return Err(BackendFailure::new(WorkerErrorCode::ResourceLimited, "PNG limit is too large"));
        }
        Ok(BoundedWriter { bytes: Vec::new(), maximum: maximum as usize, overflowed: false })
    }

    /// Appends all the bytes, or none of them when they would pass the maximum.
    pub fn write(&mut self, bytes: &[u8]) -> (r: Result<usize, OutputLimitExceeded>)
        ensures
            old(self).written().len() + bytes@.len() <= old(self).limit() ==> {
                &&& r == Ok::<usize, OutputLimitExceeded>(bytes@.len() as usize)
                &&& final(self).written() == old(self).written() + bytes@
                &&& final(self).has_overflowed() == old(self).has_overflowed()
            },
            old(self).written().len() + bytes@.len() > old(self).limit() ==> {
                &&& r is Err
                &&& final(self).written() == old(self).written()
                &&& final(self).has_overflowed()
            },
            final(self).limit() == old(self).limit(),
            final(self).written().len() <= final(self).limit(),
    {
        proof {
            use_type_invariant(&*self);
        }
        if bytes.len() > self.maximum - self.bytes.len() {
            self.overflowed = true;
            return Err(OutputLimitExceeded::Exceeded);
        }
        let mut k: usize = 0;
        let ghost before = self.bytes@;
        let mut out: Vec<u8> = Vec::new();
        std::mem::swap(&mut out, &mut self.bytes);
        while k < bytes.len()
            invariant
                k <= bytes@.len(),
                out@ == before + bytes@.subrange(0, k as int),
            decreases bytes@.len() - k,
        {
            out.push(bytes[k]);
            assert(bytes@.subrange(0, k + 1) =~= bytes@.subrange(0, k as int).push(bytes@[k as int]));
            k = k + 1;
        }
        assert(bytes@.subrange(0, bytes@.len() as int) =~= bytes@);
        self.bytes = out;
        Ok(bytes.len())
    }

    pub fn flush(&mut self) -> (r: Result<(), OutputLimitExceeded>)
        ensures
            r is Ok,
            final(self).written() == old(self).written(),
            final(self).limit() == old(self).limit(),
            final(self).has_overflowed() == old(self).has_overflowed(),
    {
        Ok(())
    }

    pub fn bytes(&self) -> (b: &[u8])
        ensures
            b@ == self.written(),
    {
        self.bytes.as_slice()
    }

    pub fn overflowed(&self) -> (b: bool)
        ensures
            b == self.has_overflowed(),
    {
        self.overflowed
    }

    /// The written bytes.
    pub fn into_bytes(self) -> (b: Vec<u8>)
        ensures
            b@ == self.written(),
    {
        self.bytes
    }
}

/// The payload description of an encoded PNG: its length, its SHA-256 in lower-case
/// hexadecimal, and its dimensions.
pub fn png_payload(png: &[u8], width: u32, height: u32) -> (p: PngPayload)
    ensures
        p.byte_length == png@.len(),
        p.sha256@ == hex_of(sha256_of(png@)),
        p.width == width,
        p.height == height,
{
    let digest = sha256_digest(png);
    let hex = hex_text(&digest);
    PngPayload { byte_length: png.len() as u64, sha256: string_from(&hex), width, height }
}

/// The status codes of the decoder that the backend tells apart.
#[derive(Debug, Clone, Copy, PartialEq, Eq, Structural)]
pub enum HeifErrorCodeKind {
    InputDoesNotExist,
    InvalidInput,
    UnsupportedFileType,
    UnsupportedFeature,
    DecoderPluginError,
    MemoryAllocationError,
    Other,
}

/// The detail codes of the decoder that the backend tells apart.
#[derive(Debug, Clone, Copy, PartialEq, Eq, Structural)]
pub enum HeifErrorSubCodeKind {
    SecurityLimitExceeded,
    NoMatchingDecoderInstalled,
    UnsupportedCodec,
    Other,
}

/// The worker error code reported for a decoder failure: resource limits first, then a
/// missing codec, then the status code.
pub open spec fn heif_failure_code(code: HeifErrorCodeKind, sub: HeifErrorSubCodeKind) -> WorkerErrorCode {
    if sub == HeifErrorSubCodeKind::SecurityLimitExceeded || code == HeifErrorCodeKind::MemoryAllocationError {
        WorkerErrorCode::ResourceLimited
    } else if sub == HeifErrorSubCodeKind::NoMatchingDecoderInstalled || sub
        == HeifErrorSubCodeKind::UnsupportedCodec {
        WorkerErrorCode::CodecUnavailable
    } else {
        match code {
            HeifErrorCodeKind::InputDoesNotExist => WorkerErrorCode::Unreadable,
            HeifErrorCodeKind::InvalidInput | HeifErrorCodeKind::UnsupportedFileType => WorkerErrorCode::InvalidContent,
            HeifErrorCodeKind::UnsupportedFeature => WorkerErrorCode::UnsupportedFeature,
            _ => WorkerErrorCode::DecodeFailed,
        }
    }
}

pub fn heif_failure(code: HeifErrorCodeKind, sub: HeifErrorSubCodeKind) -> (f: BackendFailure)
    ensures
        f.code == heif_failure_code(code, sub),
{
    if sub == HeifErrorSubCodeKind::SecurityLimitExceeded || code == HeifErrorCodeKind::MemoryAllocationError {
        return BackendFailure::new(WorkerErrorCode::ResourceLimited, "libheif resource limit was exceeded");
    }
    if sub == HeifErrorSubCodeKind::NoMatchingDecoderInstalled || sub == HeifErrorSubCodeKind::UnsupportedCodec {
        return BackendFailure::new(WorkerErrorCode::CodecUnavailable, "the bundled worker has no decoder for this codec");
    }
    match code {
        HeifErrorCodeKind::InputDoesNotExist => BackendFailure::new(WorkerErrorCode::Unreadable, "source is unreadable"),
        HeifErrorCodeKind::InvalidInput | HeifErrorCodeKind::UnsupportedFileType => BackendFailure::new(
            WorkerErrorCode::InvalidContent,
            "HEIF container content is invalid",
        ),
        HeifErrorCodeKind::UnsupportedFeature => BackendFailure::new(
            WorkerErrorCode::UnsupportedFeature,
            "HEIF content uses an unsupported feature",
        ),
        HeifErrorCodeKind::DecoderPluginError => BackendFailure::new(
            WorkerErrorCode::DecodeFailed,
            "the bundled decoder could not decode the image",
        ),
        _ => BackendFailure::new(WorkerErrorCode::DecodeFailed, "libheif could not process the image"),
    }
}

/// A time as signed nanoseconds since the Unix epoch, saturated to the range of `i128`.
pub open spec fn signed_nanoseconds(before_epoch: bool, nanos: u128) -> int {
    let magnitude = if nanos > i128::MAX { i128::MAX as int } else { nanos as int };
    if before_epoch {
        -magnitude
    } else {
        magnitude
    }
}

pub fn unix_nanoseconds(before_epoch: bool, nanos: u128) -> (r: i128)
    ensures
        r == signed_nanoseconds(before_epoch, nanos),
{
    let magnitude: i128 = if nanos > i128::MAX as u128 { i128::MAX } else { nanos as i128 };
    if before_epoch {
        -magnitude
    } else {
        magnitude
    }
}

/// The source a request names is still the one it was made for: a regular file with the
/// same size and modification time.
pub fn check_source_snapshot(request: &WorkerRequest, is_file: bool, size: u64, modified_unix_ns: i128) -> (r: Result<(), BackendFailure>)
    ensures
        r is Ok <==> is_file && size == request.source_size && modified_unix_ns == request.source_modified_unix_ns,
        r matches Err(f) ==> f.code == WorkerErrorCode::SourceChanged,
{
    if !is_file || size != request.source_size || modified_unix_ns != request.source_modified_unix_ns {
        return Err(BackendFailure::new(WorkerErrorCode::SourceChanged, "source changed while the worker request was running"));
    }
    Ok(())
}

} // verus!
