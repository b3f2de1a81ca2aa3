//! The format worker protocol: requests, responses, their bounds, the hexadecimal encoding
//! of native paths, and the length prefix of a frame.
use vstd::prelude::*;

use crate::diagnostics::{hex_digit, hex_of, hex_text};
use crate::platform::PlatformFamily;
use crate::query_lex::byte_len;
use crate::text::{chars_of, is_alnum_char, is_digit_char, utf8_len};

verus! {

pub const WORKER_PROTOCOL_SCHEMA: u32 = 1;

pub const MAX_REQUEST_JSON_BYTES: usize = 65536;

pub const MAX_RESPONSE_JSON_BYTES: usize = 65536;

pub const DEFAULT_MAX_SOURCE_DIMENSION: u32 = 65535;

pub const DEFAULT_MAX_DECODE_BYTES: u64 = 268435456;

pub const DEFAULT_MAX_OUTPUT_BYTES: u64 = 33554432;

/// The longest a worker may take, in milliseconds.
pub const DEFAULT_WORKER_TIMEOUT_MS: u64 = 10000;

pub const MIN_THUMBNAIL_EDGE: u32 = 16;

pub const MAX_THUMBNAIL_EDGE: u32 = 2048;

pub const MAX_TOKEN_BYTES: usize = 128;

pub const MAX_ERROR_MESSAGE_BYTES: usize = 1024;

pub const MAX_NATIVE_PATH_BYTES: usize = 32768;

#[derive(Debug, Clone, Copy, PartialEq, Eq, Structural)]
pub enum WorkerOperation {
    Metadata,
    Thumbnail,
}

#[derive(Debug, Clone, Copy, PartialEq, Eq, Structural)]
pub struct WorkerLimits {
    pub max_edge: Option<u32>,
    pub max_source_dimension: u32,
    pub max_decode_bytes: u64,
    pub max_output_bytes: u64,
    pub timeout_ms: u64,
}

/// A native path in transit: hexadecimal Unix bytes, hexadecimal big-endian UTF-16 units,
/// or UTF-8 text.
#[derive(Debug, Clone, PartialEq, Eq)]
pub enum NativePath {
    UnixBytes(String),
    WindowsUtf16(String),
    Utf8(String),
}

#[derive(Debug, Clone, Copy, PartialEq, Eq, Structural)]
pub enum WorkerErrorCode {
    CodecUnavailable,
    UnsupportedFeature,
    InvalidContent,
    ResourceLimited,
    TimedOut,
    SourceChanged,
    Unreadable,
    DecodeFailed,
    Internal,
}

#[derive(Debug, Clone, PartialEq, Eq)]
pub struct HeifProperties {
    pub width: u32,
    pub height: u32,
    pub orientation: Option<u8>,
    pub color_space: Option<String>,
    pub has_alpha: Option<bool>,
    pub image_count: u32,
}

#[derive(Debug, Clone, PartialEq, Eq)]
pub struct PngPayload {
    pub byte_length: u64,
    pub sha256: String,
    pub width: u32,
    pub height: u32,
}

#[derive(Debug, Clone, PartialEq, Eq)]
pub enum WorkerOutcome {
    Ready { properties: HeifProperties, payload: Option<PngPayload> },
    Error { code: WorkerErrorCode, message: String },
}

/// A request to a worker; the request ID is a UUID as its 128-bit value.
#[derive(Debug, Clone, PartialEq, Eq)]
pub struct WorkerRequest {
    pub schema: u32,
    pub request_id: u128,
    pub provider_id: String,
    pub provider_version: String,
    pub operation: WorkerOperation,
    pub source_path: NativePath,
    pub source_size: u64,
    pub source_modified_unix_ns: i128,
    pub limits: WorkerLimits,
}

/// The header of a worker response.
#[derive(Debug, Clone, PartialEq, Eq)]
pub struct WorkerResponseHeader {
    pub schema: u32,
    pub request_id: u128,
    pub provider_id: String,
    pub provider_version: String,
    pub outcome: WorkerOutcome,
}

/// Why a frame of the worker protocol was refused.
#[derive(Debug, Clone, PartialEq, Eq)]
pub enum ProtocolError {
    Io(String),
    UnsupportedSchema(u32),
    InvalidRequestId,
    InvalidToken(&'static str),
    PathTooLong,
    InvalidPathEncoding,
    UnsupportedPathEncoding,
    InvalidLimits(&'static str),
    RequestTooLarge,
    ResponseTooLarge,
    PayloadTooLarge,
    InvalidJson(String),
    InvalidProperties,
    InvalidPayload,
    InvalidErrorMessage,
    TrailingBytes,
}

/// A protocol token: 1 to 128 ASCII letters, digits, `.`, `_` or `-` (so its bytes are its
/// characters).
pub open spec fn token_ok(v: Seq<char>) -> bool {
    &&& v.len() > 0
    &&& v.len() <= 128
    &&& forall|i: int| 0 <= i < v.len() ==> token_char(#[trigger] v[i])
}

pub open spec fn token_char(c: char) -> bool {
    is_alnum_char(c) || c == '.' || c == '_' || c == '-'
}

pub fn validate_token(name: &'static str, value: &str) -> (r: Result<(), ProtocolError>)
    ensures
        r is Ok <==> token_ok(value@),
        r matches Err(e) ==> e == ProtocolError::InvalidToken(name),
{
    let v = chars_of(value);
    if v.len() == 0 || v.len() > MAX_TOKEN_BYTES {
        return Err(ProtocolError::InvalidToken(name));
    }
    let mut i: usize = 0;
    while i < v.len()
        invariant
            i <= v@.len(),
            v@ == value@,
            forall|j: int| 0 <= j < i ==> token_char(#[trigger] v@[j]),
        decreases v@.len() - i,
    {
        let c = v[i];
        if !(('a' <= c && c <= 'z') || ('A' <= c && c <= 'Z') || ('0' <= c && c <= '9') || c == '.'
            || c == '_' || c == '-') {
            assert(!token_char(v@[i as int]));
            return Err(ProtocolError::InvalidToken(name));
        }
        i = i + 1;
    }
    Ok(())
}

/// The bounds a request's limits must keep for its operation, checked in this order.
pub open spec fn limits_error(l: WorkerLimits, op: WorkerOperation) -> Option<&'static str> {
    let edge_ok = match (op, l.max_edge) {
        (WorkerOperation::Thumbnail, Some(edge)) => 16 <= edge <= 2048,
        (WorkerOperation::Metadata, None) => true,
        _ => false,
    };
    if !edge_ok {
        Some("maxEdge")
    } else if l.max_source_dimension == 0 || l.max_source_dimension > 65535 {
        Some("maxSourceDimension")
    } else if l.max_decode_bytes == 0 || l.max_decode_bytes > 268435456 {
        Some("maxDecodeBytes")
    } else if l.max_output_bytes == 0 || l.max_output_bytes > 33554432 {
        Some("maxOutputBytes")
    } else if l.timeout_ms == 0 || l.timeout_ms > 10000 {
        Some("timeoutMs")
    } else {
        None
    }
}

impl WorkerLimits {
    pub fn validate(self, operation: WorkerOperation) -> (r: Result<(), ProtocolError>)
        ensures
            match limits_error(self, operation) {
                None => r is Ok,
                Some(field) => r == Err::<(), ProtocolError>(ProtocolError::InvalidLimits(field)),
            },
    {
        let edge_ok = match (operation, self.max_edge) {
            (WorkerOperation::Thumbnail, Some(edge)) => MIN_THUMBNAIL_EDGE <= edge && edge <= MAX_THUMBNAIL_EDGE,
            (WorkerOperation::Metadata, None) => true,
            _ => false,
        };
        if !edge_ok {
            return Err(ProtocolError::InvalidLimits("maxEdge"));
        }
        if self.max_source_dimension == 0 || self.max_source_dimension > DEFAULT_MAX_SOURCE_DIMENSION {
            return Err(ProtocolError::InvalidLimits("maxSourceDimension"));
        }
        if self.max_decode_bytes == 0 || self.max_decode_bytes > DEFAULT_MAX_DECODE_BYTES {
            return Err(ProtocolError::InvalidLimits("maxDecodeBytes"));
        }
        if self.max_output_bytes == 0 || self.max_output_bytes > DEFAULT_MAX_OUTPUT_BYTES {
            return Err(ProtocolError::InvalidLimits("maxOutputBytes"));
        }
        if self.timeout_ms == 0 || self.timeout_ms > DEFAULT_WORKER_TIMEOUT_MS {
            return Err(ProtocolError::InvalidLimits("timeoutMs"));
        }
        Ok(())
    }
}

pub open spec fn is_hex_lower(c: char) -> bool {
    is_digit_char(c) || ('a' <= c && c <= 'f')
}

pub open spec fn nibble(c: char) -> u8 {
    if is_digit_char(c) {
        ((c as u32) - ('0' as u32)) as u8
    } else {
        ((c as u32) - ('a' as u32) + 10) as u8
    }
}

/// The bytes that pairs of lower-case hexadecimal digits write.
pub open spec fn unhex(v: Seq<char>) -> Seq<u8>
    decreases v.len(),
{
    if v.len() < 2 {
        seq![]
    } else {
        unhex(v.subrange(0, v.len() - 2)).push(
            (nibble(v[v.len() - 2]) * 16 + nibble(v[v.len() - 1])) as u8,
        )
    }
}

/// Hexadecimal text decodes when it is an even number of lower-case hexadecimal digits.
pub open spec fn hex_decodable(v: Seq<char>) -> bool {
    v.len() % 2 == 0 && forall|i: int| 0 <= i < v.len() ==> is_hex_lower(#[trigger] v[i])
}

/// Lower-case hexadecimal of bytes.
pub fn encode_hex(bytes: &[u8]) -> (r: String)
    ensures
        r@ == hex_of(bytes@),
{
    crate::text::string_from(&hex_text(bytes))
}

fn decode_nibble(c: char) -> (r: Option<u8>)
    ensures
        is_hex_lower(c) ==> r == Some(nibble(c)),
        !is_hex_lower(c) ==> r is None,
{
    if '0' <= c && c <= '9' {
        Some(((c as u32) - ('0' as u32)) as u8)
    } else if 'a' <= c && c <= 'f' {
        Some(((c as u32) - ('a' as u32) + 10) as u8)
    } else {
        None
    }
}

/// Decodes lower-case hexadecimal; an odd number of bytes or any other character is a
/// malformed path encoding.
pub fn decode_hex(value: &str) -> (r: Result<Vec<u8>, ProtocolError>)
    ensures
        hex_decodable(value@) ==> (r matches Ok(b) && b@ == unhex(value@)),
        !hex_decodable(value@) ==> r == Err::<Vec<u8>, ProtocolError>(ProtocolError::InvalidPathEncoding),
{
    let v = chars_of(value);
    let mut i: usize = 0;
    while i < v.len()
        invariant
            i <= v@.len(),
            v@ == value@,
            forall|j: int| 0 <= j < i ==> is_hex_lower(#[trigger] v@[j]),
        decreases v@.len() - i,
    {
        if decode_nibble(v[i]).is_none() {
            return Err(ProtocolError::InvalidPathEncoding);
        }
        i = i + 1;
    }
    if v.len() % 2 != 0 {
        return Err(ProtocolError::InvalidPathEncoding);
    }
    let mut out: Vec<u8> = Vec::new();
    let mut k: usize = 0;
    while k < v.len()
        invariant
            k <= v@.len(),
            k % 2 == 0,
            v@.len() % 2 == 0,
            forall|j: int| 0 <= j < v@.len() ==> is_hex_lower(#[trigger] v@[j]),
            out@ == unhex(v@.subrange(0, k as int)),
        decreases v@.len() - k,
    {
        let high = decode_nibble(v[k]).unwrap();
        let low = decode_nibble(v[k + 1]).unwrap();
        assert(high < 16 && low < 16);
        out.push(high * 16 + low);
        assert(v@.subrange(0, k + 2).subrange(0, k as int) =~= v@.subrange(0, k as int));
        k = k + 2;
    }
    assert(v@.subrange(0, v@.len() as int) =~= v@);
    Ok(out)
}

pub proof fn lemma_hex_digit(n: u8)
    requires
        n < 16,
    ensures
        is_hex_lower(hex_digit(n)),
        nibble(hex_digit(n)) == n,
{
}

/// Hexadecimal of bytes decodes back to the same bytes.
pub proof fn lemma_hex_round_trip(b: Seq<u8>)
    ensures
        hex_decodable(hex_of(b)),
        unhex(hex_of(b)) == b,
    decreases b.len(),
{
    crate::diagnostics::lemma_hex_len(b);
    if b.len() > 0 {
        lemma_hex_round_trip(b.drop_last());
        let x = b.last();
        lemma_hex_digit(x / 16);
        lemma_hex_digit(x % 16);
        let h = hex_of(b);
        crate::diagnostics::lemma_hex_len(b.drop_last());
        assert(h.subrange(0, h.len() - 2) =~= hex_of(b.drop_last()));
        assert(b.drop_last().push(x) =~= b);
        assert forall|i: int| 0 <= i < h.len() implies is_hex_lower(#[trigger] h[i]) by {
            if i < h.len() - 2 {
                assert(h[i] == hex_of(b.drop_last())[i]);
            }
        }
        assert((x / 16) * 16 + x % 16 == x);
    }
}

/// The path encoding that a worker on `platform` reads: Unix bytes on macOS and Linux,
/// UTF-16 on Windows, UTF-8 anywhere.
pub open spec fn path_encoding_error(p: NativePath, platform: PlatformFamily) -> Option<ProtocolError> {
    match p {
        NativePath::UnixBytes(v) => if platform == PlatformFamily::Windows {
            Some(ProtocolError::UnsupportedPathEncoding)
        } else if !hex_decodable(v@) {
            Some(ProtocolError::InvalidPathEncoding)
        } else {
            None
        },
        NativePath::WindowsUtf16(v) => if platform != PlatformFamily::Windows {
            Some(ProtocolError::UnsupportedPathEncoding)
        } else if !hex_decodable(v@) || unhex(v@).len() % 2 != 0 {
            Some(ProtocolError::InvalidPathEncoding)
        } else {
            None
        },
        NativePath::Utf8(_) => None,
    }
}

impl NativePath {
    /// The encoded text's length in bytes.
    pub fn encoded_len(&self) -> (n: usize)
        ensures
            n == utf8_len(match self {
                NativePath::UnixBytes(v) => v@,
                NativePath::WindowsUtf16(v) => v@,
                NativePath::Utf8(v) => v@,
            }),
    {
        match self {
            NativePath::UnixBytes(v) => byte_len(v.as_str()),
            NativePath::WindowsUtf16(v) => byte_len(v.as_str()),
            NativePath::Utf8(v) => byte_len(v.as_str()),
        }
    }

    /// Whether a worker on `platform` can rebuild the path.
    pub fn check_for_platform(&self, platform: PlatformFamily) -> (r: Result<(), ProtocolError>)
        ensures
            match path_encoding_error(*self, platform) {
                None => r is Ok,
                Some(e) => r == Err::<(), ProtocolError>(e),
            },
    {
        match self {
            NativePath::UnixBytes(v) => {
                if platform == PlatformFamily::Windows {
                    return Err(ProtocolError::UnsupportedPathEncoding);
                }
                decode_hex(v.as_str())?;
                Ok(())
            },
            NativePath::WindowsUtf16(v) => {
                if platform != PlatformFamily::Windows {
                    return Err(ProtocolError::UnsupportedPathEncoding);
                }
                let bytes = decode_hex(v.as_str())?;
                if bytes.len() % 2 != 0 {
                    return Err(ProtocolError::InvalidPathEncoding);
                }
                Ok(())
            },
            NativePath::Utf8(_) => Ok(()),
        }
    }
}

/// The version nibble of a UUID's 128-bit value.
pub open spec fn uuid_version_of(value: u128) -> u128 {
    (value >> 76u128) & 0xfu128
}

/// `uuid::Uuid::get_version_num`. Trusted: it is the high nibble of the UUID's seventh byte,
/// as the crate's source computes it.
#[verifier::external_body]
fn uuid_version(value: u128) -> (v: usize)
    ensures
        v as u128 == uuid_version_of(value),
{
    uuid::Uuid::from_u128(value).get_version_num()
}

/// Decoded properties: positive dimensions within the source bound, at least one image, an
/// EXIF orientation in `1..=8`, and a color space of 1 to 128 bytes.
pub open spec fn properties_ok(p: HeifProperties) -> bool {
    &&& p.width != 0
    &&& p.height != 0
    &&& p.width <= 65535
    &&& p.height <= 65535
    &&& p.image_count != 0
    &&& (p.orientation matches Some(o) ==> 1 <= o <= 8)
    &&& (p.color_space matches Some(c) ==> 0 < utf8_len(c@) <= 128)
}

impl HeifProperties {
    pub fn validate(&self) -> (r: Result<(), ProtocolError>)
        ensures
            r is Ok <==> properties_ok(*self),
            r matches Err(e) ==> e == ProtocolError::InvalidProperties,
    {
        let orientation_bad = match self.orientation {
            Some(o) => !(1 <= o && o <= 8),
            None => false,
        };
        let color_bad = match &self.color_space {
            Some(c) => {
                let n = byte_len(c.as_str());
                n == 0 || n > MAX_TOKEN_BYTES
            },
            None => false,
        };
        if self.width == 0 || self.height == 0 || self.width > DEFAULT_MAX_SOURCE_DIMENSION
            || self.height > DEFAULT_MAX_SOURCE_DIMENSION || self.image_count == 0 || orientation_bad
            || color_bad {
            return Err(ProtocolError::InvalidProperties);
        }
        Ok(())
    }
}

/// A declared PNG payload: 1 byte to the output bound, a SHA-256 of 64 lower-case hex digits,
/// and a thumbnail of positive size at most 2048 on each edge.
pub open spec fn payload_ok(p: PngPayload) -> bool {
    &&& p.byte_length != 0
    &&& p.byte_length <= 33554432
    &&& p.sha256@.len() == 64
    &&& forall|i: int| 0 <= i < p.sha256@.len() ==> is_hex_lower(#[trigger] p.sha256@[i])
    &&& p.width != 0
    &&& p.height != 0
    &&& p.width <= 2048
    &&& p.height <= 2048
}

impl PngPayload {
    pub fn validate(&self) -> (r: Result<(), ProtocolError>)
        ensures
            r is Ok <==> payload_ok(*self),
            r matches Err(e) ==> e == ProtocolError::InvalidPayload,
    {
        let digest = chars_of(self.sha256.as_str());
        let mut hex = digest.len() == 64;
        let mut i: usize = 0;
        while i < digest.len()
            invariant
                i <= digest@.len(),
                digest@ == self.sha256@,
                hex == (digest@.len() == 64 && forall|j: int| 0 <= j < i ==> is_hex_lower(#[trigger] digest@[j])),
            decreases digest@.len() - i,
        {
            if decode_nibble(digest[i]).is_none() {
                hex = false;
            }
            i = i + 1;
        }
        if self.byte_length == 0 || self.byte_length > DEFAULT_MAX_OUTPUT_BYTES || !hex || self.width == 0
            || self.height == 0 || self.width > MAX_THUMBNAIL_EDGE || self.height > MAX_THUMBNAIL_EDGE {
            return Err(ProtocolError::InvalidPayload);
        }
        Ok(())
    }
}

/// The first refusal of a request, in the order schema, provider ID, provider version,
/// request ID (a UUIDv7), path length, path encoding on `platform`, limits.
pub open spec fn request_error(r: WorkerRequest, platform: PlatformFamily) -> Option<ProtocolError> {
    if r.schema != 1 {
        Some(ProtocolError::UnsupportedSchema(r.schema))
    } else if !token_ok(r.provider_id@) {
        Some(ProtocolError::InvalidToken("provider ID"))
    } else if !token_ok(r.provider_version@) {
        Some(ProtocolError::InvalidToken("provider version"))
    } else if uuid_version_of(r.request_id) != 7 {
        Some(ProtocolError::InvalidRequestId)
    } else if utf8_len(
        match r.source_path {
            NativePath::UnixBytes(v) => v@,
            NativePath::WindowsUtf16(v) => v@,
            NativePath::Utf8(v) => v@,
        },
    ) > 32768 {
        Some(ProtocolError::PathTooLong)
    } else if path_encoding_error(r.source_path, platform) is Some {
        path_encoding_error(r.source_path, platform)
    } else {
        match limits_error(r.limits, r.operation) {
            Some(field) => Some(ProtocolError::InvalidLimits(field)),
            None => None,
        }
    }
}

impl WorkerRequest {
    /// Validates all protocol and resource limits before any source is opened, for a worker
    /// on `platform`.
    pub fn validate(&self, platform: PlatformFamily) -> (r: Result<(), ProtocolError>)
        ensures
            match request_error(*self, platform) {
                None => r is Ok,
                Some(e) => r == Err::<(), ProtocolError>(e),
            },
    {
        if self.schema != WORKER_PROTOCOL_SCHEMA {
            return Err(ProtocolError::UnsupportedSchema(self.schema));
        }
        validate_token("provider ID", self.provider_id.as_str())?;
        validate_token("provider version", self.provider_version.as_str())?;
        if uuid_version(self.request_id) != 7 {
            return Err(ProtocolError::InvalidRequestId);
        }
        if self.source_path.encoded_len() > MAX_NATIVE_PATH_BYTES {
            return Err(ProtocolError::PathTooLong);
        }
        self.source_path.check_for_platform(platform)?;
        self.limits.validate(self.operation)
    }
}

/// The first refusal of a response header: schema, provider ID, provider version, request
/// ID, then its properties and payload declaration, or its error message of 1 to 1024 bytes.
pub open spec fn response_error(h: WorkerResponseHeader) -> Option<ProtocolError> {
    if h.schema != 1 {
        Some(ProtocolError::UnsupportedSchema(h.schema))
    } else if !token_ok(h.provider_id@) {
        Some(ProtocolError::InvalidToken("provider ID"))
    } else if !token_ok(h.provider_version@) {
        Some(ProtocolError::InvalidToken("provider version"))
    } else if uuid_version_of(h.request_id) != 7 {
        Some(ProtocolError::InvalidRequestId)
    } else {
        match h.outcome {
            WorkerOutcome::Ready { properties, payload } => if !properties_ok(properties) {
                Some(ProtocolError::InvalidProperties)
            } else if payload matches Some(p) && !payload_ok(p) {
                Some(ProtocolError::InvalidPayload)
            } else {
                None
            },
            WorkerOutcome::Error { message, .. } => if utf8_len(message@) == 0 || utf8_len(message@) > 1024 {
                Some(ProtocolError::InvalidErrorMessage)
            } else {
                None
            },
        }
    }
}

impl WorkerResponseHeader {
    /// An error response that answers a request.
    pub fn error(request: &WorkerRequest, code: WorkerErrorCode, message: String) -> (h: WorkerResponseHeader)
        ensures
            h.schema == WORKER_PROTOCOL_SCHEMA,
            h.request_id == request.request_id,
            h.provider_id@ == request.provider_id@,
            h.provider_version@ == request.provider_version@,
            h.outcome matches WorkerOutcome::Error { code: c, message: m } && c == code && m@ == message@,
    {
        WorkerResponseHeader {
            schema: WORKER_PROTOCOL_SCHEMA,
            request_id: request.request_id,
            provider_id: crate::text::string_from(&chars_of(request.provider_id.as_str())),
            provider_version: crate::text::string_from(&chars_of(request.provider_version.as_str())),
            outcome: WorkerOutcome::Error { code, message },
        }
    }

    /// Validates response identity and payload declarations.
    pub fn validate(&self) -> (r: Result<(), ProtocolError>)
        ensures
            match response_error(*self) {
                None => r is Ok,
                Some(e) => r == Err::<(), ProtocolError>(e),
            },
    {
        if self.schema != WORKER_PROTOCOL_SCHEMA {
            return Err(ProtocolError::UnsupportedSchema(self.schema));
        }
        validate_token("provider ID", self.provider_id.as_str())?;
        validate_token("provider version", self.provider_version.as_str())?;
        if uuid_version(self.request_id) != 7 {
            return Err(ProtocolError::InvalidRequestId);
        }
        match &self.outcome {
            WorkerOutcome::Ready { properties, payload } => {
                properties.validate()?;
                if let Some(p) = payload {
                    p.validate()?;
                }
            },
            WorkerOutcome::Error { message, .. } => {
                let n = byte_len(message.as_str());
                if n == 0 || n > MAX_ERROR_MESSAGE_BYTES {
                    return Err(ProtocolError::InvalidErrorMessage);
                }
            },
        }
        Ok(())
    }

    /// The PNG length that the header declares; none for an error or a payload-less answer.
    pub fn declared_payload_len(&self) -> (n: u64)
        ensures
            n == match self.outcome {
                WorkerOutcome::Ready { payload: Some(p), .. } => p.byte_length,
                _ => 0,
            },
    {
        match &self.outcome {
            WorkerOutcome::Ready { payload: Some(p), .. } => p.byte_length,
            _ => 0,
        }
    }
}

/// A response carries exactly the payload it declares, within the caller's bound.
pub open spec fn payload_pair_ok(h: WorkerResponseHeader, png_len: nat, max_png_bytes: u64) -> bool {
    match h.outcome {
        WorkerOutcome::Ready { payload: Some(p), .. } => png_len > 0 && p.byte_length == png_len && p.byte_length <= max_png_bytes,
        _ => png_len == 0,
    }
}

pub fn validate_payload_pair(response: &WorkerResponseHeader, png: &[u8], max_png_bytes: u64) -> (r: Result<(), ProtocolError>)
    ensures
        r is Ok <==> payload_pair_ok(*response, png@.len(), max_png_bytes),
        r matches Err(e) ==> e == ProtocolError::InvalidPayload,
{
    let declared = match &response.outcome {
        WorkerOutcome::Ready { payload, .. } => payload.as_ref(),
        WorkerOutcome::Error { .. } => None,
    };
    match declared {
        None => if png.len() == 0 {
            Ok(())
        } else {
            Err(ProtocolError::InvalidPayload)
        },
        Some(p) => {
            let len: u64 = if png.len() as u128 <= u64::MAX as u128 { png.len() as u64 } else { u64::MAX };
            if png.len() != 0 && p.byte_length == len && (png.len() as u128) <= (u64::MAX as u128) && p.byte_length <= max_png_bytes {
                Ok(())
            } else {
                Err(ProtocolError::InvalidPayload)
            }
        },
    }
}

/// The big-endian value of a four-byte length prefix.
pub open spec fn be32(b: Seq<u8>) -> nat {
    ((b[0] as nat) * 16777216 + (b[1] as nat) * 65536 + (b[2] as nat) * 256 + (b[3] as nat)) as nat
}

/// The four-byte big-endian prefix of a frame of `length` bytes, which must fit in `u32`.
pub fn frame_length_prefix(length: usize) -> (r: Result<Vec<u8>, ProtocolError>)
    ensures
        length > u32::MAX ==> r == Err::<Vec<u8>, ProtocolError>(ProtocolError::ResponseTooLarge),
        length <= u32::MAX ==> (r matches Ok(b) && b@.len() == 4 && be32(b@) == length),
{
    if length as u128 > u32::MAX as u128 {
        return Err(ProtocolError::ResponseTooLarge);
    }
    let n = length as u64;
    let b0 = (n / 16777216) as u8;
    let b1 = ((n / 65536) % 256) as u8;
    let b2 = ((n / 256) % 256) as u8;
    let b3 = (n % 256) as u8;
    assert(b0 as nat * 16777216 + b1 as nat * 65536 + b2 as nat * 256 + b3 as nat == n) by (nonlinear_arith)
        requires
            n <= 4294967295,
            b0 as nat == n / 16777216,
            b1 as nat == (n / 65536) % 256,
            b2 as nat == (n / 256) % 256,
            b3 as nat == n % 256,
    ;
    let mut r: Vec<u8> = Vec::new();
    r.push(b0);
    r.push(b1);
    r.push(b2);
    r.push(b3);
    Ok(r)
}

/// The length of a frame from its prefix, refused when it exceeds `maximum`.
pub fn frame_length(prefix: &[u8], maximum: usize, too_large: ProtocolError) -> (r: Result<usize, ProtocolError>)
    requires
        prefix@.len() == 4,
    ensures
        be32(prefix@) <= maximum ==> r == Ok::<usize, ProtocolError>(be32(prefix@) as usize),
        be32(prefix@) > maximum ==> r == Err::<usize, ProtocolError>(too_large),
{
    let value: u64 = (prefix[0] as u64) * 16777216 + (prefix[1] as u64) * 65536 + (prefix[2] as u64) * 256 + (prefix[3] as u64);
    if value as u128 > maximum as u128 {
        return Err(too_large);
    }
    Ok(value as usize)
}

/// The prefix of a frame reads back as its length.
pub proof fn lemma_frame_length_round_trip(n: nat)
    requires
        n <= u32::MAX,
    ensures
        be32(seq![(n / 16777216) as u8, ((n / 65536) % 256) as u8, ((n / 256) % 256) as u8, (n % 256) as u8]) == n,
{
    let b = seq![(n / 16777216) as u8, ((n / 65536) % 256) as u8, ((n / 256) % 256) as u8, (n % 256) as u8];
    assert((n / 16777216) * 16777216 + ((n / 65536) % 256) * 65536 + ((n / 256) % 256) * 256 + n % 256 == n) by (nonlinear_arith)
        requires
            n <= 4294967295,
    ;
}

} // verus!
