//! The client side of the format worker: its configuration and bounds, the requests it
//! builds, and how it judges a worker's answer before anything of it is used.
//!
//! Spawning the worker, reading its pipes and the file system stay with the caller; the
//! caller hands in what it observed as plain values.
use vstd::prelude::*;

use crate::diagnostics::{hex_of, sha256_of};
use crate::heif_backend::BackendFailure;
use crate::platform::{is_absolute_path, plain_path, PlatformFamily};
use crate::support::{path_starts_with, plain_same, plain_within, same_path};
use crate::protocol::{
    be32, HeifProperties, NativePath, PngPayload, ProtocolError, WorkerErrorCode, WorkerLimits,
    WorkerOperation, WorkerOutcome, WorkerRequest, WorkerResponseHeader, request_error,
    DEFAULT_MAX_DECODE_BYTES, DEFAULT_MAX_OUTPUT_BYTES, DEFAULT_MAX_SOURCE_DIMENSION,
    DEFAULT_WORKER_TIMEOUT_MS, MAX_RESPONSE_JSON_BYTES, WORKER_PROTOCOL_SCHEMA,
};
use crate::text::{char_len_utf8, char_width, chars_of, is_digit_char, slice_eq, string_from, trim, trim_seq};

verus! {

/// The most stderr bytes kept from a worker.
pub const MAX_STDERR_BYTES: usize = 4096;

/// One exact worker binary and the bounds it runs under. Paths are native path texts;
/// the timeout is in milliseconds.
#[derive(Debug, Clone, PartialEq, Eq)]
pub struct WorkerSpec {
    pub executable: String,
    pub working_directory: String,
    pub expected_sha256: String,
    pub provider_id: String,
    pub provider_version: String,
    pub timeout_ms: u64,
    pub max_response_json_bytes: usize,
    pub max_png_bytes: u64,
    pub max_stderr_bytes: usize,
}

impl WorkerSpec {
    /// A specification with the default bounds.
    pub fn new(
        executable: String,
        working_directory: String,
        expected_sha256: String,
        provider_id: String,
        provider_version: String,
    ) -> (s: WorkerSpec)
        ensures
            s.executable == executable,
            s.working_directory == working_directory,
            s.expected_sha256 == expected_sha256,
            s.provider_id == provider_id,
            s.provider_version == provider_version,
            s.timeout_ms == DEFAULT_WORKER_TIMEOUT_MS,
            s.max_response_json_bytes == MAX_RESPONSE_JSON_BYTES,
            s.max_png_bytes == DEFAULT_MAX_OUTPUT_BYTES,
            s.max_stderr_bytes == MAX_STDERR_BYTES,
    {
        WorkerSpec {
            executable,
            working_directory,
            expected_sha256,
            provider_id,
            provider_version,
            timeout_ms: DEFAULT_WORKER_TIMEOUT_MS,
            max_response_json_bytes: MAX_RESPONSE_JSON_BYTES,
            max_png_bytes: DEFAULT_MAX_OUTPUT_BYTES,
            max_stderr_bytes: MAX_STDERR_BYTES,
        }
    }
}

/// Why running a worker failed.
#[derive(Debug, Clone, PartialEq, Eq)]
pub enum WorkerRunError {
    InvalidConfiguration(&'static str),
    SourceOutsideRoot,
    InvalidSource,
    ExecutableChanged,
    Io(String),
    Protocol(ProtocolError),
    TimedOut { timeout_ms: u128, diagnostic: String },
    Crashed { status: String, diagnostic: String },
    OutputTooLarge,
    IdentityMismatch,
    ResourceLimitViolation,
    SourceChanged,
    InvalidPng,
    Worker { code: WorkerErrorCode, message: String },
    ThreadPanicked,
}

/// A lower-case hexadecimal digit.
pub open spec fn lower_hex_char(c: char) -> bool {
    is_digit_char(c) || ('a' <= c && c <= 'f')
}

/// A SHA-256 in lower-case hexadecimal.
pub open spec fn is_lower_sha256(v: Seq<char>) -> bool {
    v.len() == 64 && forall|i: int| 0 <= i < v.len() ==> lower_hex_char(#[trigger] v[i])
}

/// The bounds of a specification are usable: a lower-case SHA-256, a timeout of at most
/// the default, and every output bound nonzero and within its default.
pub open spec fn spec_bounds_ok(s: WorkerSpec) -> bool {
    &&& is_lower_sha256(s.expected_sha256@)
    &&& 0 < s.timeout_ms <= DEFAULT_WORKER_TIMEOUT_MS
    &&& 0 < s.max_response_json_bytes <= MAX_RESPONSE_JSON_BYTES
    &&& 0 < s.max_png_bytes <= DEFAULT_MAX_OUTPUT_BYTES
    &&& 0 < s.max_stderr_bytes <= MAX_STDERR_BYTES
}

pub(crate) fn is_lower_sha256_exec(v: &str) -> (b: bool)
    ensures
        b == is_lower_sha256(v@),
{
    let c = chars_of(v);
    if c.len() != 64 {
        return false;
    }
    let mut i: usize = 0;
    while i < c.len()
        invariant
            i <= c@.len(),
            c@ == v@,
            c@.len() == 64,
            forall|j: int| 0 <= j < i ==> lower_hex_char(#[trigger] c@[j]),
        decreases c@.len() - i,
    {
        let x = c[i];
        if !(('0' <= x && x <= '9') || ('a' <= x && x <= 'f')) {
            assert(!lower_hex_char(c@[i as int]));
            return false;
        }
        i = i + 1;
    }
    true
}

/// Validates a specification, given whether its two paths are absolute.
pub fn validate_spec_with(spec: &WorkerSpec, executable_absolute: bool, directory_absolute: bool) -> (r: Result<(), WorkerRunError>)
    ensures
        r is Ok <==> executable_absolute && directory_absolute && spec_bounds_ok(*spec),
        r matches Err(e) ==> e == WorkerRunError::InvalidConfiguration("worker spec"),
{
    if !executable_absolute || !directory_absolute || !is_lower_sha256_exec(spec.expected_sha256.as_str())
        || spec.timeout_ms == 0 || spec.timeout_ms > DEFAULT_WORKER_TIMEOUT_MS
        || spec.max_response_json_bytes == 0 || spec.max_response_json_bytes > MAX_RESPONSE_JSON_BYTES
        || spec.max_png_bytes == 0 || spec.max_png_bytes > DEFAULT_MAX_OUTPUT_BYTES
        || spec.max_stderr_bytes == 0 || spec.max_stderr_bytes > MAX_STDERR_BYTES {
        return Err(WorkerRunError::InvalidConfiguration("worker spec"));
    }
    Ok(())
}

/// Validates a specification with this platform's notion of an absolute path; that notion
/// is the platform's, so beside the bounds only what every absolute path looks like is
/// stated.
pub fn validate_spec(spec: &WorkerSpec) -> (r: Result<(), WorkerRunError>)
    ensures
        r is Ok ==> spec_bounds_ok(*spec),
        !spec_bounds_ok(*spec) ==> r is Err,
        r is Ok ==> crate::platform::rooted_text(spec.executable@) && crate::platform::rooted_text(
            spec.working_directory@,
        ),
        r matches Err(e) ==> e == WorkerRunError::InvalidConfiguration("worker spec"),
{
    let executable_absolute = is_absolute_path(spec.executable.as_str());
    let directory_absolute = is_absolute_path(spec.working_directory.as_str());
    validate_spec_with(spec, executable_absolute, directory_absolute)
}

/// How many response bytes are captured: the length prefix, the JSON and the PNG.
pub fn response_capture_limit(spec: &WorkerSpec) -> (r: Result<usize, WorkerRunError>)
    ensures
        4 + spec.max_response_json_bytes + spec.max_png_bytes <= usize::MAX ==> r == Ok::<usize, WorkerRunError>(
            (4 + spec.max_response_json_bytes + spec.max_png_bytes) as usize,
        ),
        4 + spec.max_response_json_bytes + spec.max_png_bytes > usize::MAX ==> r == Err::<usize, WorkerRunError>(
            WorkerRunError::InvalidConfiguration("response bound"),
        ),
{
    let with_json = match 4usize.checked_add(spec.max_response_json_bytes) {
        Some(v) => v,
        None => {
            return Err(WorkerRunError::InvalidConfiguration("response bound"));
        },
    };
    if spec.max_png_bytes > usize::MAX as u64 {
        return Err(WorkerRunError::InvalidConfiguration("response bound"));
    }
    match with_json.checked_add(spec.max_png_bytes as usize) {
        Some(v) => Ok(v),
        None => Err(WorkerRunError::InvalidConfiguration("response bound")),
    }
}

/// The PNG file signature.
pub open spec fn png_signature() -> Seq<u8> {
    seq![0x89u8, 0x50u8, 0x4eu8, 0x47u8, 0x0du8, 0x0au8, 0x1au8, 0x0au8]
}

/// The IHDR chunk type.
pub open spec fn ihdr_tag() -> Seq<u8> {
    seq![0x49u8, 0x48u8, 0x44u8, 0x52u8]
}

/// A PNG agrees with its payload description: the signature, an IHDR chunk first with
/// the declared width and height, and the declared SHA-256.
pub open spec fn png_matches(png: Seq<u8>, payload: PngPayload) -> bool {
    &&& png.len() >= 24
    &&& png.subrange(0, 8) == png_signature()
    &&& png.subrange(12, 16) == ihdr_tag()
    &&& be32(png.subrange(16, 20)) == payload.width
    &&& be32(png.subrange(20, 24)) == payload.height
    &&& hex_of(sha256_of(png)) == payload.sha256@
}

fn be32_at(b: &[u8], at: usize) -> (v: u32)
    requires
        at + 4 <= b@.len(),
    ensures
        v == be32(b@.subrange(at as int, at + 4)),
{
    let v = (b[at] as u32) * 16777216 + (b[at + 1] as u32) * 65536 + (b[at + 2] as u32) * 256 + (b[at + 3] as u32);
    v
}

/// Checks a PNG against its payload description.
pub fn validate_png(png: &[u8], payload: &PngPayload) -> (r: Result<(), WorkerRunError>)
    ensures
        r is Ok <==> png_matches(png@, *payload),
        r matches Err(e) ==> e == WorkerRunError::InvalidPng,
{
    if png.len() < 24 {
        return Err(WorkerRunError::InvalidPng);
    }
    let signature: [u8; 8] = [0x89, 0x50, 0x4e, 0x47, 0x0d, 0x0a, 0x1a, 0x0a];
    let mut i: usize = 0;
    while i < 8
        invariant
            i <= 8,
            png@.len() >= 24,
            signature@ == png_signature(),
            forall|j: int| 0 <= j < i ==> png@[j] == png_signature()[j],
        decreases 8 - i,
    {
        if png[i] != signature[i] {
            assert(png@.subrange(0, 8)[i as int] != png_signature()[i as int]);
            return Err(WorkerRunError::InvalidPng);
        }
        i = i + 1;
    }
    assert(png@.subrange(0, 8) =~= png_signature());
    if png[12] != 0x49 || png[13] != 0x48 || png[14] != 0x44 || png[15] != 0x52 {
        assert(png@.subrange(12, 16)[0] == png@[12]);
        assert(png@.subrange(12, 16)[1] == png@[13]);
        assert(png@.subrange(12, 16)[2] == png@[14]);
        assert(png@.subrange(12, 16)[3] == png@[15]);
        return Err(WorkerRunError::InvalidPng);
    }
    assert(png@.subrange(12, 16) =~= ihdr_tag());
    if be32_at(png, 16) != payload.width || be32_at(png, 20) != payload.height {
        return Err(WorkerRunError::InvalidPng);
    }
    let digest = crate::diagnostics::sha256_digest(png);
    let hex = crate::diagnostics::hex_text(&digest);
    if !slice_eq(&hex, &chars_of(payload.sha256.as_str())) {
        return Err(WorkerRunError::InvalidPng);
    }
    Ok(())
}

/// `str::replace`: each occurrence of `pattern`, from the left and without overlap,
/// replaced by `replacement`.
pub open spec fn replaced(s: Seq<char>, pattern: Seq<char>, replacement: Seq<char>) -> Seq<char>
    decreases s.len(),
{
    if pattern.len() == 0 || s.len() == 0 {
        s
    } else if pattern.len() <= s.len() && s.subrange(0, pattern.len() as int) == pattern {
        replacement + replaced(s.subrange(pattern.len() as int, s.len() as int), pattern, replacement)
    } else {
        seq![s[0]] + replaced(s.drop_first(), pattern, replacement)
    }
}

fn pattern_at(s: &[char], pattern: &[char], at: usize) -> (b: bool)
    requires
        at <= s@.len(),
    ensures
        b == (pattern@.len() <= s@.len() - at && s@.subrange(at as int, at + pattern@.len()) == pattern@),
{
    let n = s.len();
    if pattern.len() > n - at {
        return false;
    }
    let mut k: usize = 0;
    while k < pattern.len()
        invariant
            k <= pattern@.len(),
            n == s@.len(),
            at + pattern@.len() <= n,
            forall|j: int| 0 <= j < k ==> s@[at + j] == pattern@[j],
        decreases pattern@.len() - k,
    {
        if s[at + k] != pattern[k] {
            assert(s@.subrange(at as int, at + pattern@.len())[k as int] != pattern@[k as int]);
            return false;
        }
        k = k + 1;
    }
    assert(s@.subrange(at as int, at + pattern@.len()) =~= pattern@);
    true
}

/// Replaces every occurrence of a nonempty pattern.
pub fn replace_all(s: &[char], pattern: &[char], replacement: &[char]) -> (r: Vec<char>)
    requires
        pattern@.len() > 0,
    ensures
        r@ == replaced(s@, pattern@, replacement@),
{
    let mut out: Vec<char> = Vec::new();
    let mut i: usize = 0;
    let n = s.len();
    assert(s@.subrange(0, n as int) =~= s@);
    assert(out@ + replaced(s@, pattern@, replacement@) =~= replaced(s@, pattern@, replacement@));
    while i < n
        invariant
            i <= n,
            n == s@.len(),
            pattern@.len() > 0,
            replaced(s@, pattern@, replacement@) == out@ + replaced(s@.subrange(i as int, n as int), pattern@, replacement@),
        decreases n - i,
    {
        let ghost rest = s@.subrange(i as int, n as int);
        if pattern_at(s, pattern, i) {
            assert(rest.subrange(0, pattern@.len() as int) =~= s@.subrange(i as int, i + pattern@.len()));
            assert(rest.subrange(pattern@.len() as int, rest.len() as int) =~= s@.subrange(i + pattern@.len(), n as int));
            let mut k: usize = 0;
            let ghost before = out@;
            while k < replacement.len()
                invariant
                    k <= replacement@.len(),
                    out@ == before + replacement@.subrange(0, k as int),
                decreases replacement@.len() - k,
            {
                out.push(replacement[k]);
                assert(replacement@.subrange(0, k + 1) =~= replacement@.subrange(0, k as int).push(replacement@[k as int]));
                k = k + 1;
            }
            assert(replacement@.subrange(0, replacement@.len() as int) =~= replacement@);
            assert(before + replacement@ + replaced(s@.subrange(i + pattern@.len(), n as int), pattern@, replacement@)
                =~= out@ + replaced(s@.subrange(i + pattern@.len(), n as int), pattern@, replacement@));
            i = i + pattern.len();
        } else {
            assert(!(pattern@.len() <= rest.len() && rest.subrange(0, pattern@.len() as int) == pattern@)) by {
                if pattern@.len() <= rest.len() {
                    assert(rest.subrange(0, pattern@.len() as int) =~= s@.subrange(i as int, i + pattern@.len()));
                }
            }
            assert(rest.drop_first() =~= s@.subrange(i + 1, n as int));
            assert(rest[0] == s@[i as int]);
            let ghost before = out@;
            out.push(s[i]);
            assert(before + (seq![s@[i as int]] + replaced(s@.subrange(i + 1, n as int), pattern@, replacement@))
                =~= out@ + replaced(s@.subrange(i + 1, n as int), pattern@, replacement@));
            i = i + 1;
        }
    }
    assert(s@.subrange(n as int, n as int) =~= Seq::<char>::empty());
    assert(out@ + Seq::<char>::empty() =~= out@);
    out
}

/// A text with a source path replaced by `<source>`; an empty source changes nothing.
pub open spec fn redacted_message(message: Seq<char>, source: Seq<char>) -> Seq<char> {
    if source.len() == 0 {
        message
    } else {
        replaced(message, source, "<source>"@)
    }
}

/// Removes a source path from a worker's message.
pub fn redact_message(message: String, source: &str) -> (r: String)
    ensures
        r@ == redacted_message(message@, source@),
{
    let s = chars_of(source);
    if s.len() == 0 {
        return message;
    }
    let m = chars_of(message.as_str());
    let placeholder = chars_of("<source>");
    string_from(&replace_all(&m, &s, &placeholder))
}

/// The longest prefix of a text whose UTF-8 encoding fits in `max` bytes.
pub open spec fn within_bytes(s: Seq<char>, max: int) -> Seq<char>
    decreases s.len(),
{
    if s.len() == 0 || char_width(s[0]) > max {
        seq![]
    } else {
        seq![s[0]] + within_bytes(s.drop_first(), max - char_width(s[0]))
    }
}

fn prefix_within_bytes(s: &[char], max: usize) -> (r: Vec<char>)
    ensures
        r@ == within_bytes(s@, max as int),
{
    let mut out: Vec<char> = Vec::new();
    let mut used: usize = 0;
    let mut i: usize = 0;
    let n = s.len();
    assert(s@.subrange(0, n as int) =~= s@);
    assert(out@ + within_bytes(s@, max as int) =~= within_bytes(s@, max as int));
    while i < n
        invariant
            i <= n,
            n == s@.len(),
            used <= max,
            within_bytes(s@, max as int) == out@ + within_bytes(s@.subrange(i as int, n as int), max - used),
        decreases n - i,
    {
        let ghost rest = s@.subrange(i as int, n as int);
        assert(rest[0] == s@[i as int]);
        let w = char_len_utf8(s[i]);
        if w > max - used {
            assert(within_bytes(rest, max - used) =~= Seq::<char>::empty());
            assert(out@ + Seq::<char>::empty() =~= out@);
            return out;
        }
        assert(rest.drop_first() =~= s@.subrange(i + 1, n as int));
        let ghost before = out@;
        out.push(s[i]);
        assert(before + (seq![s@[i as int]] + within_bytes(s@.subrange(i + 1, n as int), max - used - w))
            =~= out@ + within_bytes(s@.subrange(i + 1, n as int), max - (used + w)));
        used = used + w;
        i = i + 1;
    }
    assert(s@.subrange(n as int, n as int) =~= Seq::<char>::empty());
    assert(out@ + Seq::<char>::empty() =~= out@);
    out
}

/// `String::from_utf8_lossy`. Trusted: valid UTF-8 decodes to exactly its characters;
/// what invalid sequences become is not stated.
#[verifier::external_body]
fn utf8_lossy(bytes: &[u8]) -> (r: String)
    ensures
        vstd::utf8::valid_utf8(bytes@) ==> r@ == vstd::utf8::decode_utf8(bytes@),
{
    String::from_utf8_lossy(bytes).into_owned()
}

/// The diagnostic kept of a worker's stderr, once decoded: the source path replaced, cut
/// to `maximum` bytes at a character boundary, and trimmed.
pub open spec fn diagnostic_of(text: Seq<char>, source: Seq<char>, maximum: int) -> Seq<char> {
    trim_seq(within_bytes(redacted_message(text, source), maximum))
}

/// Turns captured stderr bytes into a bounded diagnostic without the source path.
pub fn redact_diagnostic(bytes: &[u8], source: &str, maximum: usize) -> (r: String)
    ensures
        exists|text: Seq<char>|
            (vstd::utf8::valid_utf8(bytes@) ==> text == vstd::utf8::decode_utf8(bytes@)) && r@ == diagnostic_of(
                text,
                source@,
                maximum as int,
            ),
{
    let text = utf8_lossy(bytes);
    let ghost decoded = text@;
    let redacted = redact_message(text, source);
    let cut = prefix_within_bytes(&chars_of(redacted.as_str()), maximum);
    let r = string_from(&trim(&cut));
    assert((vstd::utf8::valid_utf8(bytes@) ==> decoded == vstd::utf8::decode_utf8(bytes@)) && r@ == diagnostic_of(
        decoded,
        source@,
        maximum as int,
    ));
    r
}

/// What a worker's exit status is called: its code, or a signal.
pub open spec fn exit_status_name(code: Option<i32>) -> Seq<char> {
    match code {
        None => "terminated-by-signal"@,
        Some(c) => if c < 0 {
            "code--"@ + crate::diagnostics::decimal((-c) as nat)
        } else {
            "code-"@ + crate::diagnostics::decimal(c as nat)
        },
    }
}

pub fn exit_status(code: Option<i32>) -> (r: String)
    ensures
        r@ == exit_status_name(code),
{
    match code {
        None => string_from(&chars_of("terminated-by-signal")),
        Some(c) => {
            let magnitude: usize = if c < 0 { (-(c as i64)) as usize } else { c as usize };
            let digits = crate::diagnostics::decimal_text(magnitude);
            let head = if c < 0 { chars_of("code--") } else { chars_of("code-") };
            string_from(&crate::text::concat(&head, &digits))
        },
    }
}

/// The answer of a worker that succeeded: the image properties and, for a thumbnail, the
/// PNG.
#[derive(Debug, Clone, PartialEq, Eq)]
pub struct WorkerSuccess {
    pub properties: HeifProperties,
    pub png: Option<Vec<u8>>,
}

/// The answer belongs to the request: same request ID and provider identity.
pub open spec fn identity_matches(request: WorkerRequest, header: WorkerResponseHeader) -> bool {
    &&& header.request_id == request.request_id
    &&& header.provider_id@ == request.provider_id@
    &&& header.provider_version@ == request.provider_version@
}

/// The thumbnail edge a request allows; none allows nothing.
pub open spec fn edge_limit(limits: WorkerLimits) -> u32 {
    match limits.max_edge {
        Some(e) => e,
        None => 0,
    }
}

/// A ready answer stays within the request's limits.
pub open spec fn ready_within_limits(limits: WorkerLimits, properties: HeifProperties, png_len: nat) -> bool {
    &&& properties.width <= limits.max_source_dimension
    &&& properties.height <= limits.max_source_dimension
    &&& png_len <= limits.max_output_bytes
}

/// The payload fits the operation: nothing for metadata; for a thumbnail a PNG that
/// matches its description and fits the thumbnail edge.
pub open spec fn payload_fits(request: WorkerRequest, payload: Option<PngPayload>, png: Seq<u8>) -> bool {
    match (request.operation, payload) {
        (WorkerOperation::Metadata, None) => png.len() == 0,
        (WorkerOperation::Thumbnail, Some(p)) => {
            &&& png.len() > 0
            &&& png_matches(png, p)
            &&& p.width <= edge_limit(request.limits)
            &&& p.height <= edge_limit(request.limits)
        },
        _ => false,
    }
}

fn text_eq(a: &str, b: &str) -> (r: bool)
    ensures
        r == (a@ == b@),
{
    slice_eq(&chars_of(a), &chars_of(b))
}

/// Judges a worker's answer to a request: the identity, then the limits and the payload of
/// a ready answer; a worker's error comes back with the source path removed.
pub fn interpret_response(request: &WorkerRequest, header: WorkerResponseHeader, png: Vec<u8>, source: &str) -> (r: Result<WorkerSuccess, WorkerRunError>)
    ensures
        !identity_matches(*request, header) ==> r == Err::<WorkerSuccess, WorkerRunError>(WorkerRunError::IdentityMismatch),
        identity_matches(*request, header) ==> match header.outcome {
            WorkerOutcome::Ready { properties, payload } => if !ready_within_limits(request.limits, properties, png@.len()) {
                r == Err::<WorkerSuccess, WorkerRunError>(WorkerRunError::ResourceLimitViolation)
            } else if !payload_fits(*request, payload, png@) {
                r == Err::<WorkerSuccess, WorkerRunError>(WorkerRunError::InvalidPng)
            } else {
                r matches Ok(s) && s.properties == properties && (png@.len() == 0 ==> s.png is None) && (png@.len() > 0 ==> (s.png matches Some(b) && b@ == png@))
            },
            WorkerOutcome::Error { code, message } => r matches Err(WorkerRunError::Worker { code: c, message: m }) && c == code && m@ == redacted_message(message@, source@),
        },
{
    if header.request_id != request.request_id || !text_eq(header.provider_id.as_str(), request.provider_id.as_str())
        || !text_eq(header.provider_version.as_str(), request.provider_version.as_str()) {
        return Err(WorkerRunError::IdentityMismatch);
    }
    match header.outcome {
        WorkerOutcome::Ready { properties, payload } => {
            if properties.width > request.limits.max_source_dimension || properties.height
                > request.limits.max_source_dimension || png.len() as u64 > request.limits.max_output_bytes {
                return Err(WorkerRunError::ResourceLimitViolation);
            }
            let edge = match request.limits.max_edge {
                Some(e) => e,
                None => 0,
            };
            match (request.operation, &payload) {
                (WorkerOperation::Metadata, None) => {
                    if png.len() != 0 {
                        return Err(WorkerRunError::InvalidPng);
                    }
                },
                (WorkerOperation::Thumbnail, Some(p)) => {
                    if png.len() == 0 {
                        return Err(WorkerRunError::InvalidPng);
                    }
                    validate_png(&png, p)?;
                    if p.width > edge || p.height > edge {
                        return Err(WorkerRunError::InvalidPng);
                    }
                },
                _ => {
                    return Err(WorkerRunError::InvalidPng);
                },
            }
            let png = if png.len() == 0 { None } else { Some(png) };
            Ok(WorkerSuccess { properties, png })
        },
        WorkerOutcome::Error { code, message } => Err(WorkerRunError::Worker { code, message: redact_message(message, source) }),
    }
}

/// The request a client builds: the default limits with the client's output bound and
/// timeout, and its provider identity.
pub open spec fn request_model(
    spec: WorkerSpec,
    request_id: u128,
    source_path: NativePath,
    operation: WorkerOperation,
    max_edge: Option<u32>,
    source_size: u64,
    source_modified_unix_ns: i128,
) -> WorkerRequest {
    WorkerRequest {
        schema: WORKER_PROTOCOL_SCHEMA,
        request_id,
        provider_id: spec.provider_id,
        provider_version: spec.provider_version,
        operation,
        source_path,
        source_size,
        source_modified_unix_ns,
        limits: WorkerLimits {
            max_edge,
            max_source_dimension: DEFAULT_MAX_SOURCE_DIMENSION,
            max_decode_bytes: DEFAULT_MAX_DECODE_BYTES,
            max_output_bytes: spec.max_png_bytes,
            timeout_ms: spec.timeout_ms,
        },
    }
}

/// A client bound to one exact worker binary: its specification and the canonical paths
/// of the binary and of its working directory.
#[derive(Debug)]
pub struct WorkerClient {
    spec: WorkerSpec,
    executable: String,
    working_directory: String,
}

/// A worker binary may be used when both canonical paths are absolute, the binary is a
/// file, the directory is a directory, and the binary's digest is the expected one.
pub open spec fn binary_usable(
    spec: WorkerSpec,
    executable_absolute: bool,
    executable_is_file: bool,
    directory_absolute: bool,
    directory_is_dir: bool,
    actual_sha256: Seq<char>,
) -> Result<(), WorkerRunError> {
    if !executable_absolute || !executable_is_file || !directory_absolute || !directory_is_dir {
        Err(WorkerRunError::InvalidConfiguration("worker paths"))
    } else if actual_sha256 != spec.expected_sha256@ {
        Err(WorkerRunError::ExecutableChanged)
    } else {
        Ok(())
    }
}

impl WorkerClient {
    pub closed spec fn spec_of(self) -> WorkerSpec {
        self.spec
    }

    pub closed spec fn executable_of(self) -> Seq<char> {
        self.executable@
    }

    pub closed spec fn directory_of(self) -> Seq<char> {
        self.working_directory@
    }

    /// Binds a client after the caller has validated the specification, canonicalized its
    /// paths, looked at what they are and digested the binary.
    pub fn bind(
        spec: WorkerSpec,
        executable: String,
        working_directory: String,
        executable_absolute: bool,
        executable_is_file: bool,
        directory_absolute: bool,
        directory_is_dir: bool,
        actual_sha256: &str,
    ) -> (r: Result<WorkerClient, WorkerRunError>)
        ensures
            match binary_usable(spec, executable_absolute, executable_is_file, directory_absolute, directory_is_dir, actual_sha256@) {
                Ok(_) => r matches Ok(c) && c.spec_of() == spec && c.executable_of() == executable@ && c.directory_of() == working_directory@,
                Err(e) => r == Err::<WorkerClient, WorkerRunError>(e),
            },
    {
        if !executable_absolute || !executable_is_file || !directory_absolute || !directory_is_dir {
            return Err(WorkerRunError::InvalidConfiguration("worker paths"));
        }
        if !text_eq(actual_sha256, spec.expected_sha256.as_str()) {
            return Err(WorkerRunError::ExecutableChanged);
        }
        Ok(WorkerClient { spec, executable, working_directory })
    }

    pub fn spec(&self) -> (s: &WorkerSpec)
        ensures
            *s == self.spec_of(),
    {
        &self.spec
    }

    pub fn executable(&self) -> (p: &str)
        ensures
            p@ == self.executable_of(),
    {
        self.executable.as_str()
    }

    pub fn working_directory(&self) -> (p: &str)
        ensures
            p@ == self.directory_of(),
    {
        self.working_directory.as_str()
    }

    pub fn provider_id(&self) -> (p: &str)
        ensures
            p@ == self.spec_of().provider_id@,
    {
        self.spec.provider_id.as_str()
    }

    pub fn provider_version(&self) -> (p: &str)
        ensures
            p@ == self.spec_of().provider_version@,
    {
        self.spec.provider_version.as_str()
    }

    /// The binary still has the digest it was bound with.
    pub fn check_executable_digest(&self, actual_sha256: &str) -> (r: Result<(), WorkerRunError>)
        ensures
            r is Ok <==> actual_sha256@ == self.spec_of().expected_sha256@,
            r matches Err(e) ==> e == WorkerRunError::ExecutableChanged,
    {
        if !text_eq(actual_sha256, self.spec.expected_sha256.as_str()) {
            return Err(WorkerRunError::ExecutableChanged);
        }
        Ok(())
    }

    /// A request for one source with the default limits and this client's output bound
    /// and timeout, validated for a worker on `platform`.
    pub fn request_for(
        &self,
        request_id: u128,
        source_path: NativePath,
        operation: WorkerOperation,
        max_edge: Option<u32>,
        source_size: u64,
        source_modified_unix_ns: i128,
        platform: PlatformFamily,
    ) -> (r: Result<WorkerRequest, WorkerRunError>)
        ensures
            ({
                let q = request_model(self.spec_of(), request_id, source_path, operation, max_edge, source_size, source_modified_unix_ns);
                match request_error(q, platform) {
                    None => r == Ok::<WorkerRequest, WorkerRunError>(q),
                    Some(e) => r == Err::<WorkerRequest, WorkerRunError>(WorkerRunError::Protocol(e)),
                }
            }),
    {
        let request = WorkerRequest {
            schema: WORKER_PROTOCOL_SCHEMA,
            request_id,
            provider_id: self.spec.provider_id.clone(),
            provider_version: self.spec.provider_version.clone(),
            operation,
            source_path,
            source_size,
            source_modified_unix_ns,
            limits: WorkerLimits {
                max_edge,
                max_source_dimension: DEFAULT_MAX_SOURCE_DIMENSION,
                max_decode_bytes: DEFAULT_MAX_DECODE_BYTES,
                max_output_bytes: self.spec.max_png_bytes,
                timeout_ms: self.spec.timeout_ms,
            },
        };
        match request.validate(platform) {
            Ok(()) => Ok(request),
            Err(e) => Err(WorkerRunError::Protocol(e)),
        }
    }

    /// A request must carry this client's provider identity.
    pub fn check_request_identity(&self, request: &WorkerRequest) -> (r: Result<(), WorkerRunError>)
        ensures
            r is Ok <==> request.provider_id@ == self.spec_of().provider_id@ && request.provider_version@
                == self.spec_of().provider_version@,
            r matches Err(e) ==> e == WorkerRunError::IdentityMismatch,
    {
        if !text_eq(request.provider_id.as_str(), self.spec.provider_id.as_str()) || !text_eq(
            request.provider_version.as_str(),
            self.spec.provider_version.as_str(),
        ) {
            return Err(WorkerRunError::IdentityMismatch);
        }
        Ok(())
    }
}

/// A worker-side failure as the answer to a request.
pub fn failure_response(request: &WorkerRequest, failure: &BackendFailure) -> (h: WorkerResponseHeader)
    ensures
        h.schema == WORKER_PROTOCOL_SCHEMA,
        h.request_id == request.request_id,
        h.provider_id@ == request.provider_id@,
        h.provider_version@ == request.provider_version@,
        h.outcome matches WorkerOutcome::Error { code: c, message: m } && c == failure.code && m@ == failure.message@,
{
    WorkerResponseHeader::error(request, failure.code, string_from(&chars_of(failure.message)))
}


/// The message of a read that ended before the bytes it needed.
pub const TRUNCATED_READ_MESSAGE: &'static str = "failed to fill whole buffer";

/// How many payload bytes follow a response's JSON, given what its header declares and
/// how many bytes are left: a declaration beyond the caller's cap or the output limit is
/// refused before anything is read; fewer bytes than declared is a truncated read; more
/// is trailing data.
pub fn response_payload_len(declared: u64, available: usize, max_png_bytes: u64) -> (r: Result<usize, ProtocolError>)
    ensures
        declared > max_png_bytes || declared > DEFAULT_MAX_OUTPUT_BYTES ==> r == Err::<usize, ProtocolError>(
            ProtocolError::PayloadTooLarge,
        ),
        declared <= max_png_bytes && declared <= DEFAULT_MAX_OUTPUT_BYTES && available < declared ==> (r matches Err(
            ProtocolError::Io(m),
        ) && m@ == TRUNCATED_READ_MESSAGE@),
        declared <= max_png_bytes && declared <= DEFAULT_MAX_OUTPUT_BYTES && available > declared ==> r == Err::<
            usize,
            ProtocolError,
        >(ProtocolError::TrailingBytes),
        declared <= max_png_bytes && declared <= DEFAULT_MAX_OUTPUT_BYTES && available == declared ==> r == Ok::<
            usize,
            ProtocolError,
        >(available),
{
    if declared > max_png_bytes || declared > DEFAULT_MAX_OUTPUT_BYTES {
        return Err(ProtocolError::PayloadTooLarge);
    }
    if (available as u64) < declared {
        return Err(ProtocolError::Io(string_from(&chars_of(TRUNCATED_READ_MESSAGE))));
    }
    if (available as u64) > declared {
        return Err(ProtocolError::TrailingBytes);
    }
    Ok(available)
}

/// Whether the source a request names may be read: the authorized root is a directory, the
/// source as canonicalized is the path the request names, and it lies inside the root,
/// component by component.
pub fn check_source_location(source: &str, requested: &str, root: &str, root_is_dir: bool) -> (r: Result<(), WorkerRunError>)
    ensures
        r is Err ==> r == Err::<(), WorkerRunError>(WorkerRunError::SourceOutsideRoot),
        !root_is_dir ==> r is Err,
        plain_path(source@) && plain_path(requested@) && plain_path(root@) ==> (r is Ok <==> root_is_dir
            && plain_same(source@, requested@) && plain_within(source@, root@)),
{
    if !root_is_dir || !same_path(source, requested) || !path_starts_with(source, root) {
        return Err(WorkerRunError::SourceOutsideRoot);
    }
    Ok(())
}

/// Whether a source may be named in a request: inside an authorized root that is a
/// directory, and a regular file.
pub fn check_request_source(source: &str, root: &str, root_is_dir: bool, source_is_file: bool) -> (r: Result<(), WorkerRunError>)
    ensures
        r is Err ==> r == Err::<(), WorkerRunError>(WorkerRunError::SourceOutsideRoot) || r == Err::<(), WorkerRunError>(
            WorkerRunError::InvalidSource,
        ),
        !root_is_dir ==> r == Err::<(), WorkerRunError>(WorkerRunError::SourceOutsideRoot),
        plain_path(source@) && plain_path(root@) ==> {
            &&& !(root_is_dir && plain_within(source@, root@)) ==> r == Err::<(), WorkerRunError>(WorkerRunError::SourceOutsideRoot)
            &&& root_is_dir && plain_within(source@, root@) ==> (if source_is_file {
                r is Ok
            } else {
                r == Err::<(), WorkerRunError>(WorkerRunError::InvalidSource)
            })
        },
{
    if !root_is_dir || !path_starts_with(source, root) {
        return Err(WorkerRunError::SourceOutsideRoot);
    }
    if !source_is_file {
        return Err(WorkerRunError::InvalidSource);
    }
    Ok(())
}

} // verus!
