//! The bounded support log: path-free structured events in a ring of recent events, their
//! summary, the rolling runtime log's footprint and rotation, and saved UI preferences.
use sha2::Digest;
use vstd::prelude::*;

use crate::events::{text_less, Order3};
use crate::text::{
    chars_of, concat, contains_char, contains_literal, has_infix, has_prefix, is_control_char, is_white,
    string_from, strip_literal, subslice, trim_seq,
};

verus! {

/// Events the in-memory support log keeps.
pub const MAX_DIAGNOSTIC_EVENTS: usize = 256;

/// Details kept per event.
pub const MAX_DIAGNOSTIC_DETAILS: usize = 16;

/// Characters kept of a category, a code or a detail name.
pub const MAX_DIAGNOSTIC_NAME_LENGTH: usize = 64;

/// Characters kept of a detail value.
pub const MAX_DIAGNOSTIC_VALUE_LENGTH: usize = 256;

pub const DIAGNOSTIC_SCHEMA_VERSION: u32 = 2;

pub const APPLICATION_CONFIG_SCHEMA_VERSION: u32 = 1;

#[derive(Debug, Clone, Copy, PartialEq, Eq, Structural, PartialOrd, Ord)]
pub enum DiagnosticLevel {
    Info,
    Warning,
    Error,
}

pub open spec fn level_rank(l: DiagnosticLevel) -> int {
    match l {
        DiagnosticLevel::Info => 0,
        DiagnosticLevel::Warning => 1,
        DiagnosticLevel::Error => 2,
    }
}

#[derive(Debug, Clone, Copy, PartialEq, Eq, Structural)]
pub enum TagFilterPreference {
    Include,
    Exclude,
}

/// A structured support event; its details are ordered by name, names unique.
#[derive(Debug, Clone, PartialEq, Eq)]
pub struct DiagnosticEvent {
    pub timestamp: String,
    pub level: DiagnosticLevel,
    pub category: String,
    pub code: String,
    pub details: Vec<(String, String)>,
}

#[derive(Debug, Clone, Default, PartialEq, Eq)]
pub struct DiagnosticBuild {
    pub version: String,
    pub git_commit: String,
    pub target: String,
    pub profile: String,
    pub rustc: String,
}

#[derive(Debug, Clone, Default, PartialEq, Eq)]
pub struct DiagnosticRuntime {
    pub operating_system: String,
    pub architecture: String,
}

#[derive(Debug, Clone, Default, PartialEq, Eq)]
pub struct DiagnosticConfigurationSummary {
    pub application_schema: u32,
    pub library_root_count: usize,
    pub enabled_library_root_count: usize,
    pub obsidian_vault_count: usize,
    pub enabled_obsidian_vault_count: usize,
    pub saved_query_present: bool,
    pub saved_tag_filter_count: usize,
}

#[derive(Debug, Clone, Default, PartialEq, Eq)]
pub struct DiagnosticCacheSummary {
    pub layout_version: u32,
    pub startup_disposition: String,
    pub file_count: u64,
    pub byte_count: u64,
}

#[derive(Debug, Clone, Default, PartialEq, Eq)]
pub struct DiagnosticCatalogSummary {
    pub asset_count: usize,
    pub active_scan_count: usize,
}

#[derive(Debug, Clone, Default, PartialEq, Eq)]
pub struct DiagnosticPerformanceSummary {
    pub active_scans: usize,
    pub active_watches: usize,
    pub scheduler_active: usize,
    pub scheduler_waiting: usize,
    pub scheduler_peak_active: usize,
    pub scheduler_peak_waiting: usize,
    pub cache_entries: u64,
    pub cache_bytes: u64,
}

/// How many non-informational events share a level, category and code, and when the last
/// of them happened.
#[derive(Debug, Clone, PartialEq, Eq)]
pub struct DiagnosticEventSummary {
    pub level: DiagnosticLevel,
    pub category: String,
    pub code: String,
    pub count: usize,
    pub last_seen: String,
}

#[derive(Debug, Clone, Copy, Default, PartialEq, Eq, Structural)]
pub struct DiagnosticLogSummary {
    pub file_count: usize,
    pub byte_count: u64,
    pub max_file_bytes: u64,
    pub retained_files: usize,
}

#[derive(Debug, Clone, Default, PartialEq, Eq)]
pub struct DiagnosticAccessSummary {
    pub name: String,
    pub enabled: bool,
    pub access_status: String,
    pub path_fingerprint: String,
}

#[derive(Debug, Clone, PartialEq, Eq)]
pub struct DiagnosticSnapshot {
    pub schema: u32,
    pub generated_at: String,
    pub build: DiagnosticBuild,
    pub runtime: DiagnosticRuntime,
    pub configuration: DiagnosticConfigurationSummary,
    pub cache: DiagnosticCacheSummary,
    pub catalog: DiagnosticCatalogSummary,
    pub performance: DiagnosticPerformanceSummary,
    pub runtime_log: DiagnosticLogSummary,
    pub event_summary: Vec<DiagnosticEventSummary>,
    pub library_roots: Vec<DiagnosticAccessSummary>,
    pub obsidian_vaults: Vec<DiagnosticAccessSummary>,
    pub recent_events: Vec<DiagnosticEvent>,
}

/// Where an export was written, when, with how many events and bytes.
#[derive(Debug, Clone, PartialEq, Eq)]
pub struct DiagnosticExportReport {
    pub path: String,
    pub generated_at: String,
    pub event_count: usize,
    pub size_bytes: u64,
}

/// Why the support log could not do its work.
#[derive(Debug, Clone, PartialEq, Eq)]
pub enum DiagnosticError {
    PoisonedLock,
    Io { path: String, message: String },
    Serialize(String),
    InvalidLogPolicy,
    UnsafeLogEntry(String),
}

/// The size of one runtime log file and how many files are kept.
#[derive(Debug, Clone, Copy, PartialEq, Eq, Structural)]
pub struct DiagnosticLogPolicy {
    pub max_file_bytes: u64,
    pub retained_files: usize,
}

impl Default for DiagnosticLogPolicy {
    /// One MiB per file, five files.
    fn default() -> (p: DiagnosticLogPolicy)
        ensures
            p.max_file_bytes == 1024 * 1024,
            p.retained_files == 5,
    {
        DiagnosticLogPolicy { max_file_bytes: 1024 * 1024, retained_files: 5 }
    }
}

/// At most `max` characters, with `…` after a text that was cut.
pub open spec fn bounded_text(v: Seq<char>, max: nat) -> Seq<char> {
    if v.len() > max {
        v.subrange(0, max as int).push('…')
    } else {
        v
    }
}

pub fn bounded_text_exec(v: &str, max: usize) -> (r: String)
    ensures
        r@ == bounded_text(v@, max as nat),
{
    let c = chars_of(v);
    if c.len() > max {
        let mut kept = subslice(&c, 0, max);
        kept.push('…');
        string_from(&kept)
    } else {
        string_from(&c)
    }
}

/// The markers of a path that do not depend on the platform: a home or UNC prefix, a drive
/// letter, or a users directory.
pub open spec fn path_markers(v: Seq<char>) -> bool {
    ||| has_prefix(v, "~/"@)
    ||| has_prefix(v, "~\\"@)
    ||| has_prefix(v, "\\\\"@)
    ||| (v.len() >= 2 && (v[0] as u32) < 0x80 && v[1] == ':')
    ||| has_infix(v, "/Users/"@)
    ||| has_infix(v, "\\Users\\"@)
}


/// What is known of the path flag of a detail value on every platform: a value with a
/// path marker is flagged, and a flagged value has a marker or begins with a separator.
pub open spec fn path_flag_ok(flag: bool, v: Seq<char>) -> bool {
    &&& path_markers(v) ==> flag
    &&& flag ==> path_markers(v) || (v.len() > 0 && (v[0] == '/' || v[0] == '\\'))
}

/// Whether a detail value looks like a file system path: absolute on this platform, or
/// carrying one of the platform-independent markers.
pub fn looks_like_path(value: &str) -> (r: bool)
    ensures
        path_markers(value@) ==> r,
        r ==> path_markers(value@) || (value@.len() > 0 && (value@[0] == '/' || value@[0] == '\\')),
{
    let c = chars_of(value);
    let absolute = crate::platform::is_absolute_path(value);
    absolute || strip_literal(&c, "~/").is_some() || strip_literal(&c, "~\\").is_some()
        || strip_literal(&c, "\\\\").is_some() || (c.len() >= 2 && (c[0] as u32) < 0x80 && c[1]
        == ':') || contains_literal(&c, "/Users/") || contains_literal(&c, "\\Users\\")
}

/// What `sha2::Sha256::digest` gives for some bytes.
pub uninterp spec fn sha256_of(bytes: Seq<u8>) -> Seq<u8>;

/// `sha2::Sha256::digest`. Trusted: the result is the named `sha256_of` of the bytes and,
/// as for every SHA-256 digest, 32 bytes long.
#[verifier::external_body]
pub(crate) fn sha256_digest(bytes: &[u8]) -> (r: Vec<u8>)
    ensures
        r@ == sha256_of(bytes@),
        r@.len() == 32,
{
    sha2::Sha256::digest(bytes).to_vec()
}

/// The SHA-256 digest of a text's UTF-8 bytes.
pub open spec fn sha256_of_text(text: Seq<char>) -> Seq<u8> {
    sha256_of(vstd::utf8::encode_utf8(text))
}

fn sha256_text(text: &str) -> (r: Vec<u8>)
    ensures
        r@ == sha256_of_text(text@),
        r@.len() == 32,
{
    sha256_digest(text.as_bytes())
}

/// The lower-case hexadecimal SHA-256 of some bytes, such as the contents of a file: 64
/// digits.
pub fn sha256_hex(bytes: &[u8]) -> (r: String)
    ensures
        r@ == hex_of(sha256_of(bytes@)),
        r@.len() == 64,
{
    let digest = sha256_digest(bytes);
    proof {
        lemma_hex_len(digest@);
    }
    string_from(&hex_text(&digest))
}

pub open spec fn hex_digit(n: u8) -> char {
    if n < 10 {
        ('0' as u8 + n) as char
    } else {
        ('a' as u8 + n - 10) as char
    }
}

/// Lower-case hexadecimal of bytes, two digits per byte.
pub open spec fn hex_of(b: Seq<u8>) -> Seq<char>
    decreases b.len(),
{
    if b.len() == 0 {
        seq![]
    } else {
        hex_of(b.drop_last()) + seq![hex_digit(b.last() / 16), hex_digit(b.last() % 16)]
    }
}

fn hex_digit_exec(n: u8) -> (c: char)
    requires
        n < 16,
    ensures
        c == hex_digit(n),
{
    if n < 10 {
        ((48u8 + n) as char)
    } else {
        ((97u8 + n - 10) as char)
    }
}

pub fn hex_text(b: &[u8]) -> (r: Vec<char>)
    ensures
        r@ == hex_of(b@),
{
    let mut r: Vec<char> = Vec::new();
    let mut i: usize = 0;
    while i < b.len()
        invariant
            i <= b.len(),
            r@ == hex_of(b@.subrange(0, i as int)),
        decreases b.len() - i,
    {
        let x = b[i];
        r.push(hex_digit_exec(x / 16));
        r.push(hex_digit_exec(x % 16));
        assert(b@.subrange(0, i + 1).drop_last() =~= b@.subrange(0, i as int));
        i = i + 1;
    }
    assert(b@.subrange(0, b@.len() as int) =~= b@);
    r
}

/// The redaction of a path: the first 16 hexadecimal digits of its SHA-256.
pub open spec fn redacted(v: Seq<char>) -> Seq<char> {
    "[redacted-path:"@ + hex_of(sha256_of_text(v)).subrange(0, 16) + "]"@
}

/// A detail value as kept: redacted when it is a path, else bounded.
pub open spec fn sanitized_value(v: Seq<char>, is_path: bool) -> Seq<char> {
    if is_path {
        redacted(v)
    } else {
        bounded_text(v, 256)
    }
}

pub proof fn lemma_hex_len(b: Seq<u8>)
    ensures
        hex_of(b).len() == 2 * b.len(),
    decreases b.len(),
{
    if b.len() > 0 {
        lemma_hex_len(b.drop_last());
    }
}

/// Sanitizes one detail value, given whether it looks like a path.
pub fn sanitize_detail_value_with(value: &str, is_path: bool) -> (r: String)
    ensures
        r@ == sanitized_value(value@, is_path),
{
    if is_path {
        let digest = sha256_text(value);
        let hex = hex_text(&digest);
        proof {
            lemma_hex_len(digest@);
        }
        let head = chars_of("[redacted-path:");
        let tail = chars_of("]");
        let fp = subslice(&hex, 0, 16);
        let joined = crate::text::concat(&crate::text::concat(&head, &fp), &tail);
        string_from(&joined)
    } else {
        bounded_text_exec(value, MAX_DIAGNOSTIC_VALUE_LENGTH)
    }
}

/// Sanitizes one detail value: a path is replaced by its fingerprint.
pub fn sanitize_detail_value(value: &str) -> (r: String)
    ensures
        path_markers(value@) ==> r@ == redacted(value@),
{
    sanitize_detail_value_with(value, looks_like_path(value))
}

/// A detail as plain text.
pub open spec fn detail_view(d: (String, String)) -> (Seq<char>, Seq<char>) {
    (d.0@, d.1@)
}

pub open spec fn details_view(ds: Seq<(String, String)>) -> Seq<(Seq<char>, Seq<char>)> {
    ds.map_values(|d: (String, String)| detail_view(d))
}

/// Where a detail name is found or goes in a list ordered by name.
pub open spec fn detail_position(s: Seq<(Seq<char>, Seq<char>)>, k: Seq<char>, i: int) -> int
    decreases s.len() - i,
{
    if i >= s.len() {
        s.len() as int
    } else if text_less(s[i].0, k) {
        detail_position(s, k, i + 1)
    } else {
        i
    }
}

/// Stores a detail by name: a name already present takes the new value.
pub open spec fn detail_upsert(s: Seq<(Seq<char>, Seq<char>)>, k: Seq<char>, v: Seq<char>) -> Seq<(Seq<char>, Seq<char>)> {
    let i = detail_position(s, k, 0);
    if i < s.len() && s[i].0 == k {
        s.update(i, (k, v))
    } else {
        s.insert(i, (k, v))
    }
}

/// Detail names in strictly increasing order, so each name occurs once.
pub open spec fn names_sorted(s: Seq<(Seq<char>, Seq<char>)>) -> bool {
    forall|i: int, j: int| 0 <= i < j < s.len() ==> text_less(#[trigger] s[i].0, #[trigger] s[j].0)
}

proof fn lemma_detail_position(s: Seq<(Seq<char>, Seq<char>)>, k: Seq<char>, i: int)
    requires
        0 <= i <= s.len(),
        forall|j: int| 0 <= j < i ==> text_less(#[trigger] s[j].0, k),
    ensures
        i <= detail_position(s, k, i) <= s.len(),
        forall|j: int| 0 <= j < detail_position(s, k, i) ==> text_less(#[trigger] s[j].0, k),
        detail_position(s, k, i) < s.len() ==> !text_less(s[detail_position(s, k, i)].0, k),
    decreases s.len() - i,
{
    if i < s.len() && text_less(s[i].0, k) {
        lemma_detail_position(s, k, i + 1);
    }
}

/// Storing a detail keeps the names sorted.
pub proof fn lemma_upsert_sorted(s: Seq<(Seq<char>, Seq<char>)>, k: Seq<char>, v: Seq<char>)
    requires
        names_sorted(s),
    ensures
        names_sorted(detail_upsert(s, k, v)),
{
    lemma_detail_position(s, k, 0);
    let p = detail_position(s, k, 0);
    let r = detail_upsert(s, k, v);
    if p < s.len() && s[p].0 == k {
        assert forall|i: int, j: int| 0 <= i < j < r.len() implies text_less(#[trigger] r[i].0, #[trigger] r[j].0) by {
            assert(s[i].0 == r[i].0 && s[j].0 == r[j].0);
        }
    } else {
        if p < s.len() {
            crate::index::lemma_text_less_total(s[p].0, k);
        }
        assert forall|i: int, j: int| 0 <= i < j < r.len() implies text_less(#[trigger] r[i].0, #[trigger] r[j].0) by {
            if j < p {
                assert(r[i] == s[i] && r[j] == s[j]);
            } else if j == p {
                assert(r[i] == s[i]);
            } else if i == p {
                assert(r[j] == s[j - 1]);
                if j - 1 > p {
                    crate::index::lemma_text_less_transitive(k, s[p].0, s[j - 1].0);
                }
            } else if i < p {
                assert(r[i] == s[i] && r[j] == s[j - 1]);
                if p < s.len() {
                    crate::index::lemma_text_less_transitive(s[i].0, k, s[p].0);
                    if j - 1 > p {
                        crate::index::lemma_text_less_transitive(s[i].0, s[p].0, s[j - 1].0);
                    }
                }
            } else {
                assert(r[i] == s[i - 1] && r[j] == s[j - 1]);
            }
        }
    }
}

/// The details as a map from name to value, kept sorted by name: a later detail with the
/// same name replaces an earlier one.
pub open spec fn detail_map(ds: Seq<(Seq<char>, Seq<char>)>, n: int) -> Seq<(Seq<char>, Seq<char>)>
    decreases n,
{
    if n <= 0 {
        seq![]
    } else {
        detail_upsert(detail_map(ds, n - 1), ds[n - 1].0, ds[n - 1].1)
    }
}

pub proof fn lemma_detail_map_sorted(ds: Seq<(Seq<char>, Seq<char>)>, n: int)
    ensures
        names_sorted(detail_map(ds, n)),
    decreases n,
{
    if n > 0 {
        lemma_detail_map_sorted(ds, n - 1);
        lemma_upsert_sorted(detail_map(ds, n - 1), ds[n - 1].0, ds[n - 1].1);
    }
}

/// The first `n` of at most 16 details, names bounded to 64 characters and values
/// sanitized, kept by name.
pub open spec fn sanitized_details(ds: Seq<(Seq<char>, Seq<char>)>, flags: Seq<bool>, n: int) -> Seq<(Seq<char>, Seq<char>)>
    decreases n,
{
    if n <= 0 {
        seq![]
    } else {
        detail_upsert(
            sanitized_details(ds, flags, n - 1),
            bounded_text(ds[n - 1].0, 64),
            sanitized_value(ds[n - 1].1, flags[n - 1]),
        )
    }
}

pub proof fn lemma_sanitized_sorted(ds: Seq<(Seq<char>, Seq<char>)>, flags: Seq<bool>, n: int)
    ensures
        names_sorted(sanitized_details(ds, flags, n)),
    decreases n,
{
    if n > 0 {
        lemma_sanitized_sorted(ds, flags, n - 1);
        lemma_upsert_sorted(
            sanitized_details(ds, flags, n - 1),
            bounded_text(ds[n - 1].0, 64),
            sanitized_value(ds[n - 1].1, flags[n - 1]),
        );
    }
}

pub open spec fn kept_detail_count(n: int) -> int {
    if n > 16 {
        16
    } else {
        n
    }
}

fn copy_string(s: &String) -> (r: String)
    ensures
        r@ == s@,
{
    string_from(&chars_of(s.as_str()))
}

fn detail_position_exec(s: &Vec<(String, String)>, k: &Vec<char>) -> (r: usize)
    ensures
        r as int == detail_position(details_view(s@), k@, 0),
        r <= s@.len(),
{
    let ghost m = details_view(s@);
    let mut i: usize = 0;
    while i < s.len()
        invariant
            i <= s@.len(),
            m == details_view(s@),
            detail_position(m, k@, 0) == detail_position(m, k@, i as int),
        decreases s@.len() - i,
    {
        assert(m[i as int] == detail_view(s@[i as int]));
        if crate::events::compare_text(&chars_of(s[i].0.as_str()), k) != Order3::Before {
            return i;
        }
        i = i + 1;
    }
    i
}

fn detail_upsert_exec(s: &mut Vec<(String, String)>, k: String, v: String)
    ensures
        details_view(final(s)@) == detail_upsert(details_view(old(s)@), k@, v@),
{
    let ghost m = details_view(s@);
    let kc = chars_of(k.as_str());
    let i = detail_position_exec(s, &kc);
    if i < s.len() && crate::text::slice_eq(&chars_of(s[i].0.as_str()), &kc) {
        assert(m[i as int] == detail_view(s@[i as int]));
        s.set(i, (k, v));
        assert(details_view(s@) =~= m.update(i as int, (k@, v@)));
    } else {
        proof {
            if (i as int) < m.len() {
                assert(m[i as int] == detail_view(s@[i as int]));
            }
        }
        s.insert(i, (k, v));
        assert(details_view(s@) =~= m.insert(i as int, (k@, v@)));
    }
}

/// The details as a map sorted by name, a later value replacing an earlier one.
pub fn collect_details(details: &Vec<(String, String)>) -> (r: Vec<(String, String)>)
    ensures
        details_view(r@) == detail_map(details_view(details@), details@.len() as int),
{
    let ghost ds = details_view(details@);
    let mut r: Vec<(String, String)> = Vec::new();
    assert(details_view(r@) =~= Seq::<(Seq<char>, Seq<char>)>::empty());
    let mut i: usize = 0;
    while i < details.len()
        invariant
            i <= details@.len(),
            ds == details_view(details@),
            details_view(r@) == detail_map(ds, i as int),
        decreases details@.len() - i,
    {
        assert(ds[i as int] == detail_view(details@[i as int]));
        detail_upsert_exec(&mut r, copy_string(&details[i].0), copy_string(&details[i].1));
        i = i + 1;
    }
    r
}

/// Keeps at most 16 details, bounds their names and sanitizes their values, given for
/// each value whether it looks like a path.
pub fn sanitize_details_with(details: &Vec<(String, String)>, flags: &Vec<bool>) -> (r: Vec<(String, String)>)
    requires
        flags@.len() == details@.len(),
    ensures
        details_view(r@) == sanitized_details(details_view(details@), flags@, kept_detail_count(details@.len() as int)),
{
    let ghost ds = details_view(details@);
    let n = if details.len() > MAX_DIAGNOSTIC_DETAILS {
        MAX_DIAGNOSTIC_DETAILS
    } else {
        details.len()
    };
    let mut r: Vec<(String, String)> = Vec::new();
    assert(details_view(r@) =~= Seq::<(Seq<char>, Seq<char>)>::empty());
    let mut i: usize = 0;
    while i < n
        invariant
            i <= n <= details@.len(),
            flags@.len() == details@.len(),
            ds == details_view(details@),
            details_view(r@) == sanitized_details(ds, flags@, i as int),
        decreases n - i,
    {
        assert(ds[i as int] == detail_view(details@[i as int]));
        let k = bounded_text_exec(details[i].0.as_str(), MAX_DIAGNOSTIC_NAME_LENGTH);
        let v = sanitize_detail_value_with(details[i].1.as_str(), flags[i]);
        detail_upsert_exec(&mut r, k, v);
        i = i + 1;
    }
    r
}

/// An event as plain values.
pub struct EventView {
    pub timestamp: Seq<char>,
    pub level: DiagnosticLevel,
    pub category: Seq<char>,
    pub code: Seq<char>,
    pub details: Seq<(Seq<char>, Seq<char>)>,
}

pub open spec fn event_view(e: DiagnosticEvent) -> EventView {
    EventView {
        timestamp: e.timestamp@,
        level: e.level,
        category: e.category@,
        code: e.code@,
        details: details_view(e.details@),
    }
}

pub open spec fn event_views(es: Seq<DiagnosticEvent>) -> Seq<EventView> {
    es.map_values(|e: DiagnosticEvent| event_view(e))
}

/// A ring of at most `cap` recent events: the oldest leaves when a full ring takes one.
pub open spec fn ring_push<T>(s: Seq<T>, x: T, cap: nat) -> Seq<T> {
    if s.len() >= cap {
        s.drop_first().push(x)
    } else {
        s.push(x)
    }
}

/// The ring after pushing each of `xs` in turn.
pub open spec fn ring_pushes<T>(s: Seq<T>, xs: Seq<T>, cap: nat) -> Seq<T>
    decreases xs.len(),
{
    if xs.len() == 0 {
        s
    } else {
        ring_push(ring_pushes(s, xs.drop_last(), cap), xs.last(), cap)
    }
}

/// A ring that takes events keeps the latest `cap` of all it holds and was given, oldest
/// first: starting empty, after `n` events it holds the latest `min(n, cap)` of them.
pub proof fn lemma_ring_keeps_latest<T>(s: Seq<T>, xs: Seq<T>, cap: nat)
    requires
        cap > 0,
        s.len() <= cap,
    ensures
        ring_pushes(s, xs, cap) == (s + xs).subrange(
            if s.len() + xs.len() > cap { s.len() + xs.len() - cap } else { 0 },
            (s.len() + xs.len()) as int,
        ),
        ring_pushes(s, xs, cap).len() == if s.len() + xs.len() > cap { cap } else { s.len() + xs.len() },
        s.len() == 0 ==> ring_pushes(s, xs, cap) == xs.subrange(
            if xs.len() > cap { xs.len() - cap } else { 0 },
            xs.len() as int,
        ),
    decreases xs.len(),
{
    let all = s + xs;
    let n = all.len() as int;
    if xs.len() > 0 {
        let d = xs.drop_last();
        lemma_ring_keeps_latest(s, d, cap);
        let prior = ring_pushes(s, d, cap);
        assert((s + d) =~= all.subrange(0, n - 1));
        assert(all[n - 1] == xs.last());
        if n - 1 >= cap {
            assert(prior.drop_first().push(xs.last()) =~= all.subrange(n - cap, n));
        } else {
            assert(prior.push(xs.last()) =~= all.subrange(0, n));
        }
    } else {
        assert(all =~= s);
        assert(s.subrange(0, s.len() as int) =~= s);
    }
    if s.len() == 0 {
        assert(all =~= xs);
    }
}

fn copy_details(ds: &Vec<(String, String)>) -> (r: Vec<(String, String)>)
    ensures
        details_view(r@) == details_view(ds@),
{
    let mut r: Vec<(String, String)> = Vec::new();
    let mut i: usize = 0;
    while i < ds.len()
        invariant
            i <= ds@.len(),
            details_view(r@) == details_view(ds@.subrange(0, i as int)),
        decreases ds@.len() - i,
    {
        let ghost prior = r@;
        let d = (copy_string(&ds[i].0), copy_string(&ds[i].1));
        r.push(d);
        assert(details_view(r@) =~= details_view(prior).push(detail_view(d)));
        assert(details_view(ds@.subrange(0, i + 1)) =~= details_view(ds@.subrange(0, i as int)).push(detail_view(ds@[i as int])));
        i = i + 1;
    }
    assert(ds@.subrange(0, ds@.len() as int) =~= ds@);
    r
}

pub fn copy_event(e: &DiagnosticEvent) -> (r: DiagnosticEvent)
    ensures
        event_view(r) == event_view(*e),
{
    DiagnosticEvent {
        timestamp: copy_string(&e.timestamp),
        level: e.level,
        category: copy_string(&e.category),
        code: copy_string(&e.code),
        details: copy_details(&e.details),
    }
}

/// The in-memory support log: the directory that exports go to, the runtime log policy,
/// and a ring of the 256 most recent events.
pub struct DiagnosticService {
    export_directory: String,
    log_policy: DiagnosticLogPolicy,
    events: Vec<DiagnosticEvent>,
}

impl DiagnosticService {
    #[verifier::type_invariant]
    spec fn bounded(&self) -> bool {
        self.events@.len() <= 256
    }

    /// The recent events, oldest first.
    pub closed spec fn recent(&self) -> Seq<EventView> {
        event_views(self.events@)
    }

    pub closed spec fn policy(&self) -> DiagnosticLogPolicy {
        self.log_policy
    }

    pub closed spec fn directory(&self) -> Seq<char> {
        self.export_directory@
    }

    /// A service with the default log policy and no events.
    pub fn new(export_directory: String) -> (s: DiagnosticService)
        ensures
            s.recent().len() == 0,
            s.policy().max_file_bytes == 1024 * 1024 && s.policy().retained_files == 5,
            s.directory() == export_directory@,
    {
        DiagnosticService { export_directory, log_policy: DiagnosticLogPolicy::default(), events: Vec::new() }
    }

    /// A service with explicit per-file and retention limits, which must not be zero.
    pub fn with_log_policy(export_directory: String, log_policy: DiagnosticLogPolicy) -> (r: Result<DiagnosticService, DiagnosticError>)
        ensures
            (log_policy.max_file_bytes == 0 || log_policy.retained_files == 0) <==> r is Err,
            r matches Err(e) ==> e == DiagnosticError::InvalidLogPolicy,
            r matches Ok(s) ==> s.recent().len() == 0 && s.policy() == log_policy && s.directory() == export_directory@,
    {
        if log_policy.max_file_bytes == 0 || log_policy.retained_files == 0 {
            return Err(DiagnosticError::InvalidLogPolicy);
        }
        Ok(DiagnosticService { export_directory, log_policy, events: Vec::new() })
    }

    pub fn export_directory(&self) -> (d: &String)
        ensures
            d@ == self.directory(),
    {
        &self.export_directory
    }

    pub fn log_policy(&self) -> (p: DiagnosticLogPolicy)
        ensures
            p == self.policy(),
    {
        self.log_policy
    }

    /// Adds a structured event, with names bounded and path-like values redacted, to the ring
    /// of recent events, and returns it for the runtime log. The details are taken as a map
    /// from name to value (a later value for a name replaces an earlier one), and the 16
    /// smallest names are kept.
    pub fn record(
        &mut self,
        level: DiagnosticLevel,
        category: &str,
        code: &str,
        details: &Vec<(String, String)>,
        timestamp: String,
    ) -> (e: DiagnosticEvent)
        ensures
            final(self).recent() == ring_push(old(self).recent(), event_view(e), 256),
            final(self).recent().len() <= 256,
            final(self).policy() == old(self).policy(),
            final(self).directory() == old(self).directory(),
            e.level == level,
            e.timestamp@ == timestamp@,
            e.category@ == bounded_text(category@, 64),
            e.code@ == bounded_text(code@, 64),
            names_sorted(details_view(e.details@)),
            ({
                let m = detail_map(details_view(details@), details@.len() as int);
                exists|flags: Seq<bool>|
                    flags.len() == m.len() && (forall|i: int| 0 <= i < flags.len() ==> path_flag_ok(#[trigger] flags[i], m[i].1))
                        && details_view(e.details@) == sanitized_details(m, flags, kept_detail_count(m.len() as int))
            }),
    {
        proof {
            use_type_invariant(&*self);
        }
        let map = collect_details(details);
        let ghost m = details_view(map@);
        let mut flags: Vec<bool> = Vec::new();
        let mut i: usize = 0;
        while i < map.len()
            invariant
                i <= map@.len(),
                m == details_view(map@),
                flags@.len() == i,
                forall|j: int| 0 <= j < i ==> path_flag_ok(#[trigger] flags@[j], m[j].1),
            decreases map@.len() - i,
        {
            assert(m[i as int] == detail_view(map@[i as int]));
            flags.push(looks_like_path(map[i].1.as_str()));
            i = i + 1;
        }
        proof {
            lemma_sanitized_sorted(m, flags@, kept_detail_count(m.len() as int));
        }
        let event = DiagnosticEvent {
            timestamp,
            level,
            category: bounded_text_exec(category, MAX_DIAGNOSTIC_NAME_LENGTH),
            code: bounded_text_exec(code, MAX_DIAGNOSTIC_NAME_LENGTH),
            details: sanitize_details_with(&map, &flags),
        };
        let kept = copy_event(&event);
        let ghost before = self.events@;
        let mut events: Vec<DiagnosticEvent> = Vec::new();
        std::mem::swap(&mut events, &mut self.events);
        if events.len() >= MAX_DIAGNOSTIC_EVENTS {
            events.remove(0);
        }
        events.push(kept);
        assert(event_views(events@) =~= ring_push(event_views(before), event_view(event), 256));
        self.events = events;
        event
    }

    /// How many recent events the ring holds.
    pub fn event_count(&self) -> (n: usize)
        ensures
            n == self.recent().len(),
    {
        self.events.len()
    }

    /// Copies of the recent events, oldest first.
    pub fn recent_events(&self) -> (r: Vec<DiagnosticEvent>)
        ensures
            event_views(r@) == self.recent(),
    {
        let mut r: Vec<DiagnosticEvent> = Vec::new();
        let mut i: usize = 0;
        while i < self.events.len()
            invariant
                i <= self.events@.len(),
                event_views(r@) == event_views(self.events@.subrange(0, i as int)),
            decreases self.events@.len() - i,
        {
            let ghost prior = r@;
            let e = copy_event(&self.events[i]);
            r.push(e);
            assert(event_views(r@) =~= event_views(prior).push(event_view(e)));
            assert(event_views(self.events@.subrange(0, i + 1)) =~= event_views(self.events@.subrange(0, i as int)).push(event_view(self.events@[i as int])));
            i = i + 1;
        }
        assert(self.events@.subrange(0, self.events@.len() as int) =~= self.events@);
        r
    }
}

/// A summary as plain values.
pub struct SummaryView {
    pub level: DiagnosticLevel,
    pub category: Seq<char>,
    pub code: Seq<char>,
    pub count: nat,
    pub last_seen: Seq<char>,
}

pub open spec fn summary_view(s: DiagnosticEventSummary) -> SummaryView {
    SummaryView { level: s.level, category: s.category@, code: s.code@, count: s.count as nat, last_seen: s.last_seen@ }
}

pub open spec fn summary_views(ss: Seq<DiagnosticEventSummary>) -> Seq<SummaryView> {
    ss.map_values(|s: DiagnosticEventSummary| summary_view(s))
}

/// Summaries are ordered by level, then category, then code.
pub open spec fn summary_before(a: SummaryView, e: EventView) -> bool {
    ||| level_rank(a.level) < level_rank(e.level)
    ||| (a.level == e.level && text_less(a.category, e.category))
    ||| (a.level == e.level && a.category == e.category && text_less(a.code, e.code))
}

pub open spec fn same_summary_key(a: SummaryView, e: EventView) -> bool {
    a.level == e.level && a.category == e.category && a.code == e.code
}

pub open spec fn summary_position(s: Seq<SummaryView>, e: EventView, i: int) -> int
    decreases s.len() - i,
{
    if i >= s.len() {
        s.len() as int
    } else if summary_before(s[i], e) {
        summary_position(s, e, i + 1)
    } else {
        i
    }
}

/// Counts one more event of its kind, seen at its timestamp.
pub open spec fn summary_add(s: Seq<SummaryView>, e: EventView) -> Seq<SummaryView> {
    let i = summary_position(s, e, 0);
    if i < s.len() && same_summary_key(s[i], e) {
        s.update(i, SummaryView { count: s[i].count + 1, last_seen: e.timestamp, ..s[i] })
    } else {
        s.insert(i, SummaryView { level: e.level, category: e.category, code: e.code, count: 1, last_seen: e.timestamp })
    }
}

/// The summary of the first `n` events: warnings and errors grouped by level, category
/// and code.
pub open spec fn summarize(es: Seq<EventView>, n: int) -> Seq<SummaryView>
    decreases n,
{
    if n <= 0 {
        seq![]
    } else {
        let prior = summarize(es, n - 1);
        if es[n - 1].level == DiagnosticLevel::Info {
            prior
        } else {
            summary_add(prior, es[n - 1])
        }
    }
}

fn level_rank_exec(l: DiagnosticLevel) -> (r: u8)
    ensures
        r as int == level_rank(l),
{
    match l {
        DiagnosticLevel::Info => 0,
        DiagnosticLevel::Warning => 1,
        DiagnosticLevel::Error => 2,
    }
}

fn summary_order(a: &DiagnosticEventSummary, e: &DiagnosticEvent) -> (r: Order3)
    ensures
        r == Order3::Before <==> summary_before(summary_view(*a), event_view(*e)),
        r == Order3::Same <==> same_summary_key(summary_view(*a), event_view(*e)),
{
    let ra = level_rank_exec(a.level);
    let re = level_rank_exec(e.level);
    if ra < re {
        return Order3::Before;
    }
    if ra > re {
        return Order3::After;
    }
    match crate::events::compare_text(&chars_of(a.category.as_str()), &chars_of(e.category.as_str())) {
        Order3::Before => Order3::Before,
        Order3::After => {
            proof {
                crate::events::lemma_text_less_irreflexive(a.category@);
            }
            Order3::After
        },
        Order3::Same => {
            proof {
                crate::events::lemma_text_less_irreflexive(a.category@);
            }
            crate::events::compare_text(&chars_of(a.code.as_str()), &chars_of(e.code.as_str()))
        },
    }
}

fn summary_position_exec(s: &Vec<DiagnosticEventSummary>, e: &DiagnosticEvent) -> (r: usize)
    ensures
        r as int == summary_position(summary_views(s@), event_view(*e), 0),
        r <= s@.len(),
{
    let ghost m = summary_views(s@);
    let mut i: usize = 0;
    while i < s.len()
        invariant
            i <= s@.len(),
            m == summary_views(s@),
            summary_position(m, event_view(*e), 0) == summary_position(m, event_view(*e), i as int),
        decreases s@.len() - i,
    {
        assert(m[i as int] == summary_view(s@[i as int]));
        if summary_order(&s[i], e) != Order3::Before {
            return i;
        }
        i = i + 1;
    }
    i
}

/// Groups the warnings and errors among the events by level, category and code, with how
/// many there were and when the last one happened, ordered by level, category and code.
pub fn summarize_events(events: &Vec<DiagnosticEvent>) -> (r: Vec<DiagnosticEventSummary>)
    ensures
        summary_views(r@) == summarize(event_views(events@), events@.len() as int),
{
    let ghost es = event_views(events@);
    let mut out: Vec<DiagnosticEventSummary> = Vec::new();
    assert(summary_views(out@) =~= Seq::<SummaryView>::empty());
    let mut k: usize = 0;
    while k < events.len()
        invariant
            k <= events@.len(),
            es == event_views(events@),
            summary_views(out@) == summarize(es, k as int),
            forall|j: int| 0 <= j < out@.len() ==> (#[trigger] out@[j]).count <= k,
        decreases events@.len() - k,
    {
        let e = &events[k];
        assert(es[k as int] == event_view(*e));
        if e.level != DiagnosticLevel::Info {
            let ghost m = summary_views(out@);
            let i = summary_position_exec(&out, e);
            if i < out.len() && summary_order(&out[i], e) == Order3::Same {
                assert(m[i as int] == summary_view(out@[i as int]));
                let old_entry = &out[i];
                let updated = DiagnosticEventSummary {
                    level: old_entry.level,
                    category: copy_string(&old_entry.category),
                    code: copy_string(&old_entry.code),
                    count: old_entry.count + 1,
                    last_seen: copy_string(&e.timestamp),
                };
                out.set(i, updated);
                assert(summary_views(out@) =~= summary_add(m, es[k as int]));
            } else {
                proof {
                    if (i as int) < m.len() {
                        assert(m[i as int] == summary_view(out@[i as int]));
                    }
                }
                let fresh = DiagnosticEventSummary {
                    level: e.level,
                    category: copy_string(&e.category),
                    code: copy_string(&e.code),
                    count: 1,
                    last_seen: copy_string(&e.timestamp),
                };
                out.insert(i, fresh);
                assert(summary_views(out@) =~= summary_add(m, es[k as int]));
            }
        }
        k = k + 1;
    }
    out
}

/// The footprint of the rolling runtime log from the sizes of its retained files (`None`
/// for a file that does not exist); nothing when the log directory does not exist.
pub open spec fn log_summary_spec(policy: DiagnosticLogPolicy, directory_exists: bool, sizes: Seq<Option<u64>>) -> DiagnosticLogSummary {
    let n = retained_span(policy, sizes);
    DiagnosticLogSummary {
        file_count: if directory_exists { present_count(sizes, n) as usize } else { 0 },
        byte_count: if directory_exists { saturating_total(sizes, n) } else { 0 },
        max_file_bytes: policy.max_file_bytes,
        retained_files: policy.retained_files,
    }
}

/// How many of the probed files the policy retains: the files beyond `retained_files` are
/// not part of the log.
pub open spec fn retained_span(policy: DiagnosticLogPolicy, sizes: Seq<Option<u64>>) -> int {
    if sizes.len() < policy.retained_files { sizes.len() as int } else { policy.retained_files as int }
}

pub proof fn lemma_present_count_bound(sizes: Seq<Option<u64>>, n: int)
    ensures
        present_count(sizes, n) <= if n < 0 { 0 } else { n },
    decreases n,
{
    if n > 0 {
        lemma_present_count_bound(sizes, n - 1);
    }
}

pub open spec fn present_count(sizes: Seq<Option<u64>>, n: int) -> nat
    decreases n,
{
    if n <= 0 {
        0
    } else {
        present_count(sizes, n - 1) + if sizes[n - 1] is Some { 1nat } else { 0nat }
    }
}

/// The sum of the sizes, saturating at `u64::MAX`.
pub open spec fn saturating_total(sizes: Seq<Option<u64>>, n: int) -> u64
    decreases n,
{
    if n <= 0 {
        0
    } else {
        let prior = saturating_total(sizes, n - 1);
        match sizes[n - 1] {
            Some(x) => if prior + x > u64::MAX { u64::MAX } else { (prior + x) as u64 },
            None => prior,
        }
    }
}

impl DiagnosticService {
    /// The footprint of the rolling runtime log under this service's policy, from whether
    /// its directory exists and the sizes of its files by index, newest first (`None` where
    /// there is no regular file). Only the policy's `retained_files` files count.
    pub fn runtime_log_summary(&self, directory_exists: bool, sizes: &Vec<Option<u64>>) -> (r: DiagnosticLogSummary)
        ensures
            r == log_summary_spec(self.policy(), directory_exists, sizes@),
            r.file_count <= self.policy().retained_files,
    {
        let r = summarize_log(self.log_policy, directory_exists, sizes);
        proof {
            lemma_present_count_bound(sizes@, retained_span(self.policy(), sizes@));
        }
        r
    }
}

fn summarize_log(policy: DiagnosticLogPolicy, directory_exists: bool, sizes: &Vec<Option<u64>>) -> (r: DiagnosticLogSummary)
    ensures
        r == log_summary_spec(policy, directory_exists, sizes@),
{
    if !directory_exists {
        return DiagnosticLogSummary {
            file_count: 0,
            byte_count: 0,
            max_file_bytes: policy.max_file_bytes,
            retained_files: policy.retained_files,
        };
    }
    let mut file_count: usize = 0;
    let mut byte_count: u64 = 0;
    let n = if sizes.len() < policy.retained_files { sizes.len() } else { policy.retained_files };
    let mut i: usize = 0;
    while i < n
        invariant
            i <= n <= sizes@.len(),
            n == retained_span(policy, sizes@),
            file_count == present_count(sizes@, i as int),
            file_count <= i,
            byte_count == saturating_total(sizes@, i as int),
        decreases sizes@.len() - i,
    {
        if let Some(size) = sizes[i] {
            file_count = file_count + 1;
            byte_count = byte_count.saturating_add(size);
        }
        i = i + 1;
    }
    DiagnosticLogSummary {
        file_count,
        byte_count,
        max_file_bytes: policy.max_file_bytes,
        retained_files: policy.retained_files,
    }
}

/// One step of rotating the runtime log files.
#[derive(Debug, Clone, Copy, PartialEq, Eq, Structural)]
pub enum RotationStep {
    Remove(usize),
    Rename(usize, usize),
}

/// Rotation keeps `retained` files: the oldest is removed and every other moves one place
/// older, oldest first, ending with the current file; a single file is simply removed.
pub open spec fn rotation_steps(retained: usize) -> Seq<RotationStep> {
    let last: int = if retained == 0 { 0 } else { retained - 1 };
    if last == 0 {
        seq![RotationStep::Remove(0)]
    } else {
        Seq::new((last + 1) as nat, |j: int| if j == 0 {
            RotationStep::Remove(last as usize)
        } else {
            RotationStep::Rename((last - j) as usize, (last - j + 1) as usize)
        })
    }
}

pub fn rotation_plan(retained_files: usize) -> (r: Vec<RotationStep>)
    ensures
        r@ == rotation_steps(retained_files),
{
    let last = retained_files.saturating_sub(1);
    let mut r: Vec<RotationStep> = Vec::new();
    if last == 0 {
        r.push(RotationStep::Remove(0));
        assert(r@ =~= rotation_steps(retained_files));
        return r;
    }
    r.push(RotationStep::Remove(last));
    let mut j: usize = 1;
    while j <= last
        invariant
            1 <= j <= last + 1,
            last == retained_files - 1,
            last > 0,
            r@ == rotation_steps(retained_files).subrange(0, j as int),
        decreases last + 1 - j,
    {
        r.push(RotationStep::Rename(last - j, last - j + 1));
        assert(r@ =~= rotation_steps(retained_files).subrange(0, j + 1));
        j = j + 1;
    }
    assert(r@ =~= rotation_steps(retained_files));
    r
}

/// Whether appending a line to the current runtime log file would overflow it.
pub fn needs_rotation(current_size: u64, line_bytes: u64, max_file_bytes: u64) -> (r: bool)
    ensures
        r == (current_size > 0 && (if current_size + line_bytes > u64::MAX { u64::MAX as int } else { current_size + line_bytes }) > max_file_bytes),
{
    current_size > 0 && current_size.saturating_add(line_bytes) > max_file_bytes
}

/// The decimal digits of a number.
pub open spec fn decimal(n: nat) -> Seq<char>
    decreases n,
{
    if n < 10 {
        seq![(('0' as u32) + n) as char]
    } else {
        decimal(n / 10).push((('0' as u32) + n % 10) as char)
    }
}

pub fn decimal_text(n: usize) -> (r: Vec<char>)
    ensures
        r@ == decimal(n as nat),
    decreases n,
{
    if n < 10 {
        let mut r: Vec<char> = Vec::new();
        r.push(((48u8 + (n as u8)) as char));
        r
    } else {
        let mut r = decimal_text(n / 10);
        r.push(((48u8 + ((n % 10) as u8)) as char));
        r
    }
}

pub fn decimal_text_u64(n: u64) -> (r: Vec<char>)
    ensures
        r@ == decimal(n as nat),
    decreases n,
{
    if n < 10 {
        let mut r: Vec<char> = Vec::new();
        r.push(((48u8 + (n as u8)) as char));
        r
    } else {
        let mut r = decimal_text_u64(n / 10);
        r.push(((48u8 + ((n % 10) as u8)) as char));
        r
    }
}

/// The name of the `index`-th runtime log file, the current one first.
pub open spec fn runtime_log_name(index: usize) -> Seq<char> {
    if index == 0 {
        "runtime-events.jsonl"@
    } else {
        "runtime-events."@ + decimal(index as nat) + ".jsonl"@
    }
}

pub fn runtime_log_file_name(index: usize) -> (r: String)
    ensures
        r@ == runtime_log_name(index),
{
    if index == 0 {
        string_from(&chars_of("runtime-events.jsonl"))
    } else {
        let head = chars_of("runtime-events.");
        let tail = chars_of(".jsonl");
        string_from(&crate::text::concat(&crate::text::concat(&head, &decimal_text(index)), &tail))
    }
}

fn empty_string() -> (s: String)
    ensures
        s@.len() == 0,
{
    string_from(&Vec::new())
}

impl Default for DiagnosticSnapshot {
    fn default() -> (s: DiagnosticSnapshot)
        ensures
            s.schema == DIAGNOSTIC_SCHEMA_VERSION,
            s.generated_at@.len() == 0,
            s.event_summary@.len() == 0,
            s.library_roots@.len() == 0,
            s.obsidian_vaults@.len() == 0,
            s.recent_events@.len() == 0,
    {
        DiagnosticSnapshot {
            schema: DIAGNOSTIC_SCHEMA_VERSION,
            generated_at: empty_string(),
            build: DiagnosticBuild {
                version: empty_string(),
                git_commit: empty_string(),
                target: empty_string(),
                profile: empty_string(),
                rustc: empty_string(),
            },
            runtime: DiagnosticRuntime { operating_system: empty_string(), architecture: empty_string() },
            configuration: DiagnosticConfigurationSummary {
                application_schema: 0,
                library_root_count: 0,
                enabled_library_root_count: 0,
                obsidian_vault_count: 0,
                enabled_obsidian_vault_count: 0,
                saved_query_present: false,
                saved_tag_filter_count: 0,
            },
            cache: DiagnosticCacheSummary {
                layout_version: 0,
                startup_disposition: empty_string(),
                file_count: 0,
                byte_count: 0,
            },
            catalog: DiagnosticCatalogSummary { asset_count: 0, active_scan_count: 0 },
            performance: DiagnosticPerformanceSummary {
                active_scans: 0,
                active_watches: 0,
                scheduler_active: 0,
                scheduler_waiting: 0,
                scheduler_peak_active: 0,
                scheduler_peak_waiting: 0,
                cache_entries: 0,
                cache_bytes: 0,
            },
            runtime_log: DiagnosticLogSummary { file_count: 0, byte_count: 0, max_file_bytes: 0, retained_files: 0 },
            event_summary: Vec::new(),
            library_roots: Vec::new(),
            obsidian_vaults: Vec::new(),
            recent_events: Vec::new(),
        }
    }
}

impl DiagnosticService {
    /// The snapshot as exported: the current schema, the generation time, the recent events,
    /// their summary and the runtime log's footprint.
    pub fn prepare_export(&self, snapshot: DiagnosticSnapshot, generated_at: String, runtime_log: DiagnosticLogSummary) -> (r: DiagnosticSnapshot)
        ensures
            r.schema == DIAGNOSTIC_SCHEMA_VERSION,
            r.generated_at@ == generated_at@,
            event_views(r.recent_events@) == self.recent(),
            summary_views(r.event_summary@) == summarize(self.recent(), self.recent().len() as int),
            r.runtime_log == runtime_log,
            r.library_roots@ == snapshot.library_roots@,
            r.obsidian_vaults@ == snapshot.obsidian_vaults@,
    {
        let recent = self.recent_events();
        let summary = summarize_events(&recent);
        DiagnosticSnapshot {
            schema: DIAGNOSTIC_SCHEMA_VERSION,
            generated_at,
            recent_events: recent,
            event_summary: summary,
            runtime_log,
            ..snapshot
        }
    }
}

/// A configured folder as a support export describes it: whether it is enabled, how it
/// can be reached, and its path (which the export replaces by a fingerprint).
#[derive(Debug, Clone, PartialEq, Eq)]
pub struct AccessInput {
    pub enabled: bool,
    pub access_status: String,
    pub path: String,
}

/// What the application reports of itself for a support export.
#[derive(Debug, Clone, PartialEq, Eq)]
pub struct SnapshotInputs {
    pub build: DiagnosticBuild,
    pub runtime: DiagnosticRuntime,
    pub application_schema: u32,
    pub saved_query: String,
    pub saved_tag_filter_count: usize,
    pub cache_layout_version: u32,
    pub cache_startup_disposition: String,
    pub cache_file_count: u64,
    pub cache_byte_count: u64,
    pub cache_entry_count: u64,
    pub asset_count: usize,
    pub active_scans: usize,
    pub active_watches: usize,
    pub scheduler_active: usize,
    pub scheduler_waiting: usize,
    pub scheduler_peak_active: usize,
    pub scheduler_peak_waiting: usize,
}

/// How many of the folders are enabled.
pub open spec fn enabled_count(s: Seq<AccessInput>) -> nat
    decreases s.len(),
{
    if s.len() == 0 {
        0
    } else {
        enabled_count(s.drop_last()) + if s.last().enabled { 1nat } else { 0nat }
    }
}

/// The summary of the `i`-th folder: named by its kind and position from 1, its path
/// replaced by its fingerprint.
pub open spec fn access_summary_ok(a: DiagnosticAccessSummary, prefix: Seq<char>, i: int, input: AccessInput) -> bool {
    &&& a.name@ == prefix + decimal((i + 1) as nat)
    &&& a.enabled == input.enabled
    &&& a.access_status@ == input.access_status@
    &&& a.path_fingerprint@ == crate::support::fingerprint_of(input.path@)
}

fn access_summaries(inputs: &Vec<AccessInput>, prefix: &str) -> (r: (Vec<DiagnosticAccessSummary>, usize))
    ensures
        r.0@.len() == inputs@.len(),
        forall|i: int| 0 <= i < inputs@.len() ==> access_summary_ok(#[trigger] r.0@[i], prefix@, i, inputs@[i]),
        r.1 == enabled_count(inputs@),
{
    let mut out: Vec<DiagnosticAccessSummary> = Vec::new();
    let mut enabled: usize = 0;
    let mut i: usize = 0;
    while i < inputs.len()
        invariant
            i <= inputs@.len(),
            out@.len() == i,
            enabled == enabled_count(inputs@.subrange(0, i as int)),
            enabled <= i,
            forall|j: int| 0 <= j < i ==> access_summary_ok(#[trigger] out@[j], prefix@, j, inputs@[j]),
        decreases inputs@.len() - i,
    {
        let input = &inputs[i];
        assert(inputs@.subrange(0, i + 1).drop_last() =~= inputs@.subrange(0, i as int));
        if input.enabled {
            enabled = enabled + 1;
        }
        let name = concat(&chars_of(prefix), &decimal_text(i + 1));
        out.push(DiagnosticAccessSummary {
            name: string_from(&name),
            enabled: input.enabled,
            access_status: string_from(&chars_of(input.access_status.as_str())),
            path_fingerprint: crate::support::path_fingerprint(input.path.as_str()),
        });
        i = i + 1;
    }
    assert(inputs@.subrange(0, inputs@.len() as int) =~= inputs@);
    (out, enabled)
}

/// The support snapshot of the application's state, before the export adds the time, the
/// recent events and the runtime log: counts of the configuration, the cache, the catalog,
/// the work in progress and the scheduler, and a summary of each library root and vault.
pub fn assemble_snapshot(inputs: SnapshotInputs, roots: &Vec<AccessInput>, vaults: &Vec<AccessInput>) -> (r: DiagnosticSnapshot)
    ensures
        r.schema == DIAGNOSTIC_SCHEMA_VERSION,
        r.generated_at@.len() == 0,
        r.build == inputs.build,
        r.runtime == inputs.runtime,
        r.configuration.application_schema == inputs.application_schema,
        r.configuration.library_root_count == roots@.len(),
        r.configuration.enabled_library_root_count == enabled_count(roots@),
        r.configuration.obsidian_vault_count == vaults@.len(),
        r.configuration.enabled_obsidian_vault_count == enabled_count(vaults@),
        r.configuration.saved_query_present == (inputs.saved_query@.len() > 0),
        r.configuration.saved_tag_filter_count == inputs.saved_tag_filter_count,
        r.cache.layout_version == inputs.cache_layout_version,
        r.cache.startup_disposition@ == inputs.cache_startup_disposition@,
        r.cache.file_count == inputs.cache_file_count,
        r.cache.byte_count == inputs.cache_byte_count,
        r.catalog.asset_count == inputs.asset_count,
        r.catalog.active_scan_count == inputs.active_scans,
        r.performance.active_scans == inputs.active_scans,
        r.performance.active_watches == inputs.active_watches,
        r.performance.scheduler_active == inputs.scheduler_active,
        r.performance.scheduler_waiting == inputs.scheduler_waiting,
        r.performance.scheduler_peak_active == inputs.scheduler_peak_active,
        r.performance.scheduler_peak_waiting == inputs.scheduler_peak_waiting,
        r.performance.cache_entries == inputs.cache_entry_count,
        r.performance.cache_bytes == inputs.cache_byte_count,
        r.runtime_log == (DiagnosticLogSummary { file_count: 0, byte_count: 0, max_file_bytes: 0, retained_files: 0 }),
        r.event_summary@.len() == 0 && r.recent_events@.len() == 0,
        r.library_roots@.len() == roots@.len(),
        forall|i: int| 0 <= i < roots@.len() ==> access_summary_ok(#[trigger] r.library_roots@[i], "library-root-"@, i, roots@[i]),
        r.obsidian_vaults@.len() == vaults@.len(),
        forall|i: int| 0 <= i < vaults@.len() ==> access_summary_ok(#[trigger] r.obsidian_vaults@[i], "obsidian-vault-"@, i, vaults@[i]),
{
    let (library_roots, enabled_roots) = access_summaries(roots, "library-root-");
    let (obsidian_vaults, enabled_vaults) = access_summaries(vaults, "obsidian-vault-");
    let saved_query_present = inputs.saved_query.unicode_len() > 0;
    DiagnosticSnapshot {
        schema: DIAGNOSTIC_SCHEMA_VERSION,
        generated_at: empty_string(),
        build: inputs.build,
        runtime: inputs.runtime,
        configuration: DiagnosticConfigurationSummary {
            application_schema: inputs.application_schema,
            library_root_count: roots.len(),
            enabled_library_root_count: enabled_roots,
            obsidian_vault_count: vaults.len(),
            enabled_obsidian_vault_count: enabled_vaults,
            saved_query_present,
            saved_tag_filter_count: inputs.saved_tag_filter_count,
        },
        cache: DiagnosticCacheSummary {
            layout_version: inputs.cache_layout_version,
            startup_disposition: inputs.cache_startup_disposition,
            file_count: inputs.cache_file_count,
            byte_count: inputs.cache_byte_count,
        },
        catalog: DiagnosticCatalogSummary { asset_count: inputs.asset_count, active_scan_count: inputs.active_scans },
        performance: DiagnosticPerformanceSummary {
            active_scans: inputs.active_scans,
            active_watches: inputs.active_watches,
            scheduler_active: inputs.scheduler_active,
            scheduler_waiting: inputs.scheduler_waiting,
            scheduler_peak_active: inputs.scheduler_peak_active,
            scheduler_peak_waiting: inputs.scheduler_peak_waiting,
            cache_entries: inputs.cache_entry_count,
            cache_bytes: inputs.cache_byte_count,
        },
        runtime_log: DiagnosticLogSummary { file_count: 0, byte_count: 0, max_file_bytes: 0, retained_files: 0 },
        event_summary: Vec::new(),
        library_roots,
        obsidian_vaults,
        recent_events: Vec::new(),
    }
}

/// A saved query: one line of at most 4096 characters without control characters other
/// than white space.
pub open spec fn saved_query_ok(q: Seq<char>) -> bool {
    &&& q.len() <= 4096
    &&& forall|i: int| 0 <= i < q.len() ==> !(is_control_char(#[trigger] q[i]) && !is_white(q[i]))
    &&& !q.contains('\r')
    &&& !q.contains('\n')
}

/// A saved tag filter name: trimmed, not empty, at most 256 characters, no control
/// characters.
pub open spec fn saved_tag_ok(t: Seq<char>) -> bool {
    &&& trim_seq(t) == t
    &&& t.len() > 0
    &&& t.len() <= 256
    &&& forall|i: int| 0 <= i < t.len() ==> !is_control_char(#[trigger] t[i])
}

pub open spec fn ui_values_ok(q: Seq<char>, filters: Seq<(String, TagFilterPreference)>) -> bool {
    &&& saved_query_ok(q)
    &&& filters.len() <= 512
    &&& forall|i: int| 0 <= i < filters.len() ==> saved_tag_ok(#[trigger] filters[i].0@)
}

/// `format!("{:?}", tag)`: the tag as Rust debug text, quoted and escaped. How characters
/// are escaped is std's and is not restated here.
#[verifier::external_body]
fn debug_text(tag: &str) -> (r: String) {
    format!("{tag:?}")
}

/// Checks saved UI preferences; the error is a message for people.
pub fn validate_ui_values(query: &str, filters: &Vec<(String, TagFilterPreference)>) -> (r: Result<(), String>)
    ensures
        r is Ok <==> ui_values_ok(query@, filters@),
        !saved_query_ok(query@) ==> (r matches Err(m) && m@ == "saved query must be one line and at most 4096 characters"@),
        saved_query_ok(query@) && filters@.len() > 512 ==> (r matches Err(m) && m@ == "saved tag filters cannot exceed 512 entries"@),
        saved_query_ok(query@) && filters@.len() <= 512 && !ui_values_ok(query@, filters@) ==> (r matches Err(m) && has_prefix(
            m@,
            "invalid saved tag filter: "@,
        )),
{
    let q = chars_of(query);
    let mut i: usize = 0;
    let mut ok = q.len() <= 4096;
    while i < q.len()
        invariant
            i <= q@.len(),
            ok == (q@.len() <= 4096 && forall|j: int| 0 <= j < i ==> !(is_control_char(#[trigger] q@[j]) && !is_white(q@[j]))),
        decreases q@.len() - i,
    {
        if crate::text::is_control(q[i]) && !crate::text::is_whitespace(q[i]) {
            ok = false;
        }
        i = i + 1;
    }
    if !ok || contains_char(&q, '\r') || contains_char(&q, '\n') {
        return Err(string_from(&chars_of("saved query must be one line and at most 4096 characters")));
    }
    if filters.len() > 512 {
        return Err(string_from(&chars_of("saved tag filters cannot exceed 512 entries")));
    }
    let mut k: usize = 0;
    while k < filters.len()
        invariant
            k <= filters@.len(),
            saved_query_ok(query@),
            filters@.len() <= 512,
            forall|j: int| 0 <= j < k ==> saved_tag_ok(#[trigger] filters@[j].0@),
        decreases filters@.len() - k,
    {
        let t = chars_of(filters[k].0.as_str());
        let trimmed = crate::text::trim(&t);
        let mut control = false;
        let mut c: usize = 0;
        while c < t.len()
            invariant
                c <= t@.len(),
                control == exists|j: int| 0 <= j < c && is_control_char(#[trigger] t@[j]),
            decreases t@.len() - c,
        {
            if crate::text::is_control(t[c]) {
                control = true;
            }
            c = c + 1;
        }
        if !crate::text::slice_eq(&trimmed, &t) || t.len() == 0 || t.len() > 256 || control {
            let lead = chars_of("invalid saved tag filter: ");
            let message = concat(&lead, &chars_of(debug_text(filters[k].0.as_str()).as_str()));
            assert(message@.subrange(0, lead@.len() as int) =~= lead@);
            return Err(string_from(&message));
        }
        k = k + 1;
    }
    Ok(())
}

} // verus!
