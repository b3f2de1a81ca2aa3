//! Support reports: a read-only consistency report over the configured roots and the
//! catalog, with exact totals and a bounded list of findings, and the trace of one asset
//! through the catalog, its root, its file and its Sidecar.
//!
//! What the file system shows of each record is observed by the caller and handed in.
use vstd::prelude::*;

use crate::asset_core::{AssetIssue, AssetRecord};
use crate::diagnostics::{decimal, decimal_text, hex_of, hex_text, sha256_digest, sha256_of};
use crate::library::{LibraryRootStatus, RootAccessStatus};
use crate::platform::{
    lemma_native_keys_of_plain, native_components, native_keys, path_relation_for_components, plain_native_keys, plain_path,
    relation_of, NativeComponent, PathRelation, PlatformFamily,
};
use crate::text::{chars_of, concat, string_from, subslice};

verus! {

/// The most findings a report lists; its totals count every finding.
pub const MAX_CONSISTENCY_FINDINGS: usize = 512;

#[derive(Debug, Clone, Copy, PartialEq, Eq, Structural)]
pub enum SupportSeverity {
    Warning,
    Error,
}

/// One finding; IDs are UUIDs as 128-bit values and paths are root-relative texts.
#[derive(Debug, Clone, PartialEq, Eq)]
pub struct ConsistencyFinding {
    pub severity: SupportSeverity,
    pub code: String,
    pub root_id: Option<u128>,
    pub asset_id: Option<u128>,
    pub relative_path: Option<String>,
    pub path_fingerprint: Option<String>,
    pub message: String,
}

#[derive(Debug, Clone, Copy, PartialEq, Eq, Structural)]
pub struct RootConsistencySummary {
    pub root_id: u128,
    pub enabled: bool,
    pub access_status: RootAccessStatus,
    pub catalog_assets: usize,
    pub warnings: usize,
    pub errors: usize,
}

#[derive(Debug, Clone, Copy, PartialEq, Eq, Structural)]
pub struct LibraryConsistencySummary {
    pub configured_roots: usize,
    pub catalog_assets: usize,
    pub findings: usize,
    pub warnings: usize,
    pub errors: usize,
}

#[derive(Debug, Clone, PartialEq, Eq)]
pub struct LibraryConsistencyReport {
    pub generated_unix_ms: i64,
    pub authoritative: bool,
    pub summary: LibraryConsistencySummary,
    pub roots: Vec<RootConsistencySummary>,
    pub findings: Vec<ConsistencyFinding>,
    pub truncated: bool,
}

// ----------------------------------------------------------------------------------------
// Recording findings.
// ----------------------------------------------------------------------------------------

/// A finding as plain values.
pub struct FindingModel {
    pub severity: SupportSeverity,
    pub code: Seq<char>,
    pub root_id: Option<u128>,
    pub asset_id: Option<u128>,
    pub relative_path: Option<Seq<char>>,
    pub path_fingerprint: Option<Seq<char>>,
    pub message: Seq<char>,
}

pub open spec fn opt_text(t: Option<String>) -> Option<Seq<char>> {
    match t {
        Some(s) => Some(s@),
        None => None,
    }
}

pub open spec fn finding_model(f: ConsistencyFinding) -> FindingModel {
    FindingModel {
        severity: f.severity,
        code: f.code@,
        root_id: f.root_id,
        asset_id: f.asset_id,
        relative_path: opt_text(f.relative_path),
        path_fingerprint: opt_text(f.path_fingerprint),
        message: f.message@,
    }
}

/// A report as plain values.
pub struct ReportModel {
    pub summary: LibraryConsistencySummary,
    pub roots: Seq<RootConsistencySummary>,
    pub findings: Seq<FindingModel>,
    pub truncated: bool,
}

pub open spec fn report_model(r: LibraryConsistencyReport) -> ReportModel {
    ReportModel {
        summary: r.summary,
        roots: r.roots@,
        findings: r.findings@.map_values(|f: ConsistencyFinding| finding_model(f)),
        truncated: r.truncated,
    }
}

/// The per-root totals after a finding of a root.
pub open spec fn root_counts(roots: Seq<RootConsistencySummary>, root_id: Option<u128>, severity: SupportSeverity) -> Seq<RootConsistencySummary> {
    roots.map_values(|r: RootConsistencySummary| if root_id == Some(r.root_id) {
        match severity {
            SupportSeverity::Warning => RootConsistencySummary { warnings: (r.warnings + 1) as usize, ..r },
            SupportSeverity::Error => RootConsistencySummary { errors: (r.errors + 1) as usize, ..r },
        }
    } else {
        r
    })
}

/// The report after one more finding: every total counts it; the list keeps it while it
/// has room, and is marked truncated otherwise.
pub open spec fn push_model(m: ReportModel, f: FindingModel) -> ReportModel {
    let s = m.summary;
    let summary = LibraryConsistencySummary {
        findings: (s.findings + 1) as usize,
        warnings: if f.severity == SupportSeverity::Warning { (s.warnings + 1) as usize } else { s.warnings },
        errors: if f.severity == SupportSeverity::Error { (s.errors + 1) as usize } else { s.errors },
        ..s
    };
    let roots = root_counts(m.roots, f.root_id, f.severity);
    if m.findings.len() < MAX_CONSISTENCY_FINDINGS {
        ReportModel { summary, roots, findings: m.findings.push(f), truncated: m.truncated }
    } else {
        ReportModel { summary, roots, findings: m.findings, truncated: true }
    }
}

/// The report after a sequence of findings, in order.
pub open spec fn push_all(m: ReportModel, fs: Seq<FindingModel>) -> ReportModel
    decreases fs.len(),
{
    if fs.len() == 0 {
        m
    } else {
        push_model(push_all(m, fs.drop_last()), fs.last())
    }
}

/// The totals of a report add up, and no root counts more than the whole.
pub open spec fn counts_ok(m: ReportModel) -> bool {
    &&& m.summary.warnings + m.summary.errors == m.summary.findings
    &&& forall|i: int| 0 <= i < m.roots.len() ==> (#[trigger] m.roots[i]).warnings <= m.summary.warnings
        && m.roots[i].errors <= m.summary.errors
}

/// Records a finding in a report.
pub fn push_finding(report: &mut LibraryConsistencyReport, finding: ConsistencyFinding)
    requires
        counts_ok(report_model(*old(report))),
        old(report).summary.findings < usize::MAX,
    ensures
        report_model(*final(report)) == push_model(report_model(*old(report)), finding_model(finding)),
        counts_ok(report_model(*final(report))),
        final(report).generated_unix_ms == old(report).generated_unix_ms,
        final(report).authoritative == old(report).authoritative,
{
    let ghost m = report_model(*report);
    let ghost fm = finding_model(finding);
    report.summary.findings = report.summary.findings + 1;
    match finding.severity {
        SupportSeverity::Warning => {
            report.summary.warnings = report.summary.warnings + 1;
        },
        SupportSeverity::Error => {
            report.summary.errors = report.summary.errors + 1;
        },
    }
    let ghost before = report.roots@;
    let mut roots: Vec<RootConsistencySummary> = Vec::new();
    let mut i: usize = 0;
    while i < report.roots.len()
        invariant
            i <= report.roots@.len(),
            report.roots@ == before,
            forall|k: int| 0 <= k < before.len() ==> (#[trigger] before[k]).warnings <= m.summary.warnings
                && before[k].errors <= m.summary.errors,
            m.summary.warnings < usize::MAX && m.summary.errors < usize::MAX,
            roots@ == root_counts(before.subrange(0, i as int), finding.root_id, finding.severity),
        decreases report.roots@.len() - i,
    {
        let r = report.roots[i];
        let counted = if finding.root_id == Some(r.root_id) {
            match finding.severity {
                SupportSeverity::Warning => RootConsistencySummary { warnings: r.warnings + 1, ..r },
                SupportSeverity::Error => RootConsistencySummary { errors: r.errors + 1, ..r },
            }
        } else {
            r
        };
        roots.push(counted);
        assert(root_counts(before.subrange(0, i + 1), finding.root_id, finding.severity) =~= root_counts(
            before.subrange(0, i as int),
            finding.root_id,
            finding.severity,
        ).push(counted));
        i = i + 1;
    }
    assert(before.subrange(0, before.len() as int) =~= before);
    report.roots = roots;
    let ghost old_findings = report.findings@;
    if report.findings.len() < MAX_CONSISTENCY_FINDINGS {
        report.findings.push(finding);
        assert(report_model(*report).findings =~= m.findings.push(fm));
    } else {
        report.truncated = true;
    }
    assert(report_model(*report).roots == root_counts(m.roots, fm.root_id, fm.severity));
}

/// The severity, code and message of the finding for a parser issue.
pub open spec fn issue_finding_spec(issue: AssetIssue) -> (SupportSeverity, &'static str, &'static str) {
    match issue {
        AssetIssue::InvalidSidecar(_) => (SupportSeverity::Error, "invalid-sidecar", "Sidecar could not be parsed"),
        AssetIssue::MismatchedSidecar(_) => (
            SupportSeverity::Error,
            "mismatched-sidecar",
            "Sidecar fingerprint does not match the adjacent asset",
        ),
        AssetIssue::UnreadableFile(_) => (SupportSeverity::Error, "unreadable-file", "asset metadata could not be read"),
        AssetIssue::InvalidImageMetadata(_) => (
            SupportSeverity::Warning,
            "invalid-image-metadata",
            "image dimensions could not be parsed",
        ),
        AssetIssue::InvalidNativeMetadata(_) => (
            SupportSeverity::Warning,
            "invalid-native-metadata",
            "optional native metadata could not be parsed",
        ),
        AssetIssue::MimeMismatch(_) => (
            SupportSeverity::Warning,
            "mime-mismatch",
            "content signature overrides the file extension",
        ),
        AssetIssue::UnsafeEmbeddedContent(_) => (
            SupportSeverity::Warning,
            "unsafe-embedded-content",
            "active or external embedded content was isolated",
        ),
        AssetIssue::ResourceLimited(_) => (
            SupportSeverity::Warning,
            "resource-limited",
            "optional parsing stopped at a configured resource boundary",
        ),
        AssetIssue::MissingAsset => (SupportSeverity::Error, "missing-asset", "associated asset is missing"),
        AssetIssue::UnsupportedFormat => (SupportSeverity::Warning, "unsupported-format", "asset format is not fully supported"),
    }
}

pub fn issue_finding(issue: &AssetIssue) -> (r: (SupportSeverity, &'static str, &'static str))
    ensures
        r == issue_finding_spec(*issue),
{
    match issue {
        AssetIssue::InvalidSidecar(_) => (SupportSeverity::Error, "invalid-sidecar", "Sidecar could not be parsed"),
        AssetIssue::MismatchedSidecar(_) => (
            SupportSeverity::Error,
            "mismatched-sidecar",
            "Sidecar fingerprint does not match the adjacent asset",
        ),
        AssetIssue::UnreadableFile(_) => (SupportSeverity::Error, "unreadable-file", "asset metadata could not be read"),
        AssetIssue::InvalidImageMetadata(_) => (
            SupportSeverity::Warning,
            "invalid-image-metadata",
            "image dimensions could not be parsed",
        ),
        AssetIssue::InvalidNativeMetadata(_) => (
            SupportSeverity::Warning,
            "invalid-native-metadata",
            "optional native metadata could not be parsed",
        ),
        AssetIssue::MimeMismatch(_) => (
            SupportSeverity::Warning,
            "mime-mismatch",
            "content signature overrides the file extension",
        ),
        AssetIssue::UnsafeEmbeddedContent(_) => (
            SupportSeverity::Warning,
            "unsafe-embedded-content",
            "active or external embedded content was isolated",
        ),
        AssetIssue::ResourceLimited(_) => (
            SupportSeverity::Warning,
            "resource-limited",
            "optional parsing stopped at a configured resource boundary",
        ),
        AssetIssue::MissingAsset => (SupportSeverity::Error, "missing-asset", "associated asset is missing"),
        AssetIssue::UnsupportedFormat => (SupportSeverity::Warning, "unsupported-format", "asset format is not fully supported"),
    }
}

/// The fingerprint of a path: the first 16 hexadecimal digits of the SHA-256 of its text.
pub open spec fn fingerprint_of(path: Seq<char>) -> Seq<char> {
    hex_of(sha256_of(vstd::utf8::encode_utf8(path))).subrange(0, 16)
}

pub fn path_fingerprint(path: &str) -> (r: String)
    ensures
        r@ == fingerprint_of(path@),
        r@.len() == 16,
{
    let digest = sha256_digest(path.as_bytes());
    let hex = hex_text(&digest);
    proof {
        crate::diagnostics::lemma_hex_len(digest@);
    }
    string_from(&subslice(&hex, 0, 16))
}

// ----------------------------------------------------------------------------------------
// What each root and record contributes.
// ----------------------------------------------------------------------------------------

/// What the file system shows at a path, without following a symbolic link.
#[derive(Debug, Clone, Copy, PartialEq, Eq, Structural)]
pub enum FileObservation {
    RegularFile,
    Symlink,
    NotFile,
    Missing,
}

/// What the caller saw of one catalog record: its asset file, where its Sidecar belongs
/// and what is there.
#[derive(Debug, Clone, PartialEq, Eq)]
pub struct RecordObservation {
    pub asset: FileObservation,
    pub expected_sidecar: String,
    pub sidecar: FileObservation,
}

pub open spec fn record_finding_model(r: AssetRecord, severity: SupportSeverity, code: Seq<char>, message: Seq<char>) -> FindingModel {
    FindingModel {
        severity,
        code,
        root_id: r.root_id,
        asset_id: r.id,
        relative_path: Some(r.relative_path@),
        path_fingerprint: Some(fingerprint_of(r.path@)),
        message,
    }
}

fn record_finding(r: &AssetRecord, severity: SupportSeverity, code: &str, message: &str) -> (f: ConsistencyFinding)
    ensures
        finding_model(f) == record_finding_model(*r, severity, code@, message@),
{
    ConsistencyFinding {
        severity,
        code: string_from(&chars_of(code)),
        root_id: r.root_id,
        asset_id: r.id,
        relative_path: Some(string_from(&chars_of(r.relative_path.as_str()))),
        path_fingerprint: Some(path_fingerprint(r.path.as_str())),
        message: string_from(&chars_of(message)),
    }
}

/// The root with an ID, the last one when several share it.
pub open spec fn configured_root(roots: Seq<LibraryRootStatus>, id: u128) -> Option<LibraryRootStatus>
    decreases roots.len(),
{
    if roots.len() == 0 {
        None
    } else if roots.last().root.id == id {
        Some(roots.last())
    } else {
        configured_root(roots.drop_last(), id)
    }
}

pub open spec fn asset_findings(r: AssetRecord, asset: FileObservation) -> Seq<FindingModel> {
    match asset {
        FileObservation::Symlink => seq![record_finding_model(r, SupportSeverity::Error, "asset-symlink"@, "catalog asset is a symbolic link and is not a supported source"@)],
        FileObservation::NotFile => seq![record_finding_model(r, SupportSeverity::Error, "asset-not-file"@, "catalog asset path is no longer a regular file"@)],
        FileObservation::Missing => seq![record_finding_model(r, SupportSeverity::Error, "asset-missing"@, "catalog asset is missing or unreadable"@)],
        FileObservation::RegularFile => seq![],
    }
}

pub open spec fn sidecar_findings(r: AssetRecord, sidecar: FileObservation, adjacent: bool) -> Seq<FindingModel> {
    let association = if r.sidecar_path is Some && !adjacent {
        seq![record_finding_model(r, SupportSeverity::Error, "sidecar-association-mismatch"@, "catalog Sidecar path is not adjacent to the asset"@)]
    } else {
        seq![]
    };
    let state = if r.sidecar_state is Some {
        match sidecar {
            FileObservation::Symlink | FileObservation::NotFile => seq![record_finding_model(r, SupportSeverity::Error, "sidecar-unsafe"@, "catalog Sidecar is not a regular non-symlink file"@)],
            FileObservation::Missing => seq![record_finding_model(r, SupportSeverity::Error, "sidecar-missing"@, "catalog metadata refers to a Sidecar that is missing"@)],
            FileObservation::RegularFile => seq![],
        }
    } else {
        seq![]
    };
    association + state
}

pub open spec fn issue_finding_model(r: AssetRecord, issue: AssetIssue) -> FindingModel {
    let (severity, code, message) = issue_finding_spec(issue);
    record_finding_model(r, severity, code@, message@)
}

pub open spec fn issue_findings(r: AssetRecord) -> Seq<FindingModel> {
    r.issues@.map_values(|i: AssetIssue| issue_finding_model(r, i))
}

/// The findings of one record: its root association; then, for a record of a configured
/// root, whether it is inside that root, its asset file, its Sidecar and its parser
/// issues. `inside` and `adjacent` say whether the record's path is inside its root and
/// whether its Sidecar path is the adjacent one.
pub open spec fn record_findings(
    roots: Seq<LibraryRootStatus>,
    r: AssetRecord,
    o: RecordObservation,
    inside: bool,
    adjacent: bool,
) -> Seq<FindingModel> {
    match r.root_id {
        None => seq![record_finding_model(r, SupportSeverity::Error, "missing-root-association"@, "catalog record is not associated with a configured root"@)],
        Some(id) => match configured_root(roots, id) {
            None => seq![record_finding_model(r, SupportSeverity::Error, "unknown-root-association"@, "catalog record refers to a root that is not configured"@)],
            Some(_) => (if inside {
                seq![]
            } else {
                seq![record_finding_model(r, SupportSeverity::Error, "asset-outside-root"@, "catalog path is outside its configured root"@)]
            }) + asset_findings(r, o.asset) + sidecar_findings(r, o.sidecar, adjacent) + issue_findings(r),
        },
    }
}

proof fn lemma_push_all_append(m: ReportModel, a: Seq<FindingModel>, f: FindingModel)
    ensures
        push_all(m, a.push(f)) == push_model(push_all(m, a), f),
{
    assert(a.push(f).drop_last() =~= a);
}

proof fn lemma_push_all_concat(m: ReportModel, a: Seq<FindingModel>, b: Seq<FindingModel>)
    ensures
        push_all(m, a + b) == push_all(push_all(m, a), b),
    decreases b.len(),
{
    if b.len() == 0 {
        assert(a + b =~= a);
    } else {
        lemma_push_all_concat(m, a, b.drop_last());
        assert((a + b).drop_last() =~= a + b.drop_last());
        assert((a + b).last() == b.last());
    }
}

/// Pushing findings one at a time counts each.
pub proof fn lemma_push_all_counts(m: ReportModel, fs: Seq<FindingModel>)
    requires
        counts_ok(m),
        m.summary.findings + fs.len() <= usize::MAX,
    ensures
        push_all(m, fs).summary.findings == m.summary.findings + fs.len(),
        counts_ok(push_all(m, fs)),
        push_all(m, fs).summary.configured_roots == m.summary.configured_roots,
        push_all(m, fs).summary.catalog_assets == m.summary.catalog_assets,
        push_all(m, fs).roots.len() == m.roots.len(),
    decreases fs.len(),
{
    if fs.len() > 0 {
        lemma_push_all_counts(m, fs.drop_last());
        let p = push_all(m, fs.drop_last());
        let q = push_model(p, fs.last());
        assert forall|i: int| 0 <= i < q.roots.len() implies (#[trigger] q.roots[i]).warnings <= q.summary.warnings
            && q.roots[i].errors <= q.summary.errors by {
            assert(p.roots[i].warnings <= p.summary.warnings);
        }
    }
}

fn find_configured_root(roots: &Vec<LibraryRootStatus>, id: u128) -> (r: Option<usize>)
    ensures
        match r {
            Some(k) => k < roots@.len() && configured_root(roots@, id) == Some(roots@[k as int]),
            None => configured_root(roots@, id) is None,
        },
{
    let mut i: usize = roots.len();
    assert(roots@.subrange(0, roots@.len() as int) =~= roots@);
    while i > 0
        invariant
            i <= roots@.len(),
            configured_root(roots@, id) == configured_root(roots@.subrange(0, i as int), id),
        decreases i,
    {
        let ghost sub = roots@.subrange(0, i as int);
        assert(sub.drop_last() =~= roots@.subrange(0, i - 1));
        if roots[i - 1].root.id == id {
            return Some(i - 1);
        }
        i = i - 1;
    }
    assert(roots@.subrange(0, 0) =~= Seq::<LibraryRootStatus>::empty());
    None
}

/// Records one finding.
fn push_one(report: &mut LibraryConsistencyReport, f: ConsistencyFinding)
    requires
        counts_ok(report_model(*old(report))),
        old(report).summary.findings < usize::MAX,
    ensures
        report_model(*final(report)) == push_all(report_model(*old(report)), seq![finding_model(f)]),
        counts_ok(report_model(*final(report))),
        final(report).summary.findings == old(report).summary.findings + 1,
        final(report).generated_unix_ms == old(report).generated_unix_ms,
        final(report).authoritative == old(report).authoritative,
{
    let ghost start = report_model(*report);
    let ghost fm = finding_model(f);
    push_finding(report, f);
    proof {
        lemma_push_all_append(start, Seq::<FindingModel>::empty(), fm);
        assert(Seq::<FindingModel>::empty().push(fm) =~= seq![fm]);
    }
}

fn push_asset_findings(report: &mut LibraryConsistencyReport, record: &AssetRecord, asset: FileObservation)
    requires
        counts_ok(report_model(*old(report))),
        old(report).summary.findings + 1 < usize::MAX,
    ensures
        report_model(*final(report)) == push_all(report_model(*old(report)), asset_findings(*record, asset)),
        counts_ok(report_model(*final(report))),
        final(report).summary.findings == old(report).summary.findings + asset_findings(*record, asset).len(),
        final(report).generated_unix_ms == old(report).generated_unix_ms,
        final(report).authoritative == old(report).authoritative,
{
    match asset {
        FileObservation::Symlink => {
            push_one(report, record_finding(record, SupportSeverity::Error, "asset-symlink", "catalog asset is a symbolic link and is not a supported source"));
        },
        FileObservation::NotFile => {
            push_one(report, record_finding(record, SupportSeverity::Error, "asset-not-file", "catalog asset path is no longer a regular file"));
        },
        FileObservation::Missing => {
            push_one(report, record_finding(record, SupportSeverity::Error, "asset-missing", "catalog asset is missing or unreadable"));
        },
        FileObservation::RegularFile => {
            assert(push_all(report_model(*report), seq![]) == report_model(*report));
        },
    }
}

fn push_sidecar_findings(report: &mut LibraryConsistencyReport, record: &AssetRecord, sidecar: FileObservation, adjacent: bool)
    requires
        counts_ok(report_model(*old(report))),
        old(report).summary.findings + 2 < usize::MAX,
    ensures
        report_model(*final(report)) == push_all(report_model(*old(report)), sidecar_findings(*record, sidecar, adjacent)),
        counts_ok(report_model(*final(report))),
        final(report).summary.findings == old(report).summary.findings + sidecar_findings(*record, sidecar, adjacent).len(),
        final(report).generated_unix_ms == old(report).generated_unix_ms,
        final(report).authoritative == old(report).authoritative,
{
    let ghost start = report_model(*report);
    let ghost association = if record.sidecar_path is Some && !adjacent {
        seq![record_finding_model(*record, SupportSeverity::Error, "sidecar-association-mismatch"@, "catalog Sidecar path is not adjacent to the asset"@)]
    } else {
        seq![]
    };
    if record.sidecar_path.is_some() && !adjacent {
        push_one(report, record_finding(record, SupportSeverity::Error, "sidecar-association-mismatch", "catalog Sidecar path is not adjacent to the asset"));
    } else {
        assert(push_all(start, seq![]) == start);
    }
    let ghost middle = report_model(*report);
    let ghost state = if record.sidecar_state is Some {
        match sidecar {
            FileObservation::Symlink | FileObservation::NotFile => seq![record_finding_model(*record, SupportSeverity::Error, "sidecar-unsafe"@, "catalog Sidecar is not a regular non-symlink file"@)],
            FileObservation::Missing => seq![record_finding_model(*record, SupportSeverity::Error, "sidecar-missing"@, "catalog metadata refers to a Sidecar that is missing"@)],
            FileObservation::RegularFile => seq![],
        }
    } else {
        seq![]
    };
    if record.sidecar_state.is_some() {
        match sidecar {
            FileObservation::Symlink | FileObservation::NotFile => {
                push_one(report, record_finding(record, SupportSeverity::Error, "sidecar-unsafe", "catalog Sidecar is not a regular non-symlink file"));
            },
            FileObservation::Missing => {
                push_one(report, record_finding(record, SupportSeverity::Error, "sidecar-missing", "catalog metadata refers to a Sidecar that is missing"));
            },
            FileObservation::RegularFile => {
                assert(push_all(middle, seq![]) == middle);
            },
        }
    } else {
        assert(push_all(middle, seq![]) == middle);
    }
    proof {
        lemma_push_all_concat(start, association, state);
        assert(sidecar_findings(*record, sidecar, adjacent) == association + state);
    }
}

fn push_issue_findings(report: &mut LibraryConsistencyReport, record: &AssetRecord)
    requires
        counts_ok(report_model(*old(report))),
        old(report).summary.findings + record.issues@.len() < usize::MAX,
    ensures
        report_model(*final(report)) == push_all(report_model(*old(report)), issue_findings(*record)),
        counts_ok(report_model(*final(report))),
        final(report).summary.findings == old(report).summary.findings + record.issues@.len(),
        final(report).generated_unix_ms == old(report).generated_unix_ms,
        final(report).authoritative == old(report).authoritative,
{
    let ghost start = report_model(*report);
    let ghost n0 = report.summary.findings;
    let mut i: usize = 0;
    while i < record.issues.len()
        invariant
            i <= record.issues@.len(),
            counts_ok(report_model(*report)),
            report_model(*report) == push_all(start, issue_findings(*record).subrange(0, i as int)),
            report.summary.findings == n0 + i,
            n0 + record.issues@.len() < usize::MAX,
            report.generated_unix_ms == old(report).generated_unix_ms,
            report.authoritative == old(report).authoritative,
        decreases record.issues@.len() - i,
    {
        let (severity, code, message) = issue_finding(&record.issues[i]);
        let f = record_finding(record, severity, code, message);
        assert(finding_model(f) == issue_finding_model(*record, record.issues@[i as int]));
        let ghost prefix = issue_findings(*record).subrange(0, i as int);
        push_finding(report, f);
        proof {
            lemma_push_all_append(start, prefix, finding_model(f));
            assert(issue_findings(*record).subrange(0, i + 1) =~= prefix.push(finding_model(f)));
        }
        i = i + 1;
    }
    assert(issue_findings(*record).subrange(0, record.issues@.len() as int) =~= issue_findings(*record));
}

/// Records the findings of one record.
fn inspect_record(
    report: &mut LibraryConsistencyReport,
    roots: &Vec<LibraryRootStatus>,
    record: &AssetRecord,
    observation: &RecordObservation,
    inside: bool,
    adjacent: bool,
)
    requires
        counts_ok(report_model(*old(report))),
        old(report).summary.findings + 4 + record.issues@.len() < usize::MAX,
    ensures
        report_model(*final(report)) == push_all(report_model(*old(report)), record_findings(roots@, *record, *observation, inside, adjacent)),
        counts_ok(report_model(*final(report))),
        final(report).summary.findings == old(report).summary.findings + record_findings(roots@, *record, *observation, inside, adjacent).len(),
        record_findings(roots@, *record, *observation, inside, adjacent).len() <= 4 + record.issues@.len(),
        final(report).generated_unix_ms == old(report).generated_unix_ms,
        final(report).authoritative == old(report).authoritative,
{
    let ghost start = report_model(*report);
    let root_id = match record.root_id {
        None => {
            push_one(report, record_finding(record, SupportSeverity::Error, "missing-root-association", "catalog record is not associated with a configured root"));
            return;
        },
        Some(id) => id,
    };
    if find_configured_root(roots, root_id).is_none() {
        push_one(report, record_finding(record, SupportSeverity::Error, "unknown-root-association", "catalog record refers to a root that is not configured"));
        return;
    }
    let ghost outside = if inside {
        seq![]
    } else {
        seq![record_finding_model(*record, SupportSeverity::Error, "asset-outside-root"@, "catalog path is outside its configured root"@)]
    };
    if !inside {
        push_one(report, record_finding(record, SupportSeverity::Error, "asset-outside-root", "catalog path is outside its configured root"));
    } else {
        assert(push_all(start, seq![]) == start);
    }
    let ghost m1 = report_model(*report);
    push_asset_findings(report, record, observation.asset);
    let ghost m2 = report_model(*report);
    push_sidecar_findings(report, record, observation.sidecar, adjacent);
    let ghost m3 = report_model(*report);
    push_issue_findings(report, record);
    proof {
        let a = asset_findings(*record, observation.asset);
        let b = sidecar_findings(*record, observation.sidecar, adjacent);
        let c = issue_findings(*record);
        lemma_push_all_concat(start, outside, a);
        lemma_push_all_concat(start, outside + a, b);
        lemma_push_all_concat(start, outside + a + b, c);
        assert(record_findings(roots@, *record, *observation, inside, adjacent) == outside + a + b + c);
    }
}

// ----------------------------------------------------------------------------------------
// The whole report.
// ----------------------------------------------------------------------------------------

pub open spec fn root_finding_model(root: LibraryRootStatus) -> FindingModel {
    FindingModel {
        severity: SupportSeverity::Error,
        code: "root-unavailable"@,
        root_id: Some(root.root.id),
        asset_id: None,
        relative_path: None,
        path_fingerprint: Some(fingerprint_of(root.root.path@)),
        message: "enabled root is "@ + root.access_status.spec_label()@,
    }
}

/// An enabled root that is not available is an error.
pub open spec fn root_findings(roots: Seq<LibraryRootStatus>) -> Seq<FindingModel>
    decreases roots.len(),
{
    if roots.len() == 0 {
        seq![]
    } else {
        let r = roots.last();
        root_findings(roots.drop_last()) + if r.root.enabled && r.access_status != RootAccessStatus::Available {
            seq![root_finding_model(r)]
        } else {
            seq![]
        }
    }
}

/// How many records belong to a root.
pub open spec fn records_in_root(records: Seq<AssetRecord>, id: u128) -> nat
    decreases records.len(),
{
    if records.len() == 0 {
        0
    } else {
        records_in_root(records.drop_last(), id) + if records.last().root_id == Some(id) { 1nat } else { 0nat }
    }
}

pub open spec fn root_summary(root: LibraryRootStatus, records: Seq<AssetRecord>) -> RootConsistencySummary {
    RootConsistencySummary {
        root_id: root.root.id,
        enabled: root.root.enabled,
        access_status: root.access_status,
        catalog_assets: records_in_root(records, root.root.id) as usize,
        warnings: 0,
        errors: 0,
    }
}

/// The report before any finding: the sizes of the library and one summary per root.
pub open spec fn initial_model(roots: Seq<LibraryRootStatus>, records: Seq<AssetRecord>) -> ReportModel {
    ReportModel {
        summary: LibraryConsistencySummary {
            configured_roots: roots.len() as usize,
            catalog_assets: records.len() as usize,
            findings: 0,
            warnings: 0,
            errors: 0,
        },
        roots: roots.map_values(|r: LibraryRootStatus| root_summary(r, records)),
        findings: seq![],
        truncated: false,
    }
}

/// The findings of the first `n` records, in order.
pub open spec fn records_findings(
    roots: Seq<LibraryRootStatus>,
    records: Seq<AssetRecord>,
    observations: Seq<RecordObservation>,
    inside: Seq<bool>,
    adjacent: Seq<bool>,
    n: int,
) -> Seq<FindingModel>
    decreases n,
{
    if n <= 0 {
        seq![]
    } else {
        records_findings(roots, records, observations, inside, adjacent, n - 1) + record_findings(
            roots,
            records[n - 1],
            observations[n - 1],
            inside[n - 1],
            adjacent[n - 1],
        )
    }
}

/// Where an ID goes among increasing IDs.
pub open spec fn id_position(s: Seq<u128>, x: u128, i: int) -> int
    decreases s.len() - i,
{
    if i < 0 || i >= s.len() {
        s.len() as int
    } else if s[i] < x {
        id_position(s, x, i + 1)
    } else {
        i
    }
}

pub open spec fn insert_id(s: Seq<u128>, x: u128) -> Seq<u128> {
    let p = id_position(s, x, 0);
    if p < s.len() && s[p] == x {
        s
    } else {
        s.insert(p, x)
    }
}

/// The stable IDs of the first `n` records, in increasing order, each once.
pub open spec fn record_ids(records: Seq<AssetRecord>, n: int) -> Seq<u128>
    decreases n,
{
    if n <= 0 {
        seq![]
    } else {
        match records[n - 1].id {
            Some(x) => insert_id(record_ids(records, n - 1), x),
            None => record_ids(records, n - 1),
        }
    }
}

pub open spec fn id_count(records: Seq<AssetRecord>, x: u128, n: int) -> nat
    decreases n,
{
    if n <= 0 {
        0
    } else {
        id_count(records, x, n - 1) + if records[n - 1].id == Some(x) { 1nat } else { 0nat }
    }
}

/// The first record with an ID.
pub open spec fn first_with_id(records: Seq<AssetRecord>, x: u128, n: int) -> Option<int>
    decreases n,
{
    if n <= 0 {
        None
    } else {
        match first_with_id(records, x, n - 1) {
            Some(k) => Some(k),
            None => if records[n - 1].id == Some(x) { Some(n - 1) } else { None },
        }
    }
}

pub open spec fn duplicate_finding_model(records: Seq<AssetRecord>, x: u128) -> FindingModel {
    FindingModel {
        severity: SupportSeverity::Error,
        code: "duplicate-stable-id"@,
        root_id: match first_with_id(records, x, records.len() as int) {
            Some(k) => records[k].root_id,
            None => None,
        },
        asset_id: Some(x),
        relative_path: None,
        path_fingerprint: None,
        message: "stable ID is associated with "@ + decimal(id_count(records, x, records.len() as int)) + " catalog records"@,
    }
}

/// A stable ID shared by several records is an error, reported once, in ID order.
pub open spec fn duplicate_findings(records: Seq<AssetRecord>, ids: Seq<u128>) -> Seq<FindingModel>
    decreases ids.len(),
{
    if ids.len() == 0 {
        seq![]
    } else {
        duplicate_findings(records, ids.drop_last()) + if id_count(records, ids.last(), records.len() as int) > 1 {
            seq![duplicate_finding_model(records, ids.last())]
        } else {
            seq![]
        }
    }
}

/// Every finding of a library, in the order they are reported: unavailable roots, then
/// each record, then shared stable IDs.
pub open spec fn all_findings(
    roots: Seq<LibraryRootStatus>,
    records: Seq<AssetRecord>,
    observations: Seq<RecordObservation>,
    inside: Seq<bool>,
    adjacent: Seq<bool>,
) -> Seq<FindingModel> {
    root_findings(roots) + records_findings(roots, records, observations, inside, adjacent, records.len() as int)
        + duplicate_findings(records, record_ids(records, records.len() as int))
}

/// The issues of all records together.
pub open spec fn issue_total(records: Seq<AssetRecord>, n: int) -> nat
    decreases n,
{
    if n <= 0 {
        0
    } else {
        issue_total(records, n - 1) + records[n - 1].issues@.len()
    }
}

/// The most findings a library can produce, which the counters must be able to hold.
pub open spec fn finding_bound(roots: Seq<LibraryRootStatus>, records: Seq<AssetRecord>) -> int {
    (roots.len() + 5 * records.len() + issue_total(records, records.len() as int)) as int
}

proof fn lemma_root_findings_len(roots: Seq<LibraryRootStatus>)
    ensures
        root_findings(roots).len() <= roots.len(),
    decreases roots.len(),
{
    if roots.len() > 0 {
        lemma_root_findings_len(roots.drop_last());
    }
}

proof fn lemma_insert_id_len(s: Seq<u128>, x: u128)
    ensures
        insert_id(s, x).len() <= s.len() + 1,
        id_position(s, x, 0) <= s.len(),
{
    lemma_id_position_bound(s, x, 0);
}

proof fn lemma_id_position_bound(s: Seq<u128>, x: u128, i: int)
    ensures
        id_position(s, x, i) <= s.len(),
        0 <= i <= s.len() ==> i <= id_position(s, x, i),
    decreases s.len() - i,
{
    if 0 <= i < s.len() && s[i] < x {
        lemma_id_position_bound(s, x, i + 1);
    }
}

proof fn lemma_record_ids_len(records: Seq<AssetRecord>, n: int)
    ensures
        record_ids(records, n).len() <= if n < 0 { 0 } else { n },
    decreases n,
{
    if n > 0 {
        lemma_record_ids_len(records, n - 1);
        if records[n - 1].id is Some {
            lemma_insert_id_len(record_ids(records, n - 1), records[n - 1].id->0);
        }
    }
}

proof fn lemma_duplicate_findings_len(records: Seq<AssetRecord>, ids: Seq<u128>)
    ensures
        duplicate_findings(records, ids).len() <= ids.len(),
    decreases ids.len(),
{
    if ids.len() > 0 {
        lemma_duplicate_findings_len(records, ids.drop_last());
    }
}

fn root_finding(root: &LibraryRootStatus) -> (f: ConsistencyFinding)
    ensures
        finding_model(f) == root_finding_model(*root),
{
    ConsistencyFinding {
        severity: SupportSeverity::Error,
        code: string_from(&chars_of("root-unavailable")),
        root_id: Some(root.root.id),
        asset_id: None,
        relative_path: None,
        path_fingerprint: Some(path_fingerprint(root.root.path.as_str())),
        message: string_from(&concat(&chars_of("enabled root is "), &chars_of(root.access_status.label()))),
    }
}

fn count_in_root(records: &Vec<AssetRecord>, id: u128) -> (n: usize)
    ensures
        n == records_in_root(records@, id),
{
    let mut n: usize = 0;
    let mut i: usize = 0;
    while i < records.len()
        invariant
            i <= records@.len(),
            n == records_in_root(records@.subrange(0, i as int), id),
            n <= i,
        decreases records@.len() - i,
    {
        assert(records@.subrange(0, i + 1).drop_last() =~= records@.subrange(0, i as int));
        if records[i].root_id == Some(id) {
            n = n + 1;
        }
        i = i + 1;
    }
    assert(records@.subrange(0, records@.len() as int) =~= records@);
    n
}

fn initial_report(roots: &Vec<LibraryRootStatus>, records: &Vec<AssetRecord>, authoritative: bool, generated_unix_ms: i64) -> (r: LibraryConsistencyReport)
    ensures
        report_model(r) == initial_model(roots@, records@),
        r.authoritative == authoritative,
        r.generated_unix_ms == generated_unix_ms,
{
    let mut summaries: Vec<RootConsistencySummary> = Vec::new();
    let mut i: usize = 0;
    while i < roots.len()
        invariant
            i <= roots@.len(),
            summaries@ == roots@.subrange(0, i as int).map_values(|r: LibraryRootStatus| root_summary(r, records@)),
        decreases roots@.len() - i,
    {
        let root = &roots[i];
        let count = count_in_root(records, root.root.id);
        summaries.push(RootConsistencySummary {
            root_id: root.root.id,
            enabled: root.root.enabled,
            access_status: root.access_status,
            catalog_assets: count,
            warnings: 0,
            errors: 0,
        });
        assert(roots@.subrange(0, i + 1).map_values(|r: LibraryRootStatus| root_summary(r, records@)) =~= roots@.subrange(
            0,
            i as int,
        ).map_values(|r: LibraryRootStatus| root_summary(r, records@)).push(root_summary(roots@[i as int], records@)));
        i = i + 1;
    }
    assert(roots@.subrange(0, roots@.len() as int) =~= roots@);
    let r = LibraryConsistencyReport {
        generated_unix_ms,
        authoritative,
        summary: LibraryConsistencySummary {
            configured_roots: roots.len(),
            catalog_assets: records.len(),
            findings: 0,
            warnings: 0,
            errors: 0,
        },
        roots: summaries,
        findings: Vec::new(),
        truncated: false,
    };
    assert(report_model(r).findings =~= Seq::<FindingModel>::empty());
    r
}

fn push_root_findings(report: &mut LibraryConsistencyReport, roots: &Vec<LibraryRootStatus>)
    requires
        counts_ok(report_model(*old(report))),
        old(report).summary.findings + roots@.len() < usize::MAX,
    ensures
        report_model(*final(report)) == push_all(report_model(*old(report)), root_findings(roots@)),
        counts_ok(report_model(*final(report))),
        final(report).summary.findings == old(report).summary.findings + root_findings(roots@).len(),
        final(report).generated_unix_ms == old(report).generated_unix_ms,
        final(report).authoritative == old(report).authoritative,
{
    let ghost start = report_model(*report);
    let ghost n0 = report.summary.findings;
    let mut i: usize = 0;
    while i < roots.len()
        invariant
            i <= roots@.len(),
            counts_ok(report_model(*report)),
            report_model(*report) == push_all(start, root_findings(roots@.subrange(0, i as int))),
            report.summary.findings == n0 + root_findings(roots@.subrange(0, i as int)).len(),
            root_findings(roots@.subrange(0, i as int)).len() <= i,
            n0 + roots@.len() < usize::MAX,
            report.generated_unix_ms == old(report).generated_unix_ms,
            report.authoritative == old(report).authoritative,
        decreases roots@.len() - i,
    {
        let ghost prefix = roots@.subrange(0, i as int);
        let ghost next = roots@.subrange(0, i + 1);
        assert(next.drop_last() =~= prefix);
        assert(next.last() == roots@[i as int]);
        let root = &roots[i];
        if root.root.enabled && root.access_status != RootAccessStatus::Available {
            let f = root_finding(root);
            push_finding(report, f);
            proof {
                lemma_push_all_append(start, root_findings(prefix), finding_model(f));
                assert(root_findings(next) =~= root_findings(prefix).push(finding_model(f)));
            }
        } else {
            assert(root_findings(next) =~= root_findings(prefix));
        }
        i = i + 1;
    }
    assert(roots@.subrange(0, roots@.len() as int) =~= roots@);
}

fn id_position_exec(ids: &Vec<u128>, x: u128) -> (p: usize)
    ensures
        p == id_position(ids@, x, 0),
{
    let mut i: usize = 0;
    while i < ids.len()
        invariant
            i <= ids@.len(),
            id_position(ids@, x, 0) == id_position(ids@, x, i as int),
        decreases ids@.len() - i,
    {
        if ids[i] < x {
            i = i + 1;
        } else {
            return i;
        }
    }
    i
}

fn collect_ids(records: &Vec<AssetRecord>) -> (ids: Vec<u128>)
    ensures
        ids@ == record_ids(records@, records@.len() as int),
{
    let mut ids: Vec<u128> = Vec::new();
    let mut i: usize = 0;
    while i < records.len()
        invariant
            i <= records@.len(),
            ids@ == record_ids(records@, i as int),
        decreases records@.len() - i,
    {
        match records[i].id {
            Some(x) => {
                let p = id_position_exec(&ids, x);
                proof {
                    lemma_id_position_bound(ids@, x, 0);
                }
                if !(p < ids.len() && ids[p] == x) {
                    ids.insert(p, x);
                }
            },
            None => {},
        }
        i = i + 1;
    }
    ids
}

fn count_with_id(records: &Vec<AssetRecord>, x: u128) -> (r: (usize, Option<usize>))
    ensures
        r.0 == id_count(records@, x, records@.len() as int),
        r.1 matches Some(k) ==> k < records@.len(),
        match r.1 {
            Some(k) => first_with_id(records@, x, records@.len() as int) == Some(k as int),
            None => first_with_id(records@, x, records@.len() as int) is None,
        },
{
    let mut n: usize = 0;
    let mut first: Option<usize> = None;
    let mut i: usize = 0;
    while i < records.len()
        invariant
            i <= records@.len(),
            n == id_count(records@, x, i as int),
            n <= i,
            match first_with_id(records@, x, i as int) {
                Some(k) => first == Some(k as usize) && 0 <= k < i,
                None => first is None,
            },
        decreases records@.len() - i,
    {
        if records[i].id == Some(x) {
            n = n + 1;
            if first.is_none() {
                first = Some(i);
            }
        }
        i = i + 1;
    }
    (n, first)
}

fn root_of_first(records: &Vec<AssetRecord>, first: Option<usize>) -> (r: Option<u128>)
    requires
        first matches Some(k) ==> k < records@.len(),
    ensures
        match first {
            Some(k) => r == records@[k as int].root_id,
            None => r is None,
        },
{
    match first {
        Some(k) => records[k].root_id,
        None => None,
    }
}

fn push_duplicate_findings(report: &mut LibraryConsistencyReport, records: &Vec<AssetRecord>, ids: &Vec<u128>)
    requires
        counts_ok(report_model(*old(report))),
        old(report).summary.findings + ids@.len() < usize::MAX,
    ensures
        report_model(*final(report)) == push_all(report_model(*old(report)), duplicate_findings(records@, ids@)),
        counts_ok(report_model(*final(report))),
        final(report).generated_unix_ms == old(report).generated_unix_ms,
        final(report).authoritative == old(report).authoritative,
{
    let ghost start = report_model(*report);
    let ghost n0 = report.summary.findings;
    let mut i: usize = 0;
    while i < ids.len()
        invariant
            i <= ids@.len(),
            counts_ok(report_model(*report)),
            report_model(*report) == push_all(start, duplicate_findings(records@, ids@.subrange(0, i as int))),
            report.summary.findings <= n0 + i,
            n0 + ids@.len() < usize::MAX,
            report.generated_unix_ms == old(report).generated_unix_ms,
            report.authoritative == old(report).authoritative,
        decreases ids@.len() - i,
    {
        let ghost prefix = ids@.subrange(0, i as int);
        let ghost next = ids@.subrange(0, i + 1);
        assert(next.drop_last() =~= prefix);
        assert(next.last() == ids@[i as int]);
        let x = ids[i];
        let (count, first) = count_with_id(records, x);
        if count > 1 {
            let root_id = root_of_first(records, first);
            let message = concat(
                &concat(&chars_of("stable ID is associated with "), &decimal_text(count)),
                &chars_of(" catalog records"),
            );
            let f = ConsistencyFinding {
                severity: SupportSeverity::Error,
                code: string_from(&chars_of("duplicate-stable-id")),
                root_id,
                asset_id: Some(x),
                relative_path: None,
                path_fingerprint: None,
                message: string_from(&message),
            };
            assert(finding_model(f) == duplicate_finding_model(records@, x));
            push_finding(report, f);
            proof {
                lemma_push_all_append(start, duplicate_findings(records@, prefix), finding_model(f));
                assert(duplicate_findings(records@, next) =~= duplicate_findings(records@, prefix).push(finding_model(f)));
            }
        } else {
            assert(duplicate_findings(records@, next) =~= duplicate_findings(records@, prefix));
        }
        i = i + 1;
    }
    assert(ids@.subrange(0, ids@.len() as int) =~= ids@);
}

proof fn lemma_issue_total_step(records: Seq<AssetRecord>, i: int)
    requires
        0 <= i < records.len(),
    ensures
        issue_total(records, i + 1) == issue_total(records, i) + records[i].issues@.len(),
        issue_total(records, i + 1) <= issue_total(records, records.len() as int),
{
    lemma_issue_total_mono(records, i + 1, records.len() as int);
}

proof fn lemma_issue_total_mono(records: Seq<AssetRecord>, i: int, j: int)
    requires
        0 <= i <= j,
    ensures
        issue_total(records, i) <= issue_total(records, j),
    decreases j - i,
{
    if i < j {
        lemma_issue_total_mono(records, i, j - 1);
    }
}

/// The consistency report of a library, given what the caller saw of each record and
/// whether each record's path is inside its root and its Sidecar path the adjacent one.
/// Read-only: every total counts every finding; at most 512 findings are listed.
pub fn inspect_library_consistency_with(
    roots: &Vec<LibraryRootStatus>,
    records: &Vec<AssetRecord>,
    observations: &Vec<RecordObservation>,
    inside: &Vec<bool>,
    adjacent: &Vec<bool>,
    authoritative: bool,
    generated_unix_ms: i64,
) -> (r: LibraryConsistencyReport)
    requires
        observations@.len() == records@.len(),
        inside@.len() == records@.len(),
        adjacent@.len() == records@.len(),
        finding_bound(roots@, records@) < usize::MAX,
    ensures
        report_model(r) == push_all(
            initial_model(roots@, records@),
            all_findings(roots@, records@, observations@, inside@, adjacent@),
        ),
        r.authoritative == authoritative,
        r.generated_unix_ms == generated_unix_ms,
{
    let mut report = initial_report(roots, records, authoritative, generated_unix_ms);
    let ghost start = report_model(report);
    proof {
        lemma_root_findings_len(roots@);
        lemma_issue_total_mono(records@, 0, records@.len() as int);
    }
    push_root_findings(&mut report, roots);
    let ghost after_roots = report_model(report);
    let ghost base = report.summary.findings;
    let mut i: usize = 0;
    while i < records.len()
        invariant
            i <= records@.len(),
            observations@.len() == records@.len(),
            inside@.len() == records@.len(),
            adjacent@.len() == records@.len(),
            finding_bound(roots@, records@) < usize::MAX,
            base <= roots@.len(),
            counts_ok(report_model(report)),
            report_model(report) == push_all(after_roots, records_findings(roots@, records@, observations@, inside@, adjacent@, i as int)),
            report.summary.findings <= base + 4 * i + issue_total(records@, i as int),
            report.generated_unix_ms == generated_unix_ms,
            report.authoritative == authoritative,
        decreases records@.len() - i,
    {
        proof {
            lemma_issue_total_step(records@, i as int);
        }
        let ghost before = report_model(report);
        inspect_record(&mut report, roots, &records[i], &observations[i], inside[i], adjacent[i]);
        proof {
            lemma_push_all_concat(
                after_roots,
                records_findings(roots@, records@, observations@, inside@, adjacent@, i as int),
                record_findings(roots@, records@[i as int], observations@[i as int], inside@[i as int], adjacent@[i as int]),
            );
        }
        i = i + 1;
    }
    let ids = collect_ids(records);
    proof {
        lemma_record_ids_len(records@, records@.len() as int);
    }
    push_duplicate_findings(&mut report, records, &ids);
    proof {
        let a = root_findings(roots@);
        let b = records_findings(roots@, records@, observations@, inside@, adjacent@, records@.len() as int);
        let c = duplicate_findings(records@, ids@);
        lemma_push_all_concat(start, a, b);
        lemma_push_all_concat(start, a + b, c);
    }
    report
}

/// A plain path is its base or inside it, component by component.
pub open spec fn plain_within(path: Seq<char>, base: Seq<char>) -> bool {
    let rel = relation_of(plain_native_keys(base, PlatformFamily::Linux), plain_native_keys(path, PlatformFamily::Linux));
    rel == PathRelation::Same || rel == PathRelation::Ancestor
}

/// Two plain paths have the same components.
pub open spec fn plain_same(left: Seq<char>, right: Seq<char>) -> bool {
    relation_of(plain_native_keys(left, PlatformFamily::Linux), plain_native_keys(right, PlatformFamily::Linux))
        == PathRelation::Same
}

/// What the inside flag of a record is: true without a configured root, and for plain
/// paths whether the record's path is its root's path or inside it.
pub open spec fn inside_flag_ok(flag: bool, roots: Seq<LibraryRootStatus>, r: AssetRecord) -> bool {
    match r.root_id {
        None => flag,
        Some(id) => match configured_root(roots, id) {
            None => flag,
            Some(root) => plain_path(r.path@) && plain_path(root.root.path@) ==> flag == plain_within(r.path@, root.root.path@),
        },
    }
}

/// What the adjacency flag of a record is: true without a Sidecar, and for plain paths
/// whether the Sidecar is at the expected place.
pub open spec fn adjacent_flag_ok(flag: bool, r: AssetRecord, o: RecordObservation) -> bool {
    match r.sidecar_path {
        None => flag,
        Some(p) => plain_path(p@) && plain_path(o.expected_sidecar@) ==> flag == plain_same(p@, o.expected_sidecar@),
    }
}

/// Whether a path is its root or inside it, component by component as the platform
/// parses paths.
pub fn path_starts_with(path: &str, base: &str) -> (r: bool)
    ensures
        exists|p: Seq<NativeComponent>, b: Seq<NativeComponent>|
            r == (relation_of(native_keys(b, PlatformFamily::Linux), native_keys(p, PlatformFamily::Linux)) == PathRelation::Same
                || relation_of(native_keys(b, PlatformFamily::Linux), native_keys(p, PlatformFamily::Linux)) == PathRelation::Ancestor),
        plain_path(path@) && plain_path(base@) ==> r == plain_within(path@, base@),
{
    let p = native_components(path);
    let b = native_components(base);
    proof {
        if plain_path(path@) && plain_path(base@) {
            lemma_native_keys_of_plain(p@, path@, PlatformFamily::Linux);
            lemma_native_keys_of_plain(b@, base@, PlatformFamily::Linux);
        }
    }
    let relation = path_relation_for_components(&b, &p, PlatformFamily::Linux);
    relation == PathRelation::Same || relation == PathRelation::Ancestor
}

/// Whether two paths have the same components as the platform parses them.
pub fn same_path(left: &str, right: &str) -> (r: bool)
    ensures
        exists|l: Seq<NativeComponent>, q: Seq<NativeComponent>|
            r == (relation_of(native_keys(l, PlatformFamily::Linux), native_keys(q, PlatformFamily::Linux)) == PathRelation::Same),
        plain_path(left@) && plain_path(right@) ==> r == plain_same(left@, right@),
{
    let l = native_components(left);
    let q = native_components(right);
    proof {
        if plain_path(left@) && plain_path(right@) {
            lemma_native_keys_of_plain(l@, left@, PlatformFamily::Linux);
            lemma_native_keys_of_plain(q@, right@, PlatformFamily::Linux);
        }
    }
    path_relation_for_components(&l, &q, PlatformFamily::Linux) == PathRelation::Same
}

fn inside_flag(roots: &Vec<LibraryRootStatus>, record: &AssetRecord) -> (b: bool)
    ensures
        inside_flag_ok(b, roots@, *record),
{
    match record.root_id {
        Some(id) => match find_configured_root(roots, id) {
            Some(k) => path_starts_with(record.path.as_str(), roots[k].root.path.as_str()),
            None => true,
        },
        None => true,
    }
}

fn adjacent_flag(record: &AssetRecord, observation: &RecordObservation) -> (b: bool)
    ensures
        adjacent_flag_ok(b, *record, *observation),
{
    match &record.sidecar_path {
        Some(p) => same_path(p.as_str(), observation.expected_sidecar.as_str()),
        None => true,
    }
}

/// The consistency report of a library, given what the caller saw of each record; which
/// paths lie inside their roots follows the platform's path rules, so the report is
/// stated for the answers those rules gave, and those answers are stated for plain paths.
pub fn inspect_library_consistency(
    roots: &Vec<LibraryRootStatus>,
    records: &Vec<AssetRecord>,
    observations: &Vec<RecordObservation>,
    authoritative: bool,
    generated_unix_ms: i64,
) -> (r: LibraryConsistencyReport)
    requires
        observations@.len() == records@.len(),
        finding_bound(roots@, records@) < usize::MAX,
    ensures
        exists|inside: Seq<bool>, adjacent: Seq<bool>|
            inside.len() == records@.len() && adjacent.len() == records@.len() && (forall|i: int|
                0 <= i < records@.len() ==> inside_flag_ok(#[trigger] inside[i], roots@, records@[i]) && adjacent_flag_ok(
                    adjacent[i],
                    records@[i],
                    observations@[i],
                )) && report_model(r) == push_all(
                initial_model(roots@, records@),
                #[trigger] all_findings(roots@, records@, observations@, inside, adjacent),
            ),
        r.authoritative == authoritative,
        r.generated_unix_ms == generated_unix_ms,
{
    let mut inside: Vec<bool> = Vec::new();
    let mut adjacent: Vec<bool> = Vec::new();
    let mut i: usize = 0;
    while i < records.len()
        invariant
            i <= records@.len(),
            observations@.len() == records@.len(),
            inside@.len() == i,
            adjacent@.len() == i,
            forall|j: int| 0 <= j < i ==> inside_flag_ok(#[trigger] inside@[j], roots@, records@[j]),
            forall|j: int| 0 <= j < i ==> adjacent_flag_ok(#[trigger] adjacent@[j], records@[j], observations@[j]),
        decreases records@.len() - i,
    {
        let within = inside_flag(roots, &records[i]);
        let next_to = adjacent_flag(&records[i], &observations[i]);
        inside.push(within);
        adjacent.push(next_to);
        i = i + 1;
    }
    let r = inspect_library_consistency_with(roots, records, observations, &inside, &adjacent, authoritative, generated_unix_ms);
    assert(inside@.len() == records@.len() && adjacent@.len() == records@.len() && (forall|i: int|
        0 <= i < records@.len() ==> inside_flag_ok(#[trigger] inside@[i], roots@, records@[i]) && adjacent_flag_ok(
            adjacent@[i],
            records@[i],
            observations@[i],
        )) && report_model(r) == push_all(
        initial_model(roots@, records@),
        all_findings(roots@, records@, observations@, inside@, adjacent@),
    ));
    r
}

/// How many findings have a severity.
pub open spec fn severity_count(fs: Seq<FindingModel>, severity: SupportSeverity) -> nat
    decreases fs.len(),
{
    if fs.len() == 0 {
        0
    } else {
        severity_count(fs.drop_last(), severity) + if fs.last().severity == severity { 1nat } else { 0nat }
    }
}

/// A report lists its first 512 findings and says whether there were more, while its
/// totals count every finding by severity.
pub proof fn lemma_details_bounded_totals_exact(m: ReportModel, fs: Seq<FindingModel>)
    requires
        m.summary.findings == 0 && m.summary.warnings == 0 && m.summary.errors == 0,
        m.findings.len() == 0,
        !m.truncated,
        fs.len() < usize::MAX,
    ensures
        push_all(m, fs).summary.findings == fs.len(),
        push_all(m, fs).summary.warnings == severity_count(fs, SupportSeverity::Warning),
        push_all(m, fs).summary.errors == severity_count(fs, SupportSeverity::Error),
        push_all(m, fs).findings == fs.subrange(0, if fs.len() <= MAX_CONSISTENCY_FINDINGS { fs.len() as int } else { MAX_CONSISTENCY_FINDINGS as int }),
        push_all(m, fs).truncated == (fs.len() > MAX_CONSISTENCY_FINDINGS),
    decreases fs.len(),
{
    if fs.len() == 0 {
        assert(fs.subrange(0, 0) =~= m.findings);
    } else {
        let d = fs.drop_last();
        lemma_details_bounded_totals_exact(m, d);
        lemma_severity_count_le(d);
        let p = push_all(m, d);
        if d.len() < MAX_CONSISTENCY_FINDINGS {
            assert(fs.subrange(0, fs.len() as int) =~= d.subrange(0, d.len() as int).push(fs.last()));
        } else {
            assert(fs.subrange(0, MAX_CONSISTENCY_FINDINGS as int) =~= d.subrange(0, MAX_CONSISTENCY_FINDINGS as int));
        }
    }
}

proof fn lemma_severity_count_le(fs: Seq<FindingModel>)
    ensures
        severity_count(fs, SupportSeverity::Warning) <= fs.len(),
        severity_count(fs, SupportSeverity::Error) <= fs.len(),
    decreases fs.len(),
{
    if fs.len() > 0 {
        lemma_severity_count_le(fs.drop_last());
    }
}

// ----------------------------------------------------------------------------------------
// Tracing one asset.
// ----------------------------------------------------------------------------------------

#[derive(Debug, Clone, Copy, PartialEq, Eq, Structural)]
pub enum TraceOutcome {
    Passed,
    Warning,
    Error,
}

#[derive(Debug, Clone, PartialEq, Eq)]
pub struct AssetTraceStep {
    pub match_index: Option<usize>,
    pub stage: String,
    pub outcome: TraceOutcome,
    pub code: String,
    pub message: String,
}

#[derive(Debug, Clone, PartialEq, Eq)]
pub struct AssetTraceMatch {
    pub root_id: Option<u128>,
    pub root_access_status: Option<RootAccessStatus>,
    pub relative_path: String,
    pub path_fingerprint: String,
    pub asset_present: bool,
    pub sidecar_present: bool,
    pub sidecar_id_matches: Option<bool>,
    pub mime: String,
    pub issue_codes: Vec<String>,
}

#[derive(Debug, Clone, PartialEq, Eq)]
pub struct AssetTraceReport {
    pub generated_unix_ms: i64,
    pub asset_id: u128,
    pub match_count: usize,
    pub matches: Vec<AssetTraceMatch>,
    pub steps: Vec<AssetTraceStep>,
}

/// What reading an adjacent Sidecar gave: nothing usable, or its stable ID.
#[derive(Debug, Clone, Copy, PartialEq, Eq, Structural)]
pub enum SidecarReading {
    Unparsed,
    Parsed(u128),
}

/// What the caller saw of a catalog record while tracing: whether its asset is a regular
/// file that is not a symbolic link, whether its adjacent Sidecar is, and what reading
/// that Sidecar gave.
#[derive(Debug, Clone, Copy, PartialEq, Eq, Structural)]
pub struct TraceObservation {
    pub asset_present: bool,
    pub sidecar_present: bool,
    pub sidecar: SidecarReading,
}

pub struct StepModel {
    pub match_index: Option<usize>,
    pub stage: Seq<char>,
    pub outcome: TraceOutcome,
    pub code: Seq<char>,
    pub message: Seq<char>,
}

pub open spec fn step_model(s: AssetTraceStep) -> StepModel {
    StepModel { match_index: s.match_index, stage: s.stage@, outcome: s.outcome, code: s.code@, message: s.message@ }
}

pub open spec fn step_of(index: Option<usize>, stage: Seq<char>, outcome: TraceOutcome, code: Seq<char>, message: Seq<char>) -> StepModel {
    StepModel { match_index: index, stage, outcome, code, message }
}

/// The first step: how many catalog records carry the ID.
pub open spec fn lookup_step(count: nat) -> StepModel {
    step_of(
        None,
        "catalog-lookup"@,
        if count == 0 { TraceOutcome::Error } else if count > 1 { TraceOutcome::Warning } else { TraceOutcome::Passed },
        if count == 0 { "not-found"@ } else if count > 1 { "duplicate-id"@ } else { "unique-match"@ },
        "catalog lookup returned "@ + decimal(count) + " record(s)"@,
    )
}

pub open spec fn record_root(roots: Seq<LibraryRootStatus>, r: AssetRecord) -> Option<LibraryRootStatus> {
    match r.root_id {
        Some(id) => configured_root(roots, id),
        None => None,
    }
}

/// The four steps of one matching record: its root, its asset file, its Sidecar and its
/// parser issues.
pub open spec fn match_steps(roots: Seq<LibraryRootStatus>, index: usize, asset_id: u128, r: AssetRecord, o: TraceObservation) -> Seq<StepModel> {
    let root = record_root(roots, r);
    let root_step = match root {
        Some(root) => step_of(Some(index), "root-association"@, TraceOutcome::Passed, "configured-root"@, "root access is "@ + root.access_status.spec_label()@),
        None => step_of(Some(index), "root-association"@, TraceOutcome::Error, "missing-root"@, "record is not associated with a configured root"@),
    };
    let asset_step = if o.asset_present {
        step_of(Some(index), "asset-file"@, TraceOutcome::Passed, "regular-file"@, "asset is a readable regular file"@)
    } else {
        step_of(Some(index), "asset-file"@, TraceOutcome::Error, "missing-or-unsafe"@, "asset is missing, unreadable, or a symbolic link"@)
    };
    let sidecar_step = if o.sidecar_present {
        match o.sidecar {
            SidecarReading::Parsed(id) => if id == asset_id {
                step_of(Some(index), "sidecar-parse"@, TraceOutcome::Passed, "id-matched"@, "adjacent Sidecar parsed and supplied the requested stable ID"@)
            } else {
                step_of(Some(index), "sidecar-parse"@, TraceOutcome::Error, "id-mismatch"@, "adjacent Sidecar parsed but supplied a different stable ID"@)
            },
            SidecarReading::Unparsed => step_of(Some(index), "sidecar-parse"@, TraceOutcome::Error, "invalid-sidecar"@, "adjacent Sidecar exists but could not be parsed"@),
        }
    } else {
        step_of(Some(index), "sidecar-parse"@, TraceOutcome::Error, "sidecar-missing"@, "adjacent Sidecar is missing"@)
    };
    let issues = r.issues@.len();
    let parser_step = step_of(
        Some(index),
        "parser-outcome"@,
        if issues == 0 { TraceOutcome::Passed } else { TraceOutcome::Warning },
        if issues == 0 { "clean"@ } else { "issues-present"@ },
        "catalog record contains "@ + decimal(issues) + " parser issue(s)"@,
    );
    seq![root_step, asset_step, sidecar_step, parser_step]
}

pub struct TraceMatchModel {
    pub root_id: Option<u128>,
    pub root_access_status: Option<RootAccessStatus>,
    pub relative_path: Seq<char>,
    pub path_fingerprint: Seq<char>,
    pub asset_present: bool,
    pub sidecar_present: bool,
    pub sidecar_id_matches: Option<bool>,
    pub mime: Seq<char>,
    pub issue_codes: Seq<Seq<char>>,
}

pub open spec fn trace_match_model(m: AssetTraceMatch) -> TraceMatchModel {
    TraceMatchModel {
        root_id: m.root_id,
        root_access_status: m.root_access_status,
        relative_path: m.relative_path@,
        path_fingerprint: m.path_fingerprint@,
        asset_present: m.asset_present,
        sidecar_present: m.sidecar_present,
        sidecar_id_matches: m.sidecar_id_matches,
        mime: m.mime@,
        issue_codes: crate::query_model::strs(m.issue_codes@),
    }
}

/// What the trace says of one matching record.
pub open spec fn match_summary(roots: Seq<LibraryRootStatus>, asset_id: u128, r: AssetRecord, o: TraceObservation) -> TraceMatchModel {
    TraceMatchModel {
        root_id: r.root_id,
        root_access_status: match record_root(roots, r) {
            Some(root) => Some(root.access_status),
            None => None,
        },
        relative_path: r.relative_path@,
        path_fingerprint: fingerprint_of(r.path@),
        asset_present: o.asset_present,
        sidecar_present: o.sidecar_present,
        sidecar_id_matches: if o.sidecar_present {
            match o.sidecar {
                SidecarReading::Parsed(id) => Some(id == asset_id),
                SidecarReading::Unparsed => None,
            }
        } else {
            None
        },
        mime: r.mime@,
        issue_codes: r.issues@.map_values(|i: AssetIssue| issue_finding_spec(i).1@),
    }
}

/// The indices of the first `n` records that carry the ID, in order.
pub open spec fn matching_indices(records: Seq<AssetRecord>, asset_id: u128, n: int) -> Seq<int>
    decreases n,
{
    if n <= 0 {
        seq![]
    } else {
        matching_indices(records, asset_id, n - 1) + if records[n - 1].id == Some(asset_id) { seq![n - 1] } else { seq![] }
    }
}

/// The steps after the lookup, for the first `k` matches.
pub open spec fn trace_steps(
    roots: Seq<LibraryRootStatus>,
    records: Seq<AssetRecord>,
    observations: Seq<TraceObservation>,
    asset_id: u128,
    matched: Seq<int>,
    k: int,
) -> Seq<StepModel>
    decreases k,
{
    if k <= 0 {
        seq![]
    } else {
        trace_steps(roots, records, observations, asset_id, matched, k - 1) + match_steps(
            roots,
            (k - 1) as usize,
            asset_id,
            records[matched[k - 1]],
            observations[matched[k - 1]],
        )
    }
}

fn text(s: &str) -> (r: String)
    ensures
        r@ == s@,
{
    string_from(&chars_of(s))
}

fn make_step(index: Option<usize>, stage: &str, outcome: TraceOutcome, code: &str, message: Vec<char>) -> (s: AssetTraceStep)
    ensures
        step_model(s) == step_of(index, stage@, outcome, code@, message@),
{
    AssetTraceStep { match_index: index, stage: text(stage), outcome, code: text(code), message: string_from(&message) }
}

fn trace_match(
    index: usize,
    asset_id: u128,
    record: &AssetRecord,
    roots: &Vec<LibraryRootStatus>,
    observation: TraceObservation,
    steps: &mut Vec<AssetTraceStep>,
) -> (m: AssetTraceMatch)
    ensures
        trace_match_model(m) == match_summary(roots@, asset_id, *record, observation),
        m.path_fingerprint@.len() == 16,
        final(steps)@.map_values(|s: AssetTraceStep| step_model(s)) == old(steps)@.map_values(|s: AssetTraceStep| step_model(s))
            + match_steps(roots@, index, asset_id, *record, observation),
{
    let ghost before = steps@.map_values(|s: AssetTraceStep| step_model(s));
    let root = match record.root_id {
        Some(id) => find_configured_root(roots, id),
        None => None,
    };
    let root_step = match root {
        Some(k) => make_step(
            Some(index),
            "root-association",
            TraceOutcome::Passed,
            "configured-root",
            concat(&chars_of("root access is "), &chars_of(roots[k].access_status.label())),
        ),
        None => make_step(Some(index), "root-association", TraceOutcome::Error, "missing-root", chars_of("record is not associated with a configured root")),
    };
    let asset_step = if observation.asset_present {
        make_step(Some(index), "asset-file", TraceOutcome::Passed, "regular-file", chars_of("asset is a readable regular file"))
    } else {
        make_step(Some(index), "asset-file", TraceOutcome::Error, "missing-or-unsafe", chars_of("asset is missing, unreadable, or a symbolic link"))
    };
    let (sidecar_step, sidecar_id_matches) = if observation.sidecar_present {
        match observation.sidecar {
            SidecarReading::Parsed(id) => if id == asset_id {
                (make_step(Some(index), "sidecar-parse", TraceOutcome::Passed, "id-matched", chars_of("adjacent Sidecar parsed and supplied the requested stable ID")), Some(true))
            } else {
                (make_step(Some(index), "sidecar-parse", TraceOutcome::Error, "id-mismatch", chars_of("adjacent Sidecar parsed but supplied a different stable ID")), Some(false))
            },
            SidecarReading::Unparsed => (make_step(Some(index), "sidecar-parse", TraceOutcome::Error, "invalid-sidecar", chars_of("adjacent Sidecar exists but could not be parsed")), None),
        }
    } else {
        (make_step(Some(index), "sidecar-parse", TraceOutcome::Error, "sidecar-missing", chars_of("adjacent Sidecar is missing")), None)
    };
    let mut codes: Vec<String> = Vec::new();
    let mut i: usize = 0;
    while i < record.issues.len()
        invariant
            i <= record.issues@.len(),
            crate::query_model::strs(codes@) == record.issues@.subrange(0, i as int).map_values(|x: AssetIssue| issue_finding_spec(x).1@),
        decreases record.issues@.len() - i,
    {
        let (_, code, _) = issue_finding(&record.issues[i]);
        let ghost prior = codes@;
        codes.push(text(code));
        assert(crate::query_model::strs(codes@) =~= crate::query_model::strs(prior).push(code@));
        assert(record.issues@.subrange(0, i + 1).map_values(|x: AssetIssue| issue_finding_spec(x).1@) =~= record.issues@.subrange(
            0,
            i as int,
        ).map_values(|x: AssetIssue| issue_finding_spec(x).1@).push(issue_finding_spec(record.issues@[i as int]).1@));
        i = i + 1;
    }
    assert(record.issues@.subrange(0, record.issues@.len() as int) =~= record.issues@);
    let n = record.issues.len();
    let parser_message = concat(&concat(&chars_of("catalog record contains "), &decimal_text(n)), &chars_of(" parser issue(s)"));
    let parser_step = if n == 0 {
        make_step(Some(index), "parser-outcome", TraceOutcome::Passed, "clean", parser_message)
    } else {
        make_step(Some(index), "parser-outcome", TraceOutcome::Warning, "issues-present", parser_message)
    };
    let ghost added = seq![step_model(root_step), step_model(asset_step), step_model(sidecar_step), step_model(parser_step)];
    steps.push(root_step);
    steps.push(asset_step);
    steps.push(sidecar_step);
    steps.push(parser_step);
    assert(steps@.map_values(|s: AssetTraceStep| step_model(s)) =~= before + added);
    AssetTraceMatch {
        root_id: record.root_id,
        root_access_status: match root {
            Some(k) => Some(roots[k].access_status),
            None => None,
        },
        relative_path: text(record.relative_path.as_str()),
        path_fingerprint: path_fingerprint(record.path.as_str()),
        asset_present: observation.asset_present,
        sidecar_present: observation.sidecar_present,
        sidecar_id_matches,
        mime: text(record.mime.as_str()),
        issue_codes: codes,
    }
}

/// Traces one asset through the catalog: the lookup, then for each record with its stable
/// ID, its root, asset file, Sidecar and parser issues. Read-only.
pub fn trace_asset(
    asset_id: u128,
    roots: &Vec<LibraryRootStatus>,
    records: &Vec<AssetRecord>,
    observations: &Vec<TraceObservation>,
    generated_unix_ms: i64,
) -> (r: AssetTraceReport)
    requires
        observations@.len() == records@.len(),
    ensures
        ({
            let matched = matching_indices(records@, asset_id, records@.len() as int);
            &&& r.asset_id == asset_id
            &&& r.generated_unix_ms == generated_unix_ms
            &&& r.match_count == matched.len()
            &&& r.matches@.len() == matched.len()
            &&& forall|k: int| 0 <= k < matched.len() ==> trace_match_model(#[trigger] r.matches@[k]) == match_summary(
                roots@,
                asset_id,
                records@[matched[k]],
                observations@[matched[k]],
            )
            &&& forall|k: int| 0 <= k < matched.len() ==> (#[trigger] r.matches@[k]).path_fingerprint@.len() == 16
            &&& r.steps@.map_values(|s: AssetTraceStep| step_model(s)) == seq![lookup_step(matched.len())]
                + trace_steps(roots@, records@, observations@, asset_id, matched, matched.len() as int)
        }),
{
    let ghost all = matching_indices(records@, asset_id, records@.len() as int);
    let mut indices: Vec<usize> = Vec::new();
    let mut i: usize = 0;
    while i < records.len()
        invariant
            i <= records@.len(),
            indices@.len() == matching_indices(records@, asset_id, i as int).len(),
            forall|k: int| 0 <= k < indices@.len() ==> #[trigger] indices@[k] as int == matching_indices(records@, asset_id, i as int)[k]
                && indices@[k] < i,
            indices@.len() <= i,
        decreases records@.len() - i,
    {
        if records[i].id == Some(asset_id) {
            indices.push(i);
        }
        i = i + 1;
    }
    let count = indices.len();
    let message = concat(&concat(&chars_of("catalog lookup returned "), &decimal_text(count)), &chars_of(" record(s)"));
    let lookup = if count == 0 {
        make_step(None, "catalog-lookup", TraceOutcome::Error, "not-found", message)
    } else if count > 1 {
        make_step(None, "catalog-lookup", TraceOutcome::Warning, "duplicate-id", message)
    } else {
        make_step(None, "catalog-lookup", TraceOutcome::Passed, "unique-match", message)
    };
    let mut steps: Vec<AssetTraceStep> = Vec::new();
    steps.push(lookup);
    assert(steps@.map_values(|s: AssetTraceStep| step_model(s)) =~= seq![lookup_step(all.len())]);
    let mut matches: Vec<AssetTraceMatch> = Vec::new();
    let mut k: usize = 0;
    while k < count
        invariant
            k <= count == indices@.len() == all.len(),
            observations@.len() == records@.len(),
            forall|j: int| 0 <= j < count ==> #[trigger] indices@[j] as int == all[j] && indices@[j] < records@.len(),
            matches@.len() == k,
            forall|j: int| 0 <= j < k ==> trace_match_model(#[trigger] matches@[j]) == match_summary(
                roots@,
                asset_id,
                records@[all[j]],
                observations@[all[j]],
            ),
            forall|j: int| 0 <= j < k ==> (#[trigger] matches@[j]).path_fingerprint@.len() == 16,
            steps@.map_values(|s: AssetTraceStep| step_model(s)) == seq![lookup_step(all.len())]
                + trace_steps(roots@, records@, observations@, asset_id, all, k as int),
        decreases count - k,
    {
        let at = indices[k];
        let m = trace_match(k, asset_id, &records[at], roots, observations[at], &mut steps);
        matches.push(m);
        assert(seq![lookup_step(all.len())] + trace_steps(roots@, records@, observations@, asset_id, all, k + 1) =~= seq![lookup_step(all.len())]
            + trace_steps(roots@, records@, observations@, asset_id, all, k as int) + match_steps(roots@, k, asset_id, records@[all[k as int]], observations@[all[k as int]]));
        k = k + 1;
    }
    AssetTraceReport { generated_unix_ms, asset_id, match_count: count, matches, steps }
}

} // verus!
