//! Reconciliation of Sidecars whose asset is gone: how an orphan Sidecar is reported, when
//! relink candidates are ambiguous, and when a displayed relink has gone stale. Walking the
//! root, hashing files and moving the Sidecar stay with the caller, which hands in what it
//! found.
use vstd::prelude::*;

use crate::asset_core::{AssetIssue, AssetRecord};
use crate::events::{compare_paths, key_less, path_key, Order3};
use crate::support::{path_starts_with, plain_same, plain_within, same_path};
use crate::platform::{native_components, plain_key, plain_path, NativeComponent};
use crate::text::{chars_of, ends_with, has_suffix, string_from, subslice};

verus! {

#[derive(Debug, Clone, Copy, PartialEq, Eq, Structural)]
pub enum OrphanSidecarState {
    Ready,
    MissingFingerprint,
    Invalid,
}

/// Why a relink was refused. Paths are kept as text; an I/O failure carries the failed
/// path and the error's message.
#[derive(Debug, Clone, PartialEq, Eq)]
pub enum ReconciliationError {
    OutsideRoot,
    Stale(String),
    DestinationExists(String),
    Io { path: String, message: String },
}

pub open spec fn error_text(e: ReconciliationError) -> Seq<char> {
    match e {
        ReconciliationError::OutsideRoot => "relink candidate is outside its configured library root"@,
        ReconciliationError::Stale(m) => "relink candidate is stale: "@ + m@,
        ReconciliationError::DestinationExists(p) => "relink destination already exists: "@ + p@,
        ReconciliationError::Io { path, message } => "relink file operation failed at "@ + path@ + ": "@ + message@,
    }
}

impl ReconciliationError {
    /// The message shown for the error.
    pub fn message(&self) -> (m: String)
        ensures
            m@ == error_text(*self),
    {
        let text = match self {
            ReconciliationError::OutsideRoot => chars_of("relink candidate is outside its configured library root"),
            ReconciliationError::Stale(m) => crate::text::concat(&chars_of("relink candidate is stale: "), &chars_of(m.as_str())),
            ReconciliationError::DestinationExists(p) => crate::text::concat(
                &chars_of("relink destination already exists: "),
                &chars_of(p.as_str()),
            ),
            ReconciliationError::Io { path, message } => crate::text::concat(
                &crate::text::concat(&crate::text::concat(&chars_of("relink file operation failed at "), &chars_of(path.as_str())), &chars_of(": ")),
                &chars_of(message.as_str()),
            ),
        };
        proof {
            assert(text@ =~= error_text(*self));
        }
        string_from(&text)
    }
}

// ----------------------------------------------------------------------------------------
// Names.
// ----------------------------------------------------------------------------------------

/// A Sidecar's file name ends in `.asset.yml`.
pub fn is_asset_sidecar_name(name: &str) -> (b: bool)
    ensures
        b == has_suffix(name@, ".asset.yml"@),
{
    ends_with(&chars_of(name), &chars_of(".asset.yml"))
}

/// A name with every trailing copy of a suffix removed.
pub open spec fn strip_all_suffixes(s: Seq<char>, p: Seq<char>) -> Seq<char>
    decreases s.len(),
{
    if p.len() > 0 && has_suffix(s, p) {
        strip_all_suffixes(s.subrange(0, s.len() - p.len()), p)
    } else {
        s
    }
}

/// The file name of the asset a Sidecar belongs to: the Sidecar's name without its
/// `.asset.yml` suffixes.
pub fn sidecar_asset_name(sidecar_name: &str) -> (r: String)
    ensures
        r@ == strip_all_suffixes(sidecar_name@, ".asset.yml"@),
{
    let suffix = chars_of(".asset.yml");
    proof {
        reveal_strlit(".asset.yml");
    }
    let mut name = chars_of(sidecar_name);
    while ends_with(&name, &suffix)
        invariant
            suffix@ == ".asset.yml"@,
            suffix@.len() == 10,
            strip_all_suffixes(name@, suffix@) == strip_all_suffixes(sidecar_name@, suffix@),
        decreases name@.len(),
    {
        let end = name.len() - suffix.len();
        name = subslice(&name, 0, end);
    }
    string_from(&name)
}

// ----------------------------------------------------------------------------------------
// Orphan Sidecars.
// ----------------------------------------------------------------------------------------

pub const MISSING_FINGERPRINT_MESSAGE: &'static str = "Sidecar 没有素材指纹；应用不会仅凭文件名或大小猜测关联";

/// What reading an orphan Sidecar gave.
#[derive(Debug, Clone, PartialEq, Eq)]
pub enum OrphanRead {
    /// It was read: its stable ID and whether it declares an asset fingerprint.
    Read { id: u128, has_fingerprint: bool },
    /// It could not be read; the message says why.
    Failed(String),
}

/// One Sidecar whose adjacent asset is missing, as the report shows it.
#[derive(Debug, Clone, PartialEq, Eq)]
pub struct OrphanSidecar {
    pub sidecar_id: Option<u128>,
    pub sidecar_path: String,
    pub expected_asset_path: String,
    pub state: OrphanSidecarState,
    pub message: Option<String>,
    pub candidate_count: usize,
}

/// The report of an orphan Sidecar: ready with its confirmed candidates when it declares a
/// fingerprint, missing a fingerprint when it declares none, invalid when unreadable.
pub fn orphan_diagnostic(sidecar_path: String, expected_asset_path: String, read: OrphanRead, confirmed_candidates: usize) -> (o: OrphanSidecar)
    ensures
        o.sidecar_path == sidecar_path,
        o.expected_asset_path == expected_asset_path,
        match read {
            OrphanRead::Read { id, has_fingerprint: true } => o.sidecar_id == Some(id) && o.state == OrphanSidecarState::Ready
                && o.message is None && o.candidate_count == confirmed_candidates,
            OrphanRead::Read { id, has_fingerprint: false } => o.sidecar_id == Some(id) && o.state
                == OrphanSidecarState::MissingFingerprint && (o.message matches Some(m) && m@ == MISSING_FINGERPRINT_MESSAGE@)
                && o.candidate_count == 0,
            OrphanRead::Failed(message) => o.sidecar_id is None && o.state == OrphanSidecarState::Invalid && o.message
                == Some(message) && o.candidate_count == 0,
        },
{
    match read {
        OrphanRead::Read { id, has_fingerprint } => if has_fingerprint {
            OrphanSidecar {
                sidecar_id: Some(id),
                sidecar_path,
                expected_asset_path,
                state: OrphanSidecarState::Ready,
                message: None,
                candidate_count: confirmed_candidates,
            }
        } else {
            OrphanSidecar {
                sidecar_id: Some(id),
                sidecar_path,
                expected_asset_path,
                state: OrphanSidecarState::MissingFingerprint,
                message: Some(string_from(&chars_of(MISSING_FINGERPRINT_MESSAGE))),
                candidate_count: 0,
            }
        },
        OrphanRead::Failed(message) => OrphanSidecar {
            sidecar_id: None,
            sidecar_path,
            expected_asset_path,
            state: OrphanSidecarState::Invalid,
            message: Some(message),
            candidate_count: 0,
        },
    }
}

/// A confirmed candidate for relinking an orphan Sidecar to a moved asset.
#[derive(Debug, Clone, PartialEq, Eq)]
pub struct RelinkCandidate {
    pub candidate_id: u128,
    pub root_id: u128,
    pub sidecar_id: u128,
    pub sidecar_path: String,
    pub sidecar_digest: String,
    pub asset_key: String,
    pub asset_path: String,
    pub size: u64,
    pub quick_fingerprint: Option<String>,
    pub sha256: String,
    pub ambiguous: bool,
}

/// Marks the candidates of one Sidecar as ambiguous exactly when there is more than one;
/// nothing else changes.
pub fn mark_ambiguity(candidates: &mut Vec<RelinkCandidate>)
    ensures
        final(candidates)@.len() == old(candidates)@.len(),
        forall|i: int| 0 <= i < final(candidates)@.len() ==> (#[trigger] final(candidates)@[i]) == (RelinkCandidate {
            ambiguous: old(candidates)@.len() > 1,
            ..old(candidates)@[i]
        }),
{
    let ambiguous = candidates.len() > 1;
    let mut i: usize = 0;
    while i < candidates.len()
        invariant
            i <= candidates@.len(),
            candidates@.len() == old(candidates)@.len(),
            ambiguous == (old(candidates)@.len() > 1),
            forall|j: int| 0 <= j < i ==> (#[trigger] candidates@[j]) == (RelinkCandidate { ambiguous, ..old(candidates)@[j] }),
            forall|j: int| i <= j < candidates@.len() ==> (#[trigger] candidates@[j]) == old(candidates)@[j],
        decreases candidates@.len() - i,
    {
        let mut c = candidates.remove(i);
        c.ambiguous = ambiguous;
        candidates.insert(i, c);
        i = i + 1;
    }
}

// ----------------------------------------------------------------------------------------
// Revalidating a relink.
// ----------------------------------------------------------------------------------------

pub const CHANGED_SIDECAR_MESSAGE: &'static str = "Sidecar 内容或稳定 ID 已变化";

pub const REMOVED_FINGERPRINT_MESSAGE: &'static str = "Sidecar 指纹已移除";

pub const CHANGED_ASSET_MESSAGE: &'static str = "候选素材内容已变化";

/// What reading the orphan Sidecar again gave.
#[derive(Debug, Clone, PartialEq, Eq)]
pub enum RelinkSidecarRead {
    /// Its stable ID, digest, and declared fingerprint (SHA-256 text and size), if any.
    Read { id: u128, digest: String, fingerprint: Option<(String, u64)> },
    Failed(String),
}

/// Before a relink, the Sidecar must still be the displayed one and still declare a
/// fingerprint; the fingerprint is handed back for checking the asset.
pub fn check_relink_sidecar(candidate: &RelinkCandidate, read: RelinkSidecarRead) -> (r: Result<(String, u64), ReconciliationError>)
    ensures
        match read {
            RelinkSidecarRead::Failed(m) => r == Err::<(String, u64), ReconciliationError>(ReconciliationError::Stale(m)),
            RelinkSidecarRead::Read { id, digest, fingerprint } => if id != candidate.sidecar_id || digest@ != candidate.sidecar_digest@ {
                r matches Err(ReconciliationError::Stale(m)) && m@ == CHANGED_SIDECAR_MESSAGE@
            } else {
                match fingerprint {
                    None => r matches Err(ReconciliationError::Stale(m)) && m@ == REMOVED_FINGERPRINT_MESSAGE@,
                    Some(f) => r == Ok::<(String, u64), ReconciliationError>(f),
                }
            },
        },
{
    match read {
        RelinkSidecarRead::Failed(m) => Err(ReconciliationError::Stale(m)),
        RelinkSidecarRead::Read { id, digest, fingerprint } => {
            if id != candidate.sidecar_id || !crate::text::slice_eq(&chars_of(digest.as_str()), &chars_of(candidate.sidecar_digest.as_str())) {
                return Err(ReconciliationError::Stale(string_from(&chars_of(CHANGED_SIDECAR_MESSAGE))));
            }
            match fingerprint {
                None => Err(ReconciliationError::Stale(string_from(&chars_of(REMOVED_FINGERPRINT_MESSAGE)))),
                Some(f) => Ok(f),
            }
        },
    }
}

/// Before a relink, the canonical Sidecar and asset paths must lie inside the canonical
/// root, and nothing may stand at the destination (whether something does is what the
/// caller found). For plain paths the answer is stated exactly.
pub fn check_relink_paths(
    root: &str,
    sidecar_path: &str,
    asset_path: &str,
    destination: &str,
    destination_present: bool,
) -> (r: Result<(), ReconciliationError>)
    ensures
        plain_path(root@) && plain_path(sidecar_path@) && plain_path(asset_path@) ==> if !(plain_within(
            sidecar_path@,
            root@,
        ) && plain_within(asset_path@, root@)) {
            r == Err::<(), ReconciliationError>(ReconciliationError::OutsideRoot)
        } else if destination_present {
            r matches Err(ReconciliationError::DestinationExists(p)) && p@ == destination@
        } else {
            r is Ok
        },
        r is Ok ==> !destination_present,
        r matches Err(ReconciliationError::DestinationExists(p)) ==> destination_present && p@ == destination@,
{
    if !path_starts_with(sidecar_path, root) || !path_starts_with(asset_path, root) {
        return Err(ReconciliationError::OutsideRoot);
    }
    if destination_present {
        return Err(ReconciliationError::DestinationExists(string_from(&chars_of(destination))));
    }
    Ok(())
}

/// The asset must still match the Sidecar's fingerprint, and the fingerprint must still be
/// the displayed one.
pub fn check_relink_asset(candidate: &RelinkCandidate, fingerprint: &(String, u64), asset_matches: bool) -> (r: Result<(), ReconciliationError>)
    ensures
        (asset_matches && fingerprint.0@ == candidate.sha256@ && fingerprint.1 == candidate.size) ==> r is Ok,
        !(asset_matches && fingerprint.0@ == candidate.sha256@ && fingerprint.1 == candidate.size) ==> (r matches Err(
            ReconciliationError::Stale(m),
        ) && m@ == CHANGED_ASSET_MESSAGE@),
{
    if !asset_matches || !crate::text::slice_eq(&chars_of(fingerprint.0.as_str()), &chars_of(candidate.sha256.as_str()))
        || fingerprint.1 != candidate.size {
        return Err(ReconciliationError::Stale(string_from(&chars_of(CHANGED_ASSET_MESSAGE))));
    }
    Ok(())
}


// ----------------------------------------------------------------------------------------
// The order of a report.
// ----------------------------------------------------------------------------------------

/// An asset that an orphan Sidecar expects and that is missing.
#[derive(Debug, Clone, PartialEq, Eq)]
pub struct MissingAsset {
    pub sidecar_id: Option<u128>,
    pub expected_asset_path: String,
    pub sidecar_path: String,
}

/// A path as `std::path::Path` orders it: its components, ranked by variant then by text.
pub type PathKey = Seq<(int, Seq<char>)>;

/// Item `i` comes before item `j`: by primary path, then by secondary path.
pub open spec fn pair_less(p: Seq<PathKey>, q: Seq<PathKey>, i: int, j: int) -> bool {
    key_less(p[i], p[j]) || (p[i] == p[j] && key_less(q[i], q[j]))
}

/// Where item `i` goes among the ordered items from position `k` on: before the first one
/// it comes before, so that equal items keep their order.
pub open spec fn insert_pos(order: Seq<int>, p: Seq<PathKey>, q: Seq<PathKey>, i: int, k: int) -> int
    decreases order.len() - k,
{
    if k < 0 || k >= order.len() {
        order.len() as int
    } else if pair_less(p, q, i, order[k]) {
        k
    } else {
        insert_pos(order, p, q, i, k + 1)
    }
}

/// The positions of the first `n` items in stable order of their paths, as a stable sort
/// by `Path`'s order gives them.
pub open spec fn stable_order(p: Seq<PathKey>, q: Seq<PathKey>, n: int) -> Seq<int>
    decreases n,
{
    if n <= 0 {
        seq![]
    } else {
        let o = stable_order(p, q, n - 1);
        o.insert(insert_pos(o, p, q, n - 1, 0), n - 1)
    }
}

/// The keys of parsed paths.
pub open spec fn keys_of(ps: Seq<Vec<NativeComponent>>) -> Seq<PathKey> {
    ps.map_values(|c: Vec<NativeComponent>| path_key(c@))
}

/// What holds of keys parsed on any platform: a plain path has its documented components.
pub open spec fn keys_parsed(keys: Seq<PathKey>, texts: Seq<Seq<char>>) -> bool {
    &&& keys.len() == texts.len()
    &&& forall|i: int| 0 <= i < keys.len() && plain_path(#[trigger] texts[i]) ==> keys[i] == plain_key(texts[i])
}

proof fn lemma_stable_order_bounds(p: Seq<PathKey>, q: Seq<PathKey>, n: int)
    requires
        n >= 0,
    ensures
        stable_order(p, q, n).len() == n,
        forall|k: int| 0 <= k < n ==> 0 <= #[trigger] stable_order(p, q, n)[k] < n,
    decreases n,
{
    if n > 0 {
        lemma_stable_order_bounds(p, q, n - 1);
        let o = stable_order(p, q, n - 1);
        lemma_insert_pos_bounds(o, p, q, n - 1, 0);
    }
}

proof fn lemma_insert_pos_bounds(order: Seq<int>, p: Seq<PathKey>, q: Seq<PathKey>, i: int, k: int)
    requires
        0 <= k <= order.len(),
    ensures
        k <= insert_pos(order, p, q, i, k) <= order.len(),
    decreases order.len() - k,
{
    if k < order.len() && !pair_less(p, q, i, order[k]) {
        lemma_insert_pos_bounds(order, p, q, i, k + 1);
    }
}

fn pair_less_exec(
    p: &Vec<NativeComponent>,
    q: &Vec<NativeComponent>,
    p2: &Vec<NativeComponent>,
    q2: &Vec<NativeComponent>,
) -> (b: bool)
    ensures
        b == (key_less(path_key(p@), path_key(p2@)) || (path_key(p@) == path_key(p2@) && key_less(path_key(q@), path_key(q2@)))),
{
    match compare_paths(p, p2) {
        Order3::Before => true,
        Order3::Same => compare_paths(q, q2) == Order3::Before,
        Order3::After => false,
    }
}

/// Sorts items stably by a primary and then a secondary path.
fn sort_by_paths<T>(items: Vec<T>, primary: Vec<Vec<NativeComponent>>, secondary: Vec<Vec<NativeComponent>>) -> (r: Vec<T>)
    requires
        primary@.len() == items@.len(),
        secondary@.len() == items@.len(),
    ensures
        r@ == stable_order(keys_of(primary@), keys_of(secondary@), items@.len() as int).map_values(|k: int| items@[k]),
{
    let ghost n = items@.len() as int;
    assert(n == items.len());
    let ghost orig = items@;
    let ghost pk = keys_of(primary@);
    let ghost qk = keys_of(secondary@);
    let mut items = items;
    let mut primary = primary;
    let mut secondary = secondary;
    let ghost porig = primary@;
    let ghost qorig = secondary@;
    let mut out: Vec<T> = Vec::new();
    let mut out_p: Vec<Vec<NativeComponent>> = Vec::new();
    let mut out_q: Vec<Vec<NativeComponent>> = Vec::new();
    let mut i: usize = 0;
    proof {
        lemma_stable_order_bounds(pk, qk, 0);
    }
    while items.len() > 0
        invariant
            0 <= i <= n,
            items@ == orig.subrange(i as int, n),
            primary@ == porig.subrange(i as int, n),
            secondary@ == qorig.subrange(i as int, n),
            n == orig.len() && porig.len() == n && qorig.len() == n,
            n <= usize::MAX,
            pk == keys_of(porig) && qk == keys_of(qorig),
            stable_order(pk, qk, i as int).len() == i,
            forall|k: int| 0 <= k < i ==> 0 <= #[trigger] stable_order(pk, qk, i as int)[k] < i,
            out@ == stable_order(pk, qk, i as int).map_values(|k: int| orig[k]),
            out_p@ == stable_order(pk, qk, i as int).map_values(|k: int| porig[k]),
            out_q@ == stable_order(pk, qk, i as int).map_values(|k: int| qorig[k]),
        decreases items@.len(),
    {
        let ghost o = stable_order(pk, qk, i as int);
        let item = items.remove(0);
        let kp = primary.remove(0);
        let kq = secondary.remove(0);
        assert(item == orig[i as int] && kp == porig[i as int] && kq == qorig[i as int]);
        let mut k: usize = 0;
        while k < out.len() && !pair_less_exec(&kp, &kq, &out_p[k], &out_q[k])
            invariant
                k <= out@.len() == o.len() == out_p@.len() == out_q@.len(),
                pk == keys_of(porig) && qk == keys_of(qorig),
                i < n == porig.len() == qorig.len(),
                kp == porig[i as int] && kq == qorig[i as int],
                forall|j: int| 0 <= j < o.len() ==> 0 <= #[trigger] o[j] < i,
                out_p@ == o.map_values(|x: int| porig[x]),
                out_q@ == o.map_values(|x: int| qorig[x]),
                insert_pos(o, pk, qk, i as int, 0) == insert_pos(o, pk, qk, i as int, k as int),
            decreases out@.len() - k,
        {
            assert(out_p@[k as int] == porig[o[k as int]] && out_q@[k as int] == qorig[o[k as int]]);
            assert(pk[i as int] == path_key(kp@) && pk[o[k as int]] == path_key(porig[o[k as int]]@));
            assert(qk[i as int] == path_key(kq@) && qk[o[k as int]] == path_key(qorig[o[k as int]]@));
            k = k + 1;
        }
        proof {
            if k < out@.len() {
                assert(out_p@[k as int] == porig[o[k as int]] && out_q@[k as int] == qorig[o[k as int]]);
                assert(pk[i as int] == path_key(kp@) && pk[o[k as int]] == path_key(porig[o[k as int]]@));
                assert(qk[i as int] == path_key(kq@) && qk[o[k as int]] == path_key(qorig[o[k as int]]@));
            }
        }
        let ghost pos = k as int;
        assert(insert_pos(o, pk, qk, i as int, 0) == pos);
        out.insert(k, item);
        out_p.insert(k, kp);
        out_q.insert(k, kq);
        let ghost o2 = o.insert(pos, i as int);
        assert(stable_order(pk, qk, i + 1) == o2);
        assert(out@ =~= o2.map_values(|x: int| orig[x]));
        assert(out_p@ =~= o2.map_values(|x: int| porig[x]));
        assert(out_q@ =~= o2.map_values(|x: int| qorig[x]));
        assert forall|j: int| 0 <= j < i + 1 implies 0 <= #[trigger] o2[j] < i + 1 by {
            if j < pos {
                assert(o2[j] == o[j]);
            } else if j > pos {
                assert(o2[j] == o[j - 1]);
            }
        }
        i = i + 1;
    }
    assert(orig.subrange(i as int, n).len() == 0);
    out
}

/// No secondary key: every item compares equal on it.
pub open spec fn no_keys(n: nat) -> Seq<PathKey> {
    Seq::new(n, |i: int| Seq::<(int, Seq<char>)>::empty())
}

fn empty_paths(n: usize) -> (r: Vec<Vec<NativeComponent>>)
    ensures
        r@.len() == n,
        keys_of(r@) == no_keys(n as nat),
{
    let mut r: Vec<Vec<NativeComponent>> = Vec::new();
    let mut i: usize = 0;
    while i < n
        invariant
            i <= n,
            r@.len() == i,
            forall|j: int| 0 <= j < i ==> (#[trigger] r@[j])@.len() == 0,
        decreases n - i,
    {
        r.push(Vec::new());
        i = i + 1;
    }
    assert forall|j: int| 0 <= j < n implies #[trigger] keys_of(r@)[j] == no_keys(n as nat)[j] by {
        assert(path_key(r@[j]@) =~= Seq::<(int, Seq<char>)>::empty());
    }
    assert(keys_of(r@) =~= no_keys(n as nat));
    r
}

/// Parses paths into the keys they sort by.
fn path_keys(texts: &Vec<String>) -> (r: Vec<Vec<NativeComponent>>)
    ensures
        r@.len() == texts@.len(),
        keys_parsed(keys_of(r@), texts@.map_values(|t: String| t@)),
{
    let mut r: Vec<Vec<NativeComponent>> = Vec::new();
    let mut i: usize = 0;
    while i < texts.len()
        invariant
            i <= texts@.len(),
            r@.len() == i,
            forall|j: int| 0 <= j < i && plain_path(texts@[j]@) ==> path_key((#[trigger] r@[j])@) == plain_key(texts@[j]@),
        decreases texts@.len() - i,
    {
        r.push(native_components(texts[i].as_str()));
        i = i + 1;
    }
    let ghost ts = texts@.map_values(|t: String| t@);
    assert forall|j: int| 0 <= j < keys_of(r@).len() && plain_path(#[trigger] ts[j]) implies keys_of(r@)[j] == plain_key(ts[j]) by {
        assert(ts[j] == texts@[j]@);
    }
    r
}

/// The parts of a report in the order `Path` gives their paths, for some parse of each path
/// by the platform's rules: orphan Sidecars by their path, missing assets by the path they
/// were expected at, and relink candidates by Sidecar path and then asset path; entries
/// with equal paths keep their order.
pub open spec fn ordered_as_paths(
    orphans: Seq<OrphanSidecar>,
    missing: Seq<MissingAsset>,
    moves: Seq<RelinkCandidate>,
    out_orphans: Seq<OrphanSidecar>,
    out_missing: Seq<MissingAsset>,
    out_moves: Seq<RelinkCandidate>,
) -> bool {
    exists|ko: Seq<PathKey>, km: Seq<PathKey>, ks: Seq<PathKey>, ka: Seq<PathKey>| {
        &&& keys_parsed(ko, orphans.map_values(|o: OrphanSidecar| o.sidecar_path@))
        &&& keys_parsed(km, missing.map_values(|m: MissingAsset| m.expected_asset_path@))
        &&& keys_parsed(ks, moves.map_values(|c: RelinkCandidate| c.sidecar_path@))
        &&& keys_parsed(ka, moves.map_values(|c: RelinkCandidate| c.asset_path@))
        &&& out_orphans == stable_order(ko, no_keys(orphans.len()), orphans.len() as int).map_values(|k: int| orphans[k])
        &&& out_missing == stable_order(km, no_keys(missing.len()), missing.len() as int).map_values(|k: int| missing[k])
        &&& out_moves == stable_order(ks, ka, moves.len() as int).map_values(|k: int| moves[k])
    }
}

/// Orders a reconciliation report as `Path` orders paths: orphan Sidecars by their path,
/// missing assets by the path they were expected at, and relink candidates by Sidecar path
/// and then asset path; entries with equal paths keep their order. How a path splits is
/// the platform's; a plain path splits into its documented components.
pub fn order_report(
    orphans: Vec<OrphanSidecar>,
    missing: Vec<MissingAsset>,
    moves: Vec<RelinkCandidate>,
) -> (r: (Vec<OrphanSidecar>, Vec<MissingAsset>, Vec<RelinkCandidate>))
    ensures
        ordered_as_paths(orphans@, missing@, moves@, r.0@, r.1@, r.2@),
{
    let mut orphan_paths: Vec<String> = Vec::new();
    let mut i: usize = 0;
    while i < orphans.len()
        invariant
            i <= orphans@.len(),
            orphan_paths@.len() == i,
            forall|j: int| 0 <= j < i ==> (#[trigger] orphan_paths@[j])@ == orphans@[j].sidecar_path@,
        decreases orphans@.len() - i,
    {
        orphan_paths.push(string_from(&chars_of(orphans[i].sidecar_path.as_str())));
        i = i + 1;
    }
    let mut missing_paths: Vec<String> = Vec::new();
    let mut i: usize = 0;
    while i < missing.len()
        invariant
            i <= missing@.len(),
            missing_paths@.len() == i,
            forall|j: int| 0 <= j < i ==> (#[trigger] missing_paths@[j])@ == missing@[j].expected_asset_path@,
        decreases missing@.len() - i,
    {
        missing_paths.push(string_from(&chars_of(missing[i].expected_asset_path.as_str())));
        i = i + 1;
    }
    let mut sidecar_paths: Vec<String> = Vec::new();
    let mut asset_paths: Vec<String> = Vec::new();
    let mut i: usize = 0;
    while i < moves.len()
        invariant
            i <= moves@.len(),
            sidecar_paths@.len() == i && asset_paths@.len() == i,
            forall|j: int| 0 <= j < i ==> (#[trigger] sidecar_paths@[j])@ == moves@[j].sidecar_path@,
            forall|j: int| 0 <= j < i ==> (#[trigger] asset_paths@[j])@ == moves@[j].asset_path@,
        decreases moves@.len() - i,
    {
        sidecar_paths.push(string_from(&chars_of(moves[i].sidecar_path.as_str())));
        asset_paths.push(string_from(&chars_of(moves[i].asset_path.as_str())));
        i = i + 1;
    }
    let po = path_keys(&orphan_paths);
    let pm = path_keys(&missing_paths);
    let ps = path_keys(&sidecar_paths);
    let pa = path_keys(&asset_paths);
    let orphan_empties = empty_paths(orphans.len());
    let missing_empties = empty_paths(missing.len());
    proof {
        assert(orphan_paths@.map_values(|t: String| t@) =~= orphans@.map_values(|o: OrphanSidecar| o.sidecar_path@));
        assert(missing_paths@.map_values(|t: String| t@) =~= missing@.map_values(|m: MissingAsset| m.expected_asset_path@));
        assert(sidecar_paths@.map_values(|t: String| t@) =~= moves@.map_values(|c: RelinkCandidate| c.sidecar_path@));
        assert(asset_paths@.map_values(|t: String| t@) =~= moves@.map_values(|c: RelinkCandidate| c.asset_path@));
    }
    let ordered_orphans = sort_by_paths(orphans, po, orphan_empties);
    let ordered_missing = sort_by_paths(missing, pm, missing_empties);
    let ordered_moves = sort_by_paths(moves, ps, pa);
    (ordered_orphans, ordered_missing, ordered_moves)
}

// ----------------------------------------------------------------------------------------
// The report of a root.
// ----------------------------------------------------------------------------------------

/// What the caller found of one Sidecar that needs a report: its path, the asset path it
/// expects, how reading it went, and the candidates that size and hashes confirmed when it
/// declares a fingerprint.
#[derive(Debug, Clone, PartialEq, Eq)]
pub struct SidecarFinding {
    pub sidecar_path: String,
    pub expected_asset_path: String,
    pub read: OrphanRead,
    pub candidates: Vec<RelinkCandidate>,
}

/// The reconciliation report of a root.
#[derive(Debug, Clone, PartialEq, Eq)]
pub struct ReconciliationReport {
    pub root_id: u128,
    pub orphan_sidecars: Vec<OrphanSidecar>,
    pub missing_assets: Vec<MissingAsset>,
    pub pending_moves: Vec<RelinkCandidate>,
}

/// The Sidecar was read and declares an asset fingerprint.
pub open spec fn declares_fingerprint(read: OrphanRead) -> bool {
    read matches OrphanRead::Read { has_fingerprint: true, .. }
}

/// The orphan entry of a finding, as `orphan_diagnostic` gives it, counting the finding's
/// candidates.
pub open spec fn orphan_entry(o: OrphanSidecar, f: SidecarFinding) -> bool {
    &&& o.sidecar_path == f.sidecar_path
    &&& o.expected_asset_path == f.expected_asset_path
    &&& match f.read {
        OrphanRead::Read { id, has_fingerprint: true } => o.sidecar_id == Some(id) && o.state == OrphanSidecarState::Ready
            && o.message is None && o.candidate_count == f.candidates@.len(),
        OrphanRead::Read { id, has_fingerprint: false } => o.sidecar_id == Some(id) && o.state
            == OrphanSidecarState::MissingFingerprint && (o.message matches Some(m) && m@ == MISSING_FINGERPRINT_MESSAGE@)
            && o.candidate_count == 0,
        OrphanRead::Failed(message) => o.sidecar_id is None && o.state == OrphanSidecarState::Invalid && o.message == Some(
            message,
        ) && o.candidate_count == 0,
    }
}

/// The missing asset that goes with an orphan entry.
pub open spec fn missing_entry(m: MissingAsset, o: OrphanSidecar, f: SidecarFinding) -> bool {
    &&& m.sidecar_id == o.sidecar_id
    &&& m.expected_asset_path == f.expected_asset_path
    &&& m.sidecar_path == f.sidecar_path
}

/// The relink candidates a finding contributes: its confirmed candidates, each marked
/// ambiguous exactly when there is more than one, when the Sidecar declares a
/// fingerprint; none otherwise.
pub open spec fn finding_moves(f: SidecarFinding) -> Seq<RelinkCandidate> {
    if declares_fingerprint(f.read) {
        f.candidates@.map_values(|c: RelinkCandidate| RelinkCandidate { ambiguous: f.candidates@.len() > 1, ..c })
    } else {
        seq![]
    }
}

/// The relink candidates of the findings, in their order.
pub open spec fn all_moves(fs: Seq<SidecarFinding>) -> Seq<RelinkCandidate>
    decreases fs.len(),
{
    if fs.len() == 0 {
        seq![]
    } else {
        all_moves(fs.drop_last()) + finding_moves(fs.last())
    }
}

/// Assembles the reconciliation report of a root from what was found of each Sidecar that
/// needs one: an orphan entry and a missing asset per Sidecar, the relink candidates of
/// those that declare a fingerprint, and each list in path order.
pub fn assemble_report(root_id: u128, findings: Vec<SidecarFinding>) -> (r: ReconciliationReport)
    ensures
        r.root_id == root_id,
        exists|orphans: Seq<OrphanSidecar>, missing: Seq<MissingAsset>|
            #![trigger ordered_as_paths(orphans, missing, all_moves(findings@), r.orphan_sidecars@, r.missing_assets@, r.pending_moves@)]
        {
            &&& orphans.len() == findings@.len()
            &&& missing.len() == findings@.len()
            &&& forall|i: int| 0 <= i < findings@.len() ==> orphan_entry(#[trigger] orphans[i], findings@[i])
            &&& forall|i: int| 0 <= i < findings@.len() ==> missing_entry(#[trigger] missing[i], orphans[i], findings@[i])
            &&& ordered_as_paths(
                orphans,
                missing,
                all_moves(findings@),
                r.orphan_sidecars@,
                r.missing_assets@,
                r.pending_moves@,
            )
        },
{
    let ghost fs = findings@;
    let n = findings.len();
    let mut rest = findings;
    let mut orphans: Vec<OrphanSidecar> = Vec::new();
    let mut missing: Vec<MissingAsset> = Vec::new();
    let mut moves: Vec<RelinkCandidate> = Vec::new();
    let mut i: usize = 0;
    while i < n
        invariant
            i <= n == fs.len(),
            rest@ == fs.subrange(i as int, n as int),
            orphans@.len() == i && missing@.len() == i,
            forall|k: int| 0 <= k < i ==> orphan_entry(#[trigger] orphans@[k], fs[k]),
            forall|k: int| 0 <= k < i ==> missing_entry(#[trigger] missing@[k], orphans@[k], fs[k]),
            moves@ == all_moves(fs.subrange(0, i as int)),
        decreases n - i,
    {
        let f = rest.remove(0);
        assert(f == fs[i as int]);
        let SidecarFinding { sidecar_path, expected_asset_path, read, candidates } = f;
        let fingerprinted = match &read {
            OrphanRead::Read { has_fingerprint, .. } => *has_fingerprint,
            OrphanRead::Failed(_) => false,
        };
        let mut candidates = candidates;
        let count = candidates.len();
        if fingerprinted {
            mark_ambiguity(&mut candidates);
        }
        let o = orphan_diagnostic(sidecar_path.clone(), expected_asset_path.clone(), read, count);
        missing.push(MissingAsset { sidecar_id: o.sidecar_id, expected_asset_path, sidecar_path });
        orphans.push(o);
        let ghost before = moves@;
        if fingerprinted {
            moves.append(&mut candidates);
        }
        proof {
            let sub = fs.subrange(0, i + 1);
            assert(sub.drop_last() =~= fs.subrange(0, i as int));
            assert(sub.last() == fs[i as int]);
            assert(moves@ =~= before + finding_moves(fs[i as int]));
        }
        i = i + 1;
    }
    assert(fs.subrange(0, n as int) =~= fs);
    let ghost o_seq = orphans@;
    let ghost m_seq = missing@;
    let (ordered_orphans, ordered_missing, ordered_moves) = order_report(orphans, missing, moves);
    let r = ReconciliationReport {
        root_id,
        orphan_sidecars: ordered_orphans,
        missing_assets: ordered_missing,
        pending_moves: ordered_moves,
    };
    assert(fs == findings@);
    assert(ordered_as_paths(o_seq, m_seq, all_moves(findings@), r.orphan_sidecars@, r.missing_assets@, r.pending_moves@));
    r
}

// ----------------------------------------------------------------------------------------
// Which Sidecars and assets take part.
// ----------------------------------------------------------------------------------------

/// An asset carries the issue of a Sidecar that names another asset.
pub open spec fn has_mismatched_sidecar(issues: Seq<AssetIssue>) -> bool {
    exists|k: int| 0 <= k < issues.len() && #[trigger] issues[k] is MismatchedSidecar
}

fn mismatched_sidecar_exec(issues: &Vec<AssetIssue>) -> (b: bool)
    ensures
        b == has_mismatched_sidecar(issues@),
{
    let mut k: usize = 0;
    while k < issues.len()
        invariant
            k <= issues@.len(),
            forall|j: int| 0 <= j < k ==> !(#[trigger] issues@[j] is MismatchedSidecar),
        decreases issues@.len() - k,
    {
        if let AssetIssue::MismatchedSidecar(_) = &issues[k] {
            return true;
        }
        k = k + 1;
    }
    false
}

/// Whether a Sidecar is reported as an orphan: its expected asset is not a file, or an asset
/// at that path carries a mismatched-Sidecar issue. Paths are compared component by
/// component; for plain paths the answer is stated exactly.
pub fn sidecar_needs_report(assets: &Vec<AssetRecord>, expected_asset_path: &str, expected_is_file: bool) -> (b: bool)
    ensures
        !expected_is_file ==> b,
        plain_path(expected_asset_path@) && (forall|i: int| 0 <= i < assets@.len() ==> plain_path(#[trigger] assets@[i].path@))
            ==> b == (!expected_is_file || exists|i: int|
            0 <= i < assets@.len() && plain_same(#[trigger] assets@[i].path@, expected_asset_path@)
                && has_mismatched_sidecar(assets@[i].issues@)),
{
    if !expected_is_file {
        return true;
    }
    let mut i: usize = 0;
    while i < assets.len()
        invariant
            i <= assets@.len(),
            plain_path(expected_asset_path@) && (forall|j: int| 0 <= j < assets@.len() ==> plain_path(#[trigger] assets@[j].path@))
                ==> forall|j: int| 0 <= j < i ==> !(plain_same(#[trigger] assets@[j].path@, expected_asset_path@)
                && has_mismatched_sidecar(assets@[j].issues@)),
        decreases assets@.len() - i,
    {
        if same_path(assets[i].path.as_str(), expected_asset_path) && mismatched_sidecar_exec(&assets[i].issues) {
            return true;
        }
        i = i + 1;
    }
    false
}

/// The assets without a Sidecar that are files of a size, in catalog order: the candidates a
/// Sidecar's fingerprint is checked against.
pub open spec fn unlinked_of_size(assets: Seq<AssetRecord>, is_file: Seq<bool>, size: u64, n: int) -> Seq<int>
    decreases n,
{
    if n <= 0 {
        seq![]
    } else {
        let rest = unlinked_of_size(assets, is_file, size, n - 1);
        let a = assets[n - 1];
        if a.sidecar_state is None && is_file[n - 1] && a.size == Some(size) {
            rest.push(n - 1)
        } else {
            rest
        }
    }
}

pub fn unlinked_candidates(assets: &Vec<AssetRecord>, is_file: &Vec<bool>, size: u64) -> (r: Vec<usize>)
    requires
        is_file@.len() == assets@.len(),
    ensures
        r@.map_values(|k: usize| k as int) == unlinked_of_size(assets@, is_file@, size, assets@.len() as int),
{
    let mut r: Vec<usize> = Vec::new();
    let mut i: usize = 0;
    while i < assets.len()
        invariant
            i <= assets@.len() == is_file@.len(),
            r@.map_values(|k: usize| k as int) == unlinked_of_size(assets@, is_file@, size, i as int),
        decreases assets@.len() - i,
    {
        let ghost prior = r@;
        if assets[i].sidecar_state.is_none() && is_file[i] && assets[i].size == Some(size) {
            r.push(i);
            assert(r@.map_values(|k: usize| k as int) =~= prior.map_values(|k: usize| k as int).push(i as int));
        }
        i = i + 1;
    }
    r
}

} // verus!
