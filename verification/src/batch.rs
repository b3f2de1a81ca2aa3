//! Batch metadata preflight: how each selected asset is judged before a batch edit, how
//! the outcomes are tallied with a bounded list of failures, and the budget of stored
//! plans. Resolving records, reading files and Sidecars stay with the caller, which hands
//! in what it found.
use vstd::prelude::*;

use crate::asset_core::SidecarState;
use crate::text::{chars_of, string_from};

verus! {

pub const MAX_PREFLIGHT_OPERATIONS: usize = 16;

pub const MAX_PREFLIGHT_TARGETS: usize = 100000;

pub const MAX_PREFLIGHT_FAILURES: usize = 10000;

pub const PREFLIGHT_TTL_MINUTES: i64 = 15;

#[derive(Debug, Clone, Copy, PartialEq, Eq, Structural)]
pub enum RootRuntimeState {
    Available,
    Disabled,
    Offline,
}

#[derive(Debug, Clone, Copy, PartialEq, Eq, Structural, PartialOrd, Ord)]
pub enum BatchFailureKind {
    AssetMissing,
    AssetMovedAmbiguous,
    RootDisabled,
    RootOffline,
    AuthorizationLost,
    SourceChanged,
    SidecarConflict,
}

#[derive(Debug, Clone, PartialEq, Eq)]
pub struct BatchPreflightFailure {
    pub key: String,
    pub kind: BatchFailureKind,
    pub message: String,
}

/// The version of a source file a plan was made for.
#[derive(Debug, Clone, PartialEq, Eq)]
pub struct SourceFileVersion {
    pub digest: String,
    pub size: u64,
    pub modified_unix_ms: i64,
}

/// The version of a Sidecar file as read from disk.
#[derive(Debug, Clone, PartialEq, Eq)]
pub struct SidecarVersion {
    pub digest: String,
    pub size: u64,
    pub modified_unix_ms: i64,
}

pub open spec fn failure_text(kind: BatchFailureKind) -> &'static str {
    match kind {
        BatchFailureKind::AssetMissing => "asset is no longer available",
        BatchFailureKind::AssetMovedAmbiguous => "stable ID resolves to multiple assets",
        BatchFailureKind::RootDisabled => "library root is disabled",
        BatchFailureKind::RootOffline => "library root is offline",
        BatchFailureKind::AuthorizationLost => "asset is outside the authorized root",
        BatchFailureKind::SourceChanged => "source file changed since cataloging",
        BatchFailureKind::SidecarConflict => "Sidecar changed since cataloging",
    }
}

/// The message shown for a failure kind.
pub fn failure_message(kind: BatchFailureKind) -> (m: &'static str)
    ensures
        m == failure_text(kind),
{
    match kind {
        BatchFailureKind::AssetMissing => "asset is no longer available",
        BatchFailureKind::AssetMovedAmbiguous => "stable ID resolves to multiple assets",
        BatchFailureKind::RootDisabled => "library root is disabled",
        BatchFailureKind::RootOffline => "library root is offline",
        BatchFailureKind::AuthorizationLost => "asset is outside the authorized root",
        BatchFailureKind::SourceChanged => "source file changed since cataloging",
        BatchFailureKind::SidecarConflict => "Sidecar changed since cataloging",
    }
}

/// How a selected key resolves: by its key; else by its stable ID, which must name
/// exactly one record, and then the asset has moved.
pub open spec fn resolution(found_by_key: bool, stable_id: Option<u128>, records_with_id: nat) -> Result<bool, BatchFailureKind> {
    if found_by_key {
        Ok(false)
    } else if stable_id is None {
        Err(BatchFailureKind::AssetMissing)
    } else if records_with_id == 1 {
        Ok(true)
    } else if records_with_id == 0 {
        Err(BatchFailureKind::AssetMissing)
    } else {
        Err(BatchFailureKind::AssetMovedAmbiguous)
    }
}

pub fn resolve_selection(found_by_key: bool, stable_id: Option<u128>, records_with_id: usize) -> (r: Result<bool, BatchFailureKind>)
    ensures
        r == resolution(found_by_key, stable_id, records_with_id as nat),
{
    if found_by_key {
        return Ok(false);
    }
    if stable_id.is_none() {
        return Err(BatchFailureKind::AssetMissing);
    }
    if records_with_id == 1 {
        Ok(true)
    } else if records_with_id == 0 {
        Err(BatchFailureKind::AssetMissing)
    } else {
        Err(BatchFailureKind::AssetMovedAmbiguous)
    }
}

/// A cataloged Sidecar state and the Sidecar on disk agree: both absent, or both present
/// with the same digest, size and modification time.
pub open spec fn sidecar_agrees(expected: Option<SidecarState>, actual: Option<SidecarVersion>) -> bool {
    match (expected, actual) {
        (None, None) => true,
        (Some(e), Some(a)) => e.digest@ == a.digest@ && e.size == a.size && e.modified_unix_ms == a.modified_unix_ms,
        _ => false,
    }
}

fn text_eq(a: &str, b: &str) -> (r: bool)
    ensures
        r == (a@ == b@),
{
    crate::text::slice_eq(&chars_of(a), &chars_of(b))
}

pub fn sidecar_matches(expected: Option<&SidecarState>, actual: Option<&SidecarVersion>) -> (r: bool)
    ensures
        r == sidecar_agrees(
            match expected {
                Some(e) => Some(*e),
                None => None,
            },
            match actual {
                Some(a) => Some(*a),
                None => None,
            },
        ),
{
    match (expected, actual) {
        (None, None) => true,
        (Some(e), Some(a)) => text_eq(e.digest.as_str(), a.digest.as_str()) && e.size == a.size && e.modified_unix_ms
            == a.modified_unix_ms,
        _ => false,
    }
}

/// What the caller found of a Sidecar next to a target asset.
#[derive(Debug, Clone, PartialEq, Eq)]
pub enum SidecarObservation {
    Absent,
    Unreadable,
    Read(SidecarVersion),
}

/// What the caller found while checking one resolved target, step by step; a step that
/// failed leaves the later ones unobserved.
#[derive(Debug, Clone, PartialEq, Eq)]
pub struct TargetObservation {
    /// The state of the record's root, when the record has a root that is authorized.
    pub root_state: Option<RootRuntimeState>,
    pub root_canonicalized: bool,
    pub asset_canonicalized: bool,
    /// The canonical asset is a file inside the canonical root.
    pub inside_root_file: bool,
    /// The asset's size and modification time, when they could be read.
    pub metadata: Option<(u64, Option<i64>)>,
    pub fingerprinted: bool,
    pub sidecar: SidecarObservation,
}

/// Why a resolved target cannot be part of a plan, checking in order: its root's
/// authorization and state, both canonical paths, containment, the source version, the
/// fingerprint, then the Sidecar.
pub open spec fn target_failure(size: Option<u64>, modified: Option<i64>, sidecar_state: Option<SidecarState>, o: TargetObservation) -> Option<BatchFailureKind> {
    match o.root_state {
        None => Some(BatchFailureKind::AuthorizationLost),
        Some(RootRuntimeState::Disabled) => Some(BatchFailureKind::RootDisabled),
        Some(RootRuntimeState::Offline) => Some(BatchFailureKind::RootOffline),
        Some(RootRuntimeState::Available) => if !o.root_canonicalized {
            Some(BatchFailureKind::RootOffline)
        } else if !o.asset_canonicalized {
            Some(BatchFailureKind::AssetMissing)
        } else if !o.inside_root_file {
            Some(BatchFailureKind::AuthorizationLost)
        } else {
            match o.metadata {
                None => Some(BatchFailureKind::AssetMissing),
                Some((_, None)) => Some(BatchFailureKind::SourceChanged),
                Some((len, Some(ms))) => if size != Some(len) || modified != Some(ms) {
                    Some(BatchFailureKind::SourceChanged)
                } else if !o.fingerprinted {
                    Some(BatchFailureKind::SourceChanged)
                } else {
                    match o.sidecar {
                        SidecarObservation::Unreadable => Some(BatchFailureKind::SidecarConflict),
                        SidecarObservation::Read(v) => if !sidecar_agrees(sidecar_state, Some(v)) {
                            Some(BatchFailureKind::SidecarConflict)
                        } else {
                            None
                        },
                        SidecarObservation::Absent => if sidecar_state is Some {
                            Some(BatchFailureKind::SidecarConflict)
                        } else {
                            None
                        },
                    }
                },
            }
        },
    }
}

pub fn check_target(size: Option<u64>, modified: Option<i64>, sidecar_state: Option<&SidecarState>, o: &TargetObservation) -> (r: Option<BatchFailureKind>)
    ensures
        r == target_failure(
            size,
            modified,
            match sidecar_state {
                Some(s) => Some(*s),
                None => None,
            },
            *o,
        ),
{
    let state = match o.root_state {
        None => {
            return Some(BatchFailureKind::AuthorizationLost);
        },
        Some(s) => s,
    };
    match state {
        RootRuntimeState::Disabled => {
            return Some(BatchFailureKind::RootDisabled);
        },
        RootRuntimeState::Offline => {
            return Some(BatchFailureKind::RootOffline);
        },
        RootRuntimeState::Available => {},
    }
    if !o.root_canonicalized {
        return Some(BatchFailureKind::RootOffline);
    }
    if !o.asset_canonicalized {
        return Some(BatchFailureKind::AssetMissing);
    }
    if !o.inside_root_file {
        return Some(BatchFailureKind::AuthorizationLost);
    }
    let (len, ms) = match o.metadata {
        None => {
            return Some(BatchFailureKind::AssetMissing);
        },
        Some((_, None)) => {
            return Some(BatchFailureKind::SourceChanged);
        },
        Some((len, Some(ms))) => (len, ms),
    };
    if size != Some(len) || modified != Some(ms) {
        return Some(BatchFailureKind::SourceChanged);
    }
    if !o.fingerprinted {
        return Some(BatchFailureKind::SourceChanged);
    }
    match &o.sidecar {
        SidecarObservation::Unreadable => Some(BatchFailureKind::SidecarConflict),
        SidecarObservation::Read(v) => if !sidecar_matches(sidecar_state, Some(v)) {
            Some(BatchFailureKind::SidecarConflict)
        } else {
            None
        },
        SidecarObservation::Absent => if sidecar_state.is_some() {
            Some(BatchFailureKind::SidecarConflict)
        } else {
            None
        },
    }
}

/// How one selected item came out.
#[derive(Debug, Clone, Copy, PartialEq, Eq, Structural)]
pub enum ItemOutcome {
    /// The selection no longer resolves to a record.
    Unresolved(BatchFailureKind),
    /// The selection resolved, possibly by stable ID after a move; the target check found
    /// the failure, if any.
    Resolved { moved: bool, failure: Option<BatchFailureKind> },
}

/// A failure that counts as a conflict rather than as unavailability.
pub open spec fn is_conflict(outcome: ItemOutcome) -> bool {
    match outcome {
        ItemOutcome::Unresolved(kind) => kind == BatchFailureKind::AssetMovedAmbiguous,
        ItemOutcome::Resolved { failure: Some(kind), .. } => kind == BatchFailureKind::SourceChanged || kind
            == BatchFailureKind::SidecarConflict || kind == BatchFailureKind::AssetMovedAmbiguous,
        _ => false,
    }
}

pub open spec fn failure_of(outcome: ItemOutcome) -> Option<BatchFailureKind> {
    match outcome {
        ItemOutcome::Unresolved(kind) => Some(kind),
        ItemOutcome::Resolved { failure, .. } => failure,
    }
}

/// The counts of a preflight and the failures it lists.
#[derive(Debug, Clone, PartialEq, Eq)]
pub struct PreflightTally {
    pub executable_count: usize,
    pub requires_stable_id_count: usize,
    pub unavailable_count: usize,
    pub conflict_count: usize,
    pub failure_count: usize,
    pub failures: Vec<BatchPreflightFailure>,
}

pub struct TallyModel {
    pub executable: nat,
    pub moved: nat,
    pub unavailable: nat,
    pub conflicts: nat,
    pub failures: Seq<(Seq<char>, BatchFailureKind)>,
}

/// The tally of the first `n` items: each failure is counted, as a conflict or as
/// unavailable, and listed while the list has room.
pub open spec fn tally(keys: Seq<Seq<char>>, outcomes: Seq<ItemOutcome>, n: int) -> TallyModel
    decreases n,
{
    if n <= 0 {
        TallyModel { executable: 0, moved: 0, unavailable: 0, conflicts: 0, failures: seq![] }
    } else {
        let t = tally(keys, outcomes, n - 1);
        let o = outcomes[n - 1];
        let moved = if o matches ItemOutcome::Resolved { moved: true, .. } { t.moved + 1 } else { t.moved };
        match failure_of(o) {
            None => TallyModel { executable: t.executable + 1, moved, ..t },
            Some(kind) => TallyModel {
                moved,
                unavailable: if is_conflict(o) { t.unavailable } else { t.unavailable + 1 },
                conflicts: if is_conflict(o) { t.conflicts + 1 } else { t.conflicts },
                failures: if t.failures.len() < MAX_PREFLIGHT_FAILURES { t.failures.push((keys[n - 1], kind)) } else { t.failures },
                ..t
            },
        }
    }
}

pub open spec fn failure_view(f: BatchPreflightFailure) -> (Seq<char>, BatchFailureKind) {
    (f.key@, f.kind)
}

/// Tallies the outcomes of the selected items, in order.
pub fn tally_outcomes(keys: &Vec<String>, outcomes: &Vec<ItemOutcome>) -> (t: PreflightTally)
    requires
        keys@.len() == outcomes@.len(),
    ensures
        ({
            let m = tally(crate::query_model::strs(keys@), outcomes@, outcomes@.len() as int);
            &&& t.executable_count == m.executable
            &&& t.requires_stable_id_count == m.moved
            &&& t.unavailable_count == m.unavailable
            &&& t.conflict_count == m.conflicts
            &&& t.failure_count == m.unavailable + m.conflicts
            &&& t.failures@.map_values(|f: BatchPreflightFailure| failure_view(f)) == m.failures
            &&& forall|i: int| 0 <= i < t.failures@.len() ==> (#[trigger] t.failures@[i]).message@ == failure_text(t.failures@[i].kind)@
            &&& t.executable_count + t.failure_count == outcomes@.len()
        }),
{
    let ghost ks = crate::query_model::strs(keys@);
    let mut t = PreflightTally {
        executable_count: 0,
        requires_stable_id_count: 0,
        unavailable_count: 0,
        conflict_count: 0,
        failure_count: 0,
        failures: Vec::new(),
    };
    let mut i: usize = 0;
    while i < outcomes.len()
        invariant
            i <= outcomes@.len() == keys@.len(),
            ks == crate::query_model::strs(keys@),
            ({
                let m = tally(ks, outcomes@, i as int);
                &&& t.executable_count == m.executable
                &&& t.requires_stable_id_count == m.moved
                &&& t.unavailable_count == m.unavailable
                &&& t.conflict_count == m.conflicts
                &&& t.failure_count == m.unavailable + m.conflicts
                &&& t.failures@.map_values(|f: BatchPreflightFailure| failure_view(f)) == m.failures
            }),
            forall|j: int| 0 <= j < t.failures@.len() ==> (#[trigger] t.failures@[j]).message@ == failure_text(t.failures@[j].kind)@,
            t.executable_count + t.failure_count == i,
            t.requires_stable_id_count <= i,
            t.failures@.len() <= MAX_PREFLIGHT_FAILURES,
        decreases outcomes@.len() - i,
    {
        let o = outcomes[i];
        let ghost before = t.failures@.map_values(|f: BatchPreflightFailure| failure_view(f));
        let moved = match o {
            ItemOutcome::Resolved { moved: true, .. } => true,
            _ => false,
        };
        if moved {
            t.requires_stable_id_count = t.requires_stable_id_count + 1;
        }
        let failure = match o {
            ItemOutcome::Unresolved(kind) => Some(kind),
            ItemOutcome::Resolved { failure, .. } => failure,
        };
        match failure {
            None => {
                t.executable_count = t.executable_count + 1;
            },
            Some(kind) => {
                let conflict = match o {
                    ItemOutcome::Unresolved(k) => k == BatchFailureKind::AssetMovedAmbiguous,
                    ItemOutcome::Resolved { .. } => kind == BatchFailureKind::SourceChanged || kind
                        == BatchFailureKind::SidecarConflict || kind == BatchFailureKind::AssetMovedAmbiguous,
                };
                if conflict {
                    t.conflict_count = t.conflict_count + 1;
                } else {
                    t.unavailable_count = t.unavailable_count + 1;
                }
                t.failure_count = t.failure_count + 1;
                if t.failures.len() < MAX_PREFLIGHT_FAILURES {
                    let key = string_from(&chars_of(keys[i].as_str()));
                    let message = string_from(&chars_of(failure_message(kind)));
                    t.failures.push(BatchPreflightFailure { key, kind, message });
                    assert(ks[i as int] == keys@[i as int]@);
                    assert(t.failures@.map_values(|f: BatchPreflightFailure| failure_view(f)) =~= before.push((ks[i as int], kind)));
                }
            },
        }
        i = i + 1;
    }
    t
}

/// Whether a new plan fits the budget of stored plans: fewer than 16 stored, and the
/// targets of all plans within 100,000.
pub fn budget_allows(stored_operations: usize, stored_targets: usize, new_targets: usize) -> (b: bool)
    ensures
        b == (stored_operations < MAX_PREFLIGHT_OPERATIONS && stored_targets + new_targets <= MAX_PREFLIGHT_TARGETS),
{
    stored_operations < MAX_PREFLIGHT_OPERATIONS && stored_targets.saturating_add(new_targets) <= MAX_PREFLIGHT_TARGETS
}

// ----------------------------------------------------------------------------------------
// Confirming a stored plan.
// ----------------------------------------------------------------------------------------

/// Why a batch preflight was refused.
#[derive(Debug, Clone, Copy, PartialEq, Eq, Structural)]
pub enum BatchPreflightError {
    InvalidOperation,
    StateUnavailable,
    SessionBudgetExceeded,
    OperationNotFound,
    OperationExpired,
    PreflightStale,
}

/// What a confirmation repeats of a plan's summary: its operation, snapshot, catalog
/// revision, counts and confirmation digest.
#[derive(Debug, Clone, PartialEq, Eq)]
pub struct BatchPreflightConfirmation {
    pub operation_id: u128,
    pub snapshot_id: u128,
    pub catalog_revision: u64,
    pub requested_count: usize,
    pub executable_count: usize,
    pub confirmation_digest: String,
}

/// A stored plan as a confirmation is checked against it: what its summary says and when
/// it expires, in milliseconds since the Unix epoch.
#[derive(Debug, Clone, PartialEq, Eq)]
pub struct StoredPlanSummary {
    pub summary: BatchPreflightConfirmation,
    pub expires_unix_ms: i64,
}

/// A confirmation still describes a stored summary: the same snapshot, catalog revision,
/// counts and digest.
pub open spec fn confirmation_current(stored: BatchPreflightConfirmation, confirmation: BatchPreflightConfirmation) -> bool {
    &&& stored.snapshot_id == confirmation.snapshot_id
    &&& stored.catalog_revision == confirmation.catalog_revision
    &&& stored.requested_count == confirmation.requested_count
    &&& stored.executable_count == confirmation.executable_count
    &&& stored.confirmation_digest@ == confirmation.confirmation_digest@
}

/// Checks a confirmation against the plan stored under its operation, if there is one, at
/// a time: no plan is `OperationNotFound`; a plan whose expiry is not after the time is
/// `OperationExpired` (and is to be released); a summary that the confirmation no longer
/// describes is `PreflightStale`; otherwise the plan may be resolved.
pub fn check_confirmation(
    stored: Option<&StoredPlanSummary>,
    now_unix_ms: i64,
    confirmation: &BatchPreflightConfirmation,
) -> (r: Result<(), BatchPreflightError>)
    ensures
        r == match stored {
            None => Err(BatchPreflightError::OperationNotFound),
            Some(plan) => if plan.expires_unix_ms <= now_unix_ms {
                Err(BatchPreflightError::OperationExpired)
            } else if !confirmation_current(plan.summary, *confirmation) {
                Err(BatchPreflightError::PreflightStale)
            } else {
                Ok(())
            },
        },
{
    let plan = match stored {
        None => {
            return Err(BatchPreflightError::OperationNotFound);
        },
        Some(plan) => plan,
    };
    if plan.expires_unix_ms <= now_unix_ms {
        return Err(BatchPreflightError::OperationExpired);
    }
    let s = &plan.summary;
    if s.snapshot_id != confirmation.snapshot_id || s.catalog_revision != confirmation.catalog_revision
        || s.requested_count != confirmation.requested_count || s.executable_count != confirmation.executable_count
        || !text_eq(s.confirmation_digest.as_str(), confirmation.confirmation_digest.as_str())
    {
        return Err(BatchPreflightError::PreflightStale);
    }
    Ok(())
}

/// A plan kept for confirmation: what its summary says, when it expires, how many targets
/// it holds, and what the caller keeps of it (the patch and the targets).
#[derive(Debug)]
pub struct StoredPlan<P> {
    pub summary: BatchPreflightConfirmation,
    pub expires_unix_ms: i64,
    pub target_count: usize,
    pub payload: P,
}

/// The targets of all plans.
pub open spec fn total_targets<P>(plans: Seq<StoredPlan<P>>) -> int
    decreases plans.len(),
{
    if plans.len() == 0 {
        0
    } else {
        total_targets(plans.drop_last()) + plans.last().target_count
    }
}

/// The plans that have not expired at a time, in their order.
pub open spec fn live_plans<P>(plans: Seq<StoredPlan<P>>, now_unix_ms: i64) -> Seq<StoredPlan<P>>
    decreases plans.len(),
{
    if plans.len() == 0 {
        seq![]
    } else if plans.last().expires_unix_ms <= now_unix_ms {
        live_plans(plans.drop_last(), now_unix_ms)
    } else {
        live_plans(plans.drop_last(), now_unix_ms).push(plans.last())
    }
}

/// The position of the first plan of an operation, if any.
pub open spec fn plan_position<P>(plans: Seq<StoredPlan<P>>, operation_id: u128) -> Option<int> {
    if exists|i: int| 0 <= i < plans.len() && #[trigger] plans[i].summary.operation_id == operation_id {
        Some(
            choose|i: int|
                0 <= i < plans.len() && #[trigger] plans[i].summary.operation_id == operation_id && forall|j: int|
                    0 <= j < i ==> plans[j].summary.operation_id != operation_id,
        )
    } else {
        None
    }
}

proof fn lemma_total_remove<P>(plans: Seq<StoredPlan<P>>, i: int)
    requires
        0 <= i < plans.len(),
    ensures
        total_targets(plans.remove(i)) + plans[i].target_count == total_targets(plans),
    decreases plans.len(),
{
    let n = plans.len() as int;
    if i == n - 1 {
        assert(plans.remove(i) =~= plans.drop_last());
    } else {
        lemma_total_remove(plans.drop_last(), i);
        assert(plans.remove(i).drop_last() =~= plans.drop_last().remove(i));
        assert(plans.remove(i).last() == plans.last());
    }
}

proof fn lemma_live_total<P>(plans: Seq<StoredPlan<P>>, now_unix_ms: i64)
    ensures
        total_targets(live_plans(plans, now_unix_ms)) <= total_targets(plans),
        live_plans(plans, now_unix_ms).len() <= plans.len(),
    decreases plans.len(),
{
    if plans.len() > 0 {
        lemma_live_total(plans.drop_last(), now_unix_ms);
        let rest = live_plans(plans.drop_last(), now_unix_ms);
        if plans.last().expires_unix_ms > now_unix_ms {
            assert(rest.push(plans.last()).drop_last() =~= rest);
        }
    }
}

/// The store of preflight plans of a session: at most 16 plans, holding at most 100,000
/// targets in all.
pub struct PreflightPlans<P> {
    plans: Vec<StoredPlan<P>>,
}

impl<P> PreflightPlans<P> {
    #[verifier::type_invariant]
    spec fn within_budget(self) -> bool {
        &&& self.plans@.len() <= MAX_PREFLIGHT_OPERATIONS
        &&& total_targets(self.plans@) <= MAX_PREFLIGHT_TARGETS
    }

    /// The stored plans, oldest first.
    pub closed spec fn plans(self) -> Seq<StoredPlan<P>> {
        self.plans@
    }

    /// An empty store.
    pub fn new() -> (s: PreflightPlans<P>)
        ensures
            s.plans() == Seq::<StoredPlan<P>>::empty(),
    {
        PreflightPlans { plans: Vec::new() }
    }

    /// The number of stored plans.
    pub fn len(&self) -> (n: usize)
        ensures
            n == self.plans().len(),
    {
        self.plans.len()
    }

    /// The targets of all stored plans.
    pub fn target_total(&self) -> (t: usize)
        ensures
            t == total_targets(self.plans()),
            t <= MAX_PREFLIGHT_TARGETS,
    {
        proof {
            use_type_invariant(self);
        }
        let mut t: usize = 0;
        let mut i: usize = 0;
        while i < self.plans.len()
            invariant
                i <= self.plans@.len(),
                t == total_targets(self.plans@.subrange(0, i as int)),
                total_targets(self.plans@) <= MAX_PREFLIGHT_TARGETS,
            decreases self.plans@.len() - i,
        {
            proof {
                let sub = self.plans@.subrange(0, i + 1);
                assert(sub.drop_last() =~= self.plans@.subrange(0, i as int));
                let rest = self.plans@.subrange(i + 1, self.plans@.len() as int);
                assert(self.plans@ =~= sub + rest);
                lemma_total_prefix(sub, rest);
            }
            t = t + self.plans[i].target_count;
            i = i + 1;
        }
        assert(self.plans@.subrange(0, i as int) =~= self.plans@);
        t
    }

    /// The plan at a position.
    pub fn plan(&self, i: usize) -> (p: &StoredPlan<P>)
        requires
            i < self.plans().len(),
        ensures
            *p == self.plans()[i as int],
    {
        &self.plans[i]
    }

    /// Drops every plan that has expired at a time.
    pub fn prune_expired(&mut self, now_unix_ms: i64)
        ensures
            final(self).plans() == live_plans(old(self).plans(), now_unix_ms),
    {
        proof {
            use_type_invariant(&*self);
            lemma_live_total(self.plans@, now_unix_ms);
        }
        let ghost all = self.plans@;
        let n = self.plans.len();
        let mut rest: Vec<StoredPlan<P>> = Vec::new();
        std::mem::swap(&mut rest, &mut self.plans);
        let mut kept: Vec<StoredPlan<P>> = Vec::new();
        let mut i: usize = 0;
        while i < n
            invariant
                i <= n == all.len(),
                rest@ == all.subrange(i as int, n as int),
                kept@ == live_plans(all.subrange(0, i as int), now_unix_ms),
            decreases n - i,
        {
            let plan = rest.remove(0);
            proof {
                let sub = all.subrange(0, i + 1);
                assert(sub.drop_last() =~= all.subrange(0, i as int));
                assert(sub.last() == all[i as int]);
            }
            assert(plan == all[i as int]);
            if plan.expires_unix_ms > now_unix_ms {
                kept.push(plan);
            }
            i = i + 1;
        }
        assert(all.subrange(0, n as int) =~= all);
        self.plans = kept;
    }

    fn position(&self, operation_id: u128) -> (r: Option<usize>)
        ensures
            match r {
                Some(i) => plan_position(self.plans(), operation_id) == Some(i as int) && i < self.plans().len()
                    && self.plans()[i as int].summary.operation_id == operation_id,
                None => plan_position(self.plans(), operation_id) is None,
            },
    {
        let mut i: usize = 0;
        while i < self.plans.len()
            invariant
                i <= self.plans@.len(),
                forall|j: int| 0 <= j < i ==> #[trigger] self.plans@[j].summary.operation_id != operation_id,
            decreases self.plans@.len() - i,
        {
            if self.plans[i].summary.operation_id == operation_id {
                proof {
                    let w = choose|k: int|
                        0 <= k < self.plans@.len() && #[trigger] self.plans@[k].summary.operation_id == operation_id
                            && forall|j: int| 0 <= j < k ==> self.plans@[j].summary.operation_id != operation_id;
                    if w < i {
                    } else if w > i {
                        assert(self.plans@[i as int].summary.operation_id != operation_id);
                    }
                }
                return Some(i);
            }
            i = i + 1;
        }
        None
    }

    /// Releases the plan of an operation; whether there was one.
    pub fn release(&mut self, operation_id: u128) -> (found: bool)
        ensures
            found == plan_position(old(self).plans(), operation_id) is Some,
            match plan_position(old(self).plans(), operation_id) {
                Some(i) => final(self).plans() == old(self).plans().remove(i),
                None => final(self).plans() == old(self).plans(),
            },
    {
        proof {
            use_type_invariant(&*self);
        }
        match self.position(operation_id) {
            Some(i) => {
                proof {
                    lemma_total_remove(self.plans@, i as int);
                }
                let mut plans: Vec<StoredPlan<P>> = Vec::new();
                std::mem::swap(&mut plans, &mut self.plans);
                let _ = plans.remove(i);
                self.plans = plans;
                true
            },
            None => false,
        }
    }

    /// Stores a new plan after dropping the expired ones, when the budget allows it: fewer
    /// than 16 plans and at most 100,000 targets in all. A plan stored under the same
    /// operation is replaced.
    pub fn store(&mut self, plan: StoredPlan<P>, now_unix_ms: i64) -> (r: Result<(), BatchPreflightError>)
        ensures
            ({
                let live = live_plans(old(self).plans(), now_unix_ms);
                if live.len() < MAX_PREFLIGHT_OPERATIONS && total_targets(live) + plan.target_count <= MAX_PREFLIGHT_TARGETS {
                    &&& r is Ok
                    &&& final(self).plans() == match plan_position(live, plan.summary.operation_id) {
                        Some(i) => live.remove(i),
                        None => live,
                    }.push(plan)
                } else {
                    &&& r == Err::<(), BatchPreflightError>(BatchPreflightError::SessionBudgetExceeded)
                    &&& final(self).plans() == live
                }
            }),
    {
        self.prune_expired(now_unix_ms);
        let stored = self.len();
        let total = self.target_total();
        if !budget_allows(stored, total, plan.target_count) {
            return Err(BatchPreflightError::SessionBudgetExceeded);
        }
        let ghost live = self.plans@;
        let _ = self.release(plan.summary.operation_id);
        proof {
            if let Some(k) = plan_position(live, plan.summary.operation_id) {
                assert(0 <= k < live.len());
                lemma_total_remove(live, k);
            }
        }
        let mut plans: Vec<StoredPlan<P>> = Vec::new();
        std::mem::swap(&mut plans, &mut self.plans);
        let ghost before = plans@;
        plans.push(plan);
        proof {
            assert(plans@.drop_last() =~= before);
        }
        self.plans = plans;
        Ok(())
    }

    /// Finds the plan a confirmation names, as `check_confirmation` judges it; an expired
    /// plan is released. The answer is the plan's position.
    pub fn resolve(&mut self, confirmation: &BatchPreflightConfirmation, now_unix_ms: i64) -> (r: Result<usize, BatchPreflightError>)
        ensures
            match plan_position(old(self).plans(), confirmation.operation_id) {
                None => r == Err::<usize, BatchPreflightError>(BatchPreflightError::OperationNotFound) && final(self).plans()
                    == old(self).plans(),
                Some(i) => if old(self).plans()[i].expires_unix_ms <= now_unix_ms {
                    r == Err::<usize, BatchPreflightError>(BatchPreflightError::OperationExpired) && final(self).plans()
                        == old(self).plans().remove(i)
                } else if !confirmation_current(old(self).plans()[i].summary, *confirmation) {
                    r == Err::<usize, BatchPreflightError>(BatchPreflightError::PreflightStale) && final(self).plans()
                        == old(self).plans()
                } else {
                    r == Ok::<usize, BatchPreflightError>(i as usize) && final(self).plans() == old(self).plans()
                },
            },
    {
        let i = match self.position(confirmation.operation_id) {
            None => {
                return Err(BatchPreflightError::OperationNotFound);
            },
            Some(i) => i,
        };
        let summary = StoredPlanSummary {
            summary: copy_confirmation(&self.plans[i].summary),
            expires_unix_ms: self.plans[i].expires_unix_ms,
        };
        match check_confirmation(Some(&summary), now_unix_ms, confirmation) {
            Err(BatchPreflightError::OperationExpired) => {
                let _ = self.release(confirmation.operation_id);
                Err(BatchPreflightError::OperationExpired)
            },
            Err(e) => Err(e),
            Ok(()) => Ok(i),
        }
    }
}

fn copy_confirmation(c: &BatchPreflightConfirmation) -> (r: BatchPreflightConfirmation)
    ensures
        r.operation_id == c.operation_id && r.snapshot_id == c.snapshot_id && r.catalog_revision == c.catalog_revision
            && r.requested_count == c.requested_count && r.executable_count == c.executable_count
            && r.confirmation_digest@ == c.confirmation_digest@,
{
    BatchPreflightConfirmation {
        operation_id: c.operation_id,
        snapshot_id: c.snapshot_id,
        catalog_revision: c.catalog_revision,
        requested_count: c.requested_count,
        executable_count: c.executable_count,
        confirmation_digest: c.confirmation_digest.clone(),
    }
}

proof fn lemma_total_prefix<P>(a: Seq<StoredPlan<P>>, b: Seq<StoredPlan<P>>)
    ensures
        total_targets(a) <= total_targets(a + b),
    decreases b.len(),
{
    if b.len() > 0 {
        lemma_total_prefix(a, b.drop_last());
        assert((a + b).drop_last() =~= a + b.drop_last());
    } else {
        assert(a + b =~= a);
    }
}

// ----------------------------------------------------------------------------------------
// The confirmation digest of a plan.
// ----------------------------------------------------------------------------------------

/// The text that opens the bytes a plan's confirmation digest covers.
pub const CONFIRMATION_DOMAIN: &'static str = "material-eagle-batch-preflight-v1\0";

/// A target as the confirmation digest covers it: its key, its root, the digest of its
/// source file, and the digest, size and modification time of its Sidecar, if it has one.
#[derive(Debug, Clone, PartialEq, Eq)]
pub struct DigestTarget {
    pub key: String,
    pub root_id: u128,
    pub source_digest: String,
    pub sidecar: Option<(String, u64, i64)>,
}

/// The `w` bytes of a number, most significant first.
pub open spec fn be_bytes(n: nat, w: nat) -> Seq<u8>
    decreases w,
{
    if w == 0 {
        seq![]
    } else {
        be_bytes(n / 256, (w - 1) as nat).push((n % 256) as u8)
    }
}

/// The `w` bytes of a number, least significant first.
pub open spec fn le_bytes(n: nat, w: nat) -> Seq<u8>
    decreases w,
{
    if w == 0 {
        seq![]
    } else {
        seq![(n % 256) as u8] + le_bytes(n / 256, (w - 1) as nat)
    }
}

pub open spec fn utf8(s: Seq<char>) -> Seq<u8> {
    vstd::utf8::encode_utf8(s)
}

/// The bytes one target contributes.
pub open spec fn target_bytes(t: DigestTarget) -> Seq<u8> {
    utf8(t.key@) + seq![0u8] + be_bytes(t.root_id as nat, 16) + utf8(t.source_digest@) + match t.sidecar {
        Some((digest, size, modified)) => utf8(digest@) + le_bytes(size as nat, 8) + le_bytes((modified as u64) as nat, 8),
        None => Seq::<u8>::empty(),
    }
}

pub open spec fn targets_bytes(ts: Seq<DigestTarget>, n: int) -> Seq<u8>
    decreases n,
{
    if n <= 0 {
        seq![]
    } else {
        targets_bytes(ts, n - 1) + target_bytes(ts[n - 1])
    }
}

/// The bytes a plan's confirmation digest covers: the domain text, the operation and
/// snapshot IDs (big-endian), the catalog revision and the requested count
/// (little-endian, the count as wide as `usize`), the patch's text, then each target.
pub open spec fn confirmation_bytes(
    operation_id: u128,
    snapshot_id: u128,
    catalog_revision: u64,
    requested_count: usize,
    patch_text: Seq<char>,
    targets: Seq<DigestTarget>,
) -> Seq<u8> {
    utf8(CONFIRMATION_DOMAIN@) + be_bytes(operation_id as nat, 16) + be_bytes(snapshot_id as nat, 16) + le_bytes(
        catalog_revision as nat,
        8,
    ) + le_bytes(requested_count as nat, (usize::BITS / 8) as nat) + utf8(patch_text) + targets_bytes(targets, targets.len() as int)
}

fn push_bytes(out: &mut Vec<u8>, b: &[u8])
    ensures
        final(out)@ == old(out)@ + b@,
{
    let ghost start = out@;
    let mut i: usize = 0;
    while i < b.len()
        invariant
            i <= b@.len(),
            out@ == start + b@.subrange(0, i as int),
        decreases b@.len() - i,
    {
        out.push(b[i]);
        assert(b@.subrange(0, i + 1) =~= b@.subrange(0, i as int).push(b[i as int]));
        i = i + 1;
    }
    assert(b@.subrange(0, b@.len() as int) =~= b@);
}

fn be_bytes_exec(n: u128, w: usize) -> (r: Vec<u8>)
    ensures
        r@ == be_bytes(n as nat, w as nat),
    decreases w,
{
    if w == 0 {
        Vec::new()
    } else {
        let mut v = be_bytes_exec(n / 256, w - 1);
        v.push((n % 256) as u8);
        v
    }
}

fn le_bytes_exec(n: u64, w: usize) -> (r: Vec<u8>)
    ensures
        r@ == le_bytes(n as nat, w as nat),
    decreases w,
{
    if w == 0 {
        Vec::new()
    } else {
        let rest = le_bytes_exec(n / 256, w - 1);
        let mut v: Vec<u8> = Vec::new();
        v.push((n % 256) as u8);
        push_bytes(&mut v, &rest);
        v
    }
}

/// The confirmation digest of a metadata plan: the lower-case hexadecimal SHA-256 of
/// `confirmation_bytes`. The patch is given as the text it is debug-formatted to.
pub fn confirmation_digest(
    operation_id: u128,
    snapshot_id: u128,
    catalog_revision: u64,
    requested_count: usize,
    patch_text: &str,
    targets: &Vec<DigestTarget>,
) -> (r: String)
    ensures
        r@ == crate::diagnostics::hex_of(
            crate::diagnostics::sha256_of(
                confirmation_bytes(operation_id, snapshot_id, catalog_revision, requested_count, patch_text@, targets@),
            ),
        ),
{
    let mut bytes: Vec<u8> = Vec::new();
    push_bytes(&mut bytes, CONFIRMATION_DOMAIN.as_bytes());
    push_bytes(&mut bytes, &be_bytes_exec(operation_id, 16));
    push_bytes(&mut bytes, &be_bytes_exec(snapshot_id, 16));
    push_bytes(&mut bytes, &le_bytes_exec(catalog_revision, 8));
    let width: usize = (usize::BITS / 8) as usize;
    push_bytes(&mut bytes, &le_bytes_exec(requested_count as u64, width));
    push_bytes(&mut bytes, patch_text.as_bytes());
    let ghost head = bytes@;
    let mut i: usize = 0;
    while i < targets.len()
        invariant
            i <= targets@.len(),
            bytes@ == head + targets_bytes(targets@, i as int),
        decreases targets@.len() - i,
    {
        let t = &targets[i];
        let ghost before = bytes@;
        push_bytes(&mut bytes, t.key.as_str().as_bytes());
        push_bytes(&mut bytes, &[0u8]);
        push_bytes(&mut bytes, &be_bytes_exec(t.root_id, 16));
        push_bytes(&mut bytes, t.source_digest.as_str().as_bytes());
        match &t.sidecar {
            Some((digest, size, modified)) => {
                push_bytes(&mut bytes, digest.as_str().as_bytes());
                push_bytes(&mut bytes, &le_bytes_exec(*size, 8));
                push_bytes(&mut bytes, &le_bytes_exec(*modified as u64, 8));
            },
            None => {},
        }
        assert(bytes@ =~= before + target_bytes(targets@[i as int]));
        i = i + 1;
    }
    crate::diagnostics::sha256_hex(&bytes)
}

} // verus!
