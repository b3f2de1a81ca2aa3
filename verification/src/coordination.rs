//! Bookkeeping of the scans and watchers that run in the background: at most one per
//! library root, a bounded number at once, and a bounded window of scan batches that the
//! frontend has not acknowledged yet. Waiting, locking and threads belong to the caller;
//! these types decide.
use std::collections::BTreeSet;

use vstd::prelude::*;

use crate::query_filters::{format_uuid, uuid_text};
use crate::reconciliation::RelinkCandidate;
use crate::scanner::ScanCancellation;
use crate::text::{chars_of, concat, string_from};

verus! {

broadcast use vstd::std_specs::btree::group_btree_axioms;


/// Batches a scan may hand out before the frontend acknowledges one.
pub const SCAN_BATCH_QUEUE_CAPACITY: usize = 8;

pub const MAX_ACTIVE_SCANS: usize = 8;

pub const MAX_ACTIVE_WATCHES: usize = 64;

// ----------------------------------------------------------------------------------------
// The delivery window of one scan.
// ----------------------------------------------------------------------------------------

/// The sequence numbers of the batches handed to the frontend and not acknowledged yet.
#[derive(Debug)]
pub struct ScanDeliveryWindow {
    in_flight: Vec<usize>,
}

/// What an attempt to hand out a batch found.
#[derive(Debug, Clone, Copy, PartialEq, Eq, Structural)]
pub enum ReserveStep {
    /// The batch is now in flight.
    Reserved,
    /// The window is full: wait for an acknowledgement and try again.
    Full,
    /// That sequence number is already in flight.
    Duplicate,
}

impl View for ScanDeliveryWindow {
    type V = Set<usize>;

    closed spec fn view(&self) -> Set<usize> {
        self.in_flight@.to_set()
    }
}

impl ScanDeliveryWindow {
    #[verifier::type_invariant]
    spec fn well_formed(&self) -> bool {
        &&& self.in_flight@.no_duplicates()
        &&& self.in_flight@.len() <= SCAN_BATCH_QUEUE_CAPACITY
    }

    pub fn new() -> (w: ScanDeliveryWindow)
        ensures
            w@ == Set::<usize>::empty(),
    {
        let w = ScanDeliveryWindow { in_flight: Vec::new() };
        assert(w@ =~= Set::<usize>::empty());
        w
    }

    /// How many batches are in flight; never more than the capacity.
    pub fn pending_count(&self) -> (n: usize)
        ensures
            n == self@.len(),
            n <= SCAN_BATCH_QUEUE_CAPACITY,
    {
        proof {
            use_type_invariant(self);
            self.in_flight@.unique_seq_to_set();
        }
        self.in_flight.len()
    }

    pub fn is_empty(&self) -> (b: bool)
        ensures
            b == (self@.len() == 0),
    {
        self.pending_count() == 0
    }

    fn position(&self, sequence: usize) -> (r: Option<usize>)
        ensures
            match r {
                Some(i) => i < self.in_flight@.len() && self.in_flight@[i as int] == sequence,
                None => !self.in_flight@.contains(sequence),
            },
    {
        let mut i: usize = 0;
        while i < self.in_flight.len()
            invariant
                i <= self.in_flight@.len(),
                forall|j: int| 0 <= j < i ==> self.in_flight@[j] != sequence,
            decreases self.in_flight@.len() - i,
        {
            if self.in_flight[i] == sequence {
                return Some(i);
            }
            i = i + 1;
        }
        None
    }

    /// Hands out a batch when the window has room and the sequence is not in flight.
    pub fn try_reserve(&mut self, sequence: usize) -> (r: ReserveStep)
        ensures
            old(self)@.len() >= SCAN_BATCH_QUEUE_CAPACITY ==> r == ReserveStep::Full && final(self)@ == old(self)@,
            old(self)@.len() < SCAN_BATCH_QUEUE_CAPACITY && old(self)@.contains(sequence) ==> r == ReserveStep::Duplicate
                && final(self)@ == old(self)@,
            old(self)@.len() < SCAN_BATCH_QUEUE_CAPACITY && !old(self)@.contains(sequence) ==> r == ReserveStep::Reserved
                && final(self)@ == old(self)@.insert(sequence),
    {
        proof {
            use_type_invariant(&*self);
            self.in_flight@.unique_seq_to_set();
        }
        if self.in_flight.len() >= SCAN_BATCH_QUEUE_CAPACITY {
            return ReserveStep::Full;
        }
        if self.position(sequence).is_some() {
            return ReserveStep::Duplicate;
        }
        let ghost before = self.in_flight@;
        let mut in_flight = Vec::new();
        std::mem::swap(&mut in_flight, &mut self.in_flight);
        in_flight.push(sequence);
        assert(in_flight@.no_duplicates()) by {
            assert forall|a: int, b: int| 0 <= a < b < in_flight@.len() implies in_flight@[a] != in_flight@[b] by {
                if b == in_flight@.len() - 1 {
                    assert(before.contains(before[a]));
                }
            }
        }
        proof {
            before.lemma_push_to_set_commute(sequence);
        }
        self.in_flight = in_flight;
        ReserveStep::Reserved
    }

    /// Takes an acknowledged batch out of the window and says whether it was in flight.
    pub fn acknowledge(&mut self, sequence: usize) -> (removed: bool)
        ensures
            removed == old(self)@.contains(sequence),
            final(self)@ == old(self)@.remove(sequence),
    {
        proof {
            use_type_invariant(&*self);
        }
        match self.position(sequence) {
            None => {
                assert(self@ =~= old(self)@.remove(sequence));
                false
            },
            Some(i) => {
                let ghost before = self.in_flight@;
                let mut in_flight = Vec::new();
                std::mem::swap(&mut in_flight, &mut self.in_flight);
                in_flight.remove(i);
                assert(in_flight@ =~= before.remove(i as int));
                assert(in_flight@.no_duplicates()) by {
                    assert forall|a: int, b: int| 0 <= a < b < in_flight@.len() implies in_flight@[a] != in_flight@[b] by {
                        let a2 = if a < i { a } else { a + 1 };
                        let b2 = if b < i { b } else { b + 1 };
                        assert(in_flight@[a] == before[a2] && in_flight@[b] == before[b2]);
                    }
                }
                assert forall|x: usize| in_flight@.contains(x) <==> (before.contains(x) && x != sequence) by {
                    if in_flight@.contains(x) {
                        let k = choose|k: int| 0 <= k < in_flight@.len() && in_flight@[k] == x;
                        let k2 = if k < i { k } else { k + 1 };
                        assert(before[k2] == x);
                    }
                    if before.contains(x) && x != sequence {
                        let k = choose|k: int| 0 <= k < before.len() && before[k] == x;
                        assert(k != i);
                        if k < i {
                            assert(in_flight@[k] == x);
                        } else {
                            assert(in_flight@[k - 1] == x);
                        }
                    }
                }
                self.in_flight = in_flight;
                assert(self@ =~= old(self)@.remove(sequence));
                true
            },
        }
    }
}

/// Acknowledging a batch that was just handed out leaves the window as it was before.
pub proof fn lemma_acknowledge_undoes_reserve(window: Set<usize>, sequence: usize)
    requires
        !window.contains(sequence),
    ensures
        window.insert(sequence).remove(sequence) == window,
{
    assert(window.insert(sequence).remove(sequence) =~= window);
}

impl Default for ScanDeliveryWindow {
    fn default() -> (w: ScanDeliveryWindow)
        ensures
            w@ == Set::<usize>::empty(),
    {
        ScanDeliveryWindow::new()
    }
}

// ----------------------------------------------------------------------------------------
// Refusals.
// ----------------------------------------------------------------------------------------

/// Why a coordinator refused a request.
#[derive(Debug, Clone, Copy, PartialEq, Eq, Structural)]
pub enum CoordinatorError {
    AlreadyScanned(u128),
    ScanLimit,
    AlreadyWatched(u128),
    WatchLimit,
    ScanNotActive(u128),
}

pub open spec fn coordinator_message(e: CoordinatorError) -> Seq<char> {
    match e {
        CoordinatorError::AlreadyScanned(root) => "library root is already being scanned: "@ + uuid_text(root),
        CoordinatorError::ScanLimit => "active library scan limit reached: 8"@,
        CoordinatorError::AlreadyWatched(root) => "library root is already watched: "@ + uuid_text(root),
        CoordinatorError::WatchLimit => "active library watcher limit reached: 64"@,
        CoordinatorError::ScanNotActive(scan) => "scan is no longer active: "@ + uuid_text(scan),
    }
}

impl CoordinatorError {
    /// The message shown for the refusal.
    pub fn message(&self) -> (m: String)
        ensures
            m@ == coordinator_message(*self),
    {
        let text = match *self {
            CoordinatorError::AlreadyScanned(root) => concat(&chars_of("library root is already being scanned: "), &format_uuid(root)),
            CoordinatorError::ScanLimit => chars_of("active library scan limit reached: 8"),
            CoordinatorError::AlreadyWatched(root) => concat(&chars_of("library root is already watched: "), &format_uuid(root)),
            CoordinatorError::WatchLimit => chars_of("active library watcher limit reached: 64"),
            CoordinatorError::ScanNotActive(scan) => concat(&chars_of("scan is no longer active: "), &format_uuid(scan)),
        };
        string_from(&text)
    }
}

// ----------------------------------------------------------------------------------------
// Scans.
// ----------------------------------------------------------------------------------------

/// One active scan as the model sees it: its ID, its root, and its batches in flight.
pub struct ScanView {
    pub scan_id: u128,
    pub root_id: u128,
    pub in_flight: Set<usize>,
}

/// The active scans in registration order, and the roots whose last scan completed.
pub struct ScanRegistryModel {
    pub scans: Seq<ScanView>,
    pub authoritative: Set<u128>,
}

#[derive(Debug)]
struct ActiveScan {
    scan_id: u128,
    root_id: u128,
    cancellation: ScanCancellation,
    delivery: ScanDeliveryWindow,
}

/// Root IDs are ordered as integers: `BTreeSet` keeps and finds them by that order.
proof fn lemma_root_ids_ordered()
    ensures
        vstd::laws_cmp::obeys_cmp::<u128>(),
{
    broadcast use vstd::laws_cmp::group_laws_cmp;
}

/// The scans that run, at most one per root and at most eight at once.
#[derive(Debug)]
pub struct ScanCoordinator {
    active: Vec<ActiveScan>,
    authoritative_roots: BTreeSet<u128>,
}

spec fn scan_view_of(a: ActiveScan) -> ScanView {
    ScanView { scan_id: a.scan_id, root_id: a.root_id, in_flight: a.delivery@ }
}

/// The first position of a scan ID, if it is there.
pub open spec fn find_scan(s: Seq<ScanView>, scan_id: u128) -> Option<int>
    decreases s.len(),
{
    if s.len() == 0 {
        None
    } else {
        match find_scan(s.drop_last(), scan_id) {
            Some(i) => Some(i),
            None => if s.last().scan_id == scan_id {
                Some(s.len() - 1)
            } else {
                None
            },
        }
    }
}

pub open spec fn root_scanned(s: Seq<ScanView>, root_id: u128) -> bool {
    exists|i: int| 0 <= i < s.len() && (#[trigger] s[i]).root_id == root_id
}

/// No two active scans share a root.
pub open spec fn roots_distinct(s: Seq<ScanView>) -> bool {
    forall|i: int, j: int| 0 <= i < j < s.len() ==> (#[trigger] s[i]).root_id != (#[trigger] s[j]).root_id
}

/// The batches in flight over all scans.
pub open spec fn in_flight_total(s: Seq<ScanView>) -> nat
    decreases s.len(),
{
    if s.len() == 0 {
        0
    } else {
        in_flight_total(s.drop_last()) + s.last().in_flight.len()
    }
}

proof fn lemma_find_scan(s: Seq<ScanView>, scan_id: u128)
    ensures
        find_scan(s, scan_id) matches Some(i) ==> 0 <= i < s.len() && s[i].scan_id == scan_id && forall|j: int| 0 <= j < i ==> (#[trigger] s[j]).scan_id != scan_id,
        find_scan(s, scan_id) is None ==> forall|j: int| 0 <= j < s.len() ==> (#[trigger] s[j]).scan_id != scan_id,
    decreases s.len(),
{
    if s.len() > 0 {
        lemma_find_scan(s.drop_last(), scan_id);
        assert forall|j: int| 0 <= j < s.len() - 1 implies #[trigger] s[j] == s.drop_last()[j] by {}
    }
}

impl View for ScanCoordinator {
    type V = ScanRegistryModel;

    closed spec fn view(&self) -> ScanRegistryModel {
        ScanRegistryModel {
            scans: self.active@.map_values(|a: ActiveScan| scan_view_of(a)),
            authoritative: self.authoritative_roots@,
        }
    }
}

impl ScanCoordinator {
    #[verifier::type_invariant]
    spec fn well_formed(&self) -> bool {
        &&& self.active@.len() <= MAX_ACTIVE_SCANS
        &&& roots_distinct(self.active@.map_values(|a: ActiveScan| scan_view_of(a)))
    }

    pub fn new() -> (c: ScanCoordinator)
        ensures
            c@.scans.len() == 0,
            c@.authoritative == Set::<u128>::empty(),
    {
        let c = ScanCoordinator { active: Vec::new(), authoritative_roots: BTreeSet::new() };
        assert(c@.authoritative =~= Set::<u128>::empty());
        c
    }

    fn index_of(&self, scan_id: u128) -> (r: Option<usize>)
        ensures
            self@.scans.len() == self.active@.len(),
            match r {
                Some(i) => find_scan(self@.scans, scan_id) == Some(i as int) && i < self.active@.len() && self@.scans[i as int].scan_id
                    == scan_id,
                None => find_scan(self@.scans, scan_id) is None && forall|j: int| 0 <= j < self@.scans.len() ==> (#[trigger] self@.scans[j]).scan_id
                    != scan_id,
            },
    {
        let ghost s = self@.scans;
        proof {
            lemma_find_scan(s, scan_id);
        }
        let mut i: usize = 0;
        while i < self.active.len()
            invariant
                i <= self.active@.len(),
                s == self@.scans,
                s.len() == self.active@.len(),
                forall|j: int| 0 <= j < i ==> (#[trigger] s[j]).scan_id != scan_id,
                find_scan(s, scan_id) matches Some(k) ==> 0 <= k < s.len() && s[k].scan_id == scan_id && forall|j: int| 0 <= j < k ==> (#[trigger] s[j]).scan_id != scan_id,
                find_scan(s, scan_id) is None ==> forall|j: int| 0 <= j < s.len() ==> (#[trigger] s[j]).scan_id != scan_id,
            decreases self.active@.len() - i,
        {
            assert(s[i as int].scan_id == self.active@[i as int].scan_id);
            if self.active[i].scan_id == scan_id {
                assert(find_scan(s, scan_id) == Some(i as int)) by {
                    if find_scan(s, scan_id) is None {
                        assert(s[i as int].scan_id == scan_id);
                    } else {
                        let k = find_scan(s, scan_id)->0;
                        if k > i {
                            assert(s[i as int].scan_id != scan_id);
                        }
                    }
                }
                return Some(i);
            }
            i = i + 1;
        }
        proof {
            if find_scan(s, scan_id) is Some {
                let k = find_scan(s, scan_id)->0;
                assert(s[k].scan_id != scan_id);
            }
        }
        None
    }

    /// Whether a scan of the root is active.
    pub fn is_root_active(&self, root_id: u128) -> (b: bool)
        ensures
            b == root_scanned(self@.scans, root_id),
    {
        let ghost s = self@.scans;
        let mut i: usize = 0;
        while i < self.active.len()
            invariant
                i <= self.active@.len(),
                s == self@.scans,
                s.len() == self.active@.len(),
                forall|j: int| 0 <= j < i ==> (#[trigger] s[j]).root_id != root_id,
            decreases self.active@.len() - i,
        {
            assert(s[i as int].root_id == self.active@[i as int].root_id);
            if self.active[i].root_id == root_id {
                return true;
            }
            i = i + 1;
        }
        false
    }

    /// Registers a scan of a root: refused while the root is being scanned or when eight
    /// scans run; otherwise the root stops being authoritative until the scan completes.
    /// A scan ID registered again replaces its entry.
    pub fn register(&mut self, scan_id: u128, root_id: u128, cancellation: ScanCancellation) -> (r: Result<(), CoordinatorError>)
        ensures
            root_scanned(old(self)@.scans, root_id) ==> r == Err::<(), CoordinatorError>(CoordinatorError::AlreadyScanned(root_id))
                && final(self)@ == old(self)@,
            !root_scanned(old(self)@.scans, root_id) && old(self)@.scans.len() >= MAX_ACTIVE_SCANS ==> r == Err::<(), CoordinatorError>(
                CoordinatorError::ScanLimit,
            ) && final(self)@ == old(self)@,
            !root_scanned(old(self)@.scans, root_id) && old(self)@.scans.len() < MAX_ACTIVE_SCANS ==> {
                let entry = ScanView { scan_id, root_id, in_flight: Set::empty() };
                &&& r is Ok
                &&& final(self)@.authoritative == old(self)@.authoritative.remove(root_id)
                &&& final(self)@.scans == match find_scan(old(self)@.scans, scan_id) {
                    Some(i) => old(self)@.scans.update(i, entry),
                    None => old(self)@.scans.push(entry),
                }
            },
            final(self)@.scans.len() <= MAX_ACTIVE_SCANS,
            roots_distinct(final(self)@.scans),
    {
        proof {
            use_type_invariant(&*self);
        }
        if self.is_root_active(root_id) {
            return Err(CoordinatorError::AlreadyScanned(root_id));
        }
        if self.active.len() >= MAX_ACTIVE_SCANS {
            return Err(CoordinatorError::ScanLimit);
        }
        let ghost before = self@.scans;
        let found = self.index_of(scan_id);
        let ghost old_active = self.active@;
        let entry = ActiveScan { scan_id, root_id, cancellation, delivery: ScanDeliveryWindow::new() };
        let mut active = Vec::new();
        std::mem::swap(&mut active, &mut self.active);
        match found {
            Some(i) => {
                active.remove(i);
                active.insert(i, entry);
            },
            None => {
                active.push(entry);
            },
        }
        let ghost after = active@.map_values(|a: ActiveScan| scan_view_of(a));
        let ghost view_entry = ScanView { scan_id, root_id, in_flight: Set::empty() };
        proof {
            match find_scan(before, scan_id) {
                Some(i) => {
                    assert(active@ == old_active.remove(i).insert(i, entry));
                    assert(after =~= before.update(i, view_entry));
                },
                None => {
                    assert(after =~= before.push(view_entry));
                },
            }
            assert forall|a: int, b: int| 0 <= a < b < after.len() implies (#[trigger] after[a]).root_id != (#[trigger] after[b]).root_id by {
                if after[a].root_id == root_id {
                    assert(!(0 <= a < before.len() && before[a] == after[a]) || before[a].root_id != root_id);
                }
                assert(before.len() > 0 ==> root_scanned(before, root_id) == false);
                if a < before.len() && after[a] != view_entry {
                    assert(after[a] == before[a]);
                }
                if b < before.len() && after[b] != view_entry {
                    assert(after[b] == before[b]);
                }
                if after[a] != view_entry && after[b] != view_entry {
                    assert(before[a].root_id != before[b].root_id);
                } else if after[a] == view_entry && after[b] != view_entry {
                    assert(before[b].root_id != root_id);
                } else if after[a] != view_entry && after[b] == view_entry {
                    assert(before[a].root_id != root_id);
                }
            }
        }
        self.active = active;
        proof {
            lemma_root_ids_ordered();
        }
        let mut authoritative = BTreeSet::new();
        std::mem::swap(&mut authoritative, &mut self.authoritative_roots);
        authoritative.remove(&root_id);
        self.authoritative_roots = authoritative;
        Ok(())
    }

    /// Cancels an active scan; says whether it was active. The scan stays registered until
    /// it finishes.
    pub fn cancel(&self, scan_id: u128) -> (found: bool)
        ensures
            found == find_scan(self@.scans, scan_id) is Some,
    {
        match self.index_of(scan_id) {
            Some(i) => {
                self.active[i].cancellation.cancel();
                true
            },
            None => false,
        }
    }

    /// Forgets a scan that ended.
    pub fn finish(&mut self, scan_id: u128)
        ensures
            final(self)@.authoritative == old(self)@.authoritative,
            final(self)@.scans == match find_scan(old(self)@.scans, scan_id) {
                Some(i) => old(self)@.scans.remove(i),
                None => old(self)@.scans,
            },
    {
        proof {
            use_type_invariant(&*self);
        }
        if let Some(i) = self.index_of(scan_id) {
            let ghost before = self@.scans;
            let mut active = Vec::new();
            std::mem::swap(&mut active, &mut self.active);
            active.remove(i);
            let ghost after = active@.map_values(|a: ActiveScan| scan_view_of(a));
            assert(after =~= before.remove(i as int));
            assert forall|a: int, b: int| 0 <= a < b < after.len() implies (#[trigger] after[a]).root_id != (#[trigger] after[b]).root_id by {
                let a2 = if a < i { a } else { a + 1 };
                let b2 = if b < i { b } else { b + 1 };
                assert(after[a] == before[a2] && after[b] == before[b2]);
            }
            self.active = active;
        }
    }

    /// Hands out a batch of a scan when its window has room.
    pub fn try_reserve(&mut self, scan_id: u128, sequence: usize) -> (r: Result<ReserveStep, CoordinatorError>)
        ensures
            find_scan(old(self)@.scans, scan_id) is None ==> r == Err::<ReserveStep, CoordinatorError>(CoordinatorError::ScanNotActive(scan_id))
                && final(self)@ == old(self)@,
            find_scan(old(self)@.scans, scan_id) matches Some(i) ==> {
                let w = old(self)@.scans[i].in_flight;
                let stepped = if w.len() >= SCAN_BATCH_QUEUE_CAPACITY || w.contains(sequence) { w } else { w.insert(sequence) };
                &&& r matches Ok(step)
                &&& (w.len() >= SCAN_BATCH_QUEUE_CAPACITY ==> step == ReserveStep::Full)
                &&& (w.len() < SCAN_BATCH_QUEUE_CAPACITY && w.contains(sequence) ==> step == ReserveStep::Duplicate)
                &&& (w.len() < SCAN_BATCH_QUEUE_CAPACITY && !w.contains(sequence) ==> step == ReserveStep::Reserved)
                &&& final(self)@.authoritative == old(self)@.authoritative
                &&& final(self)@.scans == old(self)@.scans.update(i, ScanView { in_flight: stepped, ..old(self)@.scans[i] })
            },
    {
        proof {
            use_type_invariant(&*self);
        }
        let i = match self.index_of(scan_id) {
            Some(i) => i,
            None => {
                return Err(CoordinatorError::ScanNotActive(scan_id));
            },
        };
        let ghost before = self@.scans;
        let mut active = Vec::new();
        std::mem::swap(&mut active, &mut self.active);
        let mut entry = active.remove(i);
        let step = entry.delivery.try_reserve(sequence);
        active.insert(i, entry);
        let ghost after = active@.map_values(|a: ActiveScan| scan_view_of(a));
        assert(after =~= before.update(i as int, ScanView { in_flight: after[i as int].in_flight, ..before[i as int] }));
        assert forall|a: int, b: int| 0 <= a < b < after.len() implies (#[trigger] after[a]).root_id != (#[trigger] after[b]).root_id by {
            assert(after[a].root_id == before[a].root_id && after[b].root_id == before[b].root_id);
        }
        self.active = active;
        Ok(step)
    }

    /// Takes an acknowledged batch of a scan out of its window; says whether it was in
    /// flight.
    pub fn acknowledge(&mut self, scan_id: u128, sequence: usize) -> (r: Result<bool, CoordinatorError>)
        ensures
            find_scan(old(self)@.scans, scan_id) is None ==> r == Err::<bool, CoordinatorError>(CoordinatorError::ScanNotActive(scan_id))
                && final(self)@ == old(self)@,
            find_scan(old(self)@.scans, scan_id) matches Some(i) ==> {
                &&& r == Ok::<bool, CoordinatorError>(old(self)@.scans[i].in_flight.contains(sequence))
                &&& final(self)@.authoritative == old(self)@.authoritative
                &&& final(self)@.scans == old(self)@.scans.update(
                    i,
                    ScanView { in_flight: old(self)@.scans[i].in_flight.remove(sequence), ..old(self)@.scans[i] },
                )
            },
    {
        proof {
            use_type_invariant(&*self);
        }
        let i = match self.index_of(scan_id) {
            Some(i) => i,
            None => {
                return Err(CoordinatorError::ScanNotActive(scan_id));
            },
        };
        let ghost before = self@.scans;
        let mut active = Vec::new();
        std::mem::swap(&mut active, &mut self.active);
        let mut entry = active.remove(i);
        let removed = entry.delivery.acknowledge(sequence);
        active.insert(i, entry);
        let ghost after = active@.map_values(|a: ActiveScan| scan_view_of(a));
        assert(after =~= before.update(i as int, ScanView { in_flight: after[i as int].in_flight, ..before[i as int] }));
        assert forall|a: int, b: int| 0 <= a < b < after.len() implies (#[trigger] after[a]).root_id != (#[trigger] after[b]).root_id by {
            assert(after[a].root_id == before[a].root_id && after[b].root_id == before[b].root_id);
        }
        self.active = active;
        Ok(removed)
    }

    /// Whether a scan has no batch in flight; a scan that is not active has none.
    pub fn is_delivered(&self, scan_id: u128) -> (b: bool)
        ensures
            b == match find_scan(self@.scans, scan_id) {
                Some(i) => self@.scans[i].in_flight.len() == 0,
                None => true,
            },
    {
        match self.index_of(scan_id) {
            Some(i) => self.active[i].delivery.is_empty(),
            None => true,
        }
    }

    pub fn active_count(&self) -> (n: usize)
        ensures
            n == self@.scans.len(),
            n <= MAX_ACTIVE_SCANS,
    {
        proof {
            use_type_invariant(self);
        }
        self.active.len()
    }

    /// The batches in flight over all active scans.
    pub fn pending_batch_count(&self) -> (n: usize)
        ensures
            n == in_flight_total(self@.scans),
    {
        proof {
            use_type_invariant(self);
        }
        let ghost s = self@.scans;
        let mut total: usize = 0;
        let mut i: usize = 0;
        while i < self.active.len()
            invariant
                i <= self.active@.len(),
                self.active@.len() <= MAX_ACTIVE_SCANS,
                s == self@.scans,
                s.len() == self.active@.len(),
                total == in_flight_total(s.subrange(0, i as int)),
                total <= i * SCAN_BATCH_QUEUE_CAPACITY,
            decreases self.active@.len() - i,
        {
            let ghost sub = s.subrange(0, i + 1);
            assert(sub.drop_last() =~= s.subrange(0, i as int));
            assert(sub.last() == s[i as int]);
            let n = self.active[i].delivery.pending_count();
            total = total + n;
            i = i + 1;
        }
        assert(s.subrange(0, s.len() as int) =~= s);
        total
    }

    /// Records that a root's scan completed.
    pub fn mark_authoritative(&mut self, root_id: u128)
        ensures
            final(self)@.scans == old(self)@.scans,
            final(self)@.authoritative == old(self)@.authoritative.insert(root_id),
    {
        proof {
            use_type_invariant(&*self);
        }
        proof {
            lemma_root_ids_ordered();
        }
        let mut authoritative = BTreeSet::new();
        std::mem::swap(&mut authoritative, &mut self.authoritative_roots);
        authoritative.insert(root_id);
        self.authoritative_roots = authoritative;
    }

    /// How many of the required roots have no completed scan yet.
    pub fn pending_authoritative(&self, required: &Vec<u128>) -> (n: usize)
        requires
            required@.no_duplicates(),
        ensures
            n == required@.filter(|root: u128| !self@.authoritative.contains(root)).len(),
    {
        let ghost auth = self@.authoritative;
        let ghost keep = |root: u128| !auth.contains(root);
        let mut n: usize = 0;
        let mut i: usize = 0;
        while i < required.len()
            invariant
                i <= required@.len(),
                auth == self@.authoritative,
                keep == (|root: u128| !auth.contains(root)),
                n == required@.subrange(0, i as int).filter(keep).len(),
                n <= i,
            decreases required@.len() - i,
        {
            let ghost sub = required@.subrange(0, i + 1);
            assert(sub.drop_last() =~= required@.subrange(0, i as int));
            proof {
                reveal(Seq::filter);
            }
            if !self.has_authoritative(required[i]) {
                n = n + 1;
            }
            i = i + 1;
        }
        assert(required@.subrange(0, required@.len() as int) =~= required@);
        n
    }

    fn has_authoritative(&self, root_id: u128) -> (b: bool)
        ensures
            b == self@.authoritative.contains(root_id),
    {
        proof {
            lemma_root_ids_ordered();
        }
        self.authoritative_roots.contains(&root_id)
    }
}

impl Default for ScanCoordinator {
    fn default() -> (c: ScanCoordinator)
        ensures
            c@.scans.len() == 0,
            c@.authoritative == Set::<u128>::empty(),
    {
        ScanCoordinator::new()
    }
}

// ----------------------------------------------------------------------------------------
// Watchers.
// ----------------------------------------------------------------------------------------

#[derive(Debug)]
struct ActiveWatch {
    watch_id: u128,
    root_id: u128,
    cancellation: ScanCancellation,
}

/// The watchers that run, at most one per root and at most sixty-four at once.
#[derive(Debug)]
pub struct WatchCoordinator {
    active: Vec<ActiveWatch>,
}

spec fn watch_view_of(a: ActiveWatch) -> (u128, u128) {
    (a.watch_id, a.root_id)
}

/// The first position of a watcher ID among (watcher, root) pairs, if it is there.
pub open spec fn find_watch(s: Seq<(u128, u128)>, watch_id: u128) -> Option<int>
    decreases s.len(),
{
    if s.len() == 0 {
        None
    } else {
        match find_watch(s.drop_last(), watch_id) {
            Some(i) => Some(i),
            None => if s.last().0 == watch_id {
                Some(s.len() - 1)
            } else {
                None
            },
        }
    }
}

pub open spec fn root_watched(s: Seq<(u128, u128)>, root_id: u128) -> bool {
    exists|i: int| 0 <= i < s.len() && (#[trigger] s[i]).1 == root_id
}

pub open spec fn watched_roots_distinct(s: Seq<(u128, u128)>) -> bool {
    forall|i: int, j: int| 0 <= i < j < s.len() ==> (#[trigger] s[i]).1 != (#[trigger] s[j]).1
}

proof fn lemma_find_watch(s: Seq<(u128, u128)>, watch_id: u128)
    ensures
        find_watch(s, watch_id) matches Some(i) ==> 0 <= i < s.len() && s[i].0 == watch_id && forall|j: int| 0 <= j < i ==> (#[trigger] s[j]).0 != watch_id,
        find_watch(s, watch_id) is None ==> forall|j: int| 0 <= j < s.len() ==> (#[trigger] s[j]).0 != watch_id,
    decreases s.len(),
{
    if s.len() > 0 {
        lemma_find_watch(s.drop_last(), watch_id);
        assert forall|j: int| 0 <= j < s.len() - 1 implies #[trigger] s[j] == s.drop_last()[j] by {}
    }
}

impl View for WatchCoordinator {
    type V = Seq<(u128, u128)>;

    /// The active watchers as (watcher, root) pairs in registration order.
    closed spec fn view(&self) -> Seq<(u128, u128)> {
        self.active@.map_values(|a: ActiveWatch| watch_view_of(a))
    }
}

impl WatchCoordinator {
    #[verifier::type_invariant]
    spec fn well_formed(&self) -> bool {
        &&& self.active@.len() <= MAX_ACTIVE_WATCHES
        &&& watched_roots_distinct(self.active@.map_values(|a: ActiveWatch| watch_view_of(a)))
    }

    pub fn new() -> (c: WatchCoordinator)
        ensures
            c@.len() == 0,
    {
        WatchCoordinator { active: Vec::new() }
    }

    fn index_of(&self, watch_id: u128) -> (r: Option<usize>)
        ensures
            self@.len() == self.active@.len(),
            match r {
                Some(i) => find_watch(self@, watch_id) == Some(i as int) && i < self.active@.len(),
                None => find_watch(self@, watch_id) is None,
            },
    {
        let ghost s = self@;
        proof {
            lemma_find_watch(s, watch_id);
        }
        let mut i: usize = 0;
        while i < self.active.len()
            invariant
                i <= self.active@.len(),
                s == self@,
                s.len() == self.active@.len(),
                forall|j: int| 0 <= j < i ==> (#[trigger] s[j]).0 != watch_id,
                find_watch(s, watch_id) matches Some(k) ==> 0 <= k < s.len() && s[k].0 == watch_id && forall|j: int| 0 <= j < k ==> (#[trigger] s[j]).0 != watch_id,
                find_watch(s, watch_id) is None ==> forall|j: int| 0 <= j < s.len() ==> (#[trigger] s[j]).0 != watch_id,
            decreases self.active@.len() - i,
        {
            assert(s[i as int].0 == self.active@[i as int].watch_id);
            if self.active[i].watch_id == watch_id {
                assert(find_watch(s, watch_id) == Some(i as int)) by {
                    if find_watch(s, watch_id) is None {
                        assert(s[i as int].0 == watch_id);
                    } else {
                        let k = find_watch(s, watch_id)->0;
                        if k > i {
                            assert(s[i as int].0 != watch_id);
                        }
                    }
                }
                return Some(i);
            }
            i = i + 1;
        }
        proof {
            if find_watch(s, watch_id) is Some {
                let k = find_watch(s, watch_id)->0;
                assert(s[k].0 != watch_id);
            }
        }
        None
    }

    fn is_root_watched(&self, root_id: u128) -> (b: bool)
        ensures
            b == root_watched(self@, root_id),
    {
        let ghost s = self@;
        let mut i: usize = 0;
        while i < self.active.len()
            invariant
                i <= self.active@.len(),
                s == self@,
                s.len() == self.active@.len(),
                forall|j: int| 0 <= j < i ==> (#[trigger] s[j]).1 != root_id,
            decreases self.active@.len() - i,
        {
            assert(s[i as int].1 == self.active@[i as int].root_id);
            if self.active[i].root_id == root_id {
                return true;
            }
            i = i + 1;
        }
        false
    }

    /// Registers a watcher of a root: refused while the root is watched or when sixty-four
    /// watchers run. A watcher ID registered again replaces its entry.
    pub fn register(&mut self, watch_id: u128, root_id: u128, cancellation: ScanCancellation) -> (r: Result<(), CoordinatorError>)
        ensures
            root_watched(old(self)@, root_id) ==> r == Err::<(), CoordinatorError>(CoordinatorError::AlreadyWatched(root_id))
                && final(self)@ == old(self)@,
            !root_watched(old(self)@, root_id) && old(self)@.len() >= MAX_ACTIVE_WATCHES ==> r == Err::<(), CoordinatorError>(
                CoordinatorError::WatchLimit,
            ) && final(self)@ == old(self)@,
            !root_watched(old(self)@, root_id) && old(self)@.len() < MAX_ACTIVE_WATCHES ==> r is Ok && final(self)@ == match find_watch(
                old(self)@,
                watch_id,
            ) {
                Some(i) => old(self)@.update(i, (watch_id, root_id)),
                None => old(self)@.push((watch_id, root_id)),
            },
            final(self)@.len() <= MAX_ACTIVE_WATCHES,
            watched_roots_distinct(final(self)@),
    {
        proof {
            use_type_invariant(&*self);
        }
        if self.is_root_watched(root_id) {
            return Err(CoordinatorError::AlreadyWatched(root_id));
        }
        if self.active.len() >= MAX_ACTIVE_WATCHES {
            return Err(CoordinatorError::WatchLimit);
        }
        let ghost before = self@;
        let found = self.index_of(watch_id);
        let ghost old_active = self.active@;
        let entry = ActiveWatch { watch_id, root_id, cancellation };
        let mut active = Vec::new();
        std::mem::swap(&mut active, &mut self.active);
        match found {
            Some(i) => {
                active.remove(i);
                active.insert(i, entry);
            },
            None => {
                active.push(entry);
            },
        }
        let ghost after = active@.map_values(|a: ActiveWatch| watch_view_of(a));
        proof {
            match find_watch(before, watch_id) {
                Some(i) => {
                    assert(active@ == old_active.remove(i).insert(i, entry));
                    assert(after =~= before.update(i, (watch_id, root_id)));
                },
                None => {
                    assert(after =~= before.push((watch_id, root_id)));
                },
            }
            assert forall|a: int, b: int| 0 <= a < b < after.len() implies (#[trigger] after[a]).1 != (#[trigger] after[b]).1 by {
                if a < before.len() && after[a] != (watch_id, root_id) {
                    assert(after[a] == before[a]);
                }
                if b < before.len() && after[b] != (watch_id, root_id) {
                    assert(after[b] == before[b]);
                }
                if after[a] != (watch_id, root_id) && after[b] != (watch_id, root_id) {
                    assert(before[a].1 != before[b].1);
                } else if after[a] == (watch_id, root_id) && after[b] != (watch_id, root_id) {
                    assert(before[b].1 != root_id);
                } else if after[a] != (watch_id, root_id) && after[b] == (watch_id, root_id) {
                    assert(before[a].1 != root_id);
                }
            }
        }
        self.active = active;
        Ok(())
    }

    fn remove_at(&mut self, i: usize) -> (w: ActiveWatch)
        requires
            i < old(self)@.len(),
        ensures
            final(self)@ == old(self)@.remove(i as int),
            watch_view_of(w) == old(self)@[i as int],
    {
        proof {
            use_type_invariant(&*self);
        }
        let ghost before = self@;
        let mut active = Vec::new();
        std::mem::swap(&mut active, &mut self.active);
        let w = active.remove(i);
        let ghost after = active@.map_values(|a: ActiveWatch| watch_view_of(a));
        assert(after =~= before.remove(i as int));
        assert forall|a: int, b: int| 0 <= a < b < after.len() implies (#[trigger] after[a]).1 != (#[trigger] after[b]).1 by {
            let a2 = if a < i { a } else { a + 1 };
            let b2 = if b < i { b } else { b + 1 };
            assert(after[a] == before[a2] && after[b] == before[b2]);
        }
        self.active = active;
        w
    }

    /// Stops and forgets a watcher; says whether it was active.
    pub fn cancel(&mut self, watch_id: u128) -> (found: bool)
        ensures
            found == find_watch(old(self)@, watch_id) is Some,
            final(self)@ == match find_watch(old(self)@, watch_id) {
                Some(i) => old(self)@.remove(i),
                None => old(self)@,
            },
    {
        match self.index_of(watch_id) {
            Some(i) => {
                let watch = self.remove_at(i);
                watch.cancellation.cancel();
                true
            },
            None => false,
        }
    }

    /// Forgets a watcher that ended.
    pub fn finish(&mut self, watch_id: u128)
        ensures
            final(self)@ == match find_watch(old(self)@, watch_id) {
                Some(i) => old(self)@.remove(i),
                None => old(self)@,
            },
    {
        if let Some(i) = self.index_of(watch_id) {
            let _ = self.remove_at(i);
        }
    }

    pub fn active_count(&self) -> (n: usize)
        ensures
            n == self@.len(),
            n <= MAX_ACTIVE_WATCHES,
    {
        proof {
            use_type_invariant(self);
        }
        self.active.len()
    }
}

impl Default for WatchCoordinator {
    fn default() -> (c: WatchCoordinator)
        ensures
            c@.len() == 0,
    {
        WatchCoordinator::new()
    }
}

// ----------------------------------------------------------------------------------------
// Relink candidates on display.
// ----------------------------------------------------------------------------------------

/// The relink candidates of the last reconciliation report of each root, one per ID.
#[derive(Debug)]
pub struct ReconciliationCoordinator {
    candidates: Vec<RelinkCandidate>,
}

/// The candidates with one put in: it replaces the one with its ID, or comes last.
pub open spec fn put_candidate(s: Seq<RelinkCandidate>, c: RelinkCandidate) -> Seq<RelinkCandidate> {
    if exists|i: int| 0 <= i < s.len() && (#[trigger] s[i]).candidate_id == c.candidate_id {
        s.update(choose|i: int| 0 <= i < s.len() && (#[trigger] s[i]).candidate_id == c.candidate_id, c)
    } else {
        s.push(c)
    }
}

/// Each candidate put in turn.
pub open spec fn put_all(s: Seq<RelinkCandidate>, cs: Seq<RelinkCandidate>) -> Seq<RelinkCandidate>
    decreases cs.len(),
{
    if cs.len() == 0 {
        s
    } else {
        put_candidate(put_all(s, cs.drop_last()), cs.last())
    }
}

pub open spec fn ids_distinct(s: Seq<RelinkCandidate>) -> bool {
    forall|i: int, j: int| 0 <= i < j < s.len() ==> (#[trigger] s[i]).candidate_id != (#[trigger] s[j]).candidate_id
}

/// The candidates that neither belong to a root nor to a Sidecar (each test optional), in
/// their order.
pub open spec fn candidates_without(s: Seq<RelinkCandidate>, root_id: Option<u128>, sidecar_id: Option<u128>) -> Seq<RelinkCandidate>
    decreases s.len(),
{
    if s.len() == 0 {
        seq![]
    } else {
        let rest = candidates_without(s.drop_last(), root_id, sidecar_id);
        if root_id == Some(s.last().root_id) || sidecar_id == Some(s.last().sidecar_id) {
            rest
        } else {
            rest.push(s.last())
        }
    }
}

proof fn lemma_candidates_without(s: Seq<RelinkCandidate>, root_id: Option<u128>, sidecar_id: Option<u128>)
    requires
        ids_distinct(s),
    ensures
        ids_distinct(candidates_without(s, root_id, sidecar_id)),
        forall|c: RelinkCandidate| #[trigger] candidates_without(s, root_id, sidecar_id).contains(c) ==> s.contains(c),
    decreases s.len(),
{
    if s.len() > 0 {
        assert(ids_distinct(s.drop_last())) by {
            assert forall|i: int, j: int| 0 <= i < j < s.drop_last().len() implies (#[trigger] s.drop_last()[i]).candidate_id
                != (#[trigger] s.drop_last()[j]).candidate_id by {
                assert(s.drop_last()[i] == s[i] && s.drop_last()[j] == s[j]);
            }
        }
        lemma_candidates_without(s.drop_last(), root_id, sidecar_id);
        let rest = candidates_without(s.drop_last(), root_id, sidecar_id);
        assert forall|c: RelinkCandidate| #[trigger] candidates_without(s, root_id, sidecar_id).contains(c) implies s.contains(c) by {
            if rest.contains(c) {
                let k = choose|k: int| 0 <= k < s.drop_last().len() && s.drop_last()[k] == c;
                assert(s[k] == c);
            } else {
                assert(c == s.last());
            }
        }
        if !(root_id == Some(s.last().root_id) || sidecar_id == Some(s.last().sidecar_id)) {
            let t = rest.push(s.last());
            assert forall|i: int, j: int| 0 <= i < j < t.len() implies (#[trigger] t[i]).candidate_id != (#[trigger] t[j]).candidate_id by {
                if j == t.len() - 1 {
                    assert(rest.contains(t[i]));
                    let k = choose|k: int| 0 <= k < s.drop_last().len() && s.drop_last()[k] == t[i];
                    assert(s[k] == t[i]);
                } else {
                    assert(t[i] == rest[i] && t[j] == rest[j]);
                }
            }
        }
    }
}

/// A copy of a candidate, field by field; its texts are the same.
pub open spec fn same_candidate(a: RelinkCandidate, b: RelinkCandidate) -> bool {
    &&& a.candidate_id == b.candidate_id && a.root_id == b.root_id && a.sidecar_id == b.sidecar_id
    &&& a.sidecar_path@ == b.sidecar_path@ && a.sidecar_digest@ == b.sidecar_digest@ && a.asset_key@ == b.asset_key@
    &&& a.asset_path@ == b.asset_path@ && a.size == b.size && a.sha256@ == b.sha256@ && a.ambiguous == b.ambiguous
    &&& crate::records::same_text(a.quick_fingerprint, b.quick_fingerprint)
}

fn copy_candidate(c: &RelinkCandidate) -> (r: RelinkCandidate)
    ensures
        same_candidate(r, *c),
{
    RelinkCandidate {
        candidate_id: c.candidate_id,
        root_id: c.root_id,
        sidecar_id: c.sidecar_id,
        sidecar_path: string_from(&chars_of(c.sidecar_path.as_str())),
        sidecar_digest: string_from(&chars_of(c.sidecar_digest.as_str())),
        asset_key: string_from(&chars_of(c.asset_key.as_str())),
        asset_path: string_from(&chars_of(c.asset_path.as_str())),
        size: c.size,
        quick_fingerprint: match &c.quick_fingerprint {
            Some(q) => Some(string_from(&chars_of(q.as_str()))),
            None => None,
        },
        sha256: string_from(&chars_of(c.sha256.as_str())),
        ambiguous: c.ambiguous,
    }
}

impl View for ReconciliationCoordinator {
    type V = Seq<RelinkCandidate>;

    closed spec fn view(&self) -> Seq<RelinkCandidate> {
        self.candidates@
    }
}

impl ReconciliationCoordinator {
    #[verifier::type_invariant]
    spec fn well_formed(&self) -> bool {
        ids_distinct(self.candidates@)
    }

    pub fn new() -> (c: ReconciliationCoordinator)
        ensures
            c@.len() == 0,
    {
        ReconciliationCoordinator { candidates: Vec::new() }
    }

    fn retain_candidates(v: Vec<RelinkCandidate>, root_id: Option<u128>, sidecar_id: Option<u128>) -> (r: Vec<RelinkCandidate>)
        ensures
            r@ == candidates_without(v@, root_id, sidecar_id),
    {
        let ghost original = v@;
        let mut pending = v;
        let mut kept: Vec<RelinkCandidate> = Vec::new();
        let mut n: usize = 0;
        let total = pending.len();
        while pending.len() > 0
            invariant
                n <= original.len(),
                original.len() == total,
                pending@ == original.subrange(n as int, original.len() as int),
                kept@ == candidates_without(original.subrange(0, n as int), root_id, sidecar_id),
            decreases pending@.len(),
        {
            let c = pending.remove(0);
            let ghost sub = original.subrange(0, n + 1);
            assert(sub.drop_last() =~= original.subrange(0, n as int));
            assert(sub.last() == c);
            let by_root = match root_id {
                Some(r) => r == c.root_id,
                None => false,
            };
            let by_sidecar = match sidecar_id {
                Some(x) => x == c.sidecar_id,
                None => false,
            };
            if !by_root && !by_sidecar {
                kept.push(c);
            }
            n = n + 1;
            assert(pending@ =~= original.subrange(n as int, original.len() as int));
        }
        assert(original.subrange(0, original.len() as int) =~= original);
        kept
    }

    fn put(v: &mut Vec<RelinkCandidate>, c: RelinkCandidate)
        requires
            ids_distinct(old(v)@),
        ensures
            ids_distinct(final(v)@),
            final(v)@ == put_candidate(old(v)@, c),
    {
        let mut i: usize = 0;
        while i < v.len()
            invariant
                i <= v@.len(),
                ids_distinct(v@),
                v@ == old(v)@,
                forall|j: int| 0 <= j < i ==> (#[trigger] v@[j]).candidate_id != c.candidate_id,
            decreases v@.len() - i,
        {
            if v[i].candidate_id == c.candidate_id {
                let ghost before = v@;
                assert(forall|k: int| 0 <= k < before.len() && (#[trigger] before[k]).candidate_id == c.candidate_id ==> k == i);
                v.remove(i);
                v.insert(i, c);
                assert(v@ =~= before.update(i as int, c));
                assert forall|a: int, b: int| 0 <= a < b < v@.len() implies (#[trigger] v@[a]).candidate_id != (#[trigger] v@[b]).candidate_id by {
                    if a != i && b != i {
                        assert(v@[a] == before[a] && v@[b] == before[b]);
                    } else if a == i {
                        assert(v@[b] == before[b]);
                    } else {
                        assert(v@[a] == before[a]);
                    }
                }
                return;
            }
            i = i + 1;
        }
        let ghost before = v@;
        v.push(c);
        assert forall|a: int, b: int| 0 <= a < b < v@.len() implies (#[trigger] v@[a]).candidate_id != (#[trigger] v@[b]).candidate_id by {
            if b == v@.len() - 1 {
                assert(v@[a] == before[a]);
            } else {
                assert(v@[a] == before[a] && v@[b] == before[b]);
            }
        }
    }

    /// Replaces the candidates of a root by the pending moves of its new report.
    pub fn replace_report(&mut self, root_id: u128, pending_moves: Vec<RelinkCandidate>)
        ensures
            final(self)@ == put_all(candidates_without(old(self)@, Some(root_id), None), pending_moves@),
    {
        proof {
            use_type_invariant(&*self);
        }
        let mut candidates = Vec::new();
        std::mem::swap(&mut candidates, &mut self.candidates);
        let ghost before = candidates@;
        let mut kept = Self::retain_candidates(candidates, Some(root_id), None);
        proof {
            lemma_candidates_without(before, Some(root_id), None);
        }
        let ghost start = kept@;
        let ghost moves = pending_moves@;
        let mut pending = pending_moves;
        let mut n: usize = 0;
        let total = pending.len();
        while pending.len() > 0
            invariant
                n <= moves.len(),
                moves.len() == total,
                pending@ == moves.subrange(n as int, moves.len() as int),
                ids_distinct(kept@),
                kept@ == put_all(start, moves.subrange(0, n as int)),
            decreases pending@.len(),
        {
            let c = pending.remove(0);
            let ghost sub = moves.subrange(0, n + 1);
            assert(sub.drop_last() =~= moves.subrange(0, n as int));
            assert(sub.last() == c);
            Self::put(&mut kept, c);
            n = n + 1;
            assert(pending@ =~= moves.subrange(n as int, moves.len() as int));
        }
        assert(moves.subrange(0, moves.len() as int) =~= moves);
        self.candidates = kept;
    }

    /// A copy of the candidate with an ID, or why it is not there.
    pub fn candidate(&self, candidate_id: u128) -> (r: Result<RelinkCandidate, String>)
        ensures
            (exists|i: int| 0 <= i < self@.len() && (#[trigger] self@[i]).candidate_id == candidate_id) ==> (r matches Ok(c)
                && exists|i: int| 0 <= i < self@.len() && same_candidate(c, #[trigger] self@[i]) && self@[i].candidate_id == candidate_id),
            !(exists|i: int| 0 <= i < self@.len() && (#[trigger] self@[i]).candidate_id == candidate_id) ==> (r matches Err(m)
                && m@ == "relink candidate is missing or stale: "@ + uuid_text(candidate_id)),
    {
        let mut i: usize = 0;
        while i < self.candidates.len()
            invariant
                i <= self.candidates@.len(),
                forall|j: int| 0 <= j < i ==> (#[trigger] self.candidates@[j]).candidate_id != candidate_id,
            decreases self.candidates@.len() - i,
        {
            if self.candidates[i].candidate_id == candidate_id {
                let c = copy_candidate(&self.candidates[i]);
                assert(same_candidate(c, self@[i as int]));
                return Ok(c);
            }
            i = i + 1;
        }
        Err(string_from(&concat(&chars_of("relink candidate is missing or stale: "), &format_uuid(candidate_id))))
    }

    /// Drops the candidates of a Sidecar that was relinked.
    pub fn resolve_sidecar(&mut self, sidecar_id: u128)
        ensures
            final(self)@ == candidates_without(old(self)@, None, Some(sidecar_id)),
    {
        proof {
            use_type_invariant(&*self);
        }
        let mut candidates = Vec::new();
        std::mem::swap(&mut candidates, &mut self.candidates);
        let ghost before = candidates@;
        let kept = Self::retain_candidates(candidates, None, Some(sidecar_id));
        proof {
            lemma_candidates_without(before, None, Some(sidecar_id));
        }
        self.candidates = kept;
    }
}

impl Default for ReconciliationCoordinator {
    fn default() -> (c: ReconciliationCoordinator)
        ensures
            c@.len() == 0,
    {
        ReconciliationCoordinator::new()
    }
}

fn position_of(v: &Vec<u128>, x: u128) -> (r: Option<usize>)
    ensures
        match r {
            Some(i) => i < v@.len() && v@[i as int] == x,
            None => !v@.contains(x),
        },
{
    let mut i: usize = 0;
    while i < v.len()
        invariant
            i <= v@.len(),
            forall|j: int| 0 <= j < i ==> v@[j] != x,
        decreases v@.len() - i,
    {
        if v[i] == x {
            return Some(i);
        }
        i = i + 1;
    }
    None
}


} // verus!
