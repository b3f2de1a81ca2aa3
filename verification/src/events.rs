//! Folding raw filesystem change events into a deterministic batch.
//!
//! Paths are compared as `PathBuf` compares them: component by component. A batch keeps
//! the moves first, ordered by their endpoints, then one change per path, ordered by path.
use std::time::Duration;

use vstd::prelude::*;

use crate::platform::NativeComponent;
use crate::query_model::strs;
use crate::text::{chars_of, eq_literal, has_prefix, has_suffix, lower_chars, lower_seq, slice_eq, string_from, strip_literal, strip_literal_suffix};

verus! {

#[derive(Debug, Clone, Copy, PartialEq, Eq, Structural, PartialOrd, Ord)]
pub enum FsChangeKind {
    Create,
    Modify,
    Move,
    Delete,
    RescanRequired,
}

#[derive(Debug, Clone, Copy, PartialEq, Eq, Structural)]
pub enum FsRescanReason {
    AmbiguousRename,
    BatchOverflow,
    ChannelDisconnected,
    OutOfScope,
    UnknownEvent,
    WatcherError,
}

#[derive(Debug, Clone, PartialEq, Eq)]
pub struct FsChange {
    pub kind: FsChangeKind,
    pub paths: Vec<String>,
    pub reason: Option<FsRescanReason>,
}

#[derive(Debug, Clone, PartialEq, Eq)]
pub struct FsChangeBatch {
    pub root: String,
    pub changes: Vec<FsChange>,
    pub raw_event_count: usize,
}

impl FsChangeBatch {
    /// Whether the batch asks for a consistency scan of its root.
    pub fn requires_rescan(&self) -> (r: bool)
        ensures
            r == exists|i: int| 0 <= i < self.changes@.len() && (#[trigger] self.changes@[i]).kind == FsChangeKind::RescanRequired,
    {
        let mut i: usize = 0;
        while i < self.changes.len()
            invariant
                i <= self.changes@.len(),
                forall|j: int| 0 <= j < i ==> (#[trigger] self.changes@[j]).kind != FsChangeKind::RescanRequired,
            decreases self.changes@.len() - i,
        {
            if self.changes[i].kind == FsChangeKind::RescanRequired {
                return true;
            }
            i = i + 1;
        }
        false
    }
}

/// `Duration::from_millis`. Nothing is claimed of the duration beyond its construction.
#[verifier::external_body]
fn millis(ms: u64) -> (d: Duration) {
    Duration::from_millis(ms)
}

/// How long a watcher waits for events to settle, how long a batch may take, and how many
/// raw events it may hold.
#[derive(Debug, Clone, Copy)]
pub struct WatchOptions {
    pub settle_time: Duration,
    pub max_batch_latency: Duration,
    pub max_batch_events: usize,
}

impl Default for WatchOptions {
    /// 120 ms to settle, 750 ms per batch, 4096 raw events per batch.
    fn default() -> (o: WatchOptions)
        ensures
            o.max_batch_events == 4096,
    {
        WatchOptions { settle_time: millis(120), max_batch_latency: millis(750), max_batch_events: 4096 }
    }
}

/// A path as text together with its parsed components and whether it is absolute.
#[derive(Debug, Clone)]
pub struct ParsedPath {
    pub text: String,
    pub components: Vec<NativeComponent>,
    pub absolute: bool,
}

/// A component as a variant rank and its text, ranked as `std::path::Component` orders
/// its variants.
pub open spec fn component_key(c: NativeComponent) -> (int, Seq<char>) {
    match c {
        NativeComponent::Prefix(p) => (0, p@),
        NativeComponent::RootDir => (1, seq![]),
        NativeComponent::CurDir => (2, seq![]),
        NativeComponent::ParentDir => (3, seq![]),
        NativeComponent::Normal(v) => (4, v@),
    }
}

pub open spec fn path_key(cs: Seq<NativeComponent>) -> Seq<(int, Seq<char>)> {
    cs.map_values(|c: NativeComponent| component_key(c))
}

/// Lexicographic order of texts by scalar value (the order of their UTF-8 bytes).
pub open spec fn text_less(a: Seq<char>, b: Seq<char>) -> bool
    decreases a.len(),
{
    if a.len() == 0 {
        b.len() > 0
    } else if b.len() == 0 {
        false
    } else if a[0] != b[0] {
        a[0] < b[0]
    } else {
        text_less(a.drop_first(), b.drop_first())
    }
}

pub open spec fn component_less(a: (int, Seq<char>), b: (int, Seq<char>)) -> bool {
    a.0 < b.0 || (a.0 == b.0 && text_less(a.1, b.1))
}

/// Lexicographic order of paths by component.
pub open spec fn key_less(a: Seq<(int, Seq<char>)>, b: Seq<(int, Seq<char>)>) -> bool
    decreases a.len(),
{
    if a.len() == 0 {
        b.len() > 0
    } else if b.len() == 0 {
        false
    } else if a[0] != b[0] {
        component_less(a[0], b[0])
    } else {
        key_less(a.drop_first(), b.drop_first())
    }
}

/// The result of comparing two values.
#[derive(Debug, Clone, Copy, PartialEq, Eq, Structural)]
pub enum Order3 {
    Before,
    Same,
    After,
}

pub proof fn lemma_text_less_irreflexive(a: Seq<char>)
    ensures
        !text_less(a, a),
    decreases a.len(),
{
    if a.len() > 0 {
        lemma_text_less_irreflexive(a.drop_first());
    }
}

pub proof fn lemma_key_less_irreflexive(a: Seq<(int, Seq<char>)>)
    ensures
        !key_less(a, a),
    decreases a.len(),
{
    if a.len() > 0 {
        lemma_key_less_irreflexive(a.drop_first());
    }
}

pub(crate) fn compare_text(a: &[char], b: &[char]) -> (r: Order3)
    ensures
        r == Order3::Same <==> a@ == b@,
        r == Order3::Before <==> text_less(a@, b@),
{
    let mut i: usize = 0;
    assert(a@.subrange(0, a@.len() as int) =~= a@);
    assert(b@.subrange(0, b@.len() as int) =~= b@);
    while i < a.len() && i < b.len() && a[i] == b[i]
        invariant
            i <= a@.len(),
            i <= b@.len(),
            a@.subrange(0, i as int) == b@.subrange(0, i as int),
            text_less(a@, b@) == text_less(a@.subrange(i as int, a@.len() as int), b@.subrange(i as int, b@.len() as int)),
        decreases a@.len() - i,
    {
        let ghost x = a@.subrange(i as int, a@.len() as int);
        let ghost y = b@.subrange(i as int, b@.len() as int);
        assert(x.drop_first() =~= a@.subrange(i + 1, a@.len() as int));
        assert(y.drop_first() =~= b@.subrange(i + 1, b@.len() as int));
        assert(a@.subrange(0, i + 1) =~= a@.subrange(0, i as int).push(a@[i as int]));
        assert(b@.subrange(0, i + 1) =~= b@.subrange(0, i as int).push(b@[i as int]));
        i = i + 1;
    }
    let ghost x = a@.subrange(i as int, a@.len() as int);
    let ghost y = b@.subrange(i as int, b@.len() as int);
    if i == a.len() && i == b.len() {
        assert(a@ =~= a@.subrange(0, i as int));
        assert(b@ =~= b@.subrange(0, i as int));
        proof {
            lemma_text_less_irreflexive(a@);
        }
        Order3::Same
    } else if i == a.len() {
        assert(a@ != b@);
        Order3::Before
    } else if i == b.len() {
        assert(a@.len() != b@.len());
        Order3::After
    } else {
        assert(a@[i as int] != b@[i as int]);
        assert(x[0] == a@[i as int] && y[0] == b@[i as int]);
        if a[i] < b[i] {
            Order3::Before
        } else {
            Order3::After
        }
    }
}

fn component_key_exec(c: &NativeComponent) -> (r: (u8, Vec<char>))
    ensures
        r.0 as int == component_key(*c).0,
        r.1@ == component_key(*c).1,
{
    match c {
        NativeComponent::Prefix(p) => (0, crate::text::subslice(p, 0, p.len())),
        NativeComponent::RootDir => (1, Vec::new()),
        NativeComponent::CurDir => (2, Vec::new()),
        NativeComponent::ParentDir => (3, Vec::new()),
        NativeComponent::Normal(v) => (4, crate::text::subslice(v, 0, v.len())),
    }
}

fn compare_component(a: &NativeComponent, b: &NativeComponent) -> (r: Order3)
    ensures
        r == Order3::Same <==> component_key(*a) == component_key(*b),
        r == Order3::Before <==> component_less(component_key(*a), component_key(*b)),
{
    let (ta, xa) = component_key_exec(a);
    let (tb, xb) = component_key_exec(b);
    assert(component_key(*a).1 =~= component_key(*a).1.subrange(0, component_key(*a).1.len() as int));
    assert(component_key(*b).1 =~= component_key(*b).1.subrange(0, component_key(*b).1.len() as int));
    if ta < tb {
        Order3::Before
    } else if ta > tb {
        Order3::After
    } else {
        compare_text(&xa, &xb)
    }
}

/// Compares two paths component by component.
pub fn compare_paths(a: &Vec<NativeComponent>, b: &Vec<NativeComponent>) -> (r: Order3)
    ensures
        r == Order3::Same <==> path_key(a@) == path_key(b@),
        r == Order3::Before <==> key_less(path_key(a@), path_key(b@)),
{
    let ghost ka = path_key(a@);
    let ghost kb = path_key(b@);
    let mut i: usize = 0;
    assert(ka.subrange(0, ka.len() as int) =~= ka);
    assert(kb.subrange(0, kb.len() as int) =~= kb);
    while i < a.len() && i < b.len()
        invariant
            i <= a@.len(),
            i <= b@.len(),
            ka == path_key(a@),
            kb == path_key(b@),
            ka.subrange(0, i as int) == kb.subrange(0, i as int),
            key_less(ka, kb) == key_less(ka.subrange(i as int, ka.len() as int), kb.subrange(i as int, kb.len() as int)),
        decreases a@.len() - i,
    {
        let c = compare_component(&a[i], &b[i]);
        assert(ka[i as int] == component_key(a@[i as int]));
        assert(kb[i as int] == component_key(b@[i as int]));
        let ghost x = ka.subrange(i as int, ka.len() as int);
        let ghost y = kb.subrange(i as int, kb.len() as int);
        assert(x[0] == ka[i as int] && y[0] == kb[i as int]);
        match c {
            Order3::Same => {},
            Order3::Before => {
                assert(ka != kb) by {
                    if ka == kb {
                        assert(ka[i as int] == kb[i as int]);
                    }
                }
                return Order3::Before;
            },
            Order3::After => {
                assert(ka != kb) by {
                    if ka == kb {
                        assert(ka[i as int] == kb[i as int]);
                    }
                }
                return Order3::After;
            },
        }
        assert(x.drop_first() =~= ka.subrange(i + 1, ka.len() as int));
        assert(y.drop_first() =~= kb.subrange(i + 1, kb.len() as int));
        assert(ka.subrange(0, i + 1) =~= ka.subrange(0, i as int).push(ka[i as int]));
        assert(kb.subrange(0, i + 1) =~= kb.subrange(0, i as int).push(kb[i as int]));
        i = i + 1;
    }
    if i == a.len() && i == b.len() {
        assert(ka =~= ka.subrange(0, i as int));
        assert(kb =~= kb.subrange(0, i as int));
        proof {
            lemma_key_less_irreflexive(ka);
        }
        Order3::Same
    } else if i == a.len() {
        assert(ka.len() != kb.len());
        Order3::Before
    } else {
        assert(ka.len() != kb.len());
        Order3::After
    }
}

/// A parsed path as plain values: its text, its component key, and whether it is absolute.
pub struct PathModel {
    pub text: Seq<char>,
    pub key: Seq<(int, Seq<char>)>,
    pub absolute: bool,
}

pub open spec fn path_model(p: ParsedPath) -> PathModel {
    PathModel { text: p.text@, key: path_key(p.components@), absolute: p.absolute }
}

pub open spec fn seq_prefix<T>(p: Seq<T>, s: Seq<T>) -> bool {
    p.len() <= s.len() && s.subrange(0, p.len() as int) == p
}

/// Inside the authorized root: absolute, without `..`, and starting with the root's
/// components.
pub open spec fn in_root(root: PathModel, p: PathModel) -> bool {
    &&& p.absolute
    &&& forall|i: int| 0 <= i < p.key.len() ==> (#[trigger] p.key[i]).0 != 3
    &&& seq_prefix(root.key, p.key)
}

/// A file name that editors and downloaders use for transient files, ignoring ASCII case.
pub open spec fn temporary_name(name: Seq<char>) -> bool {
    let l = lower_seq(name);
    ||| has_prefix(l, ".tmp"@)
    ||| has_prefix(l, "~$"@)
    ||| (l.len() > 0 && l.last() == '~')
    ||| has_suffix(l, ".tmp"@)
    ||| has_suffix(l, ".temp"@)
    ||| has_suffix(l, ".part"@)
    ||| has_suffix(l, ".crdownload"@)
    ||| has_suffix(l, ".download"@)
    ||| has_suffix(l, ".swp"@)
    ||| has_suffix(l, ".swx"@)
}

/// A path whose file name (its last component, when that is a normal one) is temporary.
pub open spec fn temporary(p: PathModel) -> bool {
    p.key.len() > 0 && p.key.last().0 == 4 && temporary_name(p.key.last().1)
}

/// How a path's pending change folds with the next one; `None` cancels it.
pub open spec fn fold_kind(previous: Option<FsChangeKind>, next: FsChangeKind) -> Option<FsChangeKind> {
    match previous {
        None => Some(next),
        Some(FsChangeKind::Create) => if next == FsChangeKind::Delete {
            None
        } else {
            Some(FsChangeKind::Create)
        },
        Some(FsChangeKind::Modify) => if next == FsChangeKind::Create {
            Some(FsChangeKind::Create)
        } else if next == FsChangeKind::Delete {
            Some(FsChangeKind::Delete)
        } else {
            Some(FsChangeKind::Modify)
        },
        Some(FsChangeKind::Delete) => if next == FsChangeKind::Create || next == FsChangeKind::Modify {
            Some(FsChangeKind::Modify)
        } else {
            Some(FsChangeKind::Delete)
        },
        Some(_) => Some(next),
    }
}

/// The pending kind of one path after its point changes in a batch, in order: each change
/// folded into what is pending, starting from nothing.
pub open spec fn kinds_folded(ks: Seq<FsChangeKind>) -> Option<FsChangeKind>
    decreases ks.len(),
{
    if ks.len() == 0 {
        None
    } else {
        fold_kind(kinds_folded(ks.drop_last()), ks.last())
    }
}

/// Every change is a creation, a modification or a deletion.
pub open spec fn point_kinds(ks: Seq<FsChangeKind>) -> bool {
    forall|i: int| 0 <= i < ks.len() ==> kind_ok(#[trigger] ks[i])
}

/// How the point changes of one path in a batch fold, for every sequence of them:
/// - with no creation among them, the batch reports the last change (an edit then a
///   deletion is a deletion; a deletion then an edit is an edit);
/// - a deletion is reported only when the last change deletes the path, and a last
///   deletion is reported as a deletion or, when the path was created within the batch,
///   not at all;
/// - nothing is reported only when the last change deletes a path that some change of the
///   batch created;
/// - a path created first and never deleted in the batch is reported as created.
pub proof fn lemma_point_changes_fold(ks: Seq<FsChangeKind>)
    requires
        point_kinds(ks),
    ensures
        ks.len() > 0 && (forall|i: int| 0 <= i < ks.len() ==> #[trigger] ks[i] != FsChangeKind::Create) ==> kinds_folded(ks)
            == Some(ks.last()),
        kinds_folded(ks) == Some(FsChangeKind::Delete) ==> ks.len() > 0 && ks.last() == FsChangeKind::Delete,
        ks.len() > 0 && ks.last() == FsChangeKind::Delete ==> kinds_folded(ks) is None || kinds_folded(ks) == Some(
            FsChangeKind::Delete,
        ),
        ks.len() > 0 && kinds_folded(ks) is None ==> ks.last() == FsChangeKind::Delete && exists|i: int|
            0 <= i < ks.len() && #[trigger] ks[i] == FsChangeKind::Create,
        kinds_folded(ks) matches Some(k) ==> kind_ok(k),
        kinds_folded(ks) == Some(FsChangeKind::Create) ==> exists|i: int|
            0 <= i < ks.len() && #[trigger] ks[i] == FsChangeKind::Create,
        ks.len() > 0 && ks[0] == FsChangeKind::Create && (forall|i: int| 0 <= i < ks.len() ==> #[trigger] ks[i]
            != FsChangeKind::Delete) ==> kinds_folded(ks) == Some(FsChangeKind::Create),
    decreases ks.len(),
{
    if ks.len() > 0 {
        let d = ks.drop_last();
        assert(point_kinds(d)) by {
            assert forall|i: int| 0 <= i < d.len() implies kind_ok(#[trigger] d[i]) by {
                assert(d[i] == ks[i]);
            }
        }
        lemma_point_changes_fold(d);
        assert(kind_ok(ks[ks.len() - 1]));
        if forall|i: int| 0 <= i < ks.len() ==> #[trigger] ks[i] != FsChangeKind::Create {
            assert forall|i: int| 0 <= i < d.len() implies #[trigger] d[i] != FsChangeKind::Create by {
                assert(d[i] == ks[i]);
            }
            if d.len() > 0 {
                assert(d.last() == ks[d.len() - 1]);
            }
            assert(ks.last() != FsChangeKind::Create);
        }
        if ks[0] == FsChangeKind::Create && (forall|i: int| 0 <= i < ks.len() ==> #[trigger] ks[i] != FsChangeKind::Delete) {
            assert forall|i: int| 0 <= i < d.len() implies #[trigger] d[i] != FsChangeKind::Delete by {
                assert(d[i] == ks[i]);
            }
            if d.len() > 0 {
                assert(d[0] == ks[0]);
            }
            assert(ks[ks.len() - 1] != FsChangeKind::Delete);
        }
        if kinds_folded(d) == Some(FsChangeKind::Create) {
            let i = choose|i: int| 0 <= i < d.len() && #[trigger] d[i] == FsChangeKind::Create;
            assert(ks[i] == d[i]);
        }
        if ks.last() == FsChangeKind::Create {
            assert(ks[ks.len() - 1] == FsChangeKind::Create);
        }
    }
}

pub struct PointModel {
    pub key: Seq<(int, Seq<char>)>,
    pub text: Seq<char>,
    pub kind: FsChangeKind,
}

pub struct MoveModel {
    pub from_key: Seq<(int, Seq<char>)>,
    pub from_text: Seq<char>,
    pub to_key: Seq<(int, Seq<char>)>,
    pub to_text: Seq<char>,
}

/// The first index from `i` on whose key is not below `key`: where `key` is found or goes.
pub open spec fn point_position(s: Seq<PointModel>, key: Seq<(int, Seq<char>)>, i: int) -> int
    decreases s.len() - i,
{
    if i >= s.len() {
        s.len() as int
    } else if key_less(s[i].key, key) {
        point_position(s, key, i + 1)
    } else {
        i
    }
}

pub open spec fn point_lookup(s: Seq<PointModel>, key: Seq<(int, Seq<char>)>) -> Option<FsChangeKind> {
    let i = point_position(s, key, 0);
    if i < s.len() && s[i].key == key {
        Some(s[i].kind)
    } else {
        None
    }
}

/// Stores `kind` for the path: an existing entry keeps its text, a new one goes in order.
pub open spec fn point_upsert(s: Seq<PointModel>, p: PathModel, kind: FsChangeKind) -> Seq<PointModel> {
    let i = point_position(s, p.key, 0);
    if i < s.len() && s[i].key == p.key {
        s.update(i, PointModel { key: p.key, text: s[i].text, kind })
    } else {
        s.insert(i, PointModel { key: p.key, text: p.text, kind })
    }
}

pub open spec fn point_remove(s: Seq<PointModel>, key: Seq<(int, Seq<char>)>) -> Seq<PointModel> {
    let i = point_position(s, key, 0);
    if i < s.len() && s[i].key == key {
        s.remove(i)
    } else {
        s
    }
}

/// One change of one path folded into the pending changes.
pub open spec fn apply_point(s: Seq<PointModel>, p: PathModel, next: FsChangeKind) -> Seq<PointModel> {
    match fold_kind(point_lookup(s, p.key), next) {
        Some(k) => point_upsert(s, p, k),
        None => point_remove(s, p.key),
    }
}

pub open spec fn move_less(a: MoveModel, from_key: Seq<(int, Seq<char>)>, to_key: Seq<(int, Seq<char>)>) -> bool {
    key_less(a.from_key, from_key) || (a.from_key == from_key && key_less(a.to_key, to_key))
}

pub open spec fn move_position(s: Seq<MoveModel>, from_key: Seq<(int, Seq<char>)>, to_key: Seq<(int, Seq<char>)>, i: int) -> int
    decreases s.len() - i,
{
    if i >= s.len() {
        s.len() as int
    } else if move_less(s[i], from_key, to_key) {
        move_position(s, from_key, to_key, i + 1)
    } else {
        i
    }
}

/// Adds a move once, in order of its endpoints.
pub open spec fn move_insert(s: Seq<MoveModel>, from: PathModel, to: PathModel) -> Seq<MoveModel> {
    let i = move_position(s, from.key, to.key, 0);
    if i < s.len() && s[i].from_key == from.key && s[i].to_key == to.key {
        s
    } else {
        s.insert(i, MoveModel { from_key: from.key, from_text: from.text, to_key: to.key, to_text: to.text })
    }
}

pub struct ChangeModel {
    pub kind: FsChangeKind,
    pub paths: Seq<PathModel>,
    pub reason: Option<FsRescanReason>,
}

/// A change of a path list folded path by path, skipping temporary paths.
pub open spec fn apply_paths(s: Seq<PointModel>, ps: Seq<PathModel>, kind: FsChangeKind, n: int) -> Seq<PointModel>
    decreases n,
{
    if n <= 0 {
        s
    } else {
        let prior = apply_paths(s, ps, kind, n - 1);
        if temporary(ps[n - 1]) {
            prior
        } else {
            apply_point(prior, ps[n - 1], kind)
        }
    }
}

/// One change folded into the pending moves and point changes, or the reason the whole
/// batch needs a rescan.
pub open spec fn fold_change(root: PathModel, st: (Seq<MoveModel>, Seq<PointModel>), c: ChangeModel) -> Result<
    (Seq<MoveModel>, Seq<PointModel>),
    FsRescanReason,
> {
    let (moves, points) = st;
    if c.paths.len() == 0 {
        Err(FsRescanReason::UnknownEvent)
    } else if exists|i: int| 0 <= i < c.paths.len() && !in_root(root, #[trigger] c.paths[i]) {
        Err(FsRescanReason::OutOfScope)
    } else if c.kind == FsChangeKind::Move {
        if c.paths.len() != 2 {
            Err(FsRescanReason::AmbiguousRename)
        } else {
            let from = c.paths[0];
            let to = c.paths[1];
            if temporary(from) && temporary(to) {
                Ok((moves, points))
            } else if temporary(from) {
                Ok((moves, apply_point(points, to, FsChangeKind::Modify)))
            } else if temporary(to) {
                Ok((moves, apply_point(points, from, FsChangeKind::Delete)))
            } else {
                Ok((move_insert(moves, from, to), point_remove(point_remove(points, from.key), to.key)))
            }
        }
    } else {
        Ok((moves, apply_paths(points, c.paths, c.kind, c.paths.len() as int)))
    }
}

pub open spec fn fold_changes(root: PathModel, cs: Seq<ChangeModel>, n: int) -> Result<
    (Seq<MoveModel>, Seq<PointModel>),
    FsRescanReason,
>
    decreases n,
{
    if n <= 0 {
        Ok((seq![], seq![]))
    } else {
        match fold_changes(root, cs, n - 1) {
            Err(r) => Err(r),
            Ok(st) => fold_change(root, st, cs[n - 1]),
        }
    }
}

/// The reason of the first change that already asks for a rescan, if any.
pub open spec fn first_rescan(cs: Seq<ChangeModel>, i: int) -> Option<FsRescanReason>
    decreases cs.len() - i,
{
    if i >= cs.len() {
        None
    } else if cs[i].kind == FsChangeKind::RescanRequired {
        Some(
            match cs[i].reason {
                Some(r) => r,
                None => FsRescanReason::UnknownEvent,
            },
        )
    } else {
        first_rescan(cs, i + 1)
    }
}

/// A change as it leaves a batch.
pub struct ChangeOut {
    pub kind: FsChangeKind,
    pub paths: Seq<Seq<char>>,
    pub reason: Option<FsRescanReason>,
}

pub struct BatchModel {
    pub root: Seq<char>,
    pub changes: Seq<ChangeOut>,
    pub raw_event_count: nat,
}

pub open spec fn change_out(c: FsChange) -> ChangeOut {
    ChangeOut { kind: c.kind, paths: strs(c.paths@), reason: c.reason }
}

pub open spec fn batch_model(b: FsChangeBatch) -> BatchModel {
    BatchModel {
        root: b.root@,
        changes: b.changes@.map_values(|c: FsChange| change_out(c)),
        raw_event_count: b.raw_event_count as nat,
    }
}

/// A batch that asks only for a rescan of its root.
pub open spec fn rescan_model(root: Seq<char>, reason: FsRescanReason, raw: nat) -> BatchModel {
    BatchModel {
        root,
        changes: seq![ChangeOut { kind: FsChangeKind::RescanRequired, paths: seq![root], reason: Some(reason) }],
        raw_event_count: raw,
    }
}

pub open spec fn move_out(m: MoveModel) -> ChangeOut {
    ChangeOut { kind: FsChangeKind::Move, paths: seq![m.from_text, m.to_text], reason: None }
}

pub open spec fn point_out(p: PointModel) -> ChangeOut {
    ChangeOut { kind: p.kind, paths: seq![p.text], reason: None }
}

pub open spec fn change_model(c: ParsedChange) -> ChangeModel {
    ChangeModel { kind: c.kind, paths: c.paths@.map_values(|p: ParsedPath| path_model(p)), reason: c.reason }
}

pub open spec fn change_models(cs: Seq<ParsedChange>) -> Seq<ChangeModel> {
    cs.map_values(|c: ParsedChange| change_model(c))
}

/// The batch of a list of changes: a rescan when one of them asks for it or cannot be
/// applied incrementally, otherwise the moves then the point changes, each in path order.
pub open spec fn coalesce_spec(root: PathModel, cs: Seq<ChangeModel>, raw: nat) -> BatchModel {
    match first_rescan(cs, 0) {
        Some(reason) => rescan_model(root.text, reason, raw),
        None => match fold_changes(root, cs, cs.len() as int) {
            Err(reason) => rescan_model(root.text, reason, raw),
            Ok((moves, points)) => BatchModel {
                root: root.text,
                changes: moves.map_values(|m: MoveModel| move_out(m)) + points.map_values(|p: PointModel| point_out(p)),
                raw_event_count: raw,
            },
        },
    }
}

/// A change whose paths are parsed.
#[derive(Debug, Clone)]
pub struct ParsedChange {
    pub kind: FsChangeKind,
    pub paths: Vec<ParsedPath>,
    pub reason: Option<FsRescanReason>,
}

fn copy_text(t: &String) -> (r: String)
    ensures
        r@ == t@,
{
    string_from(&chars_of(t.as_str()))
}

fn copy_components(cs: &Vec<NativeComponent>) -> (r: Vec<NativeComponent>)
    ensures
        path_key(r@) == path_key(cs@),
{
    let mut r: Vec<NativeComponent> = Vec::new();
    let mut i: usize = 0;
    while i < cs.len()
        invariant
            i <= cs@.len(),
            path_key(r@) == path_key(cs@.subrange(0, i as int)),
        decreases cs@.len() - i,
    {
        let c = match &cs[i] {
            NativeComponent::Prefix(p) => NativeComponent::Prefix(crate::text::subslice(p, 0, p.len())),
            NativeComponent::RootDir => NativeComponent::RootDir,
            NativeComponent::CurDir => NativeComponent::CurDir,
            NativeComponent::ParentDir => NativeComponent::ParentDir,
            NativeComponent::Normal(v) => NativeComponent::Normal(crate::text::subslice(v, 0, v.len())),
        };
        assert(component_key(c) == component_key(cs@[i as int])) by {
            match cs@[i as int] {
                NativeComponent::Prefix(p) => {
                    assert(p@.subrange(0, p@.len() as int) =~= p@);
                },
                NativeComponent::Normal(v) => {
                    assert(v@.subrange(0, v@.len() as int) =~= v@);
                },
                _ => {},
            }
        }
        let ghost prior = r@;
        r.push(c);
        assert(path_key(r@) =~= path_key(prior).push(component_key(c)));
        assert(path_key(cs@.subrange(0, i + 1)) =~= path_key(cs@.subrange(0, i as int)).push(
            component_key(cs@[i as int]),
        ));
        i = i + 1;
    }
    assert(cs@.subrange(0, cs@.len() as int) =~= cs@);
    r
}

fn copy_path(p: &ParsedPath) -> (r: ParsedPath)
    ensures
        path_model(r) == path_model(*p),
{
    ParsedPath { text: copy_text(&p.text), components: copy_components(&p.components), absolute: p.absolute }
}

/// A pending change of one path.
#[derive(Debug, Clone)]
pub struct PointEntry {
    pub path: ParsedPath,
    pub kind: FsChangeKind,
}

/// A pending move.
#[derive(Debug, Clone)]
pub struct MoveEntry {
    pub from: ParsedPath,
    pub to: ParsedPath,
}

pub open spec fn point_model(e: PointEntry) -> PointModel {
    PointModel { key: path_key(e.path.components@), text: e.path.text@, kind: e.kind }
}

pub open spec fn point_models(s: Seq<PointEntry>) -> Seq<PointModel> {
    s.map_values(|e: PointEntry| point_model(e))
}

pub open spec fn move_model(e: MoveEntry) -> MoveModel {
    MoveModel {
        from_key: path_key(e.from.components@),
        from_text: e.from.text@,
        to_key: path_key(e.to.components@),
        to_text: e.to.text@,
    }
}

pub open spec fn move_models(s: Seq<MoveEntry>) -> Seq<MoveModel> {
    s.map_values(|e: MoveEntry| move_model(e))
}

fn point_position_exec(s: &Vec<PointEntry>, key: &Vec<NativeComponent>) -> (r: usize)
    ensures
        r as int == point_position(point_models(s@), path_key(key@), 0),
        r <= s@.len(),
{
    let ghost m = point_models(s@);
    let ghost k = path_key(key@);
    let mut i: usize = 0;
    while i < s.len()
        invariant
            i <= s@.len(),
            m == point_models(s@),
            k == path_key(key@),
            point_position(m, k, 0) == point_position(m, k, i as int),
        decreases s@.len() - i,
    {
        assert(m[i as int] == point_model(s@[i as int]));
        if compare_paths(&s[i].path.components, key) != Order3::Before {
            return i;
        }
        i = i + 1;
    }
    i
}

fn point_lookup_exec(s: &Vec<PointEntry>, key: &Vec<NativeComponent>) -> (r: Option<FsChangeKind>)
    ensures
        r == point_lookup(point_models(s@), path_key(key@)),
{
    let i = point_position_exec(s, key);
    if i < s.len() && compare_paths(&s[i].path.components, key) == Order3::Same {
        assert(point_models(s@)[i as int] == point_model(s@[i as int]));
        Some(s[i].kind)
    } else {
        proof {
            if (i as int) < s@.len() {
                assert(point_models(s@)[i as int] == point_model(s@[i as int]));
            }
        }
        None
    }
}

fn point_upsert_exec(s: &mut Vec<PointEntry>, p: &ParsedPath, kind: FsChangeKind)
    ensures
        point_models(final(s)@) == point_upsert(point_models(old(s)@), path_model(*p), kind),
{
    let ghost m = point_models(s@);
    let i = point_position_exec(s, &p.components);
    if i < s.len() && compare_paths(&s[i].path.components, &p.components) == Order3::Same {
        assert(m[i as int] == point_model(s@[i as int]));
        let kept = copy_path(&s[i].path);
        s.set(i, PointEntry { path: kept, kind });
        assert(point_models(s@) =~= m.update(i as int, PointModel { key: path_model(*p).key, text: m[i as int].text, kind }));
    } else {
        proof {
            if (i as int) < s@.len() {
                assert(m[i as int] == point_model(s@[i as int]));
            }
        }
        let entry = PointEntry { path: copy_path(p), kind };
        s.insert(i, entry);
        assert(point_models(s@) =~= m.insert(i as int, point_model(entry)));
    }
}

fn point_remove_exec(s: &mut Vec<PointEntry>, key: &Vec<NativeComponent>)
    ensures
        point_models(final(s)@) == point_remove(point_models(old(s)@), path_key(key@)),
{
    let ghost m = point_models(s@);
    let i = point_position_exec(s, key);
    if i < s.len() && compare_paths(&s[i].path.components, key) == Order3::Same {
        assert(m[i as int] == point_model(s@[i as int]));
        s.remove(i);
        assert(point_models(s@) =~= m.remove(i as int));
    } else {
        proof {
            if (i as int) < s@.len() {
                assert(m[i as int] == point_model(s@[i as int]));
            }
        }
    }
}

fn fold_kind_exec(previous: Option<FsChangeKind>, next: FsChangeKind) -> (r: Option<FsChangeKind>)
    ensures
        r == fold_kind(previous, next),
{
    match previous {
        None => Some(next),
        Some(FsChangeKind::Create) => if next == FsChangeKind::Delete {
            None
        } else {
            Some(FsChangeKind::Create)
        },
        Some(FsChangeKind::Modify) => if next == FsChangeKind::Create {
            Some(FsChangeKind::Create)
        } else if next == FsChangeKind::Delete {
            Some(FsChangeKind::Delete)
        } else {
            Some(FsChangeKind::Modify)
        },
        Some(FsChangeKind::Delete) => if next == FsChangeKind::Create || next == FsChangeKind::Modify {
            Some(FsChangeKind::Modify)
        } else {
            Some(FsChangeKind::Delete)
        },
        Some(_) => Some(next),
    }
}

fn apply_point_change(s: &mut Vec<PointEntry>, p: &ParsedPath, next: FsChangeKind)
    ensures
        point_models(final(s)@) == apply_point(point_models(old(s)@), path_model(*p), next),
{
    let previous = point_lookup_exec(s, &p.components);
    match fold_kind_exec(previous, next) {
        Some(k) => point_upsert_exec(s, p, k),
        None => point_remove_exec(s, &p.components),
    }
}

fn compare_move(m: &MoveEntry, from: &ParsedPath, to: &ParsedPath) -> (r: Order3)
    ensures
        r == Order3::Before <==> move_less(move_model(*m), path_model(*from).key, path_model(*to).key),
        r == Order3::Same <==> (move_model(*m).from_key == path_model(*from).key && move_model(*m).to_key
            == path_model(*to).key),
{
    match compare_paths(&m.from.components, &from.components) {
        Order3::Before => {
            Order3::Before
        },
        Order3::After => {
            proof {
                lemma_key_less_irreflexive(path_key(from.components@));
            }
            Order3::After
        },
        Order3::Same => compare_paths(&m.to.components, &to.components),
    }
}

fn move_position_exec(s: &Vec<MoveEntry>, from: &ParsedPath, to: &ParsedPath) -> (r: usize)
    ensures
        r as int == move_position(move_models(s@), path_model(*from).key, path_model(*to).key, 0),
        r <= s@.len(),
{
    let ghost m = move_models(s@);
    let ghost fk = path_model(*from).key;
    let ghost tk = path_model(*to).key;
    let mut i: usize = 0;
    while i < s.len()
        invariant
            i <= s@.len(),
            m == move_models(s@),
            fk == path_model(*from).key,
            tk == path_model(*to).key,
            move_position(m, fk, tk, 0) == move_position(m, fk, tk, i as int),
        decreases s@.len() - i,
    {
        assert(m[i as int] == move_model(s@[i as int]));
        if compare_move(&s[i], from, to) != Order3::Before {
            return i;
        }
        i = i + 1;
    }
    i
}

fn move_insert_exec(s: &mut Vec<MoveEntry>, from: &ParsedPath, to: &ParsedPath)
    ensures
        move_models(final(s)@) == move_insert(move_models(old(s)@), path_model(*from), path_model(*to)),
{
    let ghost m = move_models(s@);
    let i = move_position_exec(s, from, to);
    if i < s.len() && compare_move(&s[i], from, to) == Order3::Same {
        assert(m[i as int] == move_model(s@[i as int]));
        return;
    }
    proof {
        if (i as int) < s@.len() {
            assert(m[i as int] == move_model(s@[i as int]));
        }
    }
    let entry = MoveEntry { from: copy_path(from), to: copy_path(to) };
    s.insert(i, entry);
    assert(move_models(s@) =~= m.insert(i as int, move_model(entry)));
}

fn is_temporary_path(p: &ParsedPath) -> (r: bool)
    ensures
        r == temporary(path_model(*p)),
{
    let ghost k = path_model(*p).key;
    let n = p.components.len();
    if n == 0 {
        return false;
    }
    assert(k.last() == component_key(p.components@[n - 1]));
    let name = match &p.components[n - 1] {
        NativeComponent::Normal(v) => v,
        _ => return false,
    };
    let l = lower_chars(name);
    let last_tilde = l.len() > 0 && l[l.len() - 1] == '~';
    strip_literal(&l, ".tmp").is_some() || strip_literal(&l, "~$").is_some() || last_tilde
        || strip_literal_suffix(&l, ".tmp").is_some() || strip_literal_suffix(&l, ".temp").is_some()
        || strip_literal_suffix(&l, ".part").is_some() || strip_literal_suffix(&l, ".crdownload").is_some()
        || strip_literal_suffix(&l, ".download").is_some() || strip_literal_suffix(&l, ".swp").is_some()
        || strip_literal_suffix(&l, ".swx").is_some()
}

fn is_in_root(root: &ParsedPath, p: &ParsedPath) -> (r: bool)
    ensures
        r == in_root(path_model(*root), path_model(*p)),
{
    let ghost pk = path_model(*p).key;
    let ghost rk = path_model(*root).key;
    if !p.absolute {
        return false;
    }
    let mut i: usize = 0;
    while i < p.components.len()
        invariant
            i <= p.components@.len(),
            pk == path_key(p.components@),
            forall|j: int| 0 <= j < i ==> (#[trigger] pk[j]).0 != 3,
        decreases p.components@.len() - i,
    {
        assert(pk[i as int] == component_key(p.components@[i as int]));
        if let NativeComponent::ParentDir = &p.components[i] {
            return false;
        }
        i = i + 1;
    }
    if root.components.len() > p.components.len() {
        return false;
    }
    let mut j: usize = 0;
    while j < root.components.len()
        invariant
            j <= root.components@.len() <= p.components@.len(),
            pk == path_key(p.components@),
            rk == path_key(root.components@),
            forall|t: int| 0 <= t < j ==> rk[t] == pk[t],
        decreases root.components@.len() - j,
    {
        assert(rk[j as int] == component_key(root.components@[j as int]));
        assert(pk[j as int] == component_key(p.components@[j as int]));
        if compare_component(&root.components[j], &p.components[j]) != Order3::Same {
            assert(pk.subrange(0, rk.len() as int)[j as int] == pk[j as int]);
            return false;
        }
        j = j + 1;
    }
    assert(pk.subrange(0, rk.len() as int) =~= rk);
    true
}

fn rescan_batch(root: &ParsedPath, reason: FsRescanReason, raw: usize) -> (b: FsChangeBatch)
    ensures
        batch_model(b) == rescan_model(root.text@, reason, raw as nat),
{
    let mut paths: Vec<String> = Vec::new();
    paths.push(copy_text(&root.text));
    let change = FsChange { kind: FsChangeKind::RescanRequired, paths, reason: Some(reason) };
    let mut changes: Vec<FsChange> = Vec::new();
    changes.push(change);
    let b = FsChangeBatch { root: copy_text(&root.text), changes, raw_event_count: raw };
    assert(change_out(change).paths =~= seq![root.text@]);
    assert(batch_model(b).changes =~= rescan_model(root.text@, reason, raw as nat).changes);
    b
}

pub proof fn lemma_fold_changes_stays(root: PathModel, cs: Seq<ChangeModel>, i: int, n: int)
    requires
        i <= n,
        fold_changes(root, cs, i) is Err,
    ensures
        fold_changes(root, cs, n) == fold_changes(root, cs, i),
    decreases n,
{
    if n > i {
        lemma_fold_changes_stays(root, cs, i, n - 1);
    }
}

pub proof fn lemma_first_rescan_none(cs: Seq<ChangeModel>, i: int)
    requires
        0 <= i <= cs.len(),
        forall|j: int| i <= j < cs.len() ==> (#[trigger] cs[j]).kind != FsChangeKind::RescanRequired,
    ensures
        first_rescan(cs, i) is None,
    decreases cs.len() - i,
{
    if i < cs.len() {
        lemma_first_rescan_none(cs, i + 1);
    }
}

pub proof fn lemma_first_rescan_at(cs: Seq<ChangeModel>, i: int, k: int)
    requires
        0 <= i <= k < cs.len(),
        forall|j: int| i <= j < k ==> (#[trigger] cs[j]).kind != FsChangeKind::RescanRequired,
        cs[k].kind == FsChangeKind::RescanRequired,
    ensures
        first_rescan(cs, i) == Some(
            match cs[k].reason {
                Some(r) => r,
                None => FsRescanReason::UnknownEvent,
            },
        ),
    decreases k - i,
{
    if i < k {
        lemma_first_rescan_at(cs, i + 1, k);
    }
}

fn apply_paths_exec(points: &mut Vec<PointEntry>, paths: &Vec<ParsedPath>, kind: FsChangeKind)
    ensures
        point_models(final(points)@) == apply_paths(
            point_models(old(points)@),
            paths@.map_values(|p: ParsedPath| path_model(p)),
            kind,
            paths@.len() as int,
        ),
{
    let ghost ps = paths@.map_values(|p: ParsedPath| path_model(p));
    let ghost start = point_models(points@);
    let mut i: usize = 0;
    while i < paths.len()
        invariant
            i <= paths@.len(),
            ps == paths@.map_values(|p: ParsedPath| path_model(p)),
            start == point_models(old(points)@),
            point_models(points@) == apply_paths(start, ps, kind, i as int),
        decreases paths@.len() - i,
    {
        assert(ps[i as int] == path_model(paths@[i as int]));
        if !is_temporary_path(&paths[i]) {
            apply_point_change(points, &paths[i], kind);
        }
        i = i + 1;
    }
}

/// Folds a raw batch of parsed changes: deduplicated, with atomic-save temporary files folded
/// away, and a rescan of the root when a change asks for one, has no path, leaves the root
/// or is a move without exactly two endpoints.
pub fn coalesce_parsed(root: &ParsedPath, changes: &Vec<ParsedChange>, raw_event_count: usize) -> (b: FsChangeBatch)
    ensures
        batch_model(b) == coalesce_spec(path_model(*root), change_models(changes@), raw_event_count as nat),
{
    let ghost cs = change_models(changes@);
    let ghost rm = path_model(*root);
    let mut i: usize = 0;
    while i < changes.len()
        invariant
            i <= changes@.len(),
            cs == change_models(changes@),
            forall|j: int| 0 <= j < i ==> (#[trigger] cs[j]).kind != FsChangeKind::RescanRequired,
        decreases changes@.len() - i,
    {
        assert(cs[i as int] == change_model(changes@[i as int]));
        if changes[i].kind == FsChangeKind::RescanRequired {
            proof {
                lemma_first_rescan_at(cs, 0, i as int);
            }
            let reason = match changes[i].reason {
                Some(r) => r,
                None => FsRescanReason::UnknownEvent,
            };
            return rescan_batch(root, reason, raw_event_count);
        }
        i = i + 1;
    }
    proof {
        lemma_first_rescan_none(cs, 0);
    }
    let mut moves: Vec<MoveEntry> = Vec::new();
    let mut points: Vec<PointEntry> = Vec::new();
    assert(move_models(moves@) =~= Seq::<MoveModel>::empty());
    assert(point_models(points@) =~= Seq::<PointModel>::empty());
    let mut k: usize = 0;
    while k < changes.len()
        invariant
            k <= changes@.len(),
            cs == change_models(changes@),
            rm == path_model(*root),
            first_rescan(cs, 0) is None,
            fold_changes(rm, cs, k as int) == Ok::<(Seq<MoveModel>, Seq<PointModel>), FsRescanReason>(
                (move_models(moves@), point_models(points@)),
            ),
        decreases changes@.len() - k,
    {
        let c = &changes[k];
        let ghost cm = cs[k as int];
        assert(cm == change_model(changes@[k as int]));
        let ghost st = (move_models(moves@), point_models(points@));
        if c.paths.len() == 0 {
            assert(fold_changes(rm, cs, k + 1) is Err);
            proof {
                lemma_fold_changes_stays(rm, cs, k + 1, cs.len() as int);
            }
            return rescan_batch(root, FsRescanReason::UnknownEvent, raw_event_count);
        }
        let mut p: usize = 0;
        while p < c.paths.len()
            invariant
                p <= c.paths@.len(),
                cm == change_model(*c),
                rm == path_model(*root),
                k < changes@.len(),
                cs == change_models(changes@),
                cm == cs[k as int],
                st == (move_models(moves@), point_models(points@)),
                fold_changes(rm, cs, k as int) == Ok::<(Seq<MoveModel>, Seq<PointModel>), FsRescanReason>(st),
                first_rescan(cs, 0) is None,
                forall|t: int| 0 <= t < p ==> in_root(rm, #[trigger] cm.paths[t]),
            decreases c.paths@.len() - p,
        {
            assert(cm.paths[p as int] == path_model(c.paths@[p as int]));
            if !is_in_root(root, &c.paths[p]) {
                assert(!in_root(rm, cm.paths[p as int]));
                assert(fold_changes(rm, cs, k + 1) is Err);
                proof {
                    lemma_fold_changes_stays(rm, cs, k + 1, cs.len() as int);
                }
                return rescan_batch(root, FsRescanReason::OutOfScope, raw_event_count);
            }
            p = p + 1;
        }
        assert(!exists|t: int| 0 <= t < cm.paths.len() && !in_root(rm, #[trigger] cm.paths[t]));
        if c.kind == FsChangeKind::Move {
            if c.paths.len() != 2 {
                assert(fold_changes(rm, cs, k + 1) is Err);
                proof {
                    lemma_fold_changes_stays(rm, cs, k + 1, cs.len() as int);
                }
                return rescan_batch(root, FsRescanReason::AmbiguousRename, raw_event_count);
            }
            assert(cm.paths[0] == path_model(c.paths@[0]));
            assert(cm.paths[1] == path_model(c.paths@[1]));
            let from_temporary = is_temporary_path(&c.paths[0]);
            let to_temporary = is_temporary_path(&c.paths[1]);
            if from_temporary && to_temporary {
            } else if from_temporary {
                apply_point_change(&mut points, &c.paths[1], FsChangeKind::Modify);
            } else if to_temporary {
                apply_point_change(&mut points, &c.paths[0], FsChangeKind::Delete);
            } else {
                point_remove_exec(&mut points, &c.paths[0].components);
                point_remove_exec(&mut points, &c.paths[1].components);
                move_insert_exec(&mut moves, &c.paths[0], &c.paths[1]);
            }
        } else {
            apply_paths_exec(&mut points, &c.paths, c.kind);
        }
        assert(fold_changes(rm, cs, k + 1) == fold_change(rm, st, cm));
        k = k + 1;
    }
    let mut out: Vec<FsChange> = Vec::new();
    let mut j: usize = 0;
    while j < moves.len()
        invariant
            j <= moves@.len(),
            out@.map_values(|c: FsChange| change_out(c)) == move_models(moves@).subrange(0, j as int).map_values(|m: MoveModel| move_out(m)),
        decreases moves@.len() - j,
    {
        let mut paths: Vec<String> = Vec::new();
        paths.push(copy_text(&moves[j].from.text));
        paths.push(copy_text(&moves[j].to.text));
        let change = FsChange { kind: FsChangeKind::Move, paths, reason: None };
        let ghost prior = out@;
        out.push(change);
        assert(move_models(moves@)[j as int] == move_model(moves@[j as int]));
        assert(change_out(change).paths =~= seq![moves@[j as int].from.text@, moves@[j as int].to.text@]);
        assert(out@.map_values(|c: FsChange| change_out(c)) =~= prior.map_values(|c: FsChange| change_out(c)).push(change_out(change)));
        assert(move_models(moves@).subrange(0, j + 1).map_values(|m: MoveModel| move_out(m)) =~= move_models(moves@).subrange(0, j as int).map_values(|m: MoveModel| move_out(m)).push(move_out(move_models(moves@)[j as int])));
        j = j + 1;
    }
    assert(move_models(moves@).subrange(0, moves@.len() as int) =~= move_models(moves@));
    let ghost moved = out@.map_values(|c: FsChange| change_out(c));
    let mut q: usize = 0;
    while q < points.len()
        invariant
            q <= points@.len(),
            out@.map_values(|c: FsChange| change_out(c)) == moved + point_models(points@).subrange(0, q as int).map_values(|p: PointModel| point_out(p)),
        decreases points@.len() - q,
    {
        let mut paths: Vec<String> = Vec::new();
        paths.push(copy_text(&points[q].path.text));
        let change = FsChange { kind: points[q].kind, paths, reason: None };
        let ghost prior = out@;
        out.push(change);
        assert(point_models(points@)[q as int] == point_model(points@[q as int]));
        assert(change_out(change).paths =~= seq![points@[q as int].path.text@]);
        assert(out@.map_values(|c: FsChange| change_out(c)) =~= prior.map_values(|c: FsChange| change_out(c)).push(change_out(change)));
        assert(point_models(points@).subrange(0, q + 1).map_values(|p: PointModel| point_out(p)) =~= point_models(points@).subrange(0, q as int).map_values(|p: PointModel| point_out(p)).push(point_out(point_models(points@)[q as int])));
        q = q + 1;
    }
    assert(point_models(points@).subrange(0, points@.len() as int) =~= point_models(points@));
    let b = FsChangeBatch { root: copy_text(&root.text), changes: out, raw_event_count };
    assert(batch_model(b).changes =~= coalesce_spec(rm, cs, raw_event_count as nat).changes);
    b
}


/// What holds of a path parsed on any platform: a plain path has the components that
/// `Path::components` documents, and an absolute path is rooted.
pub open spec fn platform_parse(p: PathModel) -> bool {
    &&& crate::platform::plain_path(p.text) ==> p.key == crate::platform::plain_key(p.text)
    &&& p.absolute ==> crate::platform::rooted_text(p.text)
}

/// Parses a path with the platform's path rules.
pub fn parse_path(text: &str) -> (p: ParsedPath)
    ensures
        p.text@ == text@,
        platform_parse(path_model(p)),
{
    ParsedPath {
        text: string_from(&chars_of(text)),
        components: crate::platform::native_components(text),
        absolute: crate::platform::is_absolute_path(text),
    }
}

/// The parsed changes correspond to the given ones: same kinds, reasons and path texts.
pub open spec fn parsed_from(cs: Seq<ChangeModel>, input: Seq<FsChange>) -> bool {
    &&& cs.len() == input.len()
    &&& forall|i: int|
        0 <= i < cs.len() ==> {
            &&& (#[trigger] cs[i]).kind == input[i].kind
            &&& cs[i].reason == input[i].reason
            &&& cs[i].paths.len() == input[i].paths@.len()
            &&& forall|j: int| 0 <= j < cs[i].paths.len() ==> (#[trigger] cs[i].paths[j]).text == input[i].paths@[j]@
                && platform_parse(cs[i].paths[j])
        }
}

fn parse_change(c: &FsChange) -> (r: ParsedChange)
    ensures
        change_model(r).kind == c.kind,
        change_model(r).reason == c.reason,
        change_model(r).paths.len() == c.paths@.len(),
        forall|j: int| 0 <= j < c.paths@.len() ==> (#[trigger] change_model(r).paths[j]).text == c.paths@[j]@
            && platform_parse(change_model(r).paths[j]),
{
    let mut paths: Vec<ParsedPath> = Vec::new();
    let mut i: usize = 0;
    while i < c.paths.len()
        invariant
            i <= c.paths@.len(),
            paths@.len() == i,
            forall|j: int| 0 <= j < i ==> (#[trigger] paths@[j]).text@ == c.paths@[j]@ && platform_parse(path_model(paths@[j])),
        decreases c.paths@.len() - i,
    {
        paths.push(parse_path(c.paths[i].as_str()));
        i = i + 1;
    }
    let r = ParsedChange { kind: c.kind, paths, reason: c.reason };
    assert forall|j: int| 0 <= j < c.paths@.len() implies (#[trigger] change_model(r).paths[j]).text == c.paths@[j]@
        && platform_parse(change_model(r).paths[j]) by {
        assert(change_model(r).paths[j] == path_model(r.paths@[j]));
    }
    r
}

/// Coalescing is idempotent on a batch: when the changes it lists are parsed again as they
/// were the first time (one model per text, the root's included), coalescing them with the
/// same root and event count gives the same batch.
pub open spec fn coalesces_to_itself(root: PathModel, cs: Seq<ChangeModel>, raw: nat) -> bool {
    forall|again: Seq<ChangeModel>|
        again.map_values(|c: ChangeModel| model_out(c)) == coalesce_spec(root, cs, raw).changes && (forall|
            i: int,
            j: int,
            m: PathModel,
        |
            0 <= i < again.len() && 0 <= j < again[i].paths.len() && (in_input(cs, m) || m == root) ==> #[trigger] parse_agrees(
                again[i].paths[j],
                m,
            )) ==> #[trigger] coalesce_spec(root, again, raw) == coalesce_spec(root, cs, raw)
}

/// Deduplicates a raw batch, folds common atomic-save temporary file sequences, and rejects
/// paths outside the authorized root. The output is deterministic, and coalescing the
/// changes it lists again, parsed the same way, gives it back.
pub fn coalesce_changes(root: &str, changes: Vec<FsChange>, raw_event_count: usize) -> (b: FsChangeBatch)
    ensures
        exists|rp: ParsedPath, cs: Seq<ChangeModel>|
            rp.text@ == root@ && platform_parse(path_model(rp)) && parsed_from(cs, changes@) && batch_model(b) == coalesce_spec(
                path_model(rp),
                cs,
                raw_event_count as nat,
            ) && coalesces_to_itself(path_model(rp), cs, raw_event_count as nat),
{
    let parsed_root = parse_path(root);
    let mut parsed: Vec<ParsedChange> = Vec::new();
    let mut i: usize = 0;
    while i < changes.len()
        invariant
            i <= changes@.len(),
            parsed@.len() == i,
            forall|k: int| 0 <= k < i ==> {
                &&& (#[trigger] change_model(parsed@[k])).kind == changes@[k].kind
                &&& change_model(parsed@[k]).reason == changes@[k].reason
                &&& change_model(parsed@[k]).paths.len() == changes@[k].paths@.len()
                &&& forall|j: int| 0 <= j < changes@[k].paths@.len() ==> (#[trigger] change_model(parsed@[k]).paths[j]).text == changes@[k].paths@[j]@
                    && platform_parse(change_model(parsed@[k]).paths[j])
            },
        decreases changes@.len() - i,
    {
        parsed.push(parse_change(&changes[i]));
        i = i + 1;
    }
    let b = coalesce_parsed(&parsed_root, &parsed, raw_event_count);
    assert forall|k: int| 0 <= k < parsed@.len() implies #[trigger] change_models(parsed@)[k] == change_model(parsed@[k]) by {}
    assert(parsed_from(change_models(parsed@), changes@));
    proof {
        let rm = path_model(parsed_root);
        let cs = change_models(parsed@);
        let raw = raw_event_count as nat;
        assert forall|again: Seq<ChangeModel>|
            again.map_values(|c: ChangeModel| model_out(c)) == coalesce_spec(rm, cs, raw).changes && (forall|
                i: int,
                j: int,
                m: PathModel,
            |
                0 <= i < again.len() && 0 <= j < again[i].paths.len() && (in_input(cs, m) || m == rm) ==> #[trigger] parse_agrees(
                    again[i].paths[j],
                    m,
                )) implies #[trigger] coalesce_spec(rm, again, raw) == coalesce_spec(rm, cs, raw) by {
            lemma_coalesce_changes_idempotent(rm, cs, raw, again);
        }
    }
    b
}

/// The event kinds of a platform watcher that matter to the library.
#[derive(Debug, Clone, Copy, PartialEq, Eq, Structural)]
pub enum WatchEventKind {
    Create,
    Remove,
    RenameBoth,
    RenameOther,
    ModifyOther,
    AccessCloseWrite,
    AccessOther,
    Other,
}

/// A platform watcher event: its kind and the paths it names.
#[derive(Debug, Clone)]
pub struct WatchEvent {
    pub kind: WatchEventKind,
    pub paths: Vec<String>,
}

pub open spec fn normalized_kind(kind: WatchEventKind, path_count: nat) -> Option<(FsChangeKind, Option<FsRescanReason>)> {
    match kind {
        WatchEventKind::Create => Some((FsChangeKind::Create, None)),
        WatchEventKind::Remove => Some((FsChangeKind::Delete, None)),
        WatchEventKind::RenameBoth => if path_count == 2 {
            Some((FsChangeKind::Move, None))
        } else {
            Some((FsChangeKind::RescanRequired, Some(FsRescanReason::AmbiguousRename)))
        },
        WatchEventKind::RenameOther => Some((FsChangeKind::RescanRequired, Some(FsRescanReason::AmbiguousRename))),
        WatchEventKind::ModifyOther => Some((FsChangeKind::Modify, None)),
        WatchEventKind::AccessCloseWrite => Some((FsChangeKind::Modify, None)),
        WatchEventKind::AccessOther => None,
        WatchEventKind::Other => Some((FsChangeKind::RescanRequired, Some(FsRescanReason::UnknownEvent))),
    }
}

/// Converts one platform event into the shared event vocabulary. Access-only events are
/// ignored; a rename without both endpoints asks for a rescan.
pub fn normalize_event(event: &WatchEvent) -> (r: Option<FsChange>)
    ensures
        match normalized_kind(event.kind, event.paths@.len()) {
            None => r is None,
            Some((kind, reason)) => r matches Some(c) && c.kind == kind && c.reason == reason
                && strs(c.paths@) == strs(event.paths@),
        },
{
    let (kind, reason) = match event.kind {
        WatchEventKind::Create => (FsChangeKind::Create, None),
        WatchEventKind::Remove => (FsChangeKind::Delete, None),
        WatchEventKind::RenameBoth => if event.paths.len() == 2 {
            (FsChangeKind::Move, None)
        } else {
            (FsChangeKind::RescanRequired, Some(FsRescanReason::AmbiguousRename))
        },
        WatchEventKind::RenameOther => (FsChangeKind::RescanRequired, Some(FsRescanReason::AmbiguousRename)),
        WatchEventKind::ModifyOther => (FsChangeKind::Modify, None),
        WatchEventKind::AccessCloseWrite => (FsChangeKind::Modify, None),
        WatchEventKind::AccessOther => return None,
        WatchEventKind::Other => (FsChangeKind::RescanRequired, Some(FsRescanReason::UnknownEvent)),
    };
    let mut paths: Vec<String> = Vec::new();
    let mut i: usize = 0;
    while i < event.paths.len()
        invariant
            i <= event.paths@.len(),
            strs(paths@) == strs(event.paths@.subrange(0, i as int)),
        decreases event.paths@.len() - i,
    {
        let ghost prior = paths@;
        let t = copy_text(&event.paths[i]);
        paths.push(t);
        assert(strs(paths@) =~= strs(prior).push(t@));
        assert(event.paths@.subrange(0, i + 1) =~= event.paths@.subrange(0, i as int).push(event.paths@[i as int]));
        assert(strs(event.paths@.subrange(0, i + 1)) =~= strs(event.paths@.subrange(0, i as int)).push(event.paths@[i as int]@));
        i = i + 1;
    }
    assert(event.paths@.subrange(0, event.paths@.len() as int) =~= event.paths@);
    Some(FsChange { kind, paths, reason })
}

/// A change that asks for a rescan of the root.
pub fn rescan_change(root: &str, reason: FsRescanReason) -> (c: FsChange)
    ensures
        change_out(c) == (ChangeOut { kind: FsChangeKind::RescanRequired, paths: seq![root@], reason: Some(reason) }),
{
    let mut paths: Vec<String> = Vec::new();
    paths.push(string_from(&chars_of(root)));
    let c = FsChange { kind: FsChangeKind::RescanRequired, paths, reason: Some(reason) };
    assert(change_out(c).paths =~= seq![root@]);
    c
}

/// What a watcher hands over: an event, or a failure of the watcher.
#[derive(Debug, Clone)]
pub enum WatchReceipt {
    Event(WatchEvent),
    Failed,
}

/// Adds what one receipt means to the raw changes of a batch.
pub fn collect_result(root: &str, receipt: WatchReceipt, changes: &mut Vec<FsChange>)
    ensures
        match receipt {
            WatchReceipt::Failed => final(changes)@.len() == old(changes)@.len() + 1 && final(changes)@.last().kind
                == FsChangeKind::RescanRequired && final(changes)@.last().reason == Some(FsRescanReason::WatcherError)
                && change_out(final(changes)@.last()).paths == seq![root@],
            WatchReceipt::Event(e) => match normalized_kind(e.kind, e.paths@.len()) {
                None => final(changes)@ == old(changes)@,
                Some((kind, reason)) => final(changes)@.len() == old(changes)@.len() + 1
                    && final(changes)@.last().kind == kind && final(changes)@.last().reason == reason,
            },
        },
        forall|i: int| 0 <= i < old(changes)@.len() ==> final(changes)@[i] == old(changes)@[i],
{
    match receipt {
        WatchReceipt::Event(event) => {
            if let Some(change) = normalize_event(&event) {
                changes.push(change);
            }
        },
        WatchReceipt::Failed => {
            changes.push(rescan_change(root, FsRescanReason::WatcherError));
        },
    }
}

/// The batch that a watcher reports when its channel is gone.
pub fn disconnected_batch(root: &str, raw_event_count: usize) -> (b: FsChangeBatch)
    ensures
        batch_model(b) == rescan_model(root@, FsRescanReason::ChannelDisconnected, raw_event_count as nat),
{
    let mut changes: Vec<FsChange> = Vec::new();
    let c = rescan_change(root, FsRescanReason::ChannelDisconnected);
    changes.push(c);
    let b = FsChangeBatch { root: string_from(&chars_of(root)), changes, raw_event_count };
    assert(batch_model(b).changes =~= rescan_model(root@, FsRescanReason::ChannelDisconnected, raw_event_count as nat).changes);
    b
}

/// Ends a batch: a full batch becomes a rescan of the root; otherwise the changes are
/// coalesced, and a batch without changes is none.
pub fn finish_batch(root: &str, changes: Vec<FsChange>, raw_event_count: usize, max_batch_events: usize) -> (r: Option<FsChangeBatch>)
    ensures
        raw_event_count == max_batch_events ==> (r matches Some(b) && batch_model(b) == rescan_model(
            root@,
            FsRescanReason::BatchOverflow,
            raw_event_count as nat,
        )),
        raw_event_count != max_batch_events ==> exists|rp: ParsedPath, cs: Seq<ChangeModel>|
            rp.text@ == root@ && platform_parse(path_model(rp)) && parsed_from(cs, changes@) && {
                let m = coalesce_spec(path_model(rp), cs, raw_event_count as nat);
                ||| m.changes.len() == 0 && r is None
                ||| m.changes.len() > 0 && (r matches Some(b) && b.changes@.len() > 0 && batch_model(b) == m)
            },
{
    if raw_event_count == max_batch_events {
        let mut list: Vec<FsChange> = Vec::new();
        let c = rescan_change(root, FsRescanReason::BatchOverflow);
        list.push(c);
        let b = FsChangeBatch { root: string_from(&chars_of(root)), changes: list, raw_event_count };
        assert(batch_model(b).changes =~= rescan_model(root@, FsRescanReason::BatchOverflow, raw_event_count as nat).changes);
        return Some(b);
    }
    let b = coalesce_changes(root, changes, raw_event_count);
    assert(batch_model(b).changes.len() == b.changes@.len());
    if b.changes.len() == 0 {
        None
    } else {
        Some(b)
    }
}



// ----------------------------------------------------------------------------------------
// Coalescing a coalesced batch.
// ----------------------------------------------------------------------------------------

proof fn lemma_component_less_order(a: (int, Seq<char>), b: (int, Seq<char>), c: (int, Seq<char>))
    ensures
        !component_less(a, a),
        component_less(a, b) && component_less(b, c) ==> component_less(a, c),
        a == b || component_less(a, b) || component_less(b, a),
{
    lemma_text_less_irreflexive(a.1);
    crate::index::lemma_text_less_transitive(a.1, b.1, c.1);
    crate::index::lemma_text_less_total(a.1, b.1);
    if a.0 == b.0 && a.1 == b.1 {
        assert(a == b);
    }
}

proof fn lemma_key_less_transitive(a: Seq<(int, Seq<char>)>, b: Seq<(int, Seq<char>)>, c: Seq<(int, Seq<char>)>)
    ensures
        key_less(a, b) && key_less(b, c) ==> key_less(a, c),
    decreases a.len(),
{
    if a.len() > 0 && b.len() > 0 && c.len() > 0 {
        lemma_component_less_order(a[0], b[0], c[0]);
        lemma_component_less_order(b[0], c[0], a[0]);
        lemma_component_less_order(a[0], c[0], b[0]);
        lemma_key_less_transitive(a.drop_first(), b.drop_first(), c.drop_first());
        if key_less(a, b) && key_less(b, c) && a[0] == c[0] {
            if a[0] != b[0] {
                lemma_component_less_order(c[0], b[0], c[0]);
            }
        }
    }
}

proof fn lemma_key_less_total(a: Seq<(int, Seq<char>)>, b: Seq<(int, Seq<char>)>)
    ensures
        a == b || key_less(a, b) || key_less(b, a),
    decreases a.len(),
{
    if a.len() > 0 && b.len() > 0 {
        lemma_component_less_order(a[0], b[0], b[0]);
        lemma_key_less_total(a.drop_first(), b.drop_first());
        if a[0] == b[0] && a.drop_first() == b.drop_first() {
            assert(a =~= seq![a[0]] + a.drop_first());
            assert(b =~= seq![b[0]] + b.drop_first());
        }
    } else if a.len() == 0 && b.len() == 0 {
        assert(a =~= b);
    }
}

proof fn lemma_key_less_asymmetric(a: Seq<(int, Seq<char>)>, b: Seq<(int, Seq<char>)>)
    ensures
        key_less(a, b) ==> !key_less(b, a),
{
    lemma_key_less_transitive(a, b, a);
    lemma_key_less_irreflexive(a);
}


/// A key that lies inside the root, without `..`, and names no temporary file.
pub open spec fn key_ok(root: PathModel, k: Seq<(int, Seq<char>)>) -> bool {
    &&& forall|i: int| 0 <= i < k.len() ==> (#[trigger] k[i]).0 != 3
    &&& seq_prefix(root.key, k)
    &&& !(k.len() > 0 && k.last().0 == 4 && temporary_name(k.last().1))
}

pub open spec fn kind_ok(k: FsChangeKind) -> bool {
    k != FsChangeKind::Move && k != FsChangeKind::RescanRequired
}

pub open spec fn points_sorted(s: Seq<PointModel>) -> bool {
    forall|i: int, j: int| 0 <= i < j < s.len() ==> key_less(#[trigger] s[i].key, #[trigger] s[j].key)
}

pub open spec fn points_ok(root: PathModel, s: Seq<PointModel>) -> bool {
    forall|i: int| 0 <= i < s.len() ==> key_ok(root, (#[trigger] s[i]).key) && kind_ok(s[i].kind)
}

pub open spec fn move_lt(a: MoveModel, b: MoveModel) -> bool {
    move_less(a, b.from_key, b.to_key)
}

pub open spec fn moves_sorted(s: Seq<MoveModel>) -> bool {
    forall|i: int, j: int| 0 <= i < j < s.len() ==> move_lt(#[trigger] s[i], #[trigger] s[j])
}

pub open spec fn moves_ok(root: PathModel, s: Seq<MoveModel>) -> bool {
    forall|i: int| 0 <= i < s.len() ==> key_ok(root, (#[trigger] s[i]).from_key) && key_ok(root, s[i].to_key)
}

pub open spec fn fold_good(root: PathModel, st: (Seq<MoveModel>, Seq<PointModel>)) -> bool {
    &&& moves_sorted(st.0)
    &&& moves_ok(root, st.0)
    &&& points_sorted(st.1)
    &&& points_ok(root, st.1)
}

proof fn lemma_point_position(s: Seq<PointModel>, key: Seq<(int, Seq<char>)>, i: int)
    requires
        0 <= i <= s.len(),
        points_sorted(s),
        forall|j: int| 0 <= j < i ==> key_less(#[trigger] s[j].key, key),
    ensures
        i <= point_position(s, key, i) <= s.len(),
        forall|j: int| 0 <= j < point_position(s, key, i) ==> key_less(#[trigger] s[j].key, key),
        point_position(s, key, i) < s.len() ==> !key_less(s[point_position(s, key, i)].key, key),
    decreases s.len() - i,
{
    if i < s.len() && key_less(s[i].key, key) {
        lemma_point_position(s, key, i + 1);
    }
}

proof fn lemma_point_upsert(root: PathModel, s: Seq<PointModel>, p: PathModel, kind: FsChangeKind)
    requires
        points_sorted(s),
        points_ok(root, s),
        key_ok(root, p.key),
        kind_ok(kind),
    ensures
        points_sorted(point_upsert(s, p, kind)),
        points_ok(root, point_upsert(s, p, kind)),
{
    lemma_point_position(s, p.key, 0);
    let k = p.key;
    let q = point_position(s, k, 0);
    let r = point_upsert(s, p, kind);
    if q < s.len() && s[q].key == k {
        assert forall|i: int, j: int| 0 <= i < j < r.len() implies key_less(#[trigger] r[i].key, #[trigger] r[j].key) by {
            assert(s[i].key == r[i].key && s[j].key == r[j].key);
        }
        assert forall|i: int| 0 <= i < r.len() implies key_ok(root, (#[trigger] r[i]).key) && kind_ok(r[i].kind) by {
            assert(s[i].key == r[i].key);
        }
    } else {
        if q < s.len() {
            lemma_key_less_total(s[q].key, k);
        }
        assert forall|i: int, j: int| 0 <= i < j < r.len() implies key_less(#[trigger] r[i].key, #[trigger] r[j].key) by {
            if j < q {
                assert(r[i] == s[i] && r[j] == s[j]);
            } else if j == q {
                assert(r[i] == s[i]);
            } else if i == q {
                assert(r[j] == s[j - 1]);
                if j - 1 > q {
                    lemma_key_less_transitive(k, s[q].key, s[j - 1].key);
                }
            } else if i < q {
                assert(r[i] == s[i] && r[j] == s[j - 1]);
                if q < s.len() {
                    lemma_key_less_transitive(s[i].key, k, s[q].key);
                    if j - 1 > q {
                        lemma_key_less_transitive(s[i].key, s[q].key, s[j - 1].key);
                    }
                }
            } else {
                assert(r[i] == s[i - 1] && r[j] == s[j - 1]);
            }
        }
        assert forall|i: int| 0 <= i < r.len() implies key_ok(root, (#[trigger] r[i]).key) && kind_ok(r[i].kind) by {
            if i < q {
                assert(r[i] == s[i]);
            } else if i > q {
                assert(r[i] == s[i - 1]);
            }
        }
    }
}

proof fn lemma_point_position_bounds(s: Seq<PointModel>, key: Seq<(int, Seq<char>)>, i: int)
    requires
        0 <= i <= s.len(),
    ensures
        i <= point_position(s, key, i) <= s.len(),
    decreases s.len() - i,
{
    if i < s.len() && key_less(s[i].key, key) {
        lemma_point_position_bounds(s, key, i + 1);
    }
}

proof fn lemma_point_remove(root: PathModel, s: Seq<PointModel>, key: Seq<(int, Seq<char>)>)
    requires
        points_sorted(s),
        points_ok(root, s),
    ensures
        points_sorted(point_remove(s, key)),
        points_ok(root, point_remove(s, key)),
{
    lemma_point_position_bounds(s, key, 0);
    let q = point_position(s, key, 0);
    let r = point_remove(s, key);
    if q < s.len() && s[q].key == key {
        assert forall|i: int, j: int| 0 <= i < j < r.len() implies key_less(#[trigger] r[i].key, #[trigger] r[j].key) by {
            if j < q {
                assert(r[i] == s[i] && r[j] == s[j]);
            } else if i < q {
                assert(r[i] == s[i] && r[j] == s[j + 1]);
            } else {
                assert(r[i] == s[i + 1] && r[j] == s[j + 1]);
            }
        }
        assert forall|i: int| 0 <= i < r.len() implies key_ok(root, (#[trigger] r[i]).key) && kind_ok(r[i].kind) by {
            if i < q {
                assert(r[i] == s[i]);
            } else {
                assert(r[i] == s[i + 1]);
            }
        }
    }
}

proof fn lemma_point_lookup_ok(root: PathModel, s: Seq<PointModel>, key: Seq<(int, Seq<char>)>)
    requires
        points_ok(root, s),
    ensures
        point_lookup(s, key) matches Some(k) ==> kind_ok(k),
{
    lemma_point_position_bounds(s, key, 0);
    let q = point_position(s, key, 0);
    if q < s.len() && s[q].key == key {
        assert(kind_ok(s[q].kind));
    }
}

proof fn lemma_apply_point(root: PathModel, s: Seq<PointModel>, p: PathModel, next: FsChangeKind)
    requires
        points_sorted(s),
        points_ok(root, s),
        key_ok(root, p.key),
        kind_ok(next),
    ensures
        points_sorted(apply_point(s, p, next)),
        points_ok(root, apply_point(s, p, next)),
{
    lemma_point_lookup_ok(root, s, p.key);
    match fold_kind(point_lookup(s, p.key), next) {
        Some(k) => {
            lemma_point_upsert(root, s, p, k);
        },
        None => {
            lemma_point_remove(root, s, p.key);
        },
    }
}

proof fn lemma_in_root_key_ok(root: PathModel, p: PathModel)
    requires
        in_root(root, p),
        !temporary(p),
    ensures
        key_ok(root, p.key),
{
}

proof fn lemma_apply_paths(root: PathModel, s: Seq<PointModel>, ps: Seq<PathModel>, kind: FsChangeKind, n: int)
    requires
        points_sorted(s),
        points_ok(root, s),
        n <= ps.len(),
        forall|i: int| 0 <= i < ps.len() ==> in_root(root, #[trigger] ps[i]),
        kind_ok(kind),
    ensures
        points_sorted(apply_paths(s, ps, kind, n)),
        points_ok(root, apply_paths(s, ps, kind, n)),
    decreases n,
{
    if n > 0 {
        lemma_apply_paths(root, s, ps, kind, n - 1);
        if !temporary(ps[n - 1]) {
            lemma_in_root_key_ok(root, ps[n - 1]);
            lemma_apply_point(root, apply_paths(s, ps, kind, n - 1), ps[n - 1], kind);
        }
    }
}

proof fn lemma_move_lt_order(a: MoveModel, b: MoveModel, c: MoveModel)
    ensures
        !move_lt(a, a),
        move_lt(a, b) && move_lt(b, c) ==> move_lt(a, c),
        (a.from_key == b.from_key && a.to_key == b.to_key) || move_lt(a, b) || move_lt(b, a),
{
    lemma_key_less_irreflexive(a.from_key);
    lemma_key_less_irreflexive(a.to_key);
    lemma_key_less_transitive(a.from_key, b.from_key, c.from_key);
    lemma_key_less_transitive(a.to_key, b.to_key, c.to_key);
    lemma_key_less_total(a.from_key, b.from_key);
    lemma_key_less_total(a.to_key, b.to_key);
}

proof fn lemma_move_position(s: Seq<MoveModel>, m: MoveModel, i: int)
    requires
        0 <= i <= s.len(),
        moves_sorted(s),
        forall|j: int| 0 <= j < i ==> move_lt(#[trigger] s[j], m),
    ensures
        i <= move_position(s, m.from_key, m.to_key, i) <= s.len(),
        forall|j: int| 0 <= j < move_position(s, m.from_key, m.to_key, i) ==> move_lt(#[trigger] s[j], m),
        move_position(s, m.from_key, m.to_key, i) < s.len() ==> !move_lt(s[move_position(s, m.from_key, m.to_key, i)], m),
    decreases s.len() - i,
{
    if i < s.len() && move_less(s[i], m.from_key, m.to_key) {
        lemma_move_position(s, m, i + 1);
    }
}

proof fn lemma_move_insert(root: PathModel, s: Seq<MoveModel>, from: PathModel, to: PathModel)
    requires
        moves_sorted(s),
        moves_ok(root, s),
        key_ok(root, from.key),
        key_ok(root, to.key),
    ensures
        moves_sorted(move_insert(s, from, to)),
        moves_ok(root, move_insert(s, from, to)),
{
    let m = MoveModel { from_key: from.key, from_text: from.text, to_key: to.key, to_text: to.text };
    lemma_move_position(s, m, 0);
    let q = move_position(s, from.key, to.key, 0);
    let r = move_insert(s, from, to);
    if !(q < s.len() && s[q].from_key == from.key && s[q].to_key == to.key) {
        assert(r == s.insert(q, m));
        if q < s.len() {
            lemma_move_lt_order(s[q], m, m);
        }
        assert forall|i: int, j: int| 0 <= i < j < r.len() implies move_lt(#[trigger] r[i], #[trigger] r[j]) by {
            if j < q {
                assert(r[i] == s[i] && r[j] == s[j]);
            } else if j == q {
                assert(r[i] == s[i]);
            } else if i == q {
                assert(r[j] == s[j - 1]);
                if j - 1 > q {
                    lemma_move_lt_order(m, s[q], s[j - 1]);
                }
            } else if i < q {
                assert(r[i] == s[i] && r[j] == s[j - 1]);
                if q < s.len() {
                    lemma_move_lt_order(s[i], m, s[q]);
                    if j - 1 > q {
                        lemma_move_lt_order(s[i], s[q], s[j - 1]);
                    }
                }
            } else {
                assert(r[i] == s[i - 1] && r[j] == s[j - 1]);
            }
        }
        assert forall|i: int| 0 <= i < r.len() implies key_ok(root, (#[trigger] r[i]).from_key) && key_ok(root, r[i].to_key) by {
            if i < q {
                assert(r[i] == s[i]);
            } else if i > q {
                assert(r[i] == s[i - 1]);
            }
        }
    }
}

proof fn lemma_fold_change_good(root: PathModel, st: (Seq<MoveModel>, Seq<PointModel>), c: ChangeModel)
    requires
        fold_good(root, st),
        c.kind != FsChangeKind::RescanRequired,
    ensures
        fold_change(root, st, c) matches Ok(next) ==> fold_good(root, next),
{
    let (moves, points) = st;
    if c.paths.len() > 0 && !(exists|i: int| 0 <= i < c.paths.len() && !in_root(root, #[trigger] c.paths[i])) {
        assert(forall|i: int| 0 <= i < c.paths.len() ==> in_root(root, #[trigger] c.paths[i]));
        if c.kind == FsChangeKind::Move {
            if c.paths.len() == 2 {
                let from = c.paths[0];
                let to = c.paths[1];
                if temporary(from) && temporary(to) {
                } else if temporary(from) {
                    lemma_in_root_key_ok(root, to);
                    lemma_apply_point(root, points, to, FsChangeKind::Modify);
                } else if temporary(to) {
                    lemma_in_root_key_ok(root, from);
                    lemma_apply_point(root, points, from, FsChangeKind::Delete);
                } else {
                    lemma_in_root_key_ok(root, from);
                    lemma_in_root_key_ok(root, to);
                    lemma_move_insert(root, moves, from, to);
                    lemma_point_remove(root, points, from.key);
                    lemma_point_remove(root, point_remove(points, from.key), to.key);
                }
            }
        } else {
            lemma_apply_paths(root, points, c.paths, c.kind, c.paths.len() as int);
        }
    }
}

proof fn lemma_fold_changes_good(root: PathModel, cs: Seq<ChangeModel>, n: int)
    requires
        n <= cs.len(),
        forall|j: int| 0 <= j < cs.len() ==> (#[trigger] cs[j]).kind != FsChangeKind::RescanRequired,
    ensures
        fold_changes(root, cs, n) matches Ok(st) ==> fold_good(root, st),
    decreases n,
{
    if n > 0 {
        lemma_fold_changes_good(root, cs, n - 1);
        match fold_changes(root, cs, n - 1) {
            Ok(st) => {
                lemma_fold_change_good(root, st, cs[n - 1]);
            },
            Err(_) => {},
        }
    }
}


proof fn lemma_no_rescan(cs: Seq<ChangeModel>, i: int)
    requires
        0 <= i,
        first_rescan(cs, i) is None,
    ensures
        forall|j: int| i <= j < cs.len() ==> (#[trigger] cs[j]).kind != FsChangeKind::RescanRequired,
    decreases cs.len() - i,
{
    if i < cs.len() {
        lemma_no_rescan(cs, i + 1);
    }
}

/// A path parsed as it was before: its text and key, absolute as every path of a batch is.
pub open spec fn path_of_key(text: Seq<char>, key: Seq<(int, Seq<char>)>) -> PathModel {
    PathModel { text, key, absolute: true }
}

/// A move of a batch, parsed again.
pub open spec fn move_change(m: MoveModel) -> ChangeModel {
    ChangeModel {
        kind: FsChangeKind::Move,
        paths: seq![path_of_key(m.from_text, m.from_key), path_of_key(m.to_text, m.to_key)],
        reason: None,
    }
}

/// A point change of a batch, parsed again.
pub open spec fn point_change(p: PointModel) -> ChangeModel {
    ChangeModel { kind: p.kind, paths: seq![path_of_key(p.text, p.key)], reason: None }
}

/// A rescan of the root, parsed again.
pub open spec fn rescan_change_model(root: PathModel, reason: FsRescanReason) -> ChangeModel {
    ChangeModel { kind: FsChangeKind::RescanRequired, paths: seq![root], reason: Some(reason) }
}

/// The changes of the batch that coalescing gives, each path parsed as it was when it came
/// in.
pub open spec fn recoalesced(root: PathModel, cs: Seq<ChangeModel>) -> Seq<ChangeModel> {
    match first_rescan(cs, 0) {
        Some(reason) => seq![rescan_change_model(root, reason)],
        None => match fold_changes(root, cs, cs.len() as int) {
            Err(reason) => seq![rescan_change_model(root, reason)],
            Ok((moves, points)) => moves.map_values(|m: MoveModel| move_change(m)) + points.map_values(
                |p: PointModel| point_change(p),
            ),
        },
    }
}

/// A parsed change as it leaves a batch.
pub open spec fn model_out(c: ChangeModel) -> ChangeOut {
    ChangeOut { kind: c.kind, paths: c.paths.map_values(|p: PathModel| p.text), reason: c.reason }
}

proof fn lemma_refold_moves(root: PathModel, moves: Seq<MoveModel>, points: Seq<PointModel>, j: int)
    requires
        fold_good(root, (moves, points)),
        0 <= j <= moves.len(),
    ensures
        fold_changes(
            root,
            moves.map_values(|m: MoveModel| move_change(m)) + points.map_values(|p: PointModel| point_change(p)),
            j,
        ) == Ok::<(Seq<MoveModel>, Seq<PointModel>), FsRescanReason>((moves.subrange(0, j), Seq::<PointModel>::empty())),
    decreases j,
{
    let out = moves.map_values(|m: MoveModel| move_change(m)) + points.map_values(|p: PointModel| point_change(p));
    if j > 0 {
        lemma_refold_moves(root, moves, points, j - 1);
        let prefix = moves.subrange(0, j - 1);
        let m = moves[j - 1];
        let c = out[j - 1];
        assert(c == move_change(m));
        let from = path_of_key(m.from_text, m.from_key);
        let to = path_of_key(m.to_text, m.to_key);
        assert(key_ok(root, m.from_key) && key_ok(root, m.to_key));
        assert(c.paths[0] == from && c.paths[1] == to);
        assert(in_root(root, from) && in_root(root, to));
        assert(forall|i: int| 0 <= i < c.paths.len() ==> in_root(root, #[trigger] c.paths[i]));
        assert(!temporary(from) && !temporary(to));
        assert(moves_sorted(prefix)) by {
            assert forall|a: int, b: int| 0 <= a < b < prefix.len() implies move_lt(#[trigger] prefix[a], #[trigger] prefix[b]) by {
                assert(prefix[a] == moves[a] && prefix[b] == moves[b]);
            }
        }
        assert forall|k: int| 0 <= k < j - 1 implies move_lt(#[trigger] prefix[k], m) by {
            assert(prefix[k] == moves[k]);
        }
        lemma_move_position(prefix, m, 0);
        let mm = MoveModel { from_key: from.key, from_text: from.text, to_key: to.key, to_text: to.text };
        assert(mm == m);
        assert(move_position(prefix, from.key, to.key, 0) == prefix.len());
        assert(move_insert(prefix, from, to) =~= moves.subrange(0, j));
        let e = Seq::<PointModel>::empty();
        assert(point_remove(point_remove(e, from.key), to.key) == e);
    } else {
        assert(moves.subrange(0, 0) =~= Seq::<MoveModel>::empty());
    }
}

proof fn lemma_refold_points(root: PathModel, moves: Seq<MoveModel>, points: Seq<PointModel>, j: int)
    requires
        fold_good(root, (moves, points)),
        0 <= j <= points.len(),
    ensures
        fold_changes(
            root,
            moves.map_values(|m: MoveModel| move_change(m)) + points.map_values(|p: PointModel| point_change(p)),
            moves.len() + j,
        ) == Ok::<(Seq<MoveModel>, Seq<PointModel>), FsRescanReason>((moves, points.subrange(0, j))),
    decreases j,
{
    let out = moves.map_values(|m: MoveModel| move_change(m)) + points.map_values(|p: PointModel| point_change(p));
    if j == 0 {
        lemma_refold_moves(root, moves, points, moves.len() as int);
        assert(moves.subrange(0, moves.len() as int) =~= moves);
        assert(points.subrange(0, 0) =~= Seq::<PointModel>::empty());
    } else {
        lemma_refold_points(root, moves, points, j - 1);
        let prefix = points.subrange(0, j - 1);
        let p = points[j - 1];
        let c = out[moves.len() + j - 1];
        assert(c == point_change(p));
        let pm = path_of_key(p.text, p.key);
        assert(key_ok(root, p.key) && kind_ok(p.kind));
        assert(c.paths[0] == pm);
        assert(in_root(root, pm));
        assert(forall|i: int| 0 <= i < c.paths.len() ==> in_root(root, #[trigger] c.paths[i]));
        assert(!temporary(pm));
        assert(points_sorted(prefix)) by {
            assert forall|a: int, b: int| 0 <= a < b < prefix.len() implies key_less(#[trigger] prefix[a].key, #[trigger] prefix[b].key) by {
                assert(prefix[a] == points[a] && prefix[b] == points[b]);
            }
        }
        assert forall|k: int| 0 <= k < j - 1 implies key_less(#[trigger] prefix[k].key, p.key) by {
            assert(prefix[k] == points[k]);
        }
        lemma_point_position(prefix, p.key, 0);
        assert(point_position(prefix, p.key, 0) == prefix.len());
        assert(point_lookup(prefix, p.key) is None);
        assert(apply_paths(prefix, c.paths, c.kind, 0) == prefix);
        assert(apply_paths(prefix, c.paths, c.kind, 1) == apply_point(prefix, pm, p.kind));
        assert(point_upsert(prefix, pm, p.kind) =~= points.subrange(0, j));
    }
}

/// Coalescing is idempotent: the changes of a coalesced batch, each path parsed as it was
/// when it came in, are what the batch lists, and coalescing them again gives the same
/// batch.
pub proof fn lemma_coalesce_idempotent(root: PathModel, cs: Seq<ChangeModel>, raw: nat)
    ensures
        recoalesced(root, cs).map_values(|c: ChangeModel| model_out(c)) == coalesce_spec(root, cs, raw).changes,
        coalesce_spec(root, recoalesced(root, cs), raw) == coalesce_spec(root, cs, raw),
{
    let again = recoalesced(root, cs);
    match first_rescan(cs, 0) {
        Some(reason) => {
            assert(again[0].kind == FsChangeKind::RescanRequired);
            lemma_first_rescan_at(again, 0, 0);
            assert(model_out(again[0]).paths =~= seq![root.text]);
            assert(again.map_values(|c: ChangeModel| model_out(c)) =~= coalesce_spec(root, cs, raw).changes);
        },
        None => match fold_changes(root, cs, cs.len() as int) {
            Err(reason) => {
                lemma_first_rescan_at(again, 0, 0);
                assert(model_out(again[0]).paths =~= seq![root.text]);
                assert(again.map_values(|c: ChangeModel| model_out(c)) =~= coalesce_spec(root, cs, raw).changes);
            },
            Ok((moves, points)) => {
                lemma_no_rescan(cs, 0);
                lemma_fold_changes_good(root, cs, cs.len() as int);
                lemma_refold_points(root, moves, points, points.len() as int);
                assert(points.subrange(0, points.len() as int) =~= points);
                assert(again.len() == moves.len() + points.len());
                assert forall|j: int| 0 <= j < again.len() implies (#[trigger] again[j]).kind != FsChangeKind::RescanRequired by {
                    if j < moves.len() {
                        assert(again[j] == move_change(moves[j]));
                    } else {
                        assert(again[j] == point_change(points[j - moves.len()]));
                        assert(kind_ok(points[j - moves.len()].kind));
                    }
                }
                lemma_first_rescan_none(again, 0);
                let outs = again.map_values(|c: ChangeModel| model_out(c));
                let expected = moves.map_values(|m: MoveModel| move_out(m)) + points.map_values(|p: PointModel| point_out(p));
                assert forall|j: int| 0 <= j < outs.len() implies #[trigger] outs[j] == expected[j] by {
                    if j < moves.len() {
                        assert(again[j] == move_change(moves[j]));
                        assert(model_out(again[j]).paths =~= seq![moves[j].from_text, moves[j].to_text]);
                    } else {
                        assert(again[j] == point_change(points[j - moves.len()]));
                        assert(model_out(again[j]).paths =~= seq![points[j - moves.len()].text]);
                    }
                }
                assert(outs =~= expected);
            },
        },
    }
}


/// A path model that one of the changes carries.
pub open spec fn in_input(cs: Seq<ChangeModel>, m: PathModel) -> bool {
    exists|i: int, j: int| 0 <= i < cs.len() && 0 <= j < cs[i].paths.len() && #[trigger] cs[i].paths[j] == m
}

pub open spec fn points_from(cs: Seq<ChangeModel>, s: Seq<PointModel>) -> bool {
    forall|k: int| 0 <= k < s.len() ==> in_input(cs, path_of_key((#[trigger] s[k]).text, s[k].key))
}

pub open spec fn moves_from(cs: Seq<ChangeModel>, s: Seq<MoveModel>) -> bool {
    forall|k: int| 0 <= k < s.len() ==> in_input(cs, path_of_key((#[trigger] s[k]).from_text, s[k].from_key)) && in_input(
        cs,
        path_of_key(s[k].to_text, s[k].to_key),
    )
}

proof fn lemma_point_upsert_from(cs: Seq<ChangeModel>, s: Seq<PointModel>, p: PathModel, kind: FsChangeKind)
    requires
        points_from(cs, s),
        in_input(cs, p),
        p.absolute,
    ensures
        points_from(cs, point_upsert(s, p, kind)),
{
    lemma_point_position_bounds(s, p.key, 0);
    let q = point_position(s, p.key, 0);
    let r = point_upsert(s, p, kind);
    assert(path_of_key(p.text, p.key) == p);
    assert forall|k: int| 0 <= k < r.len() implies in_input(cs, path_of_key((#[trigger] r[k]).text, r[k].key)) by {
        if q < s.len() && s[q].key == p.key {
            assert(r[k].text == s[k].text && r[k].key == s[k].key);
        } else if k < q {
            assert(r[k] == s[k]);
        } else if k > q {
            assert(r[k] == s[k - 1]);
        }
    }
}

proof fn lemma_apply_point_from(cs: Seq<ChangeModel>, s: Seq<PointModel>, p: PathModel, next: FsChangeKind)
    requires
        points_from(cs, s),
        in_input(cs, p),
        p.absolute,
    ensures
        points_from(cs, apply_point(s, p, next)),
{
    match fold_kind(point_lookup(s, p.key), next) {
        Some(k) => lemma_point_upsert_from(cs, s, p, k),
        None => lemma_point_remove_from(cs, s, p.key),
    }
}

proof fn lemma_point_remove_from(cs: Seq<ChangeModel>, s: Seq<PointModel>, key: Seq<(int, Seq<char>)>)
    requires
        points_from(cs, s),
    ensures
        points_from(cs, point_remove(s, key)),
{
    lemma_point_position_bounds(s, key, 0);
    let q = point_position(s, key, 0);
    let r = point_remove(s, key);
    if q < s.len() && s[q].key == key {
        assert forall|k: int| 0 <= k < r.len() implies in_input(cs, path_of_key((#[trigger] r[k]).text, r[k].key)) by {
            if k < q {
                assert(r[k] == s[k]);
            } else {
                assert(r[k] == s[k + 1]);
            }
        }
    }
}

proof fn lemma_apply_paths_from(cs: Seq<ChangeModel>, root: PathModel, s: Seq<PointModel>, ps: Seq<PathModel>, kind: FsChangeKind, n: int)
    requires
        points_from(cs, s),
        n <= ps.len(),
        forall|i: int| 0 <= i < ps.len() ==> in_root(root, #[trigger] ps[i]) && in_input(cs, ps[i]),
    ensures
        points_from(cs, apply_paths(s, ps, kind, n)),
    decreases n,
{
    if n > 0 {
        lemma_apply_paths_from(cs, root, s, ps, kind, n - 1);
        let prior = apply_paths(s, ps, kind, n - 1);
        assert(in_root(root, ps[n - 1]) && in_input(cs, ps[n - 1]));
        if !temporary(ps[n - 1]) {
            lemma_apply_point_from(cs, prior, ps[n - 1], kind);
        }
    }
}

proof fn lemma_move_insert_from(cs: Seq<ChangeModel>, s: Seq<MoveModel>, from: PathModel, to: PathModel)
    requires
        moves_from(cs, s),
        in_input(cs, from) && from.absolute,
        in_input(cs, to) && to.absolute,
    ensures
        moves_from(cs, move_insert(s, from, to)),
{
    let m = MoveModel { from_key: from.key, from_text: from.text, to_key: to.key, to_text: to.text };
    lemma_move_position_bounds(s, m, 0);
    let q = move_position(s, from.key, to.key, 0);
    let r = move_insert(s, from, to);
    assert(path_of_key(from.text, from.key) == from);
    assert(path_of_key(to.text, to.key) == to);
    if !(q < s.len() && s[q].from_key == from.key && s[q].to_key == to.key) {
        assert forall|k: int| 0 <= k < r.len() implies in_input(cs, path_of_key((#[trigger] r[k]).from_text, r[k].from_key))
            && in_input(cs, path_of_key(r[k].to_text, r[k].to_key)) by {
            if k < q {
                assert(r[k] == s[k]);
            } else if k > q {
                assert(r[k] == s[k - 1]);
            }
        }
    }
}

proof fn lemma_move_position_bounds(s: Seq<MoveModel>, m: MoveModel, i: int)
    requires
        0 <= i <= s.len(),
    ensures
        i <= move_position(s, m.from_key, m.to_key, i) <= s.len(),
    decreases s.len() - i,
{
    if i < s.len() && move_less(s[i], m.from_key, m.to_key) {
        lemma_move_position_bounds(s, m, i + 1);
    }
}

proof fn lemma_fold_changes_from(root: PathModel, cs: Seq<ChangeModel>, n: int)
    requires
        n <= cs.len(),
    ensures
        fold_changes(root, cs, n) matches Ok(st) ==> moves_from(cs, st.0) && points_from(cs, st.1),
    decreases n,
{
    if n > 0 {
        lemma_fold_changes_from(root, cs, n - 1);
        match fold_changes(root, cs, n - 1) {
            Ok(st) => {
                let (moves, points) = st;
                let c = cs[n - 1];
                assert forall|j: int| 0 <= j < c.paths.len() implies in_input(cs, #[trigger] c.paths[j]) by {
                    assert(cs[n - 1].paths[j] == c.paths[j]);
                }
                if c.paths.len() > 0 && !(exists|i: int| 0 <= i < c.paths.len() && !in_root(root, #[trigger] c.paths[i])) {
                    assert(forall|i: int| 0 <= i < c.paths.len() ==> in_root(root, #[trigger] c.paths[i]));
                    if c.kind == FsChangeKind::Move {
                        if c.paths.len() == 2 {
                            let from = c.paths[0];
                            let to = c.paths[1];
                            assert(in_root(root, from) && in_root(root, to));
                            assert(in_input(cs, from) && in_input(cs, to));
                            if temporary(from) && temporary(to) {
                            } else if temporary(from) {
                                lemma_apply_point_from(cs, points, to, FsChangeKind::Modify);
                            } else if temporary(to) {
                                lemma_apply_point_from(cs, points, from, FsChangeKind::Delete);
                            } else {
                                lemma_move_insert_from(cs, moves, from, to);
                                lemma_point_remove_from(cs, points, from.key);
                                lemma_point_remove_from(cs, point_remove(points, from.key), to.key);
                            }
                        }
                    } else {
                        lemma_apply_paths_from(cs, root, points, c.paths, c.kind, c.paths.len() as int);
                    }
                }
            },
            Err(_) => {},
        }
    }
}

/// The shape of a coalesced batch: either one request to rescan the root, or the folded
/// moves in order, then the point changes in key order, where every key lies inside the
/// root, holds no `..` and names no temporary file, and no point change is a move or a
/// rescan request.
pub proof fn lemma_coalesced_shape(root: PathModel, cs: Seq<ChangeModel>, raw: nat)
    ensures
        (exists|reason: FsRescanReason| #[trigger] rescan_model(root.text, reason, raw) == coalesce_spec(root, cs, raw)) || (
        exists|moves: Seq<MoveModel>, points: Seq<PointModel>|
            #![trigger fold_good(root, (moves, points))]
            fold_good(root, (moves, points)) && coalesce_spec(root, cs, raw) == BatchModel {
                root: root.text,
                changes: moves.map_values(|m: MoveModel| move_out(m)) + points.map_values(|p: PointModel| point_out(p)),
                raw_event_count: raw,
            }),
{
    match first_rescan(cs, 0) {
        Some(reason) => {
            assert(rescan_model(root.text, reason, raw) == coalesce_spec(root, cs, raw));
        },
        None => {
            lemma_no_rescan(cs, 0);
            lemma_fold_changes_good(root, cs, cs.len() as int);
            match fold_changes(root, cs, cs.len() as int) {
                Err(reason) => {
                    assert(rescan_model(root.text, reason, raw) == coalesce_spec(root, cs, raw));
                },
                Ok(st) => {
                    assert(fold_good(root, (st.0, st.1)));
                },
            }
        },
    }
}

/// The pending point changes when one path's changes fold to `k`.
pub open spec fn single_point(p: PathModel, k: Option<FsChangeKind>) -> Seq<PointModel> {
    match k {
        Some(kind) => seq![PointModel { key: p.key, text: p.text, kind }],
        None => seq![],
    }
}

/// The kinds of a batch's changes, in order.
pub open spec fn change_kinds(cs: Seq<ChangeModel>) -> Seq<FsChangeKind> {
    cs.map_values(|c: ChangeModel| c.kind)
}

proof fn lemma_one_path_fold(root: PathModel, p: PathModel, cs: Seq<ChangeModel>, n: int)
    requires
        0 <= n <= cs.len(),
        in_root(root, p),
        !temporary(p),
        forall|i: int| 0 <= i < cs.len() ==> (#[trigger] cs[i]).paths == seq![p] && kind_ok(cs[i].kind),
    ensures
        fold_changes(root, cs, n) == Ok::<(Seq<MoveModel>, Seq<PointModel>), FsRescanReason>(
            (seq![], single_point(p, kinds_folded(change_kinds(cs).subrange(0, n)))),
        ),
    decreases n,
{
    if n > 0 {
        lemma_one_path_fold(root, p, cs, n - 1);
        let ks = change_kinds(cs).subrange(0, n);
        assert(ks.drop_last() =~= change_kinds(cs).subrange(0, n - 1));
        let prior = kinds_folded(ks.drop_last());
        let pts = single_point(p, prior);
        let c = cs[n - 1];
        assert(c.paths == seq![p]);
        assert(ks.last() == c.kind);
        assert(!(exists|i: int| 0 <= i < c.paths.len() && !in_root(root, #[trigger] c.paths[i]))) by {
            assert forall|i: int| 0 <= i < c.paths.len() implies in_root(root, #[trigger] c.paths[i]) by {
                assert(c.paths[i] == p);
            }
        }
        lemma_key_less_irreflexive(p.key);
        assert(apply_paths(pts, c.paths, c.kind, 0) == pts);
        assert(apply_paths(pts, c.paths, c.kind, 1) == apply_point(pts, p, c.kind));
        match prior {
            Some(k0) => {
                assert(point_position(pts, p.key, 0) == 0);
                assert(point_lookup(pts, p.key) == Some(k0));
                match fold_kind(Some(k0), c.kind) {
                    Some(k) => {
                        assert(point_upsert(pts, p, k) =~= single_point(p, Some(k)));
                    },
                    None => {
                        assert(point_remove(pts, p.key) =~= single_point(p, None));
                    },
                }
            },
            None => {
                assert(point_lookup(pts, p.key) is None);
                assert(point_upsert(pts, p, c.kind) =~= single_point(p, Some(c.kind)));
            },
        }
    }
}

/// A batch of point changes of one path inside the root (created, modified or deleted,
/// one path per change) coalesces to the pending kind of that path: one change of that
/// kind, or none when the batch created and then deleted it. So an edit then a deletion
/// is reported as a deletion, and any batch without a creation reports its last change.
pub proof fn lemma_one_path_batch(root: PathModel, p: PathModel, cs: Seq<ChangeModel>, raw: nat)
    requires
        in_root(root, p),
        !temporary(p),
        forall|i: int| 0 <= i < cs.len() ==> (#[trigger] cs[i]).paths == seq![p] && kind_ok(cs[i].kind),
    ensures
        coalesce_spec(root, cs, raw).changes == match kinds_folded(change_kinds(cs)) {
            Some(k) => seq![ChangeOut { kind: k, paths: seq![p.text], reason: None }],
            None => Seq::<ChangeOut>::empty(),
        },
        cs.len() > 0 && (forall|i: int| 0 <= i < cs.len() ==> (#[trigger] cs[i]).kind != FsChangeKind::Create)
            ==> coalesce_spec(root, cs, raw).changes == seq![ChangeOut { kind: cs.last().kind, paths: seq![p.text], reason: None }],
{
    assert(first_rescan(cs, 0) is None) by {
        lemma_first_rescan_none_of_kinds(cs, 0);
    }
    lemma_one_path_fold(root, p, cs, cs.len() as int);
    let ks = change_kinds(cs);
    assert(ks.subrange(0, cs.len() as int) =~= ks);
    assert(point_kinds(ks)) by {
        assert forall|i: int| 0 <= i < ks.len() implies kind_ok(#[trigger] ks[i]) by {
            assert(ks[i] == cs[i].kind);
        }
    }
    lemma_point_changes_fold(ks);
    let outs = Seq::<MoveModel>::empty().map_values(|m: MoveModel| move_out(m)) + single_point(p, kinds_folded(ks)).map_values(
        |q: PointModel| point_out(q),
    );
    match kinds_folded(ks) {
        Some(k) => {
            assert(outs =~= seq![ChangeOut { kind: k, paths: seq![p.text], reason: None }]);
        },
        None => {
            assert(outs =~= Seq::<ChangeOut>::empty());
        },
    }
    if cs.len() > 0 && (forall|i: int| 0 <= i < cs.len() ==> (#[trigger] cs[i]).kind != FsChangeKind::Create) {
        assert forall|i: int| 0 <= i < ks.len() implies #[trigger] ks[i] != FsChangeKind::Create by {
            assert(ks[i] == cs[i].kind);
        }
        assert(ks.last() == cs.last().kind);
    }
}

proof fn lemma_first_rescan_none_of_kinds(cs: Seq<ChangeModel>, i: int)
    requires
        0 <= i,
        forall|j: int| 0 <= j < cs.len() ==> kind_ok(#[trigger] cs[j].kind),
    ensures
        first_rescan(cs, i) is None,
    decreases cs.len() - i,
{
    if i < cs.len() {
        assert(kind_ok(cs[i].kind));
        lemma_first_rescan_none_of_kinds(cs, i + 1);
    }
}

/// Parsing gives one model per text: two of these path models with the same text are equal.
pub open spec fn parse_agrees(a: PathModel, b: PathModel) -> bool {
    a.text == b.text ==> a == b
}

/// Coalescing a coalesced batch gives the same batch: when the changes the batch lists are
/// parsed again, with each text parsed as it was the first time (one model per text, the
/// root's included), coalescing them with the same root and event count gives the batch.
pub proof fn lemma_coalesce_changes_idempotent(root: PathModel, cs: Seq<ChangeModel>, raw: nat, again: Seq<ChangeModel>)
    requires
        again.map_values(|c: ChangeModel| model_out(c)) == coalesce_spec(root, cs, raw).changes,
        forall|i: int, j: int, m: PathModel|
            0 <= i < again.len() && 0 <= j < again[i].paths.len() && (in_input(cs, m) || m == root) ==> #[trigger] parse_agrees(
                again[i].paths[j],
                m,
            ),
    ensures
        coalesce_spec(root, again, raw) == coalesce_spec(root, cs, raw),
{
    lemma_coalesce_idempotent(root, cs, raw);
    let expected = recoalesced(root, cs);
    let outs = coalesce_spec(root, cs, raw).changes;
    assert(expected.map_values(|c: ChangeModel| model_out(c)) == outs);
    assert(again.len() == expected.len()) by {
        assert(again.map_values(|c: ChangeModel| model_out(c)).len() == expected.map_values(|c: ChangeModel| model_out(c)).len());
    }
    match first_rescan(cs, 0) {
        Some(_) => {},
        None => match fold_changes(root, cs, cs.len() as int) {
            Err(_) => {},
            Ok(st) => {
                lemma_fold_changes_from(root, cs, cs.len() as int);
            },
        },
    }
    assert forall|i: int| 0 <= i < again.len() implies #[trigger] again[i] == expected[i] by {
        let a = again[i];
        let e = expected[i];
        assert(model_out(a) == outs[i]);
        assert(model_out(e) == outs[i]);
        assert(a.kind == e.kind && a.reason == e.reason);
        assert(a.paths.map_values(|p: PathModel| p.text) == e.paths.map_values(|p: PathModel| p.text));
        assert(a.paths.len() == e.paths.len()) by {
            assert(a.paths.map_values(|p: PathModel| p.text).len() == e.paths.map_values(|p: PathModel| p.text).len());
        }
        assert forall|j: int| 0 <= j < a.paths.len() implies #[trigger] a.paths[j] == e.paths[j] by {
            assert(a.paths.map_values(|p: PathModel| p.text)[j] == e.paths.map_values(|p: PathModel| p.text)[j]);
            assert(a.paths[j].text == e.paths[j].text);
            match first_rescan(cs, 0) {
                Some(reason) => {
                    assert(e == rescan_change_model(root, reason));
                    assert(e.paths[j] == root);
                    assert(parse_agrees(again[i].paths[j], root));
                },
                None => match fold_changes(root, cs, cs.len() as int) {
                    Err(reason) => {
                        assert(e == rescan_change_model(root, reason));
                        assert(e.paths[j] == root);
                        assert(parse_agrees(again[i].paths[j], root));
                    },
                    Ok((moves, points)) => {
                        if i < moves.len() {
                            assert(e == move_change(moves[i]));
                            assert(in_input(cs, path_of_key(moves[i].from_text, moves[i].from_key)));
                            assert(in_input(cs, path_of_key(moves[i].to_text, moves[i].to_key)));
                            if j == 0 {
                                assert(e.paths[j] == path_of_key(moves[i].from_text, moves[i].from_key));
                            } else {
                                assert(e.paths[j] == path_of_key(moves[i].to_text, moves[i].to_key));
                            }
                            assert(parse_agrees(again[i].paths[j], e.paths[j]));
                        } else {
                            let k = i - moves.len();
                            assert(e == point_change(points[k]));
                            assert(in_input(cs, path_of_key(points[k].text, points[k].key)));
                            assert(e.paths[j] == path_of_key(points[k].text, points[k].key));
                            assert(parse_agrees(again[i].paths[j], e.paths[j]));
                        }
                    },
                },
            }
        }
        assert(a.paths =~= e.paths);
    }
    assert(again =~= expected);
}

} // verus!
