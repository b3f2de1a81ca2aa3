//! The in-memory catalog: the asset index behind the user-facing operations, queries
//! given as expressions, per-root resets, and the stable-ID moves a completed scan
//! reveals.
use vstd::prelude::*;

use crate::asset_core::{AssetIssue, AssetRecord, SidecarState};
use crate::events::{compare_text, text_less, Order3};
use crate::index::{lemma_text_less_total, lemma_text_less_transitive, lookup, matching_keys, sorted_keys, upsert_all, without_root, AssetIndex};
use crate::query_model::{strs, AssetQuery, QueryParseError};
use crate::query_parse::{parse_query, query_spec};
use crate::records::{copy_record, records_same, same_issue, same_issues, same_record};
use crate::text::{chars_of, slice_eq, string_from};

verus! {

/// One asset of a batch edit, with the Sidecar digest the caller last saw.
#[derive(Debug, Clone, PartialEq, Eq)]
pub struct AssetEditTarget {
    pub key: String,
    pub expected_sidecar_digest: Option<String>,
}

#[derive(Debug, Clone, Copy, PartialEq, Eq, Structural)]
pub enum EditFailureKind {
    NotFound,
    Conflict,
    InvalidInput,
    WriteFailed,
}

#[derive(Debug, Clone, PartialEq, Eq)]
pub struct MetadataEditFailure {
    pub key: String,
    pub kind: EditFailureKind,
    pub message: String,
}

#[derive(Debug, Clone, PartialEq, Eq)]
pub struct QueryAssetsInput {
    pub expression: String,
}

#[derive(Debug, Clone, PartialEq, Eq)]
pub struct QueryAssetsResult {
    pub expression: String,
    pub query: AssetQuery,
    pub keys: Vec<String>,
    pub total_assets: usize,
}

/// A stable ID that a completed scan found under a new key.
#[derive(Debug, Clone, PartialEq, Eq)]
pub struct StableAssetMove {
    pub id: u128,
    pub from_key: String,
    pub to_key: String,
}

/// What replacing one root's records after a completed scan changed.
#[derive(Debug, Clone, PartialEq, Eq)]
pub struct CatalogRootReconciliation {
    pub removed_keys: Vec<String>,
    pub moved_assets: Vec<StableAssetMove>,
    pub restored_records: Vec<AssetRecord>,
}

#[derive(Debug, Clone, Copy, PartialEq, Eq, Structural)]
pub enum CatalogError {
    EmptyTargets,
}

/// What a Sidecar that the durable transaction service committed holds for the catalog.
#[derive(Debug, Clone, PartialEq, Eq)]
pub struct CommittedSidecar {
    pub schema: u32,
    pub id: u128,
    pub updated_at: String,
    pub tags: Vec<String>,
    pub rating: u8,
    pub favorite: bool,
    pub note: String,
    pub aliases: Vec<String>,
}

/// The catalog of asset records.
#[derive(Debug)]
pub struct AssetCatalog {
    index: AssetIndex,
}

impl View for AssetCatalog {
    type V = Seq<AssetRecord>;

    closed spec fn view(&self) -> Seq<AssetRecord> {
        self.index@
    }
}

impl Default for AssetCatalog {
    fn default() -> (c: AssetCatalog)
        ensures
            c@ == Seq::<AssetRecord>::empty(),
    {
        AssetCatalog::new()
    }
}

/// Whether a record belongs to a root.
pub open spec fn in_root(r: AssetRecord, root_id: u128) -> bool {
    r.root_id == Some(root_id)
}

impl AssetCatalog {
    pub fn new() -> (c: AssetCatalog)
        ensures
            c@ == Seq::<AssetRecord>::empty(),
            sorted_keys(c@),
    {
        AssetCatalog { index: AssetIndex::new() }
    }

    /// Stores records, each replacing the one with its key.
    pub fn ingest(&mut self, records: Vec<AssetRecord>)
        ensures
            final(self)@ == upsert_all(old(self)@, records@),
            sorted_keys(final(self)@),
    {
        self.index.upsert_each(records);
    }

    pub fn len(&self) -> (n: usize)
        ensures
            n == self@.len(),
    {
        self.index.len()
    }

    pub fn is_empty(&self) -> (b: bool)
        ensures
            b == (self@.len() == 0),
    {
        self.index.is_empty()
    }

    pub fn clear(&mut self)
        ensures
            final(self)@ == Seq::<AssetRecord>::empty(),
    {
        self.index.clear();
    }

    /// Removes every derived record of one root and says how many there were. Files and
    /// Sidecars are never touched.
    pub fn remove_root(&mut self, root_id: u128) -> (removed: usize)
        ensures
            final(self)@ == without_root(old(self)@, root_id),
            removed == old(self)@.len() - final(self)@.len(),
            sorted_keys(final(self)@),
    {
        self.index.remove_root_records(root_id)
    }

    pub fn get(&self, key: &str) -> (r: Option<&AssetRecord>)
        ensures
            match r {
                Some(x) => lookup(self@, key@) == Some(*x),
                None => lookup(self@, key@) is None,
            },
    {
        self.index.get(key)
    }

    /// The keys of the records that match, in key order.
    pub fn query(&self, query: &AssetQuery) -> (keys: Vec<String>)
        ensures
            strs(keys@) == matching_keys(self@, query@),
            sorted_keys(self@),
    {
        self.index.query(query)
    }

    /// Parses and runs a filter expression; a malformed expression is an error, never an
    /// empty answer.
    pub fn query_assets(&self, input: &QueryAssetsInput) -> (r: Result<QueryAssetsResult, QueryParseError>)
        ensures
            match query_spec(input.expression@) {
                Ok(m) => r matches Ok(res) && res.query@ == m && res.expression@ == input.expression@
                    && strs(res.keys@) == matching_keys(self@, m) && res.total_assets == self@.len(),
                Err(em) => r matches Err(e) && crate::query_model::error_model(e) == em,
            },
    {
        let query = parse_query(input.expression.as_str())?;
        let keys = self.index.query(&query);
        Ok(QueryAssetsResult {
            expression: string_from(&chars_of(input.expression.as_str())),
            query,
            keys,
            total_assets: self.index.len(),
        })
    }

    /// An edit may proceed only for a cataloged asset whose Sidecar digest is the one the
    /// caller last saw.
    pub fn check_edit_target(&self, target: &AssetEditTarget) -> (r: Result<(), EditFailureKind>)
        ensures
            lookup(self@, target.key@) is None ==> r == Err::<(), EditFailureKind>(EditFailureKind::NotFound),
            lookup(self@, target.key@) matches Some(record) ==> (r is Ok <==> match (record.sidecar_state, target.expected_sidecar_digest) {
                (None, None) => true,
                (Some(s), Some(d)) => s.digest@ == d@,
                _ => false,
            }),
            r matches Err(k) ==> (k == EditFailureKind::NotFound || k == EditFailureKind::Conflict),
    {
        let record = match self.index.get(target.key.as_str()) {
            Some(r) => r,
            None => {
                return Err(EditFailureKind::NotFound);
            },
        };
        let same = match (&record.sidecar_state, &target.expected_sidecar_digest) {
            (None, None) => true,
            (Some(s), Some(d)) => slice_eq(&chars_of(s.digest.as_str()), &chars_of(d.as_str())),
            _ => false,
        };
        if same {
            Ok(())
        } else {
            Err(EditFailureKind::Conflict)
        }
    }

    /// Applies a Sidecar already committed to disk to the cataloged record of a key, and
    /// hands back a copy of the updated record; nothing happens when the key is unknown.
    pub fn apply_committed_sidecar(
        &mut self,
        key: &str,
        sidecar_path: String,
        sidecar: CommittedSidecar,
        digest: String,
        size: u64,
        modified_unix_ms: i64,
    ) -> (r: Option<AssetRecord>)
        ensures
            lookup(old(self)@, key@) is None ==> r is None && final(self)@ == old(self)@,
            lookup(old(self)@, key@) matches Some(x) ==> {
                &&& lookup(final(self)@, key@) matches Some(m)
                &&& final(self)@ == crate::index::upserted(old(self)@, m)
                &&& committed_into(m, x, sidecar_path@, sidecar, digest@, size, modified_unix_ms)
                &&& r matches Some(y) && same_record(y, m)
            },
            sorted_keys(final(self)@),
    {
        let mut record = match self.index.get(key) {
            Some(found) => copy_record(found),
            None => {
                return None;
            },
        };
        let ghost x = lookup(self@, key@)->0;
        proof {
            crate::index::lemma_lookup_some(self@, key@);
            lemma_retained_same(record.issues@, x.issues@);
        }
        merge_sidecar_into_record(&mut record, sidecar_path, sidecar, digest, size, modified_unix_ms);
        let copy = copy_record(&record);
        let ghost m = record;
        self.index.upsert(record);
        proof {
            crate::index::lemma_upserted(old(self)@, m);
        }
        Some(copy)
    }

    /// The keys of a root's records that a new scan of it no longer has, in key order.
    pub fn removed_root_keys(&self, root_id: u128, records: &Vec<AssetRecord>) -> (keys: Vec<String>)
        ensures
            strs(keys@) == gone_keys(self@, root_id, records@.map_values(|r: AssetRecord| r.key@)),
            sorted_keys(self@),
    {
        let ghost desired = records@.map_values(|r: AssetRecord| r.key@);
        let mut wanted: Vec<Vec<char>> = Vec::new();
        let mut k: usize = 0;
        while k < records.len()
            invariant
                k <= records@.len(),
                desired == records@.map_values(|r: AssetRecord| r.key@),
                crate::text::views(wanted@) == desired.subrange(0, k as int),
            decreases records@.len() - k,
        {
            let ghost prior = wanted@;
            wanted.push(chars_of(records[k].key.as_str()));
            assert(crate::text::views(wanted@) =~= crate::text::views(prior).push(records@[k as int].key@));
            assert(desired.subrange(0, k + 1) =~= desired.subrange(0, k as int).push(desired[k as int]));
            k = k + 1;
        }
        assert(desired.subrange(0, records@.len() as int) =~= desired);
        let all = self.query(&AssetQuery::new());
        let mut keys: Vec<String> = Vec::new();
        let ghost s = self@;
        proof {
            lemma_all_match_empty(s);
        }
        assert(strs(all@).len() == all@.len());
        let mut i: usize = 0;
        while i < all.len()
            invariant
                i <= all@.len(),
                all@.len() == s.len(),
                s == self@,
                sorted_keys(s),
                strs(all@) == s.map_values(|r: AssetRecord| r.key@),
                crate::text::views(wanted@) == desired,
                strs(keys@) == gone_keys(s.subrange(0, i as int), root_id, desired),
            decreases all@.len() - i,
        {
            let key = chars_of(all[i].as_str());
            assert(strs(all@)[i as int] == all@[i as int]@);
            assert(s.map_values(|r: AssetRecord| r.key@)[i as int] == s[i as int].key@);
            let ghost sub = s.subrange(0, i + 1);
            assert(sub.drop_last() =~= s.subrange(0, i as int));
            assert(sub.last() == s[i as int]);
            let belongs = match self.index.get(all[i].as_str()) {
                Some(r) => match r.root_id {
                    Some(x) => x == root_id,
                    None => false,
                },
                None => false,
            };
            proof {
                crate::index::lemma_lookup_at(s, i as int);
            }
            let fresh = !contains_text(&wanted, &key);
            assert(key@ == s[i as int].key@);
            assert(all@[i as int]@ == s[i as int].key@);
            assert(fresh == !desired.contains(s[i as int].key@));
            if belongs && fresh {
                let ghost prior = keys@;
                keys.push(string_from(&key));
                assert(strs(keys@) =~= strs(prior).push(s[i as int].key@));
            }
            assert(gone_keys(sub, root_id, desired) == (if in_root(sub.last(), root_id) && !desired.contains(sub.last().key@) {
                gone_keys(sub.drop_last(), root_id, desired).push(sub.last().key@)
            } else {
                gone_keys(sub.drop_last(), root_id, desired)
            }));
            i = i + 1;
        }
        assert(s.subrange(0, s.len() as int) =~= s);
        keys
    }

    /// Copies of the records of one root, in key order.
    pub fn root_records(&self, root_id: u128) -> (records: Vec<AssetRecord>)
        ensures
            copies(records@, of_root(self@, root_id)),
    {
        let all = self.query(&AssetQuery::new());
        let ghost s = self@;
        proof {
            lemma_all_match_empty(s);
        }
        assert(strs(all@).len() == all@.len());
        let mut out: Vec<AssetRecord> = Vec::new();
        let mut i: usize = 0;
        while i < all.len()
            invariant
                i <= all@.len(),
                all@.len() == s.len(),
                s == self@,
                sorted_keys(s),
                strs(all@) == s.map_values(|r: AssetRecord| r.key@),
                copies(out@, of_root(s.subrange(0, i as int), root_id)),
            decreases all@.len() - i,
        {
            assert(strs(all@)[i as int] == all@[i as int]@);
            assert(s.map_values(|r: AssetRecord| r.key@)[i as int] == s[i as int].key@);
            let ghost sub = s.subrange(0, i + 1);
            assert(sub.drop_last() =~= s.subrange(0, i as int));
            assert(sub.last() == s[i as int]);
            proof {
                crate::index::lemma_lookup_at(s, i as int);
            }
            if let Some(r) = self.index.get(all[i].as_str()) {
                let belongs = match r.root_id {
                    Some(x) => x == root_id,
                    None => false,
                };
                if belongs {
                    let ghost prior = out@;
                    out.push(copy_record(r));
                    assert forall|j: int| 0 <= j < out@.len() implies same_record(#[trigger] out@[j], of_root(sub, root_id)[j]) by {
                        if j < prior.len() {
                            assert(out@[j] == prior[j]);
                        }
                    }
                }
            }
            i = i + 1;
        }
        assert(s.subrange(0, s.len() as int) =~= s);
        out
    }

    /// Copies of the given records that differ from what the catalog holds under their
    /// keys, stably ordered by key.
    fn changed_records(&self, records: &Vec<AssetRecord>) -> (changed: Vec<AssetRecord>)
        ensures
            copies(changed@, sorted_by_key(differing(self@, records@))),
    {
        let mut out: Vec<AssetRecord> = Vec::new();
        let mut i: usize = 0;
        while i < records.len()
            invariant
                i <= records@.len(),
                copies(out@, sorted_by_key(differing(self@, records@.subrange(0, i as int)))),
            decreases records@.len() - i,
        {
            let ghost sub = records@.subrange(0, i + 1);
            assert(sub.drop_last() =~= records@.subrange(0, i as int));
            assert(sub.last() == records@[i as int]);
            let same = match self.index.get(records[i].key.as_str()) {
                Some(current) => records_same(current, &records[i]),
                None => false,
            };
            assert(same == !differs(self@, records@[i as int]));
            let ghost d = differing(self@, records@.subrange(0, i as int));
            if !same {
                assert(differing(self@, sub) == d.push(records@[i as int]));
                assert(d.push(records@[i as int]).drop_last() =~= d);
                insert_by_key(&mut out, copy_record(&records[i]), Ghost(sorted_by_key(d)), Ghost(records@[i as int]));
            } else {
                assert(differing(self@, sub) == d);
            }
            i = i + 1;
        }
        assert(records@.subrange(0, records@.len() as int) =~= records@);
        out
    }

    /// Replaces one root's records by those of a completed scan, and reports the keys that
    /// vanished, the stable IDs that moved, and the records that are new or changed.
    pub fn reconcile_root(&mut self, root_id: u128, previous: &Vec<AssetRecord>, records: Vec<AssetRecord>) -> (out: CatalogRootReconciliation)
        ensures
            strs(out.removed_keys@) == gone_keys(old(self)@, root_id, records@.map_values(|r: AssetRecord| r.key@)),
            moves_in_order(out.moved_assets@),
            forall|j: int| 0 <= j < out.moved_assets@.len() ==> moved_between(previous@, records@, (#[trigger] out.moved_assets@[j]).id) == Some(
                (out.moved_assets@[j].from_key@, out.moved_assets@[j].to_key@),
            ),
            forall|id: u128| #[trigger] moved_between(previous@, records@, id) is Some ==> exists|j: int| 0 <= j < out.moved_assets@.len() && out.moved_assets@[j].id == id,
            copies(out.restored_records@, sorted_by_key(differing(old(self)@, records@))),
            final(self)@ == upsert_all(without_root(old(self)@, root_id), records@),
            crate::index::distinct_keys(records@) && (forall|i: int| 0 <= i < records@.len() ==> in_root(
                #[trigger] records@[i],
                root_id,
            )) ==> of_root(final(self)@, root_id) == sorted_by_key(records@),
            crate::index::distinct_keys(records@) && (forall|i: int| 0 <= i < records@.len() ==> in_root(
                #[trigger] records@[i],
                root_id,
            )) ==> forall|other: u128|
                other != root_id && (forall|i: int, j: int|
                    0 <= i < records@.len() && 0 <= j < old(self)@.len() && in_root(old(self)@[j], other) ==> #[trigger] records@[i].key@
                        != #[trigger] old(self)@[j].key@) ==> #[trigger] of_root(final(self)@, other) == of_root(old(self)@, other),
    {
        let removed_keys = self.removed_root_keys(root_id, &records);
        proof {
            if crate::index::distinct_keys(records@) && (forall|i: int| 0 <= i < records@.len() ==> in_root(
                #[trigger] records@[i],
                root_id,
            )) {
                lemma_reconciled_root_is_sorted_input(self@, root_id, records@);
                let s0 = self@;
                assert forall|other: u128|
                    other != root_id && (forall|i: int, j: int|
                        0 <= i < records@.len() && 0 <= j < s0.len() && in_root(s0[j], other) ==> #[trigger] records@[i].key@
                            != #[trigger] s0[j].key@) implies #[trigger] of_root(
                    upsert_all(without_root(s0, root_id), records@),
                    other,
                ) == of_root(s0, other) by {
                    lemma_reconcile_keeps_other_roots(s0, root_id, records@, other);
                }
            }
        }
        let restored_records = self.changed_records(&records);
        let moved_assets = stable_moves(previous, &records);
        self.remove_root(root_id);
        self.ingest(records);
        CatalogRootReconciliation { removed_keys, moved_assets, restored_records }
    }
}

fn contains_text(v: &Vec<Vec<char>>, x: &[char]) -> (b: bool)
    ensures
        b == crate::text::views(v@).contains(x@),
{
    let mut i: usize = 0;
    while i < v.len()
        invariant
            i <= v@.len(),
            forall|j: int| 0 <= j < i ==> crate::text::views(v@)[j] != x@,
        decreases v@.len() - i,
    {
        if slice_eq(&v[i], x) {
            assert(crate::text::views(v@)[i as int] == x@);
            return true;
        }
        i = i + 1;
    }
    false
}

/// The keys of a root's records that are not among the desired keys, in index order.
pub open spec fn gone_keys(s: Seq<AssetRecord>, root_id: u128, desired: Seq<Seq<char>>) -> Seq<Seq<char>>
    decreases s.len(),
{
    if s.len() == 0 {
        seq![]
    } else {
        let rest = gone_keys(s.drop_last(), root_id, desired);
        if in_root(s.last(), root_id) && !desired.contains(s.last().key@) {
            rest.push(s.last().key@)
        } else {
            rest
        }
    }
}

/// The records of a root, in index order.
pub open spec fn of_root(s: Seq<AssetRecord>, root_id: u128) -> Seq<AssetRecord>
    decreases s.len(),
{
    if s.len() == 0 {
        seq![]
    } else {
        let rest = of_root(s.drop_last(), root_id);
        if in_root(s.last(), root_id) {
            rest.push(s.last())
        } else {
            rest
        }
    }
}

proof fn lemma_without_root(s: Seq<AssetRecord>, root_id: u128)
    requires
        sorted_keys(s),
    ensures
        sorted_keys(without_root(s, root_id)),
        forall|x: AssetRecord| #[trigger] without_root(s, root_id).contains(x) <==> s.contains(x) && !in_root(x, root_id),
    decreases s.len(),
{
    if s.len() > 0 {
        let d = s.drop_last();
        assert(sorted_keys(d)) by {
            assert forall|i: int, j: int| 0 <= i < j < d.len() implies text_less(#[trigger] d[i].key@, #[trigger] d[j].key@) by {
                assert(d[i] == s[i] && d[j] == s[j]);
            }
        }
        lemma_without_root(d, root_id);
        let rest = without_root(d, root_id);
        assert forall|x: AssetRecord| s.contains(x) <==> d.contains(x) || x == s.last() by {
            if s.contains(x) {
                let i = choose|i: int| 0 <= i < s.len() && s[i] == x;
                if i < s.len() - 1 {
                    assert(d[i] == x);
                }
            }
            if d.contains(x) {
                let i = choose|i: int| 0 <= i < d.len() && d[i] == x;
                assert(s[i] == x);
            }
            if x == s.last() {
                assert(s[s.len() - 1] == x);
            }
        }
        if !in_root(s.last(), root_id) {
            let w = rest.push(s.last());
            assert forall|i: int, j: int| 0 <= i < j < w.len() implies text_less(#[trigger] w[i].key@, #[trigger] w[j].key@) by {
                if j == w.len() - 1 {
                    assert(rest.contains(w[i]));
                    let m = choose|m: int| 0 <= m < d.len() && d[m] == w[i];
                    assert(s[m] == d[m]);
                } else {
                    assert(w[i] == rest[i] && w[j] == rest[j]);
                }
            }
            assert forall|x: AssetRecord| #[trigger] w.contains(x) <==> rest.contains(x) || x == s.last() by {
                if w.contains(x) {
                    let i = choose|i: int| 0 <= i < w.len() && w[i] == x;
                    if i < rest.len() {
                        assert(rest[i] == x);
                    }
                }
                if rest.contains(x) {
                    let i = choose|i: int| 0 <= i < rest.len() && rest[i] == x;
                    assert(w[i] == x);
                }
                if x == s.last() {
                    assert(w[w.len() - 1] == x);
                }
            }
        }
    }
}

proof fn lemma_of_root(s: Seq<AssetRecord>, root_id: u128)
    requires
        sorted_keys(s),
    ensures
        sorted_keys(of_root(s, root_id)),
        forall|x: AssetRecord| #[trigger] of_root(s, root_id).contains(x) <==> s.contains(x) && in_root(x, root_id),
    decreases s.len(),
{
    if s.len() > 0 {
        let d = s.drop_last();
        assert(sorted_keys(d)) by {
            assert forall|i: int, j: int| 0 <= i < j < d.len() implies text_less(#[trigger] d[i].key@, #[trigger] d[j].key@) by {
                assert(d[i] == s[i] && d[j] == s[j]);
            }
        }
        lemma_of_root(d, root_id);
        let rest = of_root(d, root_id);
        assert forall|x: AssetRecord| s.contains(x) <==> d.contains(x) || x == s.last() by {
            if s.contains(x) {
                let i = choose|i: int| 0 <= i < s.len() && s[i] == x;
                if i < s.len() - 1 {
                    assert(d[i] == x);
                }
            }
            if d.contains(x) {
                let i = choose|i: int| 0 <= i < d.len() && d[i] == x;
                assert(s[i] == x);
            }
            if x == s.last() {
                assert(s[s.len() - 1] == x);
            }
        }
        if in_root(s.last(), root_id) {
            let w = rest.push(s.last());
            assert forall|i: int, j: int| 0 <= i < j < w.len() implies text_less(#[trigger] w[i].key@, #[trigger] w[j].key@) by {
                if j == w.len() - 1 {
                    assert(rest.contains(w[i]));
                    let m = choose|m: int| 0 <= m < d.len() && d[m] == w[i];
                    assert(s[m] == d[m]);
                } else {
                    assert(w[i] == rest[i] && w[j] == rest[j]);
                }
            }
            assert forall|x: AssetRecord| #[trigger] w.contains(x) <==> rest.contains(x) || x == s.last() by {
                if w.contains(x) {
                    let i = choose|i: int| 0 <= i < w.len() && w[i] == x;
                    if i < rest.len() {
                        assert(rest[i] == x);
                    }
                }
                if rest.contains(x) {
                    let i = choose|i: int| 0 <= i < rest.len() && rest[i] == x;
                    assert(w[i] == x);
                }
                if x == s.last() {
                    assert(w[w.len() - 1] == x);
                }
            }
        }
    }
}

/// Reconciling a root with records of that root that have distinct keys leaves the root
/// holding exactly those records, in strictly increasing key order: the scanned records
/// sorted by key.
pub proof fn lemma_reconciled_root_sorted(s: Seq<AssetRecord>, root_id: u128, records: Seq<AssetRecord>)
    requires
        sorted_keys(s),
        crate::index::distinct_keys(records),
        forall|i: int| 0 <= i < records.len() ==> in_root(#[trigger] records[i], root_id),
    ensures
        sorted_keys(of_root(upsert_all(without_root(s, root_id), records), root_id)),
        forall|x: AssetRecord| #[trigger] of_root(upsert_all(without_root(s, root_id), records), root_id).contains(x) <==> records.contains(x),
{
    let w = without_root(s, root_id);
    lemma_without_root(s, root_id);
    crate::index::lemma_upsert_all_lookup(w, records);
    let f = upsert_all(w, records);
    lemma_of_root(f, root_id);
    assert forall|x: AssetRecord| #[trigger] of_root(f, root_id).contains(x) <==> records.contains(x) by {
        if f.contains(x) && in_root(x, root_id) {
            let j = choose|j: int| 0 <= j < f.len() && f[j] == x;
            crate::index::lemma_lookup_at(f, j);
            if exists|i: int| 0 <= i < records.len() && #[trigger] records[i].key@ == x.key@ {
                let i = choose|i: int| 0 <= i < records.len() && #[trigger] records[i].key@ == x.key@;
                assert(lookup(f, records[i].key@) == Some(records[i]));
                assert(records.contains(records[i]));
            } else {
                assert(lookup(f, x.key@) == lookup(w, x.key@));
                crate::index::lemma_lookup_some(w, x.key@);
            }
        }
        if records.contains(x) {
            let i = choose|i: int| 0 <= i < records.len() && records[i] == x;
            assert(lookup(f, records[i].key@) == Some(records[i]));
            crate::index::lemma_lookup_some(f, x.key@);
        }
    }
}

proof fn lemma_sorted_by_key(rs: Seq<AssetRecord>)
    requires
        crate::index::distinct_keys(rs),
    ensures
        sorted_keys(sorted_by_key(rs)),
        forall|x: AssetRecord| #[trigger] sorted_by_key(rs).contains(x) <==> rs.contains(x),
    decreases rs.len(),
{
    if rs.len() > 0 {
        let d = rs.drop_last();
        assert(crate::index::distinct_keys(d)) by {
            assert forall|i: int, j: int| 0 <= i < j < d.len() implies #[trigger] d[i].key@ != #[trigger] d[j].key@ by {
                assert(d[i] == rs[i] && d[j] == rs[j]);
            }
        }
        lemma_sorted_by_key(d);
        let rest = sorted_by_key(d);
        let x = rs.last();
        let k = x.key@;
        lemma_position_after_bounds(rest, k, 0);
        let p = position_after(rest, k, 0);
        let r = sorted_by_key(rs);
        assert(r == rest.insert(p, x));
        assert forall|j: int| 0 <= j < rest.len() implies #[trigger] rest[j].key@ != k by {
            assert(rest.contains(rest[j]));
            assert(d.contains(rest[j]));
            let m = choose|m: int| 0 <= m < d.len() && d[m] == rest[j];
            assert(rs[m] == d[m]);
        }
        assert forall|j: int| 0 <= j < p implies text_less(#[trigger] rest[j].key@, k) by {
            lemma_text_less_total(rest[j].key@, k);
        }
        assert forall|i: int, j: int| 0 <= i < j < r.len() implies text_less(#[trigger] r[i].key@, #[trigger] r[j].key@) by {
            if j < p {
                assert(r[i] == rest[i] && r[j] == rest[j]);
            } else if j == p {
                assert(r[i] == rest[i]);
            } else if i == p {
                assert(r[j] == rest[j - 1]);
                if j - 1 > p {
                    lemma_text_less_transitive(k, rest[p].key@, rest[j - 1].key@);
                }
            } else if i < p {
                assert(r[i] == rest[i] && r[j] == rest[j - 1]);
                lemma_text_less_transitive(rest[i].key@, k, rest[j - 1].key@);
                if j - 1 > p {
                    lemma_text_less_transitive(k, rest[p].key@, rest[j - 1].key@);
                    lemma_text_less_transitive(rest[i].key@, k, rest[j - 1].key@);
                }
            } else {
                assert(r[i] == rest[i - 1] && r[j] == rest[j - 1]);
            }
        }
        assert forall|y: AssetRecord| #[trigger] r.contains(y) <==> rs.contains(y) by {
            if r.contains(y) {
                let i = choose|i: int| 0 <= i < r.len() && r[i] == y;
                if i < p {
                    assert(rest[i] == y);
                    assert(rest.contains(y));
                    let m = choose|m: int| 0 <= m < d.len() && d[m] == y;
                    assert(rs[m] == y);
                } else if i > p {
                    assert(rest[i - 1] == y);
                    assert(rest.contains(y));
                    let m = choose|m: int| 0 <= m < d.len() && d[m] == y;
                    assert(rs[m] == y);
                } else {
                    assert(rs[rs.len() - 1] == y);
                }
            }
            if rs.contains(y) {
                let i = choose|i: int| 0 <= i < rs.len() && rs[i] == y;
                if i < rs.len() - 1 {
                    assert(d[i] == y);
                    assert(d.contains(y));
                    assert(rest.contains(y));
                    let m = choose|m: int| 0 <= m < rest.len() && rest[m] == y;
                    if m < p {
                        assert(r[m] == y);
                    } else {
                        assert(r[m + 1] == y);
                    }
                } else {
                    assert(r[p] == y);
                }
            }
        }
    }
}

/// Two sequences of records in strictly increasing key order that hold the same records
/// are equal.
proof fn lemma_sorted_unique(a: Seq<AssetRecord>, b: Seq<AssetRecord>)
    requires
        sorted_keys(a),
        sorted_keys(b),
        forall|x: AssetRecord| #[trigger] a.contains(x) <==> b.contains(x),
    ensures
        a == b,
    decreases a.len(),
{
    if a.len() == 0 {
        if b.len() > 0 {
            assert(b.contains(b[0]));
            assert(a.contains(b[0]));
            assert(false);
        }
        assert(a =~= b);
    } else {
        assert(a.contains(a[0]));
        assert(b.contains(a[0]));
        assert(b.len() > 0);
        assert(b.contains(b[0]));
        assert(a.contains(b[0]));
        let j = choose|j: int| 0 <= j < b.len() && b[j] == a[0];
        let i = choose|i: int| 0 <= i < a.len() && a[i] == b[0];
        crate::events::lemma_text_less_irreflexive(a[0].key@);
        if j > 0 {
            assert(text_less(b[0].key@, b[j].key@));
            if i > 0 {
                assert(text_less(a[0].key@, a[i].key@));
                crate::index::lemma_text_less_asymmetric(a[0].key@, a[i].key@);
            }
            assert(false);
        }
        let a2 = a.drop_first();
        let b2 = b.drop_first();
        assert(sorted_keys(a2)) by {
            assert forall|p: int, q: int| 0 <= p < q < a2.len() implies text_less(#[trigger] a2[p].key@, #[trigger] a2[q].key@) by {
                assert(a2[p] == a[p + 1] && a2[q] == a[q + 1]);
            }
        }
        assert(sorted_keys(b2)) by {
            assert forall|p: int, q: int| 0 <= p < q < b2.len() implies text_less(#[trigger] b2[p].key@, #[trigger] b2[q].key@) by {
                assert(b2[p] == b[p + 1] && b2[q] == b[q + 1]);
            }
        }
        assert forall|x: AssetRecord| #[trigger] a2.contains(x) <==> b2.contains(x) by {
            if a2.contains(x) {
                let p = choose|p: int| 0 <= p < a2.len() && a2[p] == x;
                assert(a[p + 1] == x);
                assert(a.contains(x));
                assert(b.contains(x));
                let q = choose|q: int| 0 <= q < b.len() && b[q] == x;
                if q == 0 {
                    assert(a[0] == x);
                    assert(text_less(a[0].key@, a[p + 1].key@));
                }
                assert(b2[q - 1] == x);
            }
            if b2.contains(x) {
                let p = choose|p: int| 0 <= p < b2.len() && b2[p] == x;
                assert(b[p + 1] == x);
                assert(b.contains(x));
                assert(a.contains(x));
                let q = choose|q: int| 0 <= q < a.len() && a[q] == x;
                if q == 0 {
                    assert(b[0] == x);
                    assert(text_less(b[0].key@, b[p + 1].key@));
                }
                assert(a2[q - 1] == x);
            }
        }
        lemma_sorted_unique(a2, b2);
        assert(a =~= seq![a[0]] + a2);
        assert(b =~= seq![b[0]] + b2);
    }
}

/// Reconciling a root with records of that root that have distinct keys leaves the root's
/// records equal to those records sorted by key.
pub proof fn lemma_reconciled_root_is_sorted_input(s: Seq<AssetRecord>, root_id: u128, records: Seq<AssetRecord>)
    requires
        sorted_keys(s),
        crate::index::distinct_keys(records),
        forall|i: int| 0 <= i < records.len() ==> in_root(#[trigger] records[i], root_id),
    ensures
        of_root(upsert_all(without_root(s, root_id), records), root_id) == sorted_by_key(records),
{
    lemma_reconciled_root_sorted(s, root_id, records);
    lemma_sorted_by_key(records);
    lemma_sorted_unique(of_root(upsert_all(without_root(s, root_id), records), root_id), sorted_by_key(records));
}

/// Reconciling a root with records of that root that have distinct keys, none of them the
/// key of another root's record, leaves every other root's records as they were.
pub proof fn lemma_reconcile_keeps_other_roots(
    s: Seq<AssetRecord>,
    root_id: u128,
    records: Seq<AssetRecord>,
    other: u128,
)
    requires
        sorted_keys(s),
        crate::index::distinct_keys(records),
        forall|i: int| 0 <= i < records.len() ==> in_root(#[trigger] records[i], root_id),
        other != root_id,
        forall|i: int, j: int|
            0 <= i < records.len() && 0 <= j < s.len() && in_root(s[j], other) ==> #[trigger] records[i].key@
                != #[trigger] s[j].key@,
    ensures
        of_root(upsert_all(without_root(s, root_id), records), other) == of_root(s, other),
{
    let w = without_root(s, root_id);
    lemma_without_root(s, root_id);
    crate::index::lemma_upsert_all_lookup(w, records);
    let f = upsert_all(w, records);
    lemma_of_root(f, other);
    lemma_of_root(s, other);
    assert forall|x: AssetRecord| #[trigger] of_root(f, other).contains(x) <==> of_root(s, other).contains(x) by {
        if f.contains(x) && in_root(x, other) {
            let j = choose|j: int| 0 <= j < f.len() && f[j] == x;
            crate::index::lemma_lookup_at(f, j);
            if exists|i: int| 0 <= i < records.len() && #[trigger] records[i].key@ == x.key@ {
                let i = choose|i: int| 0 <= i < records.len() && #[trigger] records[i].key@ == x.key@;
                assert(lookup(f, records[i].key@) == Some(records[i]));
            } else {
                assert(lookup(f, x.key@) == lookup(w, x.key@));
                crate::index::lemma_lookup_some(w, x.key@);
            }
        }
        if s.contains(x) && in_root(x, other) {
            let j = choose|j: int| 0 <= j < s.len() && s[j] == x;
            assert(w.contains(x));
            let k = choose|k: int| 0 <= k < w.len() && w[k] == x;
            crate::index::lemma_lookup_at(w, k);
            assert forall|i: int| 0 <= i < records.len() implies #[trigger] records[i].key@ != x.key@ by {
                assert(records[i].key@ != s[j].key@);
            }
            assert(lookup(f, x.key@) == lookup(w, x.key@));
            crate::index::lemma_lookup_some(f, x.key@);
        }
    }
    lemma_sorted_unique(of_root(f, other), of_root(s, other));
}

/// Element by element, the first sequence holds copies of the second.
pub open spec fn copies(a: Seq<AssetRecord>, b: Seq<AssetRecord>) -> bool {
    a.len() == b.len() && forall|i: int| 0 <= i < a.len() ==> same_record(#[trigger] a[i], b[i])
}

/// A record differs from the catalog when the catalog holds nothing under its key or holds
/// a record with some other value.
pub open spec fn differs(s: Seq<AssetRecord>, r: AssetRecord) -> bool {
    !(lookup(s, r.key@) matches Some(x) && same_record(x, r))
}

/// The given records that differ from the catalog, in their order.
pub open spec fn differing(s: Seq<AssetRecord>, rs: Seq<AssetRecord>) -> Seq<AssetRecord>
    decreases rs.len(),
{
    if rs.len() == 0 {
        seq![]
    } else {
        let rest = differing(s, rs.drop_last());
        if differs(s, rs.last()) {
            rest.push(rs.last())
        } else {
            rest
        }
    }
}

/// The first position from `i` on whose key is above `k`.
pub open spec fn position_after(s: Seq<AssetRecord>, k: Seq<char>, i: int) -> int
    decreases s.len() - i,
{
    if i >= s.len() {
        s.len() as int
    } else if text_less(k, s[i].key@) {
        i
    } else {
        position_after(s, k, i + 1)
    }
}

/// Records stably sorted by key: each goes after every earlier one whose key is not above
/// its own.
pub open spec fn sorted_by_key(rs: Seq<AssetRecord>) -> Seq<AssetRecord>
    decreases rs.len(),
{
    if rs.len() == 0 {
        seq![]
    } else {
        let rest = sorted_by_key(rs.drop_last());
        rest.insert(position_after(rest, rs.last().key@, 0), rs.last())
    }
}

proof fn lemma_position_after_bounds(s: Seq<AssetRecord>, k: Seq<char>, i: int)
    requires
        0 <= i <= s.len(),
    ensures
        i <= position_after(s, k, i) <= s.len(),
        forall|j: int| i <= j < position_after(s, k, i) ==> !text_less(k, #[trigger] s[j].key@),
        position_after(s, k, i) < s.len() ==> text_less(k, s[position_after(s, k, i)].key@),
    decreases s.len() - i,
{
    if i < s.len() && !text_less(k, s[i].key@) {
        lemma_position_after_bounds(s, k, i + 1);
    }
}

/// Inserts a copy of a record where `sorted_by_key` puts it.
fn insert_by_key(out: &mut Vec<AssetRecord>, c: AssetRecord, Ghost(spec): Ghost<Seq<AssetRecord>>, Ghost(r): Ghost<AssetRecord>)
    requires
        copies(old(out)@, spec),
        same_record(c, r),
    ensures
        copies(final(out)@, spec.insert(position_after(spec, r.key@, 0), r)),
{
    let mut p: usize = 0;
    let key = chars_of(c.key.as_str());
    proof {
        lemma_position_after_bounds(spec, r.key@, 0);
    }
    while p < out.len() && compare_text(&key, &chars_of(out[p].key.as_str())) != Order3::Before
        invariant
            p <= out@.len(),
            copies(out@, spec),
            key@ == r.key@,
            position_after(spec, r.key@, 0) == position_after(spec, r.key@, p as int),
        decreases out@.len() - p,
    {
        assert(out@[p as int].key@ == spec[p as int].key@);
        p = p + 1;
    }
    proof {
        if p < out@.len() {
            assert(out@[p as int].key@ == spec[p as int].key@);
        }
        assert(position_after(spec, r.key@, p as int) == p);
    }
    let ghost before = out@;
    out.insert(p, c);
    let ghost target = spec.insert(p as int, r);
    assert forall|j: int| 0 <= j < out@.len() implies same_record(#[trigger] out@[j], target[j]) by {
        if j < p {
            assert(out@[j] == before[j]);
        } else if j > p {
            assert(out@[j] == before[j - 1]);
        }
    }
}

/// The issues a committed Sidecar leaves: all but the invalid-Sidecar ones.
pub open spec fn retained(issues: Seq<AssetIssue>) -> Seq<AssetIssue>
    decreases issues.len(),
{
    if issues.len() == 0 {
        seq![]
    } else {
        let rest = retained(issues.drop_last());
        if issues.last() is InvalidSidecar {
            rest
        } else {
            rest.push(issues.last())
        }
    }
}

/// A record with a committed Sidecar's stable ID and user metadata.
pub open spec fn with_user_metadata(x: AssetRecord, sidecar: CommittedSidecar) -> AssetRecord {
    AssetRecord {
        id: Some(sidecar.id),
        tags: sidecar.tags,
        rating: sidecar.rating,
        favorite: sidecar.favorite,
        note: sidecar.note,
        aliases: sidecar.aliases,
        ..x
    }
}

/// The fields a file scan derives are the same in both records.
pub open spec fn file_fields_kept(before: AssetRecord, after: AssetRecord) -> bool {
    &&& after.key == before.key
    &&& after.root_id == before.root_id
    &&& after.path == before.path
    &&& after.relative_path == before.relative_path
    &&& after.file_name == before.file_name
    &&& after.extension == before.extension
    &&& after.mime == before.mime
    &&& after.kind == before.kind
    &&& after.size == before.size
    &&& after.created_unix_ms == before.created_unix_ms
    &&& after.modified_unix_ms == before.modified_unix_ms
    &&& after.file_read_only == before.file_read_only
    &&& after.dimensions == before.dimensions
    &&& after.native_metadata == before.native_metadata
    &&& after.media == before.media
}

/// Applying a committed Sidecar takes every piece of user metadata from it, for every
/// record and Sidecar: the stable ID, tags, rating, favorite, note and aliases become the
/// Sidecar's, and every file-derived field stays the record's.
pub proof fn lemma_committed_metadata_taken(x: AssetRecord, sidecar: CommittedSidecar)
    ensures
        with_user_metadata(x, sidecar).id == Some(sidecar.id),
        with_user_metadata(x, sidecar).tags == sidecar.tags,
        with_user_metadata(x, sidecar).rating == sidecar.rating,
        with_user_metadata(x, sidecar).favorite == sidecar.favorite,
        with_user_metadata(x, sidecar).note == sidecar.note,
        with_user_metadata(x, sidecar).aliases == sidecar.aliases,
        file_fields_kept(x, with_user_metadata(x, sidecar)),
        with_user_metadata(x, sidecar).sidecar_path == x.sidecar_path,
        with_user_metadata(x, sidecar).sidecar_state == x.sidecar_state,
{
}

/// `m` is `x` with a committed Sidecar applied: its path and state recorded, its stable ID
/// and user metadata taken over, every other field kept (compared by content), and the
/// invalid-Sidecar issues dropped.
pub open spec fn committed_into(
    m: AssetRecord,
    x: AssetRecord,
    sidecar_path: Seq<char>,
    sidecar: CommittedSidecar,
    digest: Seq<char>,
    size: u64,
    modified_unix_ms: i64,
) -> bool {
    &&& same_record(
        AssetRecord { issues: m.issues, sidecar_path: None, sidecar_state: None, ..m },
        AssetRecord { issues: m.issues, sidecar_path: None, sidecar_state: None, ..with_user_metadata(x, sidecar) },
    )
    &&& m.sidecar_path matches Some(p) && p@ == sidecar_path
    &&& m.sidecar_state matches Some(st) && st.schema == sidecar.schema && st.digest@ == digest && st.size == size
        && st.modified_unix_ms == modified_unix_ms && st.updated_at@ == sidecar.updated_at@
    &&& same_issues(m.issues@, retained(x.issues@))
}

/// Issues that are the same keep the same ones.
proof fn lemma_retained_same(a: Seq<AssetIssue>, b: Seq<AssetIssue>)
    requires
        same_issues(a, b),
    ensures
        same_issues(retained(a), retained(b)),
    decreases a.len(),
{
    if a.len() > 0 {
        assert(same_issues(a.drop_last(), b.drop_last())) by {
            assert forall|i: int| 0 <= i < a.drop_last().len() implies same_issue(#[trigger] a.drop_last()[i], b.drop_last()[i]) by {
                assert(same_issue(a[i], b[i]));
            }
        }
        lemma_retained_same(a.drop_last(), b.drop_last());
        assert(same_issue(a.last(), b.last()));
    }
}

/// Applies a committed Sidecar to a record: its path and on-disk state are recorded, its
/// stable ID and user metadata replace the record's, and invalid-Sidecar issues are
/// dropped; the file-derived fields stay.
pub fn merge_sidecar_into_record(
    record: &mut AssetRecord,
    sidecar_path: String,
    sidecar: CommittedSidecar,
    digest: String,
    size: u64,
    modified_unix_ms: i64,
)
    ensures
        *final(record) == (AssetRecord {
            issues: final(record).issues,
            sidecar_path: Some(sidecar_path),
            sidecar_state: Some(
                SidecarState { schema: sidecar.schema, digest, size, modified_unix_ms, updated_at: sidecar.updated_at },
            ),
            ..with_user_metadata(*old(record), sidecar)
        }),
        final(record).issues@ == retained(old(record).issues@),
        final(record).id == Some(sidecar.id),
        final(record).tags == sidecar.tags,
        final(record).rating == sidecar.rating,
        final(record).favorite == sidecar.favorite,
        final(record).note == sidecar.note,
        final(record).aliases == sidecar.aliases,
        file_fields_kept(*old(record), *final(record)),
{
    proof {
        lemma_committed_metadata_taken(*record, sidecar);
    }
    let ghost original = record.issues@;
    let total = record.issues.len();
    let mut pending: Vec<AssetIssue> = Vec::new();
    std::mem::swap(&mut pending, &mut record.issues);
    let mut kept: Vec<AssetIssue> = Vec::new();
    let mut n: usize = 0;
    while pending.len() > 0
        invariant
            n <= original.len(),
            original.len() == total,
            pending@ == original.subrange(n as int, original.len() as int),
            kept@ == retained(original.subrange(0, n as int)),
        decreases pending@.len(),
    {
        let issue = pending.remove(0);
        let ghost sub = original.subrange(0, n + 1);
        assert(sub.drop_last() =~= original.subrange(0, n as int));
        assert(sub.last() == issue);
        let invalid_sidecar = match &issue {
            AssetIssue::InvalidSidecar(_) => true,
            _ => false,
        };
        if !invalid_sidecar {
            kept.push(issue);
        }
        n = n + 1;
        assert(pending@ =~= original.subrange(n as int, original.len() as int));
    }
    assert(original.subrange(0, original.len() as int) =~= original);
    record.id = Some(sidecar.id);
    record.sidecar_path = Some(sidecar_path);
    record.sidecar_state = Some(
        SidecarState { schema: sidecar.schema, digest, size, modified_unix_ms, updated_at: sidecar.updated_at },
    );
    record.tags = sidecar.tags;
    record.rating = sidecar.rating;
    record.favorite = sidecar.favorite;
    record.note = sidecar.note;
    record.aliases = sidecar.aliases;
    record.issues = kept;
}

/// The empty query matches every record, so its answer is every key in index order.
pub proof fn lemma_all_match_empty(s: Seq<AssetRecord>)
    ensures
        matching_keys(s, crate::query_model::empty_model()) == s.map_values(|r: AssetRecord| r.key@),
    decreases s.len(),
{
    if s.len() > 0 {
        lemma_all_match_empty(s.drop_last());
        assert(s.drop_last().map_values(|r: AssetRecord| r.key@).push(s.last().key@) =~= s.map_values(|r: AssetRecord| r.key@));
    } else {
        assert(s.map_values(|r: AssetRecord| r.key@) =~= Seq::<Seq<char>>::empty());
    }
}

// ----------------------------------------------------------------------------------------
// Stable-ID moves.
// ----------------------------------------------------------------------------------------

/// The records that carry a stable ID.
pub open spec fn with_id(records: Seq<AssetRecord>, id: u128) -> Seq<AssetRecord> {
    records.filter(|r: AssetRecord| r.id == Some(id))
}

/// A stable ID moved when exactly one previous and exactly one new record carry it, under
/// different keys.
pub open spec fn moved_between(previous: Seq<AssetRecord>, next: Seq<AssetRecord>, id: u128) -> Option<(Seq<char>, Seq<char>)> {
    let from = with_id(previous, id);
    let to = with_id(next, id);
    if from.len() == 1 && to.len() == 1 && from[0].key@ != to[0].key@ {
        Some((from[0].key@, to[0].key@))
    } else {
        None
    }
}

pub open spec fn move_view(m: StableAssetMove) -> (u128, Seq<char>, Seq<char>) {
    (m.id, m.from_key@, m.to_key@)
}

fn count_id(records: &Vec<AssetRecord>, id: u128) -> (r: (usize, Option<usize>))
    ensures
        r.0 == with_id(records@, id).len(),
        r.0 >= 1 ==> (r.1 matches Some(k) && k < records@.len() && records@[k as int] == with_id(records@, id)[0]),
{
    let mut n: usize = 0;
    let mut first: Option<usize> = None;
    let mut i: usize = 0;
    while i < records.len()
        invariant
            i <= records@.len(),
            n == with_id(records@.subrange(0, i as int), id).len(),
            n <= i,
            n >= 1 ==> (first matches Some(k) && k < i && records@[k as int] == with_id(records@.subrange(0, i as int), id)[0]),
        decreases records@.len() - i,
    {
        let ghost sub = records@.subrange(0, i + 1);
        assert(sub.drop_last() =~= records@.subrange(0, i as int));
        proof {
            reveal(Seq::filter);
        }
        if records[i].id == Some(id) {
            if n == 0 {
                first = Some(i);
            }
            n = n + 1;
        }
        i = i + 1;
    }
    assert(records@.subrange(0, records@.len() as int) =~= records@);
    (n, first)
}

/// The order of reported moves: by previous key, then by stable ID.
pub open spec fn move_before(a: StableAssetMove, b: StableAssetMove) -> bool {
    text_less(a.from_key@, b.from_key@) || (a.from_key@ == b.from_key@ && a.id < b.id)
}

pub open spec fn moves_in_order(moves: Seq<StableAssetMove>) -> bool {
    forall|j: int, k: int| 0 <= j < k < moves.len() ==> move_before(#[trigger] moves[j], #[trigger] moves[k])
}

proof fn lemma_move_before_transitive(a: StableAssetMove, b: StableAssetMove, c: StableAssetMove)
    requires
        move_before(a, b),
        move_before(b, c),
    ensures
        move_before(a, c),
{
    if text_less(a.from_key@, b.from_key@) && text_less(b.from_key@, c.from_key@) {
        lemma_text_less_transitive(a.from_key@, b.from_key@, c.from_key@);
    }
}

fn move_precedes(a: &StableAssetMove, b: &StableAssetMove) -> (r: bool)
    ensures
        r == move_before(*a, *b),
{
    match compare_text(&chars_of(a.from_key.as_str()), &chars_of(b.from_key.as_str())) {
        Order3::Before => true,
        Order3::Same => a.id < b.id,
        Order3::After => false,
    }
}

/// Each stable ID is reported as moved at most once: the moves are ordered by previous key
/// and ID, and a moved ID has one previous key.
pub proof fn lemma_moves_report_each_id_once(previous: Seq<AssetRecord>, next: Seq<AssetRecord>, moves: Seq<StableAssetMove>)
    requires
        moves_in_order(moves),
        forall|j: int| 0 <= j < moves.len() ==> moved_between(previous, next, (#[trigger] moves[j]).id) == Some(
            (moves[j].from_key@, moves[j].to_key@),
        ),
    ensures
        forall|j: int, k: int| 0 <= j < k < moves.len() ==> (#[trigger] moves[j]).id != (#[trigger] moves[k]).id,
{
    assert forall|j: int, k: int| 0 <= j < k < moves.len() implies (#[trigger] moves[j]).id != (#[trigger] moves[k]).id by {
        if moves[j].id == moves[k].id {
            assert(moved_between(previous, next, moves[j].id) == moved_between(previous, next, moves[k].id));
            assert(moves[j].from_key@ == moves[k].from_key@);
            assert(move_before(moves[j], moves[k]));
            crate::events::lemma_text_less_irreflexive(moves[j].from_key@);
        }
    }
}

/// Puts a move in its place, unless one with its ID is already there.
fn insert_move(moves: &mut Vec<StableAssetMove>, m: StableAssetMove)
    requires
        moves_in_order(old(moves)@),
    ensures
        moves_in_order(final(moves)@),
        exists|j: int| 0 <= j < final(moves)@.len() && final(moves)@[j].id == m.id,
        forall|j: int| 0 <= j < final(moves)@.len() ==> old(moves)@.contains(#[trigger] final(moves)@[j]) || final(moves)@[j] == m,
        forall|j: int| 0 <= j < old(moves)@.len() ==> final(moves)@.contains(#[trigger] old(moves)@[j]),
{
    let mut p: usize = 0;
    while p < moves.len() && move_precedes(&moves[p], &m)
        invariant
            p <= moves@.len(),
            forall|j: int| 0 <= j < p ==> move_before(#[trigger] moves@[j], m),
        decreases moves@.len() - p,
    {
        p = p + 1;
    }
    if p < moves.len() && moves[p].id == m.id {
        assert(moves@.contains(moves@[p as int]));
        return;
    }
    let ghost before = moves@;
    proof {
        if p < before.len() {
            assert(!move_before(before[p as int], m));
            lemma_text_less_total(before[p as int].from_key@, m.from_key@);
            assert(move_before(m, before[p as int]));
        }
        assert forall|q: int| p <= q < before.len() implies move_before(m, #[trigger] before[q]) by {
            if q > p {
                assert(move_before(before[p as int], before[q]));
                lemma_move_before_transitive(m, before[p as int], before[q]);
            }
        }
    }
    moves.insert(p, m);
    assert forall|a: int, b: int| 0 <= a < b < moves@.len() implies move_before(#[trigger] moves@[a], #[trigger] moves@[b]) by {
        if b < p {
            assert(moves@[a] == before[a] && moves@[b] == before[b]);
        } else if b == p {
            assert(moves@[a] == before[a]);
        } else if a == p {
            assert(moves@[b] == before[b - 1]);
        } else if a < p {
            assert(moves@[a] == before[a] && moves@[b] == before[b - 1]);
            assert(move_before(before[a], m));
            assert(move_before(m, before[b - 1]));
            lemma_move_before_transitive(before[a], m, before[b - 1]);
        } else {
            assert(moves@[a] == before[a - 1] && moves@[b] == before[b - 1]);
        }
    }
    assert(moves@[p as int] == m);
    assert forall|j: int| 0 <= j < moves@.len() implies before.contains(#[trigger] moves@[j]) || moves@[j] == m by {
        if j < p {
            assert(moves@[j] == before[j]);
        } else if j > p {
            assert(moves@[j] == before[j - 1]);
        }
    }
    assert forall|j: int| 0 <= j < before.len() implies moves@.contains(#[trigger] before[j]) by {
        if j < p {
            assert(moves@[j] == before[j]);
        } else {
            assert(moves@[j + 1] == before[j]);
        }
    }
}

/// The stable IDs that a completed scan found under new keys, ordered by previous key and
/// then by ID.
pub fn stable_moves(previous: &Vec<AssetRecord>, next: &Vec<AssetRecord>) -> (moves: Vec<StableAssetMove>)
    ensures
        moves_in_order(moves@),
        forall|j: int| 0 <= j < moves@.len() ==> moved_between(previous@, next@, (#[trigger] moves@[j]).id) == Some(
            (moves@[j].from_key@, moves@[j].to_key@),
        ),
        forall|id: u128| #[trigger] moved_between(previous@, next@, id) is Some ==> exists|j: int| 0 <= j < moves@.len() && moves@[j].id == id,
{
    let mut moves: Vec<StableAssetMove> = Vec::new();
    let mut i: usize = 0;
    while i < previous.len()
        invariant
            i <= previous@.len(),
            moves_in_order(moves@),
            forall|j: int| 0 <= j < moves@.len() ==> moved_between(previous@, next@, (#[trigger] moves@[j]).id) == Some(
                (moves@[j].from_key@, moves@[j].to_key@),
            ),
            forall|k: int| 0 <= k < i && (#[trigger] previous@[k]).id is Some && moved_between(previous@, next@, previous@[k].id->0) is Some
                ==> exists|j: int| 0 <= j < moves@.len() && moves@[j].id == previous@[k].id->0,
        decreases previous@.len() - i,
    {
        if let Some(x) = previous[i].id {
            let (from_count, from_at) = count_id(previous, x);
            let (to_count, to_at) = count_id(next, x);
            if from_count == 1 && to_count == 1 {
                if let (Some(f), Some(t)) = (from_at, to_at) {
                    let from_key = chars_of(previous[f].key.as_str());
                    let to_key = chars_of(next[t].key.as_str());
                    if !slice_eq(&from_key, &to_key) {
                        let ghost before = moves@;
                        let m = StableAssetMove { id: x, from_key: string_from(&from_key), to_key: string_from(&to_key) };
                        assert(moved_between(previous@, next@, x) == Some((m.from_key@, m.to_key@)));
                        insert_move(&mut moves, m);
                        assert forall|j: int| 0 <= j < moves@.len() implies moved_between(previous@, next@, (#[trigger] moves@[j]).id) == Some(
                            (moves@[j].from_key@, moves@[j].to_key@),
                        ) by {
                            if moves@[j] != m {
                                let k = choose|k: int| 0 <= k < before.len() && before[k] == moves@[j];
                            }
                        }
                        assert forall|k: int| 0 <= k < i && (#[trigger] previous@[k]).id is Some && moved_between(previous@, next@, previous@[k].id->0) is Some
                            implies exists|j: int| 0 <= j < moves@.len() && moves@[j].id == previous@[k].id->0 by {
                            let j = choose|j: int| 0 <= j < before.len() && before[j].id == previous@[k].id->0;
                            assert(moves@.contains(before[j]));
                        }
                    }
                }
            }
        }
        i = i + 1;
    }
    assert forall|id: u128| #[trigger] moved_between(previous@, next@, id) is Some implies exists|j: int| 0 <= j < moves@.len() && moves@[j].id == id by {
        let from = with_id(previous@, id);
        previous@.filter_lemma(|r: AssetRecord| r.id == Some(id));
        assert(from.contains(from[0]));
        previous@.lemma_filter_contains_rev(|r: AssetRecord| r.id == Some(id), from[0]);
        let m = choose|m: int| 0 <= m < previous@.len() && previous@[m] == from[0];
        assert(previous@[m].id == Some(id));
    }
    moves
}

} // verus!
