//! Library roots: the configured folders of the library, their settings, and the rules a
//! configuration keeps: one schema, distinct IDs, usable names and ignore rules, absolute
//! paths, no symbolic link traversal, and no root inside another.
//!
//! Reading, writing and probing the file system stay with the caller; the operations here
//! turn a configuration into the next one.
use vstd::prelude::*;

use crate::diagnostics::{decimal, decimal_text};
use crate::events::{compare_text, text_less, Order3};
use crate::index::{lemma_text_less_asymmetric, lemma_text_less_total, lemma_text_less_transitive};
use crate::platform::{
    is_absolute_path, path_relation_for_platform, plain_native_keys, plain_path, relation_of, PathRelation,
    PlatformFamily,
};
use crate::query_filters::{format_uuid, uuid_text};
use crate::query_model::strs;
use crate::text::{chars_of, concat, string_from, trim, trim_seq};

verus! {

pub const LIBRARY_CONFIG_SCHEMA_VERSION: u32 = 1;

/// The longest root display name, in characters.
pub const MAX_ROOT_NAME_CHARS: usize = 128;

#[derive(Debug, Clone, PartialEq, Eq)]
pub struct RootScanSettings {
    pub recursive: bool,
    pub follow_symlinks: bool,
    pub ignore: Vec<String>,
}

impl Default for RootScanSettings {
    /// Recursive, without following symbolic links, ignoring nothing.
    fn default() -> (s: RootScanSettings)
        ensures
            s.recursive && !s.follow_symlinks && s.ignore@.len() == 0,
    {
        RootScanSettings { recursive: true, follow_symlinks: false, ignore: Vec::new() }
    }
}

#[derive(Debug, Clone, Copy, PartialEq, Eq, Structural)]
pub enum RootAccessStatus {
    Available,
    Missing,
    NotDirectory,
    PermissionDenied,
    Unavailable,
}

impl RootAccessStatus {
    pub open spec fn spec_label(self) -> &'static str {
        match self {
            RootAccessStatus::Available => "available",
            RootAccessStatus::Missing => "missing",
            RootAccessStatus::NotDirectory => "not-directory",
            RootAccessStatus::PermissionDenied => "permission-denied",
            RootAccessStatus::Unavailable => "unavailable",
        }
    }

    /// The status as shown to people.
    pub fn label(self) -> (s: &'static str)
        ensures
            s == self.spec_label(),
    {
        match self {
            RootAccessStatus::Available => "available",
            RootAccessStatus::Missing => "missing",
            RootAccessStatus::NotDirectory => "not-directory",
            RootAccessStatus::PermissionDenied => "permission-denied",
            RootAccessStatus::Unavailable => "unavailable",
        }
    }
}

/// A configured root; its ID is a UUID as a 128-bit value and its path a native path text.
#[derive(Debug, Clone, PartialEq, Eq)]
pub struct LibraryRoot {
    pub id: u128,
    pub path: String,
    pub name: String,
    pub enabled: bool,
    pub scan: RootScanSettings,
}

#[derive(Debug, Clone, PartialEq, Eq)]
pub struct LibraryConfig {
    pub schema: u32,
    pub roots: Vec<LibraryRoot>,
}

impl LibraryConfig {
    /// The current schema with no roots.
    pub fn empty() -> (c: LibraryConfig)
        ensures
            c.schema == LIBRARY_CONFIG_SCHEMA_VERSION,
            c.roots@.len() == 0,
    {
        LibraryConfig { schema: LIBRARY_CONFIG_SCHEMA_VERSION, roots: Vec::new() }
    }
}

#[derive(Debug, Clone, PartialEq, Eq)]
pub struct LibraryRootStatus {
    pub root: LibraryRoot,
    pub access_status: RootAccessStatus,
    pub access_message: Option<String>,
}

#[derive(Debug, Clone, PartialEq, Eq)]
pub struct AddLibraryRoot {
    pub path: String,
    pub name: String,
    pub ignore: Vec<String>,
}

#[derive(Debug, Clone, PartialEq, Eq)]
pub struct UpdateLibraryRoot {
    pub id: u128,
    pub name: Option<String>,
    pub enabled: Option<bool>,
    pub ignore: Option<Vec<String>>,
}

#[derive(Debug, Clone, Copy, PartialEq, Eq, Structural)]
pub enum RootOverlapKind {
    Duplicate,
    InsideExisting,
    ContainsExisting,
}

impl RootOverlapKind {
    pub open spec fn spec_label(self) -> &'static str {
        match self {
            RootOverlapKind::Duplicate => "duplicates",
            RootOverlapKind::InsideExisting => "is inside",
            RootOverlapKind::ContainsExisting => "contains",
        }
    }

    /// The overlap as a verb phrase.
    pub fn label(self) -> (s: &'static str)
        ensures
            s == self.spec_label(),
    {
        match self {
            RootOverlapKind::Duplicate => "duplicates",
            RootOverlapKind::InsideExisting => "is inside",
            RootOverlapKind::ContainsExisting => "contains",
        }
    }
}

/// Why a root operation failed. Paths are native path texts; I/O and YAML failures carry
/// their messages.
#[derive(Debug, Clone, PartialEq, Eq)]
pub enum LibraryRootError {
    Io { path: String, message: String },
    Parse { path: String, message: String },
    Serialize(String),
    InvalidConfig(String),
    InvalidName(String),
    InvalidIgnore(String),
    InvalidPath(String),
    InaccessibleRoot { path: String, status: RootAccessStatus },
    Canonicalize { path: String, message: String },
    Overlap { path: String, kind: RootOverlapKind, existing_path: String },
    NotFound(u128),
    Persist { path: String, message: String },
}

// ----------------------------------------------------------------------------------------
// Names and ignore rules.
// ----------------------------------------------------------------------------------------

/// A display name, trimmed, of 1 to 128 characters.
pub open spec fn name_ok(name: Seq<char>) -> bool {
    0 < trim_seq(name).len() <= MAX_ROOT_NAME_CHARS
}

/// Trims a display name and checks its length.
pub fn normalize_name(name: &str) -> (r: Result<String, LibraryRootError>)
    ensures
        name_ok(name@) ==> (r matches Ok(n) && n@ == trim_seq(name@)),
        !name_ok(name@) ==> (r matches Err(LibraryRootError::InvalidName(n)) && n@ == trim_seq(name@)),
{
    let t = trim(&chars_of(name));
    if t.len() == 0 || t.len() > MAX_ROOT_NAME_CHARS {
        return Err(LibraryRootError::InvalidName(string_from(&t)));
    }
    Ok(string_from(&t))
}

/// Texts in strictly increasing order, hence without duplicates.
pub open spec fn sorted_texts(s: Seq<Seq<char>>) -> bool {
    forall|i: int, j: int| 0 <= i < j < s.len() ==> text_less(#[trigger] s[i], #[trigger] s[j])
}

/// Every ignore rule has something besides whitespace.
pub open spec fn ignore_rules_ok(rules: Seq<Seq<char>>) -> bool {
    forall|i: int| 0 <= i < rules.len() ==> trim_seq(#[trigger] rules[i]).len() > 0
}

/// The trimmed rules as a set.
pub open spec fn trimmed_rule(rules: Seq<Seq<char>>, x: Seq<char>) -> bool {
    exists|i: int| 0 <= i < rules.len() && trim_seq(#[trigger] rules[i]) == x
}

fn text_position(v: &Vec<String>, t: &[char]) -> (p: usize)
    requires
        sorted_texts(strs(v@)),
    ensures
        p <= v@.len(),
        forall|i: int| 0 <= i < p ==> text_less(#[trigger] strs(v@)[i], t@),
        p < v@.len() ==> !text_less(strs(v@)[p as int], t@),
{
    let mut i: usize = 0;
    while i < v.len()
        invariant
            i <= v@.len(),
            forall|j: int| 0 <= j < i ==> text_less(#[trigger] strs(v@)[j], t@),
        decreases v@.len() - i,
    {
        let c = chars_of(v[i].as_str());
        assert(strs(v@)[i as int] == c@);
        match compare_text(&c, t) {
            Order3::Before => {
                i = i + 1;
            },
            _ => {
                return i;
            },
        }
    }
    i
}

/// A list of texts as a set: sorted, each once.
pub fn text_set(v: &Vec<String>) -> (r: Vec<String>)
    ensures
        sorted_texts(strs(r@)),
        forall|x: Seq<char>| #[trigger] strs(r@).contains(x) <==> strs(v@).contains(x),
{
    let mut out: Vec<String> = Vec::new();
    assert(strs(out@) =~= Seq::<Seq<char>>::empty());
    let mut i: usize = 0;
    while i < v.len()
        invariant
            i <= v@.len(),
            sorted_texts(strs(out@)),
            forall|x: Seq<char>| #[trigger] strs(out@).contains(x) <==> strs(v@).subrange(0, i as int).contains(x),
        decreases v@.len() - i,
    {
        let t = chars_of(v[i].as_str());
        let ghost before = strs(out@);
        insert_sorted(&mut out, &t);
        let ghost pre = strs(v@).subrange(0, i as int);
        let ghost next = strs(v@).subrange(0, i + 1);
        assert(next =~= pre.push(strs(v@)[i as int]));
        assert(strs(v@)[i as int] == t@);
        assert forall|x: Seq<char>| #[trigger] strs(out@).contains(x) <==> next.contains(x) by {
            if next.contains(x) {
                let k = choose|k: int| 0 <= k < next.len() && next[k] == x;
                if k < i {
                    assert(pre[k] == x);
                    assert(pre.contains(x));
                }
            }
            if pre.contains(x) {
                let k = choose|k: int| 0 <= k < pre.len() && pre[k] == x;
                assert(next[k] == x);
            }
            if x == t@ {
                assert(next[i as int] == x);
            }
        }
        i = i + 1;
    }
    assert(strs(v@).subrange(0, v@.len() as int) =~= strs(v@));
    out
}

/// Adds a text to a sorted set of texts.
fn insert_sorted(v: &mut Vec<String>, t: &[char])
    requires
        sorted_texts(strs(old(v)@)),
    ensures
        sorted_texts(strs(final(v)@)),
        forall|x: Seq<char>| strs(final(v)@).contains(x) <==> (strs(old(v)@).contains(x) || x == t@),
{
    let ghost s = strs(v@);
    let p = text_position(v, t);
    if p < v.len() {
        let c = chars_of(v[p].as_str());
        assert(s[p as int] == c@);
        if crate::text::slice_eq(&c, t) {
            assert forall|x: Seq<char>| s.contains(x) <==> (s.contains(x) || x == t@) by {
                if x == t@ {
                    assert(s[p as int] == x);
                }
            }
            return;
        }
    }
    assert forall|j: int| p <= j < s.len() implies text_less(t@, #[trigger] s[j]) by {
        lemma_text_less_total(t@, s[p as int]);
        if j > p {
            lemma_text_less_transitive(t@, s[p as int], s[j]);
        }
    }
    v.insert(p, string_from(t));
    let ghost u = strs(v@);
    assert(u =~= s.insert(p as int, t@));
    assert(sorted_texts(u)) by {
        assert forall|i: int, j: int| 0 <= i < j < u.len() implies text_less(#[trigger] u[i], #[trigger] u[j]) by {
            if j < p {
                assert(u[i] == s[i] && u[j] == s[j]);
            } else if j == p {
                assert(u[i] == s[i]);
            } else if i == p {
                assert(u[j] == s[j - 1]);
            } else if i < p {
                assert(u[i] == s[i] && u[j] == s[j - 1]);
                lemma_text_less_transitive(s[i], t@, s[j - 1]);
            } else {
                assert(u[i] == s[i - 1] && u[j] == s[j - 1]);
            }
        }
    }
    assert forall|x: Seq<char>| u.contains(x) <==> (s.contains(x) || x == t@) by {
        if u.contains(x) {
            let k = choose|k: int| 0 <= k < u.len() && u[k] == x;
            if k < p {
                assert(s[k] == x);
            } else if k > p {
                assert(s[k - 1] == x);
            }
        }
        if s.contains(x) {
            let k = choose|k: int| 0 <= k < s.len() && s[k] == x;
            if k < p {
                assert(u[k] == x);
            } else {
                assert(u[k + 1] == x);
            }
        }
        if x == t@ {
            assert(u[p as int] == x);
        }
    }
}

/// Trims ignore rules and keeps them as a sorted set; an empty rule is refused.
pub fn normalize_ignore(ignore: &Vec<String>) -> (r: Result<Vec<String>, LibraryRootError>)
    ensures
        ignore_rules_ok(strs(ignore@)) ==> (r matches Ok(v) && sorted_texts(strs(v@)) && forall|x: Seq<char>|
            strs(v@).contains(x) <==> trimmed_rule(strs(ignore@), x)),
        !ignore_rules_ok(strs(ignore@)) ==> (r matches Err(LibraryRootError::InvalidIgnore(m))
            && m@ == "rules cannot be empty"@),
{
    let mut out: Vec<String> = Vec::new();
    let mut i: usize = 0;
    while i < ignore.len()
        invariant
            i <= ignore@.len(),
            sorted_texts(strs(out@)),
            forall|j: int| 0 <= j < i ==> trim_seq(#[trigger] strs(ignore@)[j]).len() > 0,
            forall|x: Seq<char>| strs(out@).contains(x) <==> trimmed_rule(strs(ignore@).subrange(0, i as int), x),
        decreases ignore@.len() - i,
    {
        let t = trim(&chars_of(ignore[i].as_str()));
        assert(strs(ignore@)[i as int] == ignore@[i as int]@);
        if t.len() == 0 {
            assert(!ignore_rules_ok(strs(ignore@)));
            return Err(LibraryRootError::InvalidIgnore(string_from(&chars_of("rules cannot be empty"))));
        }
        let ghost before = strs(out@);
        insert_sorted(&mut out, &t);
        let ghost pre = strs(ignore@).subrange(0, i as int);
        let ghost next = strs(ignore@).subrange(0, i + 1);
        assert forall|x: Seq<char>| strs(out@).contains(x) <==> trimmed_rule(next, x) by {
            if trimmed_rule(pre, x) {
                let k = choose|k: int| 0 <= k < pre.len() && trim_seq(#[trigger] pre[k]) == x;
                assert(next[k] == pre[k]);
            }
            if trimmed_rule(next, x) {
                let k = choose|k: int| 0 <= k < next.len() && trim_seq(#[trigger] next[k]) == x;
                if k < i {
                    assert(pre[k] == next[k]);
                } else {
                    assert(next[k] == strs(ignore@)[i as int]);
                }
            }
            if x == t@ {
                assert(next[i as int] == strs(ignore@)[i as int]);
                assert(trim_seq(next[i as int]) == x);
            }
        }
        i = i + 1;
    }
    assert(strs(ignore@).subrange(0, ignore@.len() as int) =~= strs(ignore@));
    Ok(out)
}

// ----------------------------------------------------------------------------------------
// Overlap of roots.
// ----------------------------------------------------------------------------------------

/// How a new root overlaps an existing one, from the new root's relation to it.
pub open spec fn overlap_for(relation: PathRelation) -> Option<RootOverlapKind> {
    match relation {
        PathRelation::Same => Some(RootOverlapKind::Duplicate),
        PathRelation::Descendant => Some(RootOverlapKind::InsideExisting),
        PathRelation::Ancestor => Some(RootOverlapKind::ContainsExisting),
        PathRelation::Distinct => None,
    }
}

pub fn overlap_kind(relation: PathRelation) -> (k: Option<RootOverlapKind>)
    ensures
        k == overlap_for(relation),
{
    match relation {
        PathRelation::Same => Some(RootOverlapKind::Duplicate),
        PathRelation::Descendant => Some(RootOverlapKind::InsideExisting),
        PathRelation::Ancestor => Some(RootOverlapKind::ContainsExisting),
        PathRelation::Distinct => None,
    }
}

/// How two plain root paths relate under a platform's rules.
pub open spec fn plain_relation(a: Seq<char>, b: Seq<char>, platform: PlatformFamily) -> PathRelation {
    relation_of(plain_native_keys(a, platform), plain_native_keys(b, platform))
}

/// The paths of the first `count` roots are plain.
pub open spec fn plain_roots(roots: Seq<LibraryRoot>, count: int) -> bool {
    forall|i: int| 0 <= i < count ==> plain_path(#[trigger] roots[i].path@)
}

/// The position of the first of the roots from `i` to `count` that a plain path overlaps.
pub open spec fn first_overlap(path: Seq<char>, roots: Seq<LibraryRoot>, i: int, count: int, platform: PlatformFamily) -> Option<int>
    decreases count - i,
{
    if i >= count || i < 0 {
        None
    } else if overlap_for(plain_relation(path, roots[i].path@, platform)) is Some {
        Some(i)
    } else {
        first_overlap(path, roots, i + 1, count, platform)
    }
}

proof fn lemma_first_overlap_none(path: Seq<char>, roots: Seq<LibraryRoot>, i: int, count: int, platform: PlatformFamily)
    requires
        0 <= i,
        first_overlap(path, roots, i, count, platform) is None,
    ensures
        forall|j: int| i <= j < count ==> overlap_for(plain_relation(path, #[trigger] roots[j].path@, platform)) is None,
    decreases count - i,
{
    if i < count {
        lemma_first_overlap_none(path, roots, i + 1, count, platform);
    }
}

/// No two roots of a list overlap, each compared with the roots before it.
pub open spec fn plain_roots_apart(roots: Seq<LibraryRoot>, platform: PlatformFamily) -> bool {
    forall|a: int, b: int| 0 <= a < b < roots.len() ==> overlap_for(
        plain_relation(#[trigger] roots[b].path@, #[trigger] roots[a].path@, platform),
    ) is None
}

/// Whether an overlap refusal is the one for a path and root `j`: it names the path and
/// that root's path, with the kind of their relation.
pub open spec fn overlap_refusal(e: LibraryRootError, path: Seq<char>, root: LibraryRoot, platform: PlatformFamily) -> bool {
    e matches LibraryRootError::Overlap { path: p, kind, existing_path: q } && p@ == path && q@ == root.path@
        && overlap_for(plain_relation(path, root.path@, platform)) == Some(kind)
}

/// Refuses a root path that is the same as, inside, or around any of the first `count`
/// roots, compared with a platform's path rules, naming the first such root and how they
/// overlap. For plain paths the refusal is stated exactly; how other paths split is the
/// host platform's own, and for them it is stated that a root with the same text is always
/// refused. With no roots nothing is refused.
pub fn ensure_no_overlap(path: &str, existing: &Vec<LibraryRoot>, count: usize, platform: PlatformFamily) -> (r: Result<(), LibraryRootError>)
    requires
        count <= existing@.len(),
    ensures
        r matches Err(e) ==> (e matches LibraryRootError::Overlap { path: p, existing_path: q, .. } && p@ == path@
            && exists|i: int| 0 <= i < count && #[trigger] existing@[i].path@ == q@),
        (exists|i: int| 0 <= i < count && #[trigger] existing@[i].path@ == path@) ==> r is Err,
        count == 0 ==> r is Ok,
        plain_path(path@) && plain_roots(existing@, count as int) ==> match first_overlap(path@, existing@, 0, count as int, platform) {
            None => r is Ok,
            Some(j) => r matches Err(e) && overlap_refusal(e, path@, existing@[j], platform),
        },
{
    let mut i: usize = 0;
    while i < count
        invariant
            i <= count <= existing@.len(),
            forall|j: int| 0 <= j < i ==> #[trigger] existing@[j].path@ != path@,
            plain_path(path@) && plain_roots(existing@, count as int) ==> first_overlap(path@, existing@, 0, count as int, platform)
                == first_overlap(path@, existing@, i as int, count as int, platform),
        decreases count - i,
    {
        let relation = path_relation_for_platform(path, existing[i].path.as_str(), platform);
        proof {
            if plain_path(path@) && plain_roots(existing@, count as int) {
                assert(plain_path(existing@[i as int].path@));
            }
        }
        match overlap_kind(relation) {
            Some(kind) => {
                let q = string_from(&chars_of(existing[i].path.as_str()));
                assert(existing@[i as int].path@ == q@);
                return Err(LibraryRootError::Overlap { path: string_from(&chars_of(path)), kind, existing_path: q });
            },
            None => {},
        }
        i = i + 1;
    }
    Ok(())
}

// ----------------------------------------------------------------------------------------
// Configurations.
// ----------------------------------------------------------------------------------------

/// The root IDs of a configuration are distinct.
pub open spec fn ids_distinct(roots: Seq<LibraryRoot>) -> bool {
    forall|i: int, j: int| 0 <= i < j < roots.len() ==> #[trigger] roots[i].id != #[trigger] roots[j].id
}

/// What a configuration must hold of each root apart from its path: a usable name and
/// ignore rules, and no symbolic link traversal.
pub open spec fn root_settings_ok(root: LibraryRoot) -> bool {
    &&& name_ok(root.name@)
    &&& ignore_rules_ok(strs(root.scan.ignore@))
    &&& !root.scan.follow_symlinks
}

/// The rules of a configuration that do not depend on the platform's path rules.
pub open spec fn config_rules_ok(config: LibraryConfig) -> bool {
    &&& config.schema == LIBRARY_CONFIG_SCHEMA_VERSION
    &&& ids_distinct(config.roots@)
    &&& forall|i: int| 0 <= i < config.roots@.len() ==> root_settings_ok(#[trigger] config.roots@[i])
}

fn find_root(roots: &Vec<LibraryRoot>, id: u128, count: usize) -> (p: Option<usize>)
    requires
        count <= roots@.len(),
    ensures
        match p {
            Some(k) => k < count && roots@[k as int].id == id && forall|j: int| 0 <= j < k ==> #[trigger] roots@[j].id != id,
            None => forall|j: int| 0 <= j < count ==> #[trigger] roots@[j].id != id,
        },
{
    let mut i: usize = 0;
    while i < count
        invariant
            i <= count <= roots@.len(),
            forall|j: int| 0 <= j < i ==> #[trigger] roots@[j].id != id,
        decreases count - i,
    {
        if roots[i].id == id {
            return Some(i);
        }
        i = i + 1;
    }
    None
}

/// Root `i` has the ID of an earlier root.
pub open spec fn id_repeated(roots: Seq<LibraryRoot>, i: int) -> bool {
    exists|j: int| 0 <= j < i && #[trigger] roots[j].id == roots[i].id
}

/// Root `i` passes the checks made of each root in turn: an ID of its own, its settings,
/// and a path that the platform takes as absolute.
pub open spec fn root_passes(roots: Seq<LibraryRoot>, absolute: Seq<bool>, i: int) -> bool {
    &&& !id_repeated(roots, i)
    &&& root_settings_ok(roots[i])
    &&& absolute[i]
}

/// Whether `e` is the refusal of a root that fails its checks: the one for the first check
/// that it fails, in the order ID, name, ignore rules, absolute path, symbolic links.
pub open spec fn root_refusal(e: LibraryRootError, root: LibraryRoot, repeated: bool, absolute: bool) -> bool {
    if repeated {
        e matches LibraryRootError::InvalidConfig(m) && m@ == "duplicate root id "@ + uuid_text(root.id)
    } else if !name_ok(root.name@) {
        e matches LibraryRootError::InvalidName(n) && n@ == trim_seq(root.name@)
    } else if !ignore_rules_ok(strs(root.scan.ignore@)) {
        e matches LibraryRootError::InvalidIgnore(m) && m@ == "rules cannot be empty"@
    } else if !absolute {
        e matches LibraryRootError::InvalidPath(p) && p@ == root.path@
    } else {
        e matches LibraryRootError::InvalidConfig(m) && m@ == "root "@ + root.path@
            + " enables forbidden symlink traversal"@
    }
}

/// What validating a configuration answers, given which root paths the platform takes as
/// absolute: the schema is checked first; then each root in turn, and the first that fails
/// is refused as `root_refusal` says; then no root may overlap an earlier one, and for
/// plain paths the first that does is refused naming the first root it overlaps. For
/// plain paths the configuration is accepted exactly when all of this holds.
pub open spec fn config_outcome(
    r: Result<(), LibraryRootError>,
    config: LibraryConfig,
    absolute: Seq<bool>,
    platform: PlatformFamily,
) -> bool {
    let roots = config.roots@;
    let n = roots.len() as int;
    &&& config.schema != LIBRARY_CONFIG_SCHEMA_VERSION ==> (r matches Err(LibraryRootError::InvalidConfig(m))
        && m@ == "unsupported schema "@ + decimal(config.schema as nat))
    &&& config.schema == LIBRARY_CONFIG_SCHEMA_VERSION ==> forall|i: int|
        0 <= i < n && (forall|j: int| 0 <= j < i ==> root_passes(roots, absolute, j)) && !#[trigger] root_passes(
            roots,
            absolute,
            i,
        ) ==> (r matches Err(e) && root_refusal(e, roots[i], id_repeated(roots, i), absolute[i]))
    &&& r is Ok ==> config_rules_ok(config) && forall|i: int| 0 <= i < n ==> #[trigger] absolute[i]
    &&& r is Ok ==> forall|i: int, j: int| 0 <= i < j < n ==> #[trigger] roots[i].path@ != #[trigger] roots[j].path@
    &&& config_rules_ok(config) && (forall|i: int| 0 <= i < n ==> #[trigger] absolute[i]) && plain_roots(roots, n) ==> {
        &&& r is Ok <==> plain_roots_apart(roots, platform)
        &&& forall|k: int|
            0 <= k < n && (forall|b: int| 0 <= b < k ==> first_overlap(roots[b].path@, roots, 0, b, platform) is None)
                ==> match #[trigger] first_overlap(roots[k].path@, roots, 0, k, platform) {
                None => true,
                Some(j) => r matches Err(e) && overlap_refusal(e, roots[k].path@, roots[j], platform),
            }
    }
}

proof fn lemma_only_first_failing(roots: Seq<LibraryRoot>, absolute: Seq<bool>, i: int)
    requires
        0 <= i < roots.len(),
        forall|j: int| 0 <= j < i ==> root_passes(roots, absolute, j),
        !root_passes(roots, absolute, i),
    ensures
        forall|i2: int|
            0 <= i2 < roots.len() && (forall|j: int| 0 <= j < i2 ==> root_passes(roots, absolute, j))
                && !#[trigger] root_passes(roots, absolute, i2) ==> i2 == i,
{
    assert forall|i2: int|
        0 <= i2 < roots.len() && (forall|j: int| 0 <= j < i2 ==> root_passes(roots, absolute, j))
            && !#[trigger] root_passes(roots, absolute, i2) implies i2 == i by {
        if i2 < i {
            assert(root_passes(roots, absolute, i2));
        } else if i2 > i {
            assert(root_passes(roots, absolute, i));
        }
    }
}

proof fn lemma_first_overlap_some(path: Seq<char>, roots: Seq<LibraryRoot>, i: int, count: int, platform: PlatformFamily)
    requires
        0 <= i,
        first_overlap(path, roots, i, count, platform) is Some,
    ensures
        i <= first_overlap(path, roots, i, count, platform)->0 < count,
        overlap_for(plain_relation(path, roots[first_overlap(path, roots, i, count, platform)->0].path@, platform)) is Some,
    decreases count - i,
{
    if i < count && overlap_for(plain_relation(path, roots[i].path@, platform)) is None {
        lemma_first_overlap_some(path, roots, i + 1, count, platform);
    }
}

/// Validates a configuration against the rules it must keep, given for each root whether
/// the platform takes its path as absolute. The answer is exactly `config_outcome`.
pub fn validate_config_with(config: &LibraryConfig, absolute: &Vec<bool>, platform: PlatformFamily) -> (r: Result<
    (),
    LibraryRootError,
>)
    requires
        absolute@.len() == config.roots@.len(),
    ensures
        config_outcome(r, *config, absolute@, platform),
{
    if config.schema != LIBRARY_CONFIG_SCHEMA_VERSION {
        let text = concat(&chars_of("unsupported schema "), &decimal_text(config.schema as usize));
        return Err(LibraryRootError::InvalidConfig(string_from(&text)));
    }
    let ghost roots = config.roots@;
    let n = config.roots.len();
    let mut i: usize = 0;
    while i < n
        invariant
            i <= n == config.roots@.len() == absolute@.len(),
            roots == config.roots@,
            config.schema == LIBRARY_CONFIG_SCHEMA_VERSION,
            forall|j: int| 0 <= j < i ==> root_passes(roots, absolute@, j),
        decreases n - i,
    {
        let root = &config.roots[i];
        let ghost repeated = id_repeated(roots, i as int);
        let found = find_root(&config.roots, root.id, i);
        if let Some(k) = found {
            assert(roots[k as int].id == roots[i as int].id);
            assert(repeated);
            let text = concat(&chars_of("duplicate root id "), &format_uuid(root.id));
            proof {
                lemma_only_first_failing(roots, absolute@, i as int);
            }
            return Err(LibraryRootError::InvalidConfig(string_from(&text)));
        }
        assert(!repeated);
        if let Err(e) = normalize_name(root.name.as_str()) {
            proof {
                lemma_only_first_failing(roots, absolute@, i as int);
            }
            return Err(e);
        }
        if let Err(e) = normalize_ignore(&root.scan.ignore) {
            proof {
                lemma_only_first_failing(roots, absolute@, i as int);
            }
            return Err(e);
        }
        if !absolute[i] {
            proof {
                lemma_only_first_failing(roots, absolute@, i as int);
            }
            return Err(LibraryRootError::InvalidPath(string_from(&chars_of(root.path.as_str()))));
        }
        if root.scan.follow_symlinks {
            let text = concat(
                &concat(&chars_of("root "), &chars_of(root.path.as_str())),
                &chars_of(" enables forbidden symlink traversal"),
            );
            proof {
                lemma_only_first_failing(roots, absolute@, i as int);
            }
            return Err(LibraryRootError::InvalidConfig(string_from(&text)));
        }
        assert(root_passes(roots, absolute@, i as int));
        i = i + 1;
    }
    assert(ids_distinct(roots)) by {
        assert forall|a: int, b: int| 0 <= a < b < roots.len() implies #[trigger] roots[a].id != #[trigger] roots[b].id by {
            assert(root_passes(roots, absolute@, b));
        }
    }
    assert(config_rules_ok(*config)) by {
        assert forall|j: int| 0 <= j < roots.len() implies root_settings_ok(#[trigger] roots[j]) by {
            assert(root_passes(roots, absolute@, j));
        }
    }
    assert forall|j: int| 0 <= j < n implies #[trigger] absolute@[j] by {
        assert(root_passes(roots, absolute@, j));
    }
    let mut k: usize = 0;
    while k < n
        invariant
            k <= n == config.roots@.len() == absolute@.len(),
            roots == config.roots@,
            config_rules_ok(*config),
            config.schema == LIBRARY_CONFIG_SCHEMA_VERSION,
            forall|j: int| 0 <= j < n ==> root_passes(roots, absolute@, j),
            forall|j: int| 0 <= j < n ==> #[trigger] absolute@[j],
            forall|a: int, b: int| 0 <= a < b < k ==> #[trigger] roots[a].path@ != #[trigger] roots[b].path@,
            plain_roots(roots, n as int) ==> forall|b: int| 0 <= b < k ==> first_overlap(
                #[trigger] roots[b].path@,
                roots,
                0,
                b,
                platform,
            ) is None,
        decreases n - k,
    {
        let checked = ensure_no_overlap(config.roots[k].path.as_str(), &config.roots, k, platform);
        if let Err(e) = checked {
            proof {
                if plain_roots(roots, n as int) {
                    assert(plain_path(roots[k as int].path@));
                    assert(plain_roots(roots, k as int));
                    let fo = first_overlap(roots[k as int].path@, roots, 0, k as int, platform);
                    assert(fo is Some);
                    lemma_first_overlap_some(roots[k as int].path@, roots, 0, k as int, platform);
                    let j = fo->0;
                    assert(!plain_roots_apart(roots, platform)) by {
                        assert(overlap_for(plain_relation(roots[k as int].path@, roots[j].path@, platform)) is Some);
                    }
                    assert forall|k2: int|
                        0 <= k2 < n && (forall|b: int| 0 <= b < k2 ==> first_overlap(roots[b].path@, roots, 0, b, platform) is None)
                            implies match #[trigger] first_overlap(roots[k2].path@, roots, 0, k2, platform) {
                            None => true,
                            Some(j2) => checked matches Err(e2) && overlap_refusal(e2, roots[k2].path@, roots[j2], platform),
                        } by {
                        if k2 < k {
                            assert(first_overlap(roots[k2].path@, roots, 0, k2, platform) is None);
                        } else if k2 > k {
                            assert(first_overlap(roots[k as int].path@, roots, 0, k as int, platform) is None);
                        }
                    }
                }
            }
            return Err(e);
        }
        proof {
            if plain_roots(roots, n as int) {
                assert(plain_path(roots[k as int].path@));
                assert(plain_roots(roots, k as int));
            }
        }
        assert forall|a: int| 0 <= a < k implies #[trigger] roots[a].path@ != roots[k as int].path@ by {
            if roots[a].path@ == roots[k as int].path@ {
                assert(exists|i: int| 0 <= i < k && #[trigger] config.roots@[i].path@ == config.roots@[k as int].path@);
            }
        }
        k = k + 1;
    }
    proof {
        if plain_roots(roots, n as int) {
            assert(plain_roots_apart(roots, platform)) by {
                assert forall|a: int, b: int| 0 <= a < b < roots.len() implies overlap_for(
                    plain_relation(#[trigger] roots[b].path@, #[trigger] roots[a].path@, platform),
                ) is None by {
                    assert(first_overlap(roots[b].path@, roots, 0, b, platform) is None);
                    lemma_first_overlap_none(roots[b].path@, roots, 0, b, platform);
                }
            }
        }
    }
    Ok(())
}

/// Validates a configuration: its schema, distinct IDs, each root's name, ignore rules,
/// absolute path and refusal of symbolic link traversal, and that no root overlaps an
/// earlier one. Which paths are absolute is the platform's own (`Path::is_absolute`); the
/// answer is `config_outcome` for the flags it gave, each of which is only set for a path
/// that begins with a root or prefix.
pub fn validate_config(config: &LibraryConfig, platform: PlatformFamily) -> (r: Result<(), LibraryRootError>)
    ensures
        exists|absolute: Seq<bool>|
            absolute.len() == config.roots@.len() && (forall|i: int| 0 <= i < absolute.len() && #[trigger] absolute[i]
                ==> crate::platform::rooted_text(config.roots@[i].path@)) && #[trigger] config_outcome(
                r,
                *config,
                absolute,
                platform,
            ),
        r is Ok ==> config_rules_ok(*config),
        r is Ok ==> forall|i: int| 0 <= i < config.roots@.len() ==> crate::platform::rooted_text(
            #[trigger] config.roots@[i].path@,
        ),
        config.schema != LIBRARY_CONFIG_SCHEMA_VERSION ==> (r matches Err(LibraryRootError::InvalidConfig(m))
            && m@ == "unsupported schema "@ + decimal(config.schema as nat)),
        config.schema == LIBRARY_CONFIG_SCHEMA_VERSION && config.roots@.len() == 0 ==> r is Ok,
        r is Ok && plain_roots(config.roots@, config.roots@.len() as int) ==> plain_roots_apart(config.roots@, platform),
{
    let n = config.roots.len();
    let mut absolute: Vec<bool> = Vec::new();
    let mut i: usize = 0;
    while i < n
        invariant
            i <= n == config.roots@.len(),
            absolute@.len() == i,
            forall|j: int| 0 <= j < i && #[trigger] absolute@[j] ==> crate::platform::rooted_text(config.roots@[j].path@),
        decreases n - i,
    {
        let flag = is_absolute_path(config.roots[i].path.as_str());
        absolute.push(flag);
        i = i + 1;
    }
    let r = validate_config_with(config, &absolute, platform);
    proof {
        if r is Ok {
            assert forall|j: int| 0 <= j < n implies crate::platform::rooted_text(#[trigger] config.roots@[j].path@) by {
                assert(absolute@[j]);
            }
        }
        if config.schema == LIBRARY_CONFIG_SCHEMA_VERSION && n == 0 {
            assert(config_rules_ok(*config));
            assert(plain_roots_apart(config.roots@, platform));
            assert(plain_roots(config.roots@, 0));
        }
    }
    r
}

/// The configuration after adding a root: the roots so far and then the new one.
pub open spec fn with_root(config: LibraryConfig, root: LibraryRoot) -> Seq<LibraryRoot> {
    config.roots@.push(root)
}

/// Builds the root that an add request describes, after the caller found its path
/// accessible and canonicalized it: a new ID, the trimmed name, the normalized ignore
/// rules, enabled, recursive, without symbolic link traversal.
pub fn root_for_request(request: &AddLibraryRoot, id: u128, canonical_path: String) -> (r: Result<LibraryRoot, LibraryRootError>)
    ensures
        r matches Ok(root) ==> {
            &&& root.id == id
            &&& root.path == canonical_path
            &&& root.name@ == trim_seq(request.name@)
            &&& root.enabled
            &&& root.scan.recursive && !root.scan.follow_symlinks
            &&& root_settings_ok(root)
            &&& sorted_texts(strs(root.scan.ignore@))
            &&& forall|x: Seq<char>| strs(root.scan.ignore@).contains(x) <==> trimmed_rule(strs(request.ignore@), x)
        },
        r is Ok <==> (name_ok(request.name@) && ignore_rules_ok(strs(request.ignore@))),
        !name_ok(request.name@) ==> (r matches Err(LibraryRootError::InvalidName(n)) && n@ == trim_seq(request.name@)),
        name_ok(request.name@) && !ignore_rules_ok(strs(request.ignore@)) ==> (r matches Err(
            LibraryRootError::InvalidIgnore(m)) && m@ == "rules cannot be empty"@),
{
    let name = normalize_name(request.name.as_str())?;
    let ignore = normalize_ignore(&request.ignore)?;
    let ghost rules = strs(ignore@);
    proof {
        assert forall|i: int| 0 <= i < rules.len() implies trim_seq(#[trigger] rules[i]).len() > 0 by {
            assert(rules.contains(rules[i]));
            let k = choose|k: int| 0 <= k < strs(request.ignore@).len() && trim_seq(#[trigger] strs(request.ignore@)[k]) == rules[i];
            crate::text::lemma_trim_idempotent(strs(request.ignore@)[k]);
        }
        crate::text::lemma_trim_idempotent(request.name@);
    }
    Ok(LibraryRoot {
        id,
        path: canonical_path,
        name,
        enabled: true,
        scan: RootScanSettings { recursive: true, follow_symlinks: false, ignore },
    })
}

/// Adds a root to a configuration when it overlaps none of the configured roots; on a
/// refusal the configuration is unchanged. For plain paths, the refusal is the one for the
/// first configured root that is the same path, inside the new one or around it.
pub fn add_root_to(config: &mut LibraryConfig, root: LibraryRoot, platform: PlatformFamily) -> (r: Result<(), LibraryRootError>)
    ensures
        r is Ok ==> final(config).schema == old(config).schema && final(config).roots@ == with_root(*old(config), root),
        r is Err ==> *final(config) == *old(config),
        r matches Err(e) ==> (e matches LibraryRootError::Overlap { path: p, existing_path: q, .. } && p@ == root.path@
            && exists|i: int| 0 <= i < old(config).roots@.len() && #[trigger] old(config).roots@[i].path@ == q@),
        (exists|i: int| 0 <= i < old(config).roots@.len() && #[trigger] old(config).roots@[i].path@ == root.path@) ==> r is Err,
        old(config).roots@.len() == 0 ==> r is Ok,
        plain_path(root.path@) && plain_roots(old(config).roots@, old(config).roots@.len() as int) ==> match first_overlap(
            root.path@,
            old(config).roots@,
            0,
            old(config).roots@.len() as int,
            platform,
        ) {
            None => r is Ok,
            Some(j) => r matches Err(e) && overlap_refusal(e, root.path@, old(config).roots@[j], platform),
        },
{
    let n = config.roots.len();
    ensure_no_overlap(root.path.as_str(), &config.roots, n, platform)?;
    config.roots.push(root);
    Ok(())
}

/// Updates the editable settings of one root: its name, whether it is enabled, and its
/// ignore rules; the answer is where the root stands. On a refusal the configuration is
/// unchanged.
pub fn update_root_in(config: &mut LibraryConfig, request: UpdateLibraryRoot) -> (r: Result<usize, LibraryRootError>)
    ensures
        r is Err ==> *final(config) == *old(config),
        (forall|j: int| 0 <= j < old(config).roots@.len() ==> #[trigger] old(config).roots@[j].id != request.id) ==> r
            == Err::<usize, LibraryRootError>(LibraryRootError::NotFound(request.id)),
        (request.name matches Some(n) && !name_ok(n@)) ==> r is Err,
        (exists|j: int| 0 <= j < old(config).roots@.len() && #[trigger] old(config).roots@[j].id == request.id) && (
        request.name matches Some(n) ==> name_ok(n@)) && (request.ignore matches Some(rs) ==> ignore_rules_ok(strs(rs@)))
            ==> r is Ok,
        (exists|j: int| 0 <= j < old(config).roots@.len() && #[trigger] old(config).roots@[j].id == request.id) && (
        request.name matches Some(n) ==> name_ok(n@)) && (request.ignore matches Some(rs) && !ignore_rules_ok(strs(rs@)))
            ==> (r matches Err(LibraryRootError::InvalidIgnore(m)) && m@ == "rules cannot be empty"@),
        (exists|j: int| 0 <= j < old(config).roots@.len() && #[trigger] old(config).roots@[j].id == request.id) && (
        request.name matches Some(n) && !name_ok(n@)) ==> (r matches Err(LibraryRootError::InvalidName(t)) && t@
            == trim_seq(request.name->0@)),
        r matches Ok(k) ==> {
            let before = old(config).roots@[k as int];
            let after = final(config).roots@[k as int];
            &&& k < old(config).roots@.len()
            &&& before.id == request.id
            &&& final(config).roots@.len() == old(config).roots@.len()
            &&& forall|j: int| 0 <= j < old(config).roots@.len() && j != k ==> #[trigger] final(config).roots@[j] == old(config).roots@[j]
            &&& final(config).schema == old(config).schema
            &&& after.id == before.id
            &&& after.path == before.path
            &&& after.scan.recursive == before.scan.recursive
            &&& after.scan.follow_symlinks == before.scan.follow_symlinks
            &&& match request.name {
                Some(n) => after.name@ == trim_seq(n@),
                None => after.name == before.name,
            }
            &&& match request.enabled {
                Some(e) => after.enabled == e,
                None => after.enabled == before.enabled,
            }
            &&& match request.ignore {
                Some(rules) => sorted_texts(strs(after.scan.ignore@)) && forall|x: Seq<char>|
                    strs(after.scan.ignore@).contains(x) <==> trimmed_rule(strs(rules@), x),
                None => after.scan.ignore == before.scan.ignore,
            }
        },
{
    let n = config.roots.len();
    let k = match find_root(&config.roots, request.id, n) {
        Some(k) => k,
        None => {
            return Err(LibraryRootError::NotFound(request.id));
        },
    };
    let name = match &request.name {
        Some(text) => Some(normalize_name(text.as_str())?),
        None => None,
    };
    let ignore = match &request.ignore {
        Some(rules) => Some(normalize_ignore(rules)?),
        None => None,
    };
    let mut root = config.roots.remove(k);
    if let Some(text) = name {
        root.name = text;
    }
    if let Some(e) = request.enabled {
        root.enabled = e;
    }
    if let Some(rules) = ignore {
        root.scan.ignore = rules;
    }
    config.roots.insert(k, root);
    Ok(k)
}

/// Removes the root with an ID from a configuration and returns it. On a refusal the
/// configuration is unchanged.
pub fn remove_root_from(config: &mut LibraryConfig, id: u128) -> (r: Result<LibraryRoot, LibraryRootError>)
    ensures
        r is Err ==> *final(config) == *old(config),
        (forall|j: int| 0 <= j < old(config).roots@.len() ==> #[trigger] old(config).roots@[j].id != id) <==> r
            == Err::<LibraryRoot, LibraryRootError>(LibraryRootError::NotFound(id)),
        r is Ok || r == Err::<LibraryRoot, LibraryRootError>(LibraryRootError::NotFound(id)),
        r matches Ok(removed) ==> exists|k: int|
            0 <= k < old(config).roots@.len() && #[trigger] old(config).roots@[k] == removed && removed.id == id
                && final(config).roots@ == old(config).roots@.remove(k) && final(config).schema == old(config).schema,
{
    let n = config.roots.len();
    match find_root(&config.roots, id, n) {
        Some(k) => {
            let removed = config.roots.remove(k);
            Ok(removed)
        },
        None => Err(LibraryRootError::NotFound(id)),
    }
}

/// Adding a root with its own settings in order and an ID not yet configured keeps the
/// rules of a configuration.
pub proof fn lemma_adding_keeps_rules(config: LibraryConfig, root: LibraryRoot, roots: Seq<LibraryRoot>)
    requires
        config_rules_ok(config),
        root_settings_ok(root),
        forall|j: int| 0 <= j < config.roots@.len() ==> #[trigger] config.roots@[j].id != root.id,
        roots == with_root(config, root),
    ensures
        ids_distinct(roots),
        forall|i: int| 0 <= i < roots.len() ==> root_settings_ok(#[trigger] roots[i]),
{
    assert forall|a: int, b: int| 0 <= a < b < roots.len() implies #[trigger] roots[a].id != #[trigger] roots[b].id by {
        assert(roots[a] == config.roots@[a]);
        if b < config.roots@.len() {
            assert(roots[b] == config.roots@[b]);
        }
    }
    assert forall|i: int| 0 <= i < roots.len() implies root_settings_ok(#[trigger] roots[i]) by {
        if i < config.roots@.len() {
            assert(roots[i] == config.roots@[i]);
        }
    }
}

/// Removing a root keeps the rules of a configuration.
pub proof fn lemma_removing_keeps_rules(config: LibraryConfig, k: int)
    requires
        config_rules_ok(config),
        0 <= k < config.roots@.len(),
    ensures
        ids_distinct(config.roots@.remove(k)),
        forall|i: int| 0 <= i < config.roots@.remove(k).len() ==> root_settings_ok(#[trigger] config.roots@.remove(k)[i]),
{
    let roots = config.roots@.remove(k);
    assert forall|a: int, b: int| 0 <= a < b < roots.len() implies #[trigger] roots[a].id != #[trigger] roots[b].id by {
        let a2 = if a < k { a } else { a + 1 };
        let b2 = if b < k { b } else { b + 1 };
        assert(roots[a] == config.roots@[a2]);
        assert(roots[b] == config.roots@[b2]);
    }
    assert forall|i: int| 0 <= i < roots.len() implies root_settings_ok(#[trigger] roots[i]) by {
        let i2 = if i < k { i } else { i + 1 };
        assert(roots[i] == config.roots@[i2]);
    }
}

/// Normalized names and ignore rules pass the checks that a configuration applies to
/// them again.
pub proof fn lemma_normalized_settings_ok(name: Seq<char>, rules: Seq<Seq<char>>, normalized: Seq<Seq<char>>)
    requires
        name_ok(name),
        ignore_rules_ok(rules),
        forall|x: Seq<char>| normalized.contains(x) <==> trimmed_rule(rules, x),
    ensures
        name_ok(trim_seq(name)),
        ignore_rules_ok(normalized),
{
    crate::text::lemma_trim_idempotent(name);
    assert forall|i: int| 0 <= i < normalized.len() implies trim_seq(#[trigger] normalized[i]).len() > 0 by {
        assert(normalized.contains(normalized[i]));
        let k = choose|k: int| 0 <= k < rules.len() && trim_seq(#[trigger] rules[k]) == normalized[i];
        crate::text::lemma_trim_idempotent(rules[k]);
    }
}

/// How the caller's probe of a root went: the metadata read, whether it is a directory,
/// and listing it.
#[derive(Debug, Clone, Copy, PartialEq, Eq, Structural)]
pub enum IoFailureKind {
    NotFound,
    PermissionDenied,
    Other,
}

#[derive(Debug, Clone, Copy, PartialEq, Eq, Structural)]
pub enum RootProbe {
    MetadataFailed(IoFailureKind),
    NotDirectory,
    ListingFailed(IoFailureKind),
    Listed,
}

pub open spec fn status_for_failure(kind: IoFailureKind) -> RootAccessStatus {
    match kind {
        IoFailureKind::NotFound => RootAccessStatus::Missing,
        IoFailureKind::PermissionDenied => RootAccessStatus::PermissionDenied,
        IoFailureKind::Other => RootAccessStatus::Unavailable,
    }
}

/// The access status of a root from how probing it went.
pub fn access_status_for(probe: RootProbe) -> (s: RootAccessStatus)
    ensures
        s == match probe {
            RootProbe::MetadataFailed(k) => status_for_failure(k),
            RootProbe::NotDirectory => RootAccessStatus::NotDirectory,
            RootProbe::ListingFailed(k) => status_for_failure(k),
            RootProbe::Listed => RootAccessStatus::Available,
        },
{
    let failure = match probe {
        RootProbe::MetadataFailed(k) => k,
        RootProbe::NotDirectory => {
            return RootAccessStatus::NotDirectory;
        },
        RootProbe::ListingFailed(k) => k,
        RootProbe::Listed => {
            return RootAccessStatus::Available;
        },
    };
    match failure {
        IoFailureKind::NotFound => RootAccessStatus::Missing,
        IoFailureKind::PermissionDenied => RootAccessStatus::PermissionDenied,
        IoFailureKind::Other => RootAccessStatus::Unavailable,
    }
}

} // verus!
