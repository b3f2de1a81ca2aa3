//! Path rules of the three desktop platforms: identity keys, ancestry of native paths, and
//! Windows portability diagnostics.
use std::path::{Component, Path};

use unicode_normalization::UnicodeNormalization;
use vstd::prelude::*;

use crate::query_filters::{nfc_chars, nfc_form};
use crate::text::{
    concat, eq_literal, has_prefix, is_lower_char, slice_eq, split_exec, split_on, subslice,
    utf16_len, views,
};

verus! {

/// Path rules whose differences affect library identity and portability.
#[derive(Debug, Clone, Copy, PartialEq, Eq, Structural)]
pub enum PlatformFamily {
    Windows,
    MacOs,
    Linux,
}

#[derive(Debug, Clone, Copy, PartialEq, Eq, Structural)]
pub enum PathRelation {
    Same,
    Ancestor,
    Descendant,
    Distinct,
}

#[derive(Debug, Clone, Copy, PartialEq, Eq, Structural)]
pub enum PathCompatibilityIssueKind {
    WindowsReservedName,
    WindowsForbiddenCharacter,
    WindowsTrailingDotOrSpace,
    WindowsLegacyLength,
}

/// A portability diagnostic. It never authorizes changing or hiding the source file.
#[derive(Debug, Clone, PartialEq, Eq)]
pub struct PathCompatibilityIssue {
    pub platform: PlatformFamily,
    pub kind: PathCompatibilityIssueKind,
    pub component: Option<String>,
}

/// What `char::to_lowercase` yields for a character: its Unicode lower-case mapping.
pub uninterp spec fn char_lowercase(c: char) -> Seq<char>;

/// `char::to_lowercase`, collected. Trusted: the result is the named `char_lowercase` of the
/// character; of the Unicode case tables only the ASCII part is restated: `A` to `Z` map to
/// `a` to `z`, and every other ASCII character maps to itself.
#[verifier::external_body]
fn lowercase_of(c: char) -> (r: Vec<char>)
    ensures
        r@ == char_lowercase(c),
        'A' <= c <= 'Z' ==> r@ == seq![((c as u32) + 32) as char],
        (c as u32) < 128 && !('A' <= c <= 'Z') ==> r@ == seq![c],
{
    c.to_lowercase().collect()
}

/// What `unicode_normalization`'s `nfd` produces for a text: its canonical decomposition.
pub uninterp spec fn nfd_form(text: Seq<char>) -> Seq<char>;

/// The `nfd` iterator of `unicode_normalization`, collected. Trusted: the result is the
/// named `nfd_form` of the text; the normalization itself is not restated here.
#[verifier::external_body]
fn nfd_chars(text: &[char]) -> (r: Vec<char>)
    ensures
        r@ == nfd_form(text@),
{
    text.iter().copied().nfd().collect()
}

/// Every character replaced by its Unicode lower-case mapping.
pub open spec fn lowercase_seq(s: Seq<char>) -> Seq<char>
    decreases s.len(),
{
    if s.len() == 0 {
        seq![]
    } else {
        lowercase_seq(s.drop_last()) + char_lowercase(s.last())
    }
}

/// One path component as a platform compares it: Windows ignores case after NFC, macOS
/// compares NFD forms with case, Linux compares spellings.
pub open spec fn normalize_component(c: Seq<char>, platform: PlatformFamily) -> Seq<char> {
    match platform {
        PlatformFamily::Windows => lowercase_seq(nfc_form(c)),
        PlatformFamily::MacOs => nfd_form(c),
        PlatformFamily::Linux => c,
    }
}

fn lowercase_chars(s: &[char]) -> (r: Vec<char>)
    ensures
        r@ == lowercase_seq(s@),
{
    let mut r: Vec<char> = Vec::new();
    let mut i: usize = 0;
    while i < s.len()
        invariant
            i <= s.len(),
            r@ == lowercase_seq(s@.subrange(0, i as int)),
        decreases s.len() - i,
    {
        let low = lowercase_of(s[i]);
        r = concat(&r, &low);
        assert(s@.subrange(0, i + 1).drop_last() =~= s@.subrange(0, i as int));
        i = i + 1;
    }
    assert(s@.subrange(0, s@.len() as int) =~= s@);
    r
}

pub fn normalize_component_exec(c: &[char], platform: PlatformFamily) -> (r: Vec<char>)
    ensures
        r@ == normalize_component(c@, platform),
{
    match platform {
        PlatformFamily::Windows => lowercase_chars(&nfc_chars(c)),
        PlatformFamily::MacOs => nfd_chars(c),
        PlatformFamily::Linux => {
            assert(c@.subrange(0, c@.len() as int) =~= c@);
            subslice(c, 0, c.len())
        },
    }
}

/// Backslashes read as slashes.
pub open spec fn slashes(s: Seq<char>) -> Seq<char> {
    s.map_values(|c: char| if c == '\\' { '/' } else { c })
}

fn slashes_exec(s: &[char]) -> (r: Vec<char>)
    ensures
        r@ == slashes(s@),
{
    let mut r: Vec<char> = Vec::new();
    let mut i: usize = 0;
    while i < s.len()
        invariant
            i <= s.len(),
            r@ == slashes(s@.subrange(0, i as int)),
        decreases s.len() - i,
    {
        r.push(if s[i] == '\\' { '/' } else { s[i] });
        assert(slashes(s@.subrange(0, i + 1)) =~= slashes(s@.subrange(0, i as int)).push(
            if s@[i as int] == '\\' { '/' } else { s@[i as int] },
        ));
        i = i + 1;
    }
    assert(s@.subrange(0, s@.len() as int) =~= s@);
    r
}

/// The components of a relative path: split at `/`, and also at `\` on Windows.
pub open spec fn path_pieces(path: Seq<char>, platform: PlatformFamily) -> Seq<Seq<char>> {
    if platform == PlatformFamily::Windows {
        split_on(slashes(path), '/')
    } else {
        split_on(path, '/')
    }
}

/// The normalized components among the first `n`, without empty and `.` components.
pub open spec fn kept_components(ps: Seq<Seq<char>>, platform: PlatformFamily, n: int) -> Seq<Seq<char>>
    decreases n,
{
    if n <= 0 {
        seq![]
    } else {
        kept_components(ps, platform, n - 1) + if ps[n - 1].len() == 0 || ps[n - 1] == "."@ {
            seq![]
        } else {
            seq![normalize_component(ps[n - 1], platform)]
        }
    }
}

/// Components joined with `/`.
pub open spec fn join_slash(cs: Seq<Seq<char>>) -> Seq<char>
    decreases cs.len(),
{
    if cs.len() == 0 {
        seq![]
    } else if cs.len() == 1 {
        cs[0]
    } else {
        join_slash(cs.drop_last()) + seq!['/'] + cs.last()
    }
}

/// The identity key of a relative path under a platform's rules.
pub open spec fn path_key(path: Seq<char>, platform: PlatformFamily) -> Seq<char> {
    let ps = path_pieces(path, platform);
    join_slash(kept_components(ps, platform, ps.len() as int))
}

/// Builds a deterministic identity key for fixture paths under the selected platform rules.
///
/// Windows comparison is case-insensitive and NFC-normalized. macOS normalizes canonical
/// Unicode equivalents while retaining case because APFS can be either case-sensitive or
/// case-insensitive. Linux retains both spelling and case.
pub fn platform_path_key(path: &str, platform: PlatformFamily) -> (key: String)
    ensures
        key@ == path_key(path@, platform),
{
    let chars = crate::text::chars_of(path);
    let source = if platform == PlatformFamily::Windows {
        slashes_exec(&chars)
    } else {
        subslice(&chars, 0, chars.len())
    };
    assert(chars@.subrange(0, chars@.len() as int) =~= chars@);
    let pieces = split_exec(&source, '/');
    let ghost ps = views(pieces@);
    let mut kept: Vec<Vec<char>> = Vec::new();
    let mut i: usize = 0;
    while i < pieces.len()
        invariant
            i <= pieces.len(),
            ps == views(pieces@),
            views(kept@) == kept_components(ps, platform, i as int),
        decreases pieces.len() - i,
    {
        assert(ps[i as int] == pieces@[i as int]@);
        if pieces[i].len() != 0 && !eq_literal(&pieces[i], ".") {
            let n = normalize_component_exec(&pieces[i], platform);
            let ghost prior = kept@;
            kept.push(n);
            assert(views(kept@) =~= views(prior).push(n@));
        }
        assert(kept_components(ps, platform, i + 1) =~= kept_components(ps, platform, i as int)
            + if ps[i as int].len() == 0 || ps[i as int] == "."@ {
            seq![]
        } else {
            seq![normalize_component(ps[i as int], platform)]
        });
        i = i + 1;
    }
    let mut joined: Vec<char> = Vec::new();
    let mut j: usize = 0;
    let ghost kv = views(kept@);
    while j < kept.len()
        invariant
            j <= kept.len(),
            kv == views(kept@),
            joined@ == join_slash(kv.subrange(0, j as int)),
        decreases kept.len() - j,
    {
        assert(kv[j as int] == kept@[j as int]@);
        let ghost prefix = kv.subrange(0, j + 1);
        assert(prefix.drop_last() =~= kv.subrange(0, j as int));
        if j > 0 {
            joined.push('/');
        }
        joined = concat(&joined, &kept[j]);
        if j == 0 {
            assert(joined@ =~= join_slash(prefix));
        } else {
            assert(joined@ =~= join_slash(prefix));
        }
        j = j + 1;
    }
    assert(kv.subrange(0, kv.len() as int) =~= kv);
    crate::text::string_from(&joined)
}

/// A character that Windows forbids in file names.
pub open spec fn windows_forbidden(c: char) -> bool {
    (c as u32) <= 0x1f || c == '<' || c == '>' || c == ':' || c == '"' || c == '|' || c == '?' || c
        == '*'
}

fn is_windows_forbidden_character(c: char) -> (r: bool)
    ensures
        r == windows_forbidden(c),
{
    (c as u32) <= 0x1f || c == '<' || c == '>' || c == ':' || c == '"' || c == '|' || c == '?' || c
        == '*'
}

/// `char::to_ascii_uppercase`.
pub open spec fn upper_char(c: char) -> char {
    if is_lower_char(c) {
        ((c as u32) - 32) as char
    } else {
        c
    }
}

pub open spec fn upper_seq(s: Seq<char>) -> Seq<char> {
    s.map_values(|c: char| upper_char(c))
}

/// Length without the trailing dots and spaces.
pub open spec fn trimmed_dot_space_len(s: Seq<char>) -> int
    decreases s.len(),
{
    if s.len() > 0 && (s.last() == '.' || s.last() == ' ') {
        trimmed_dot_space_len(s.drop_last())
    } else {
        s.len() as int
    }
}

/// The part of a component that Windows reserves names on: without trailing dots and spaces,
/// up to the first dot, in ASCII upper case.
pub open spec fn reserved_basename(component: Seq<char>) -> Seq<char> {
    let trimmed = component.subrange(0, trimmed_dot_space_len(component));
    let base = match crate::text::find_char(trimmed, '.') {
        Some(i) => trimmed.subrange(0, i),
        None => trimmed,
    };
    upper_seq(base)
}

/// `CON`, `PRN`, `AUX`, `NUL`, `COM1`-`COM9` or `LPT1`-`LPT9`.
pub open spec fn reserved_name(b: Seq<char>) -> bool {
    ||| b == "CON"@
    ||| b == "PRN"@
    ||| b == "AUX"@
    ||| b == "NUL"@
    ||| (b.len() == 4 && (has_prefix(b, "COM"@) || has_prefix(b, "LPT"@)) && '1' <= b[3] && b[3] <= '9')
}

pub open spec fn windows_reserved(component: Seq<char>) -> bool {
    reserved_name(reserved_basename(component))
}

pub proof fn lemma_trimmed_len(s: Seq<char>)
    ensures
        0 <= trimmed_dot_space_len(s) <= s.len(),
    decreases s.len(),
{
    if s.len() > 0 && (s.last() == '.' || s.last() == ' ') {
        lemma_trimmed_len(s.drop_last());
    }
}

fn is_windows_reserved_name(component: &[char]) -> (r: bool)
    ensures
        r == windows_reserved(component@),
{
    let mut end = component.len();
    assert(component@.subrange(0, end as int) =~= component@);
    while end > 0 && (component[end - 1] == '.' || component[end - 1] == ' ')
        invariant
            end <= component.len(),
            trimmed_dot_space_len(component@) == trimmed_dot_space_len(component@.subrange(0, end as int)),
        decreases end,
    {
        assert(component@.subrange(0, end as int).drop_last() =~= component@.subrange(0, end - 1));
        end = end - 1;
    }
    assert(component@.subrange(0, component@.len() as int) =~= component@) by {
    }
    assert(trimmed_dot_space_len(component@.subrange(0, end as int)) == end);
    let trimmed = subslice(component, 0, end);
    proof {
        crate::text::lemma_find_char(trimmed@, '.');
    }
    let base = match crate::text::find_char_exec(&trimmed, '.') {
        Some(i) => subslice(&trimmed, 0, i),
        None => subslice(&trimmed, 0, trimmed.len()),
    };
    assert(trimmed@.subrange(0, trimmed@.len() as int) =~= trimmed@);
    let mut upper: Vec<char> = Vec::new();
    let mut k: usize = 0;
    while k < base.len()
        invariant
            k <= base.len(),
            upper@ == upper_seq(base@.subrange(0, k as int)),
        decreases base.len() - k,
    {
        let c = base[k];
        let u = if 'a' <= c && c <= 'z' {
            ((c as u8) - 32) as char
        } else {
            c
        };
        upper.push(u);
        assert(upper_seq(base@.subrange(0, k + 1)) =~= upper_seq(base@.subrange(0, k as int)).push(
            upper_char(c),
        ));
        k = k + 1;
    }
    assert(base@.subrange(0, base@.len() as int) =~= base@);
    let b = upper;
    let numbered = b.len() == 4 && (crate::text::strip_literal(&b, "COM").is_some()
        || crate::text::strip_literal(&b, "LPT").is_some()) && '1' <= b[3] && b[3] <= '9';
    eq_literal(&b, "CON") || eq_literal(&b, "PRN") || eq_literal(&b, "AUX") || eq_literal(&b, "NUL")
        || numbered
}

/// A diagnostic as plain values.
pub struct IssueModel {
    pub kind: PathCompatibilityIssueKind,
    pub component: Option<Seq<char>>,
}

pub open spec fn issue_model(i: PathCompatibilityIssue) -> IssueModel {
    IssueModel {
        kind: i.kind,
        component: match i.component {
            Some(c) => Some(c@),
            None => None,
        },
    }
}

pub open spec fn issue_models(is: Seq<PathCompatibilityIssue>) -> Seq<IssueModel> {
    is.map_values(|i: PathCompatibilityIssue| issue_model(i))
}

pub open spec fn ends_with_dot_or_space(c: Seq<char>) -> bool {
    c.len() > 0 && (c.last() == '.' || c.last() == ' ')
}

/// The diagnostics of one non-empty component, in the order forbidden character, trailing
/// dot or space, reserved name.
pub open spec fn component_issues(c: Seq<char>) -> Seq<IssueModel> {
    (if exists|i: int| 0 <= i < c.len() && windows_forbidden(#[trigger] c[i]) {
        seq![IssueModel { kind: PathCompatibilityIssueKind::WindowsForbiddenCharacter, component: Some(c) }]
    } else {
        seq![]
    }) + (if ends_with_dot_or_space(c) {
        seq![IssueModel { kind: PathCompatibilityIssueKind::WindowsTrailingDotOrSpace, component: Some(c) }]
    } else {
        seq![]
    }) + (if windows_reserved(c) {
        seq![IssueModel { kind: PathCompatibilityIssueKind::WindowsReservedName, component: Some(c) }]
    } else {
        seq![]
    })
}

pub open spec fn issues_of_pieces(ps: Seq<Seq<char>>, n: int) -> Seq<IssueModel>
    decreases n,
{
    if n <= 0 {
        seq![]
    } else {
        issues_of_pieces(ps, n - 1) + if ps[n - 1].len() == 0 {
            seq![]
        } else {
            component_issues(ps[n - 1])
        }
    }
}

/// Windows portability diagnostics of a relative path: per component (split at `/` and
/// `\`), then one for a path of 260 or more UTF-16 units.
pub open spec fn compatibility_issues(path: Seq<char>) -> Seq<IssueModel> {
    let ps = split_on(slashes(path), '/');
    issues_of_pieces(ps, ps.len() as int) + if utf16_len(path) >= 260 {
        seq![IssueModel { kind: PathCompatibilityIssueKind::WindowsLegacyLength, component: None }]
    } else {
        seq![]
    }
}

fn windows_issue(kind: PathCompatibilityIssueKind, c: &[char]) -> (i: PathCompatibilityIssue)
    ensures
        issue_model(i) == (IssueModel { kind, component: Some(c@) }),
        i.platform == PlatformFamily::Windows,
{
    PathCompatibilityIssue {
        platform: PlatformFamily::Windows,
        kind,
        component: Some(crate::text::string_from(c)),
    }
}

fn utf16_length_at_least(s: &[char], limit: usize) -> (r: bool)
    requires
        0 < limit <= 4096,
    ensures
        r == (utf16_len(s@) >= limit),
{
    let mut n: usize = 0;
    let mut i: usize = 0;
    while i < s.len()
        invariant
            i <= s.len(),
            n == utf16_len(s@.subrange(0, i as int)),
            n < limit,
            limit <= 4096,
        decreases s.len() - i,
    {
        assert(s@.subrange(0, i + 1).drop_last() =~= s@.subrange(0, i as int));
        n = n + if (s[i] as u32) < 0x10000 { 1 } else { 2 };
        i = i + 1;
        if n >= limit {
            proof {
                lemma_utf16_len_prefix(s@, i as int);
            }
            return true;
        }
    }
    assert(s@.subrange(0, s@.len() as int) =~= s@);
    false
}

pub proof fn lemma_utf16_len_prefix(s: Seq<char>, i: int)
    requires
        0 <= i <= s.len(),
    ensures
        utf16_len(s.subrange(0, i)) <= utf16_len(s),
    decreases s.len() - i,
{
    if i < s.len() {
        lemma_utf16_len_prefix(s, i + 1);
        assert(s.subrange(0, i + 1).drop_last() =~= s.subrange(0, i));
    } else {
        assert(s.subrange(0, i) =~= s);
    }
}

/// Reports Windows-specific portability hazards without rejecting a valid macOS/Linux path.
pub fn inspect_relative_path_compatibility(path: &str) -> (issues: Vec<PathCompatibilityIssue>)
    ensures
        issue_models(issues@) == compatibility_issues(path@),
        forall|i: int| 0 <= i < issues@.len() ==> (#[trigger] issues@[i]).platform == PlatformFamily::Windows,
{
    let chars = crate::text::chars_of(path);
    let pieces = split_exec(&slashes_exec(&chars), '/');
    let ghost ps = views(pieces@);
    let mut issues: Vec<PathCompatibilityIssue> = Vec::new();
    let mut i: usize = 0;
    while i < pieces.len()
        invariant
            i <= pieces.len(),
            ps == views(pieces@),
            issue_models(issues@) == issues_of_pieces(ps, i as int),
            forall|k: int| 0 <= k < issues@.len() ==> (#[trigger] issues@[k]).platform == PlatformFamily::Windows,
        decreases pieces.len() - i,
    {
        assert(ps[i as int] == pieces@[i as int]@);
        let c = &pieces[i];
        let ghost prior = issues@;
        if c.len() != 0 {
            let mut forbidden = false;
            let mut k: usize = 0;
            while k < c.len()
                invariant
                    k <= c.len(),
                    forbidden == exists|j: int| 0 <= j < k && windows_forbidden(#[trigger] c@[j]),
                decreases c.len() - k,
            {
                if is_windows_forbidden_character(c[k]) {
                    forbidden = true;
                }
                k = k + 1;
            }
            if forbidden {
                issues.push(windows_issue(PathCompatibilityIssueKind::WindowsForbiddenCharacter, c));
            }
            if c[c.len() - 1] == '.' || c[c.len() - 1] == ' ' {
                issues.push(windows_issue(PathCompatibilityIssueKind::WindowsTrailingDotOrSpace, c));
            }
            if is_windows_reserved_name(c) {
                issues.push(windows_issue(PathCompatibilityIssueKind::WindowsReservedName, c));
            }
            assert(issue_models(issues@) =~= issue_models(prior) + component_issues(ps[i as int]));
        } else {
            assert(issue_models(issues@) =~= issue_models(prior));
        }
        i = i + 1;
    }
    let ghost prior = issues@;
    if utf16_length_at_least(&chars, 260) {
        issues.push(
            PathCompatibilityIssue {
                platform: PlatformFamily::Windows,
                kind: PathCompatibilityIssueKind::WindowsLegacyLength,
                component: None,
            },
        );
    }
    assert(issue_models(issues@) =~= compatibility_issues(path@));
    issues
}

/// One component of a parsed native path.
#[derive(Debug, Clone)]
pub enum NativeComponent {
    Prefix(Vec<char>),
    RootDir,
    CurDir,
    ParentDir,
    Normal(Vec<char>),
}

/// The key that a platform compares a native component by.
pub open spec fn native_key(c: NativeComponent, platform: PlatformFamily) -> Seq<char> {
    match c {
        NativeComponent::CurDir => "."@,
        NativeComponent::ParentDir => ".."@,
        NativeComponent::RootDir => "/"@,
        NativeComponent::Prefix(p) => normalize_component(p@, platform),
        NativeComponent::Normal(v) => normalize_component(v@, platform),
    }
}

pub open spec fn native_keys(cs: Seq<NativeComponent>, platform: PlatformFamily) -> Seq<Seq<char>> {
    cs.map_values(|c: NativeComponent| native_key(c, platform))
}

pub open spec fn seq_prefix<T>(p: Seq<T>, s: Seq<T>) -> bool {
    p.len() <= s.len() && s.subrange(0, p.len() as int) == p
}

/// Equal keys are the same path; a proper component prefix is an ancestor.
pub open spec fn relation_of(left: Seq<Seq<char>>, right: Seq<Seq<char>>) -> PathRelation {
    if left == right {
        PathRelation::Same
    } else if seq_prefix(left, right) {
        PathRelation::Ancestor
    } else if seq_prefix(right, left) {
        PathRelation::Descendant
    } else {
        PathRelation::Distinct
    }
}

fn native_key_exec(c: &NativeComponent, platform: PlatformFamily) -> (k: Vec<char>)
    ensures
        k@ == native_key(*c, platform),
{
    match c {
        NativeComponent::CurDir => crate::text::chars_of("."),
        NativeComponent::ParentDir => crate::text::chars_of(".."),
        NativeComponent::RootDir => crate::text::chars_of("/"),
        NativeComponent::Prefix(p) => normalize_component_exec(p, platform),
        NativeComponent::Normal(v) => normalize_component_exec(v, platform),
    }
}

fn native_keys_exec(cs: &Vec<NativeComponent>, platform: PlatformFamily) -> (ks: Vec<Vec<char>>)
    ensures
        views(ks@) == native_keys(cs@, platform),
{
    let mut ks: Vec<Vec<char>> = Vec::new();
    let mut i: usize = 0;
    while i < cs.len()
        invariant
            i <= cs.len(),
            views(ks@) == native_keys(cs@.subrange(0, i as int), platform),
        decreases cs.len() - i,
    {
        let k = native_key_exec(&cs[i], platform);
        let ghost prior = ks@;
        ks.push(k);
        assert(views(ks@) =~= views(prior).push(k@));
        assert(native_keys(cs@.subrange(0, i + 1), platform) =~= native_keys(cs@.subrange(0, i as int), platform).push(
            native_key(cs@[i as int], platform),
        ));
        i = i + 1;
    }
    assert(cs@.subrange(0, cs@.len() as int) =~= cs@);
    ks
}

fn keys_prefix(p: &Vec<Vec<char>>, s: &Vec<Vec<char>>) -> (r: bool)
    ensures
        r == seq_prefix(views(p@), views(s@)),
{
    if p.len() > s.len() {
        return false;
    }
    let mut i: usize = 0;
    while i < p.len()
        invariant
            i <= p.len() <= s.len(),
            forall|j: int| 0 <= j < i ==> views(p@)[j] == views(s@)[j],
        decreases p.len() - i,
    {
        if !slice_eq(&p[i], &s[i]) {
            assert(views(s@).subrange(0, p@.len() as int)[i as int] != views(p@)[i as int]);
            return false;
        }
        i = i + 1;
    }
    assert(views(s@).subrange(0, p@.len() as int) =~= views(p@));
    true
}

/// Compares two parsed native paths component by component under a platform's rules.
pub fn path_relation_for_components(left: &Vec<NativeComponent>, right: &Vec<NativeComponent>, platform: PlatformFamily) -> (r: PathRelation)
    ensures
        r == relation_of(native_keys(left@, platform), native_keys(right@, platform)),
{
    let l = native_keys_exec(left, platform);
    let rk = native_keys_exec(right, platform);
    let left_in_right = keys_prefix(&l, &rk);
    let right_in_left = keys_prefix(&rk, &l);
    assert(views(l@).subrange(0, views(l@).len() as int) =~= views(l@));
    if left_in_right && right_in_left {
        assert(views(l@) =~= views(rk@));
        PathRelation::Same
    } else if left_in_right {
        PathRelation::Ancestor
    } else if right_in_left {
        PathRelation::Descendant
    } else {
        PathRelation::Distinct
    }
}

/// A path that every platform splits alike: `/` is its only separator (no `\\`), it has
/// no `:` (no drive or other Windows prefix) and it does not begin with `//` (no UNC
/// prefix).
pub open spec fn plain_path(v: Seq<char>) -> bool {
    &&& !v.contains('\\')
    &&& !v.contains(':')
    &&& !(v.len() >= 2 && v[0] == '/' && v[1] == '/')
}

/// The components of one `/`-separated segment, as (variant rank, text) pairs ranked as
/// `std::path::Component` orders its variants: an empty segment and `.` give none, `..`
/// gives `ParentDir`, anything else a `Normal` component.
pub open spec fn segment_key(s: Seq<char>) -> Seq<(int, Seq<char>)> {
    if s.len() == 0 || s == seq!['.'] {
        seq![]
    } else if s == seq!['.', '.'] {
        seq![(3int, Seq::<char>::empty())]
    } else {
        seq![(4int, s)]
    }
}

pub open spec fn segments_key(segs: Seq<Seq<char>>) -> Seq<(int, Seq<char>)>
    decreases segs.len(),
{
    if segs.len() == 0 {
        seq![]
    } else {
        segments_key(segs.drop_last()) + segment_key(segs.last())
    }
}

/// The components of a plain path, as `std::path::Path::components` documents them: a
/// `RootDir` when it begins with `/`, a `CurDir` when it begins with a `.` segment, then a
/// component for each segment, with empty and other `.` segments normalized away.
pub open spec fn plain_key(v: Seq<char>) -> Seq<(int, Seq<char>)> {
    let segs = split_on(v, '/');
    if v.len() > 0 && v[0] == '/' {
        seq![(1int, Seq::<char>::empty())] + segments_key(segs)
    } else if segs[0] == seq!['.'] {
        seq![(2int, Seq::<char>::empty())] + segments_key(segs.drop_first())
    } else {
        segments_key(segs)
    }
}

/// `Path::file_name` of a plain path: its final component when that is a `Normal` one.
pub open spec fn plain_file_name(v: Seq<char>) -> Option<Seq<char>> {
    let k = plain_key(v);
    if k.len() > 0 && k.last().0 == 4 {
        Some(k.last().1)
    } else {
        None
    }
}

/// The position of the last `.` in a text before position `n`, or -1.
pub open spec fn last_dot(s: Seq<char>, n: int) -> int
    decreases n,
{
    if n <= 0 {
        -1
    } else if s[n - 1] == '.' {
        n - 1
    } else {
        last_dot(s, n - 1)
    }
}

/// `Path::extension` of a plain path, as `std` documents it: none without a file name,
/// none when the name has no `.` or only a leading one, otherwise what follows the final `.`.
pub open spec fn plain_extension(v: Seq<char>) -> Option<Seq<char>> {
    match plain_file_name(v) {
        None => None,
        Some(n) => {
            let d = last_dot(n, n.len() as int);
            if d <= 0 {
                None
            } else {
                Some(n.subrange(d + 1, n.len() as int))
            }
        },
    }
}

/// The key a platform compares a component by, from its rank and text.
pub open spec fn rank_key(k: (int, Seq<char>), platform: PlatformFamily) -> Seq<char> {
    if k.0 == 1 {
        "/"@
    } else if k.0 == 2 {
        "."@
    } else if k.0 == 3 {
        ".."@
    } else {
        normalize_component(k.1, platform)
    }
}

/// The component keys of a plain path under a platform's rules.
pub open spec fn plain_native_keys(v: Seq<char>, platform: PlatformFamily) -> Seq<Seq<char>> {
    plain_key(v).map_values(|k: (int, Seq<char>)| rank_key(k, platform))
}

pub proof fn lemma_native_keys_of_plain(cs: Seq<NativeComponent>, v: Seq<char>, platform: PlatformFamily)
    requires
        crate::events::path_key(cs) == plain_key(v),
    ensures
        native_keys(cs, platform) == plain_native_keys(v, platform),
{
    assert forall|i: int| 0 <= i < cs.len() implies #[trigger] native_keys(cs, platform)[i] == plain_native_keys(v, platform)[i] by {
        assert(crate::events::path_key(cs)[i] == crate::events::component_key(cs[i]));
    }
    assert(native_keys(cs, platform) =~= plain_native_keys(v, platform));
}

/// `std::path::Path::components` of a path. How a path splits depends on the platform the
/// program was built for; what is claimed holds on each: a plain path splits into the
/// components that `Path::components` documents for `/`-separated paths.
#[verifier::external_body]
pub(crate) fn native_components(path: &str) -> (r: Vec<NativeComponent>)
    ensures
        plain_path(path@) ==> crate::events::path_key(r@) == plain_key(path@),
{
    Path::new(path).components().map(|part| match part {
        Component::Prefix(p) => NativeComponent::Prefix(p.as_os_str().to_string_lossy().chars().collect()),
        Component::RootDir => NativeComponent::RootDir,
        Component::CurDir => NativeComponent::CurDir,
        Component::ParentDir => NativeComponent::ParentDir,
        Component::Normal(v) => NativeComponent::Normal(v.to_string_lossy().chars().collect()),
    }).collect()
}

/// Begins with a separator, or with an ASCII character and `:`: what every absolute path
/// begins with, on every platform.
pub open spec fn rooted_text(v: Seq<char>) -> bool {
    v.len() > 0 && (v[0] == '/' || v[0] == '\\' || (v.len() >= 2 && (v[0] as u32) < 0x80 && v[1] == ':'))
}

/// `std::path::Path::is_absolute`. What counts as absolute depends on the platform the
/// program was built for. What is claimed holds on each: an absolute path begins with a
/// root (`/` on Unix) or, on Windows, with a prefix, which is either two separators
/// (`\\server\share`, `\\?\`, `\\.\`) or an ASCII drive letter and `:`.
#[verifier::external_body]
pub(crate) fn is_absolute_path(path: &str) -> (r: bool)
    ensures
        r ==> rooted_text(path@),
{
    Path::new(path).is_absolute()
}

/// Compares native paths with explicitly selected platform semantics: `Same`, `Ancestor`,
/// `Descendant` or `Distinct` by their component keys.
pub fn path_relation_for_platform(left: &str, right: &str, platform: PlatformFamily) -> (r: PathRelation)
    ensures
        exists|l: Seq<NativeComponent>, rc: Seq<NativeComponent>|
            r == relation_of(native_keys(l, platform), native_keys(rc, platform)),
        left@ == right@ ==> r == PathRelation::Same,
        plain_path(left@) && plain_path(right@) ==> r == relation_of(
            plain_native_keys(left@, platform),
            plain_native_keys(right@, platform),
        ),
{
    let l = native_components(left);
    proof {
        if plain_path(left@) {
            lemma_native_keys_of_plain(l@, left@, platform);
        }
    }
    if slice_eq(&crate::text::chars_of(left), &crate::text::chars_of(right)) {
        // The same text splits into the same components: compare them with themselves.
        return path_relation_for_components(&l, &l, platform);
    }
    let rc = native_components(right);
    proof {
        if plain_path(right@) {
            lemma_native_keys_of_plain(rc@, right@, platform);
        }
    }
    path_relation_for_components(&l, &rc, platform)
}

} // verus!
