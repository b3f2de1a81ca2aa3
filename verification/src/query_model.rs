//! The parsed form of an asset query and its mathematical model.
//!
//! Set-valued fields are vectors without duplicates, in insertion order; their meaning is
//! the set of their elements.
use vstd::prelude::*;

use crate::asset_core::AssetKind;
use crate::text::{slice_eq, string_from};

verus! {

#[derive(Debug, Clone, Copy, PartialEq, Eq, Structural, PartialOrd, Ord, Hash)]
pub enum IntegerField {
    Rating,
    Size,
    Width,
    Height,
    Duration,
    Pages,
}

#[derive(Debug, Clone, Copy, PartialEq, Eq, Structural, PartialOrd, Ord)]
pub enum InstantField {
    Created,
    Modified,
}

#[derive(Debug, Clone, Copy, PartialEq, Eq, Structural, PartialOrd, Ord)]
pub enum RatioField {
    Aspect,
}

#[derive(Debug, Clone, Copy, PartialEq, Eq, Structural, PartialOrd, Ord)]
pub enum UnknownField {
    Size,
    Width,
    Height,
    Aspect,
    Created,
    Modified,
    Duration,
    Pages,
    Orientation,
    Root,
    ColorSpace,
    HasAlpha,
}

#[derive(Debug, Clone, Copy, PartialEq, Eq, Structural, PartialOrd, Ord, Hash)]
pub enum Orientation {
    Landscape,
    Portrait,
    Square,
}

#[derive(Debug, Clone, Copy, PartialEq, Eq, Structural)]
pub enum NullableBoolean {
    Known(bool),
    Unknown,
}

#[derive(Debug, Clone, Copy, PartialEq, Eq, Structural)]
pub struct RangeBound<T> {
    pub value: T,
    pub inclusive: bool,
}

#[derive(Debug, Clone, Copy, PartialEq, Eq, Structural)]
pub struct RangeConstraint<T> {
    pub lower: Option<RangeBound<T>>,
    pub upper: Option<RangeBound<T>>,
}

/// A reduced aspect ratio; ordered by the value of the fraction.
#[derive(Debug, Clone, Copy, PartialEq, Eq, Structural)]
pub struct Ratio {
    pub numerator: u32,
    pub denominator: u32,
}

#[derive(Debug, Clone, Copy, PartialEq, Eq, Structural)]
pub enum QueryParseErrorKind {
    UnclosedQuote,
    TrailingEscape,
    EmptyTag,
    TagTooLong,
    InvalidWildcard,
    InvalidOrGroup,
    UnknownFilter,
    InvalidType,
    InvalidExtension,
    InvalidFavorite,
    ConflictingFavorite,
    InvalidOperator,
    InvalidInteger,
    InvalidUnit,
    NumericOverflow,
    InvalidRatio,
    InvalidDate,
    InvalidEnum,
    InvalidRootId,
    InvalidPath,
    UnsupportedUnknown,
    ConflictingRange,
    ConflictingValue,
}

/// A structured parse failure: its kind, the UTF-8 byte offset of the token (or of the
/// failing position for lexical errors), the offending token, and a message for people.
#[derive(Debug, Clone, PartialEq, Eq)]
pub struct QueryParseError {
    pub kind: QueryParseErrorKind,
    pub offset: usize,
    pub token: Option<String>,
    pub message: String,
}

/// The model of a parse failure.
pub struct ErrorModel {
    pub kind: QueryParseErrorKind,
    pub offset: nat,
    pub token: Option<Seq<char>>,
}

pub open spec fn error_model(e: QueryParseError) -> ErrorModel {
    ErrorModel {
        kind: e.kind,
        offset: e.offset as nat,
        token: match e.token {
            Some(t) => Some(t@),
            None => None,
        },
    }
}

#[derive(Debug, Clone, PartialEq, Eq)]
pub struct AssetQuery {
    pub all_tags: Vec<String>,
    pub any_tag_groups: Vec<Vec<String>>,
    pub excluded_tags: Vec<String>,
    pub kinds: Vec<AssetKind>,
    pub extensions: Vec<String>,
    pub favorite: Option<bool>,
    pub integer_ranges: Vec<(IntegerField, RangeConstraint<u64>)>,
    pub instant_ranges: Vec<(InstantField, RangeConstraint<i64>)>,
    pub ratio_ranges: Vec<(RatioField, RangeConstraint<Ratio>)>,
    pub unknown_fields: Vec<UnknownField>,
    pub orientations: Vec<Orientation>,
    pub root_ids: Vec<u128>,
    pub path_contains: Vec<String>,
    pub color_spaces: Vec<String>,
    pub has_note: Option<bool>,
    pub has_alpha: Option<NullableBoolean>,
}

/// The model of a query: every field as a sequence of plain values.
#[verifier::ext_equal]
pub struct QueryModel {
    pub all_tags: Seq<Seq<char>>,
    pub any_tag_groups: Seq<Seq<Seq<char>>>,
    pub excluded_tags: Seq<Seq<char>>,
    pub kinds: Seq<AssetKind>,
    pub extensions: Seq<Seq<char>>,
    pub favorite: Option<bool>,
    pub integer_ranges: Seq<(IntegerField, RangeConstraint<u64>)>,
    pub instant_ranges: Seq<(InstantField, RangeConstraint<i64>)>,
    pub ratio_ranges: Seq<(RatioField, RangeConstraint<Ratio>)>,
    pub unknown_fields: Seq<UnknownField>,
    pub orientations: Seq<Orientation>,
    pub root_ids: Seq<u128>,
    pub path_contains: Seq<Seq<char>>,
    pub color_spaces: Seq<Seq<char>>,
    pub has_note: Option<bool>,
    pub has_alpha: Option<NullableBoolean>,
}

pub open spec fn strs(v: Seq<String>) -> Seq<Seq<char>> {
    v.map_values(|s: String| s@)
}

pub open spec fn str_groups(v: Seq<Vec<String>>) -> Seq<Seq<Seq<char>>> {
    v.map_values(|g: Vec<String>| strs(g@))
}

impl View for AssetQuery {
    type V = QueryModel;

    open spec fn view(&self) -> QueryModel {
        QueryModel {
            all_tags: strs(self.all_tags@),
            any_tag_groups: str_groups(self.any_tag_groups@),
            excluded_tags: strs(self.excluded_tags@),
            kinds: self.kinds@,
            extensions: strs(self.extensions@),
            favorite: self.favorite,
            integer_ranges: self.integer_ranges@,
            instant_ranges: self.instant_ranges@,
            ratio_ranges: self.ratio_ranges@,
            unknown_fields: self.unknown_fields@,
            orientations: self.orientations@,
            root_ids: self.root_ids@,
            path_contains: strs(self.path_contains@),
            color_spaces: strs(self.color_spaces@),
            has_note: self.has_note,
            has_alpha: self.has_alpha,
        }
    }
}

/// The query of an empty expression: no constraint at all.
pub open spec fn empty_model() -> QueryModel {
    QueryModel {
        all_tags: seq![],
        any_tag_groups: seq![],
        excluded_tags: seq![],
        kinds: seq![],
        extensions: seq![],
        favorite: None,
        integer_ranges: seq![],
        instant_ranges: seq![],
        ratio_ranges: seq![],
        unknown_fields: seq![],
        orientations: seq![],
        root_ids: seq![],
        path_contains: seq![],
        color_spaces: seq![],
        has_note: None,
        has_alpha: None,
    }
}

impl AssetQuery {
    pub fn new() -> (q: AssetQuery)
        ensures
            q@ == empty_model(),
    {
        let q = AssetQuery {
            all_tags: Vec::new(),
            any_tag_groups: Vec::new(),
            excluded_tags: Vec::new(),
            kinds: Vec::new(),
            extensions: Vec::new(),
            favorite: None,
            integer_ranges: Vec::new(),
            instant_ranges: Vec::new(),
            ratio_ranges: Vec::new(),
            unknown_fields: Vec::new(),
            orientations: Vec::new(),
            root_ids: Vec::new(),
            path_contains: Vec::new(),
            color_spaces: Vec::new(),
            has_note: None,
            has_alpha: None,
        };
        assert(q@.all_tags =~= seq![]);
        assert(q@.any_tag_groups =~= seq![]);
        assert(q@.excluded_tags =~= seq![]);
        assert(q@.extensions =~= seq![]);
        assert(q@.path_contains =~= seq![]);
        assert(q@.color_spaces =~= seq![]);
        q
    }
}

impl Default for AssetQuery {
    fn default() -> (q: AssetQuery)
        ensures
            q@ == empty_model(),
    {
        AssetQuery::new()
    }
}

/// Set insertion on a duplicate-free sequence: appends `x` when it is absent.
pub open spec fn set_add<T>(v: Seq<T>, x: T) -> Seq<T> {
    if v.contains(x) {
        v
    } else {
        v.push(x)
    }
}

/// Set removal on a sequence: drops every occurrence of `x`.
pub open spec fn set_remove<T>(v: Seq<T>, x: T) -> Seq<T> {
    v.filter(|y: T| y != x)
}

/// Element types whose equality can be decided in executable code.
pub trait Member: Copy + Sized {
    fn same(&self, other: &Self) -> (r: bool)
        ensures
            r == (*self == *other);
}

impl Member for AssetKind {
    fn same(&self, other: &Self) -> (r: bool) {
        *self == *other
    }
}

impl Member for UnknownField {
    fn same(&self, other: &Self) -> (r: bool) {
        *self == *other
    }
}

impl Member for Orientation {
    fn same(&self, other: &Self) -> (r: bool) {
        *self == *other
    }
}

impl Member for u128 {
    fn same(&self, other: &Self) -> (r: bool) {
        *self == *other
    }
}

impl Member for IntegerField {
    fn same(&self, other: &Self) -> (r: bool) {
        *self == *other
    }
}

impl Member for InstantField {
    fn same(&self, other: &Self) -> (r: bool) {
        *self == *other
    }
}

impl Member for RatioField {
    fn same(&self, other: &Self) -> (r: bool) {
        *self == *other
    }
}

pub fn contains_member<T: Member>(v: &Vec<T>, x: T) -> (r: bool)
    ensures
        r == v@.contains(x),
{
    let mut i: usize = 0;
    while i < v.len()
        invariant
            i <= v.len(),
            forall|j: int| 0 <= j < i ==> v@[j] != x,
        decreases v.len() - i,
    {
        if v[i].same(&x) {
            return true;
        }
        i = i + 1;
    }
    false
}

pub fn add_member<T: Member>(v: &mut Vec<T>, x: T)
    ensures
        final(v)@ == set_add(old(v)@, x),
{
    if !contains_member(v, x) {
        v.push(x);
    }
}

pub fn contains_str(v: &Vec<String>, x: &[char]) -> (r: bool)
    ensures
        r == strs(v@).contains(x@),
{
    let mut i: usize = 0;
    while i < v.len()
        invariant
            i <= v.len(),
            forall|j: int| 0 <= j < i ==> v@[j]@ != x@,
        decreases v.len() - i,
    {
        let c = crate::text::chars_of(v[i].as_str());
        if slice_eq(&c, x) {
            assert(strs(v@)[i as int] == x@);
            return true;
        }
        i = i + 1;
    }
    assert forall|j: int| 0 <= j < strs(v@).len() implies strs(v@)[j] != x@ by {}
    false
}

pub fn add_str(v: &mut Vec<String>, x: &[char])
    ensures
        strs(final(v)@) == set_add(strs(old(v)@), x@),
{
    if !contains_str(v, x) {
        v.push(string_from(x));
        assert(strs(v@) =~= strs(old(v)@).push(x@));
    }
}

/// Removes `x` from a set of strings; true when it was present.
pub fn remove_str(v: &mut Vec<String>, x: &[char]) -> (was: bool)
    ensures
        was == strs(old(v)@).contains(x@),
        strs(final(v)@) == set_remove(strs(old(v)@), x@),
{
    let ghost before = strs(v@);
    let was = contains_str(v, x);
    let mut kept: Vec<String> = Vec::new();
    let mut i: usize = 0;
    while i < v.len()
        invariant
            i <= v.len(),
            before == strs(v@),
            strs(kept@) == set_remove(before.subrange(0, i as int), x@),
        decreases v.len() - i,
    {
        let c = crate::text::chars_of(v[i].as_str());
        let ghost prefix = before.subrange(0, i as int);
        assert(before.subrange(0, i + 1) =~= prefix.push(before[i as int]));
        let ghost kept_before = kept@;
        if !slice_eq(&c, x) {
            kept.push(v[i].clone());
            assert(strs(kept@) =~= strs(kept_before).push(v@[i as int]@));
        }
        i = i + 1;
        assert(set_remove(prefix.push(before[i - 1]), x@) =~= if before[i - 1] != x@ {
            set_remove(prefix, x@).push(before[i - 1])
        } else {
            set_remove(prefix, x@)
        }) by {
            lemma_filter_push(prefix, before[i - 1], x@);
        }
    }
    assert(before.subrange(0, v.len() as int) =~= before);
    *v = kept;
    was
}

pub proof fn lemma_filter_push<T>(s: Seq<T>, y: T, x: T)
    ensures
        set_remove(s.push(y), x) == if y != x {
            set_remove(s, x).push(y)
        } else {
            set_remove(s, x)
        },
{
    reveal(Seq::filter);
    assert(s.push(y).drop_last() =~= s);
    assert(s.push(y).last() == y);
}

/// Removing an absent element changes nothing.
pub proof fn lemma_set_remove_absent<T>(s: Seq<T>, x: T)
    requires
        !s.contains(x),
    ensures
        set_remove(s, x) == s,
    decreases s.len(),
{
    if s.len() > 0 {
        assert(!s.drop_last().contains(x)) by {
            if s.drop_last().contains(x) {
                let j = choose|j: int| 0 <= j < s.drop_last().len() && s.drop_last()[j] == x;
                assert(s[j] == x);
            }
        }
        lemma_set_remove_absent(s.drop_last(), x);
        lemma_filter_push(s.drop_last(), s.last(), x);
        assert(s.drop_last().push(s.last()) =~= s);
        assert(s.last() != x) by {
            assert(s[s.len() - 1] == s.last());
        }
    } else {
        assert(set_remove(s, x) =~= s);
    }
}

} // verus!
