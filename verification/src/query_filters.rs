//! The advanced filters of the query language: `field:value` predicates on ratings, sizes,
//! dimensions, durations, page counts, instants, aspect ratios, orientations, library
//! roots, paths, color spaces, notes and alpha channels.
use unicode_normalization::UnicodeNormalization;
use vstd::prelude::*;

use crate::query_model::{
    add_member, add_str, contains_member, set_add, AssetQuery, IntegerField, InstantField,
    NullableBoolean, Orientation, QueryModel, QueryParseErrorKind, RatioField, UnknownField,
};
use crate::query_values::{
    apply_range, apply_range_spec, duration_spec, find_key, has_key, instant_spec, parse_duration,
    parse_instant, parse_positive_integer, parse_rating, parse_ratio, parse_size, positive_spec,
    rating_spec, ratio_spec, size_spec, split_operator, split_operator_spec, ComparisonOperator,
    Failure,
};
use crate::text::{
    all_ascii, contains_char, eq_literal, find_char, find_char_exec, is_alpha_char,
    is_control_char, is_digit_char, is_lower_char, slice_eq, split_exec, split_on, subslice,
    utf8_len, views,
};

verus! {

pub open spec fn conflicting() -> QueryParseErrorKind {
    QueryParseErrorKind::ConflictingValue
}

fn conflicting_value() -> (f: Failure)
    ensures
        f.0 == conflicting(),
{
    (
        QueryParseErrorKind::ConflictingValue,
        "field cannot require conflicting known, unknown, or boolean values",
    )
}

/// The `unknown` marker that an integer field may take instead of a range.
pub open spec fn unknown_for(field: IntegerField) -> Option<UnknownField> {
    match field {
        IntegerField::Rating => None,
        IntegerField::Size => Some(UnknownField::Size),
        IntegerField::Width => Some(UnknownField::Width),
        IntegerField::Height => Some(UnknownField::Height),
        IntegerField::Duration => Some(UnknownField::Duration),
        IntegerField::Pages => Some(UnknownField::Pages),
    }
}

pub open spec fn integer_value_spec(field: IntegerField, v: Seq<char>) -> Result<u64, QueryParseErrorKind> {
    match field {
        IntegerField::Rating => rating_spec(v),
        IntegerField::Size => size_spec(v),
        IntegerField::Duration => duration_spec(v),
        _ => positive_spec(v),
    }
}

/// An integer field: `unknown`, or a comparison intersected with the field's range.
pub open spec fn integer_filter_spec(field: IntegerField, v: Seq<char>, q: QueryModel) -> Result<
    QueryModel,
    QueryParseErrorKind,
> {
    match split_operator_spec(v) {
        Err(k) => Err(k),
        Ok((op, x)) => if x == "unknown"@ {
            if op != ComparisonOperator::Equal {
                Err(QueryParseErrorKind::InvalidOperator)
            } else {
                match unknown_for(field) {
                    None => Err(QueryParseErrorKind::UnsupportedUnknown),
                    Some(u) => if has_key(q.integer_ranges, field) {
                        Err(conflicting())
                    } else {
                        Ok(QueryModel { unknown_fields: set_add(q.unknown_fields, u), ..q })
                    },
                }
            }
        } else if (match unknown_for(field) {
            Some(u) => q.unknown_fields.contains(u),
            None => false,
        }) {
            Err(conflicting())
        } else {
            match integer_value_spec(field, x) {
                Err(k) => Err(k),
                Ok(n) => match apply_range_spec(q.integer_ranges, field, op, n) {
                    Err(k) => Err(k),
                    Ok(r) => Ok(QueryModel { integer_ranges: r, ..q }),
                },
            }
        },
    }
}

fn unknown_for_exec(field: IntegerField) -> (r: Option<UnknownField>)
    ensures
        r == unknown_for(field),
{
    match field {
        IntegerField::Rating => None,
        IntegerField::Size => Some(UnknownField::Size),
        IntegerField::Width => Some(UnknownField::Width),
        IntegerField::Height => Some(UnknownField::Height),
        IntegerField::Duration => Some(UnknownField::Duration),
        IntegerField::Pages => Some(UnknownField::Pages),
    }
}

fn integer_value(field: IntegerField, x: &[char]) -> (r: Result<u64, Failure>)
    ensures
        match integer_value_spec(field, x@) {
            Ok(n) => r == Ok::<u64, Failure>(n),
            Err(k) => r matches Err(f) && f.0 == k,
        },
{
    match field {
        IntegerField::Rating => parse_rating(x),
        IntegerField::Size => parse_size(x),
        IntegerField::Duration => parse_duration(x),
        IntegerField::Width => parse_positive_integer(x, "width must be greater than zero"),
        IntegerField::Height => parse_positive_integer(x, "height must be greater than zero"),
        IntegerField::Pages => parse_positive_integer(x, "pages must be greater than zero"),
    }
}

pub fn parse_integer_filter(field: IntegerField, v: &[char], q: &mut AssetQuery) -> (r: Result<(), Failure>)
    ensures
        match integer_filter_spec(field, v@, old(q)@) {
            Ok(m) => r is Ok && final(q)@ == m,
            Err(k) => r matches Err(f) && f.0 == k,
        },
{
    let (op, x) = split_operator(v)?;
    let unknown = unknown_for_exec(field);
    if eq_literal(&x, "unknown") {
        if op != ComparisonOperator::Equal {
            return Err((QueryParseErrorKind::InvalidOperator, "unknown only supports equality"));
        }
        let u = match unknown {
            Some(u) => u,
            None => return Err((QueryParseErrorKind::UnsupportedUnknown, "this field cannot be unknown")),
        };
        if find_key(&q.integer_ranges, field).is_some() {
            return Err(conflicting_value());
        }
        add_member(&mut q.unknown_fields, u);
        return Ok(());
    }
    if let Some(u) = unknown {
        if contains_member(&q.unknown_fields, u) {
            return Err(conflicting_value());
        }
    }
    let n = integer_value(field, &x)?;
    apply_range(&mut q.integer_ranges, field, op, n)
}

/// An instant field: `unknown`, or a comparison intersected with the field's range.
pub open spec fn instant_filter_spec(
    field: InstantField,
    unknown: UnknownField,
    v: Seq<char>,
    q: QueryModel,
) -> Result<QueryModel, QueryParseErrorKind> {
    match split_operator_spec(v) {
        Err(k) => Err(k),
        Ok((op, x)) => if x == "unknown"@ {
            if op != ComparisonOperator::Equal {
                Err(QueryParseErrorKind::InvalidOperator)
            } else if has_key(q.instant_ranges, field) {
                Err(conflicting())
            } else {
                Ok(QueryModel { unknown_fields: set_add(q.unknown_fields, unknown), ..q })
            }
        } else if q.unknown_fields.contains(unknown) {
            Err(conflicting())
        } else {
            match instant_spec(x) {
                Err(k) => Err(k),
                Ok(n) => match apply_range_spec(q.instant_ranges, field, op, n) {
                    Err(k) => Err(k),
                    Ok(r) => Ok(QueryModel { instant_ranges: r, ..q }),
                },
            }
        },
    }
}

pub fn parse_instant_filter(
    field: InstantField,
    unknown: UnknownField,
    v: &[char],
    q: &mut AssetQuery,
) -> (r: Result<(), Failure>)
    ensures
        match instant_filter_spec(field, unknown, v@, old(q)@) {
            Ok(m) => r is Ok && final(q)@ == m,
            Err(k) => r matches Err(f) && f.0 == k,
        },
{
    let (op, x) = split_operator(v)?;
    if eq_literal(&x, "unknown") {
        if op != ComparisonOperator::Equal {
            return Err((QueryParseErrorKind::InvalidOperator, "unknown only supports equality"));
        }
        if find_key(&q.instant_ranges, field).is_some() {
            return Err(conflicting_value());
        }
        add_member(&mut q.unknown_fields, unknown);
        return Ok(());
    }
    if contains_member(&q.unknown_fields, unknown) {
        return Err(conflicting_value());
    }
    let n = parse_instant(&x)?;
    apply_range(&mut q.instant_ranges, field, op, n)
}

/// `aspect:`: `unknown`, or a comparison of reduced ratios.
pub open spec fn ratio_filter_spec(v: Seq<char>, q: QueryModel) -> Result<QueryModel, QueryParseErrorKind> {
    match split_operator_spec(v) {
        Err(k) => Err(k),
        Ok((op, x)) => if x == "unknown"@ {
            if op != ComparisonOperator::Equal {
                Err(QueryParseErrorKind::InvalidOperator)
            } else if has_key(q.ratio_ranges, RatioField::Aspect) {
                Err(conflicting())
            } else {
                Ok(QueryModel { unknown_fields: set_add(q.unknown_fields, UnknownField::Aspect), ..q })
            }
        } else if q.unknown_fields.contains(UnknownField::Aspect) {
            Err(conflicting())
        } else {
            match ratio_spec(x) {
                None => Err(QueryParseErrorKind::InvalidRatio),
                Some(n) => match apply_range_spec(q.ratio_ranges, RatioField::Aspect, op, n) {
                    Err(k) => Err(k),
                    Ok(r) => Ok(QueryModel { ratio_ranges: r, ..q }),
                },
            }
        },
    }
}

pub fn parse_ratio_filter(v: &[char], q: &mut AssetQuery) -> (r: Result<(), Failure>)
    ensures
        match ratio_filter_spec(v@, old(q)@) {
            Ok(m) => r is Ok && final(q)@ == m,
            Err(k) => r matches Err(f) && f.0 == k,
        },
{
    let (op, x) = split_operator(v)?;
    if eq_literal(&x, "unknown") {
        if op != ComparisonOperator::Equal {
            return Err((QueryParseErrorKind::InvalidOperator, "unknown only supports equality"));
        }
        if find_key(&q.ratio_ranges, RatioField::Aspect).is_some() {
            return Err(conflicting_value());
        }
        add_member(&mut q.unknown_fields, UnknownField::Aspect);
        return Ok(());
    }
    if contains_member(&q.unknown_fields, UnknownField::Aspect) {
        return Err(conflicting_value());
    }
    let n = parse_ratio(&x)?;
    apply_range(&mut q.ratio_ranges, RatioField::Aspect, op, n)
}

/// The value of a field that only takes equality.
pub open spec fn equality_value_spec(v: Seq<char>) -> Result<Seq<char>, QueryParseErrorKind> {
    match split_operator_spec(v) {
        Err(k) => Err(k),
        Ok((op, x)) => if op != ComparisonOperator::Equal {
            Err(QueryParseErrorKind::InvalidOperator)
        } else {
            Ok(x)
        },
    }
}

fn equality_value(v: &[char]) -> (r: Result<Vec<char>, Failure>)
    ensures
        match equality_value_spec(v@) {
            Ok(x) => r matches Ok(y) && y@ == x,
            Err(k) => r matches Err(f) && f.0 == k,
        },
{
    let (op, x) = split_operator(v)?;
    if op != ComparisonOperator::Equal {
        return Err((QueryParseErrorKind::InvalidOperator, "this field only supports equality"));
    }
    Ok(x)
}

/// What `uuid::Uuid::parse_str` accepts a text as, as a 128-bit value.
pub uninterp spec fn uuid_value(text: Seq<char>) -> Option<u128>;

/// The 32 lower-case hexadecimal digits of a 128-bit value, most significant first.
pub open spec fn hex_digits_of(value: u128) -> Seq<char> {
    Seq::new(
        32,
        |k: int| crate::diagnostics::hex_digit(((value as int / vstd::arithmetic::power::pow(16, (31 - k) as nat)) % 16) as u8),
    )
}

/// What `uuid::Uuid`'s `to_string` writes for a value: its hyphenated form, the lower-case
/// hexadecimal digits in groups of 8, 4, 4, 4 and 12.
pub open spec fn uuid_text(value: u128) -> Seq<char> {
    let h = hex_digits_of(value);
    h.subrange(0, 8) + seq!['-'] + h.subrange(8, 12) + seq!['-'] + h.subrange(12, 16) + seq!['-'] + h.subrange(16, 20)
        + seq!['-'] + h.subrange(20, 32)
}

/// `uuid::Uuid::parse_str`, read as a 128-bit value. Trusted: the result is the named
/// `uuid_value` of the text; which texts it accepts is not restated here.
#[verifier::external_body]
fn parse_uuid(text: &[char]) -> (r: Option<u128>)
    ensures
        r == uuid_value(text@),
{
    let owned: String = text.iter().collect();
    match uuid::Uuid::parse_str(&owned) {
        Ok(id) => Some(id.as_u128()),
        Err(_) => None,
    }
}

/// `uuid::Uuid::to_string` of a 128-bit value. Trusted: the result is the hyphenated
/// lower-case form `uuid_text` of the value, as `uuid`'s `Display` writes it.
#[verifier::external_body]
pub(crate) fn format_uuid(value: u128) -> (r: Vec<char>)
    ensures
        r@ == uuid_text(value),
{
    uuid::Uuid::from_u128(value).to_string().chars().collect()
}

/// The fields that take one or more values separated by `|`.
#[derive(Debug, Clone, Copy, PartialEq, Eq, Structural)]
pub enum ChoiceField {
    Orientation,
    Root,
    ColorSpace,
}

pub open spec fn orientation_named(x: Seq<char>) -> Option<Orientation> {
    if x == "landscape"@ {
        Some(Orientation::Landscape)
    } else if x == "portrait"@ {
        Some(Orientation::Portrait)
    } else if x == "square"@ {
        Some(Orientation::Square)
    } else {
        None
    }
}

pub open spec fn color_char(c: char, i: int) -> bool {
    is_lower_char(c) || is_digit_char(c) || (i > 0 && (c == '.' || c == '_' || c == '-'))
}

/// A normalized color-space name: lower-case letters and digits, with `.`, `_` or `-`
/// after the first character, at most 64 bytes.
pub open spec fn color_space_ok(x: Seq<char>) -> bool {
    utf8_len(x) <= 64 && forall|i: int| 0 <= i < x.len() ==> color_char(#[trigger] x[i], i)
}

/// One value of a choice field applied to the query.
pub open spec fn choice_step(f: ChoiceField, x: Seq<char>, q: QueryModel) -> Result<QueryModel, QueryParseErrorKind> {
    match f {
        ChoiceField::Orientation => if x == "unknown"@ {
            if q.orientations.len() > 0 {
                Err(conflicting())
            } else {
                Ok(QueryModel { unknown_fields: set_add(q.unknown_fields, UnknownField::Orientation), ..q })
            }
        } else if q.unknown_fields.contains(UnknownField::Orientation) {
            Err(conflicting())
        } else {
            match orientation_named(x) {
                None => Err(QueryParseErrorKind::InvalidEnum),
                Some(o) => Ok(QueryModel { orientations: set_add(q.orientations, o), ..q }),
            }
        },
        ChoiceField::Root => if x == "unknown"@ {
            if q.root_ids.len() > 0 {
                Err(conflicting())
            } else {
                Ok(QueryModel { unknown_fields: set_add(q.unknown_fields, UnknownField::Root), ..q })
            }
        } else if q.unknown_fields.contains(UnknownField::Root) {
            Err(conflicting())
        } else {
            match uuid_value(x) {
                None => Err(QueryParseErrorKind::InvalidRootId),
                Some(u) => if uuid_text(u) != x {
                    Err(QueryParseErrorKind::InvalidRootId)
                } else {
                    Ok(QueryModel { root_ids: set_add(q.root_ids, u), ..q })
                },
            }
        },
        ChoiceField::ColorSpace => if x == "unknown"@ {
            if q.color_spaces.len() > 0 {
                Err(conflicting())
            } else {
                Ok(QueryModel { unknown_fields: set_add(q.unknown_fields, UnknownField::ColorSpace), ..q })
            }
        } else if q.unknown_fields.contains(UnknownField::ColorSpace) {
            Err(conflicting())
        } else if !color_space_ok(x) {
            Err(QueryParseErrorKind::InvalidEnum)
        } else {
            Ok(QueryModel { color_spaces: set_add(q.color_spaces, x), ..q })
        },
    }
}

/// The first `n` values applied in order, stopping at the first failure.
pub open spec fn choice_fold(f: ChoiceField, xs: Seq<Seq<char>>, n: int, q: QueryModel) -> Result<
    QueryModel,
    QueryParseErrorKind,
>
    decreases n,
{
    if n <= 0 {
        Ok(q)
    } else {
        match choice_fold(f, xs, n - 1, q) {
            Err(k) => Err(k),
            Ok(q1) => choice_step(f, xs[n - 1], q1),
        }
    }
}

pub open spec fn has_empty(xs: Seq<Seq<char>>) -> bool {
    exists|i: int| 0 <= i < xs.len() && (#[trigger] xs[i]).len() == 0
}

/// A choice field: an equality with values separated by `|`, none of them empty.
pub open spec fn choice_filter_spec(f: ChoiceField, v: Seq<char>, q: QueryModel) -> Result<
    QueryModel,
    QueryParseErrorKind,
> {
    match equality_value_spec(v) {
        Err(k) => Err(k),
        Ok(x) => {
            let xs = split_on(x, '|');
            if has_empty(xs) {
                Err(QueryParseErrorKind::InvalidEnum)
            } else {
                choice_fold(f, xs, xs.len() as int, q)
            }
        },
    }
}

pub proof fn lemma_choice_fold_stays(f: ChoiceField, xs: Seq<Seq<char>>, i: int, n: int, q: QueryModel)
    requires
        i <= n,
        choice_fold(f, xs, i, q) is Err,
    ensures
        choice_fold(f, xs, n, q) == choice_fold(f, xs, i, q),
    decreases n,
{
    if n > i {
        lemma_choice_fold_stays(f, xs, i, n - 1, q);
    }
}

fn orientation_named_exec(x: &[char]) -> (r: Option<Orientation>)
    ensures
        r == orientation_named(x@),
{
    if eq_literal(x, "landscape") {
        Some(Orientation::Landscape)
    } else if eq_literal(x, "portrait") {
        Some(Orientation::Portrait)
    } else if eq_literal(x, "square") {
        Some(Orientation::Square)
    } else {
        None
    }
}

fn color_space_ok_exec(x: &[char]) -> (r: bool)
    ensures
        r == color_space_ok(x@),
{
    let mut i: usize = 0;
    while i < x.len()
        invariant
            i <= x.len(),
            forall|j: int| 0 <= j < i ==> color_char(#[trigger] x@[j], j),
        decreases x.len() - i,
    {
        let c = x[i];
        if !(('a' <= c && c <= 'z') || ('0' <= c && c <= '9') || (i > 0 && (c == '.' || c == '_' || c
            == '-'))) {
            assert(!color_char(x@[i as int], i as int));
            return false;
        }
        i = i + 1;
    }
    proof {
        assert(all_ascii(x@)) by {
            assert forall|j: int| 0 <= j < x@.len() implies (#[trigger] x@[j] as u32) < 0x80 by {
                assert(color_char(x@[j], j));
            }
        }
        crate::text::lemma_ascii_utf8_len(x@);
    }
    x.len() <= 64
}

fn choice_step_exec(f: ChoiceField, x: &[char], q: &mut AssetQuery) -> (r: Result<(), Failure>)
    ensures
        match choice_step(f, x@, old(q)@) {
            Ok(m) => r is Ok && final(q)@ == m,
            Err(k) => r matches Err(f) && f.0 == k,
        },
{
    let unknown = eq_literal(x, "unknown");
    match f {
        ChoiceField::Orientation => {
            if unknown {
                if q.orientations.len() > 0 {
                    return Err(conflicting_value());
                }
                add_member(&mut q.unknown_fields, UnknownField::Orientation);
                return Ok(());
            }
            if contains_member(&q.unknown_fields, UnknownField::Orientation) {
                return Err(conflicting_value());
            }
            match orientation_named_exec(x) {
                None => Err((
                    QueryParseErrorKind::InvalidEnum,
                    "orientation requires landscape, portrait, square, or unknown",
                )),
                Some(o) => {
                    add_member(&mut q.orientations, o);
                    Ok(())
                },
            }
        },
        ChoiceField::Root => {
            if unknown {
                if q.root_ids.len() > 0 {
                    return Err(conflicting_value());
                }
                add_member(&mut q.unknown_fields, UnknownField::Root);
                return Ok(());
            }
            if contains_member(&q.unknown_fields, UnknownField::Root) {
                return Err(conflicting_value());
            }
            let invalid = (QueryParseErrorKind::InvalidRootId, "root requires a canonical lowercase UUID");
            match parse_uuid(x) {
                None => Err(invalid),
                Some(u) => {
                    if !slice_eq(&format_uuid(u), x) {
                        return Err(invalid);
                    }
                    add_member(&mut q.root_ids, u);
                    Ok(())
                },
            }
        },
        ChoiceField::ColorSpace => {
            if unknown {
                if q.color_spaces.len() > 0 {
                    return Err(conflicting_value());
                }
                add_member(&mut q.unknown_fields, UnknownField::ColorSpace);
                return Ok(());
            }
            if contains_member(&q.unknown_fields, UnknownField::ColorSpace) {
                return Err(conflicting_value());
            }
            if !color_space_ok_exec(x) {
                return Err((
                    QueryParseErrorKind::InvalidEnum,
                    "color-space requires a normalized lowercase provider value",
                ));
            }
            add_str(&mut q.color_spaces, x);
            Ok(())
        },
    }
}

pub fn parse_choice_filter(f: ChoiceField, v: &[char], q: &mut AssetQuery) -> (r: Result<(), Failure>)
    ensures
        match choice_filter_spec(f, v@, old(q)@) {
            Ok(m) => r is Ok && final(q)@ == m,
            Err(k) => r matches Err(f) && f.0 == k,
        },
{
    let x = equality_value(v)?;
    let xs = split_exec(&x, '|');
    let ghost xv = views(xs@);
    let mut i: usize = 0;
    while i < xs.len()
        invariant
            i <= xs.len(),
            xv == views(xs@),
            xv == split_on(x@, '|'),
            equality_value_spec(v@) == Ok::<Seq<char>, QueryParseErrorKind>(x@),
            forall|j: int| 0 <= j < i ==> (#[trigger] xv[j]).len() > 0,
        decreases xs.len() - i,
    {
        assert(xv[i as int] == xs@[i as int]@);
        if xs[i].len() == 0 {
            assert(has_empty(xv));
            return Err((QueryParseErrorKind::InvalidEnum, "OR values cannot be empty"));
        }
        i = i + 1;
    }
    assert(!has_empty(xv));
    let ghost start = q@;
    let mut i: usize = 0;
    while i < xs.len()
        invariant
            i <= xs.len(),
            xv == views(xs@),
            xv == split_on(x@, '|'),
            !has_empty(xv),
            equality_value_spec(v@) == Ok::<Seq<char>, QueryParseErrorKind>(x@),
            start == old(q)@,
            choice_fold(f, xv, i as int, start) == Ok::<QueryModel, QueryParseErrorKind>(q@),
        decreases xs.len() - i,
    {
        assert(xv[i as int] == xs@[i as int]@);
        let step = choice_step_exec(f, &xs[i], q);
        if let Err(e) = step {
            proof {
                lemma_choice_fold_stays(f, xv, i + 1, xv.len() as int, start);
            }
            return Err(e);
        }
        i = i + 1;
    }
    Ok(())
}

/// A path substring: not empty, not absolute, no backslash, no drive letter, no `.` or `..`
/// segment and no control character.
pub open spec fn path_ok(n: Seq<char>) -> bool {
    let segments = split_on(n, '/');
    &&& n.len() > 0
    &&& n[0] != '/'
    &&& !n.contains('\\')
    &&& !(n.len() >= 2 && is_alpha_char(n[0]) && n[1] == ':')
    &&& forall|i: int| 0 <= i < segments.len() ==> #[trigger] segments[i] != "."@ && segments[i] != ".."@
    &&& forall|i: int| 0 <= i < n.len() ==> !is_control_char(#[trigger] n[i])
}

/// What `unicode_normalization`'s `nfc` produces for a text: its canonical composition.
pub uninterp spec fn nfc_form(text: Seq<char>) -> Seq<char>;

/// The `nfc` iterator of `unicode_normalization`, collected. Trusted: the result is the
/// named `nfc_form` of the text; the normalization itself is not restated here.
#[verifier::external_body]
pub(crate) fn nfc_chars(text: &[char]) -> (r: Vec<char>)
    ensures
        r@ == nfc_form(text@),
{
    text.iter().copied().nfc().collect()
}

/// `path:`: a root-relative substring, kept in Unicode NFC.
pub open spec fn path_filter_spec(v: Seq<char>, q: QueryModel) -> Result<QueryModel, QueryParseErrorKind> {
    match equality_value_spec(v) {
        Err(k) => Err(k),
        Ok(x) => if x == "unknown"@ {
            Err(QueryParseErrorKind::UnsupportedUnknown)
        } else if !path_ok(nfc_form(x)) {
            Err(QueryParseErrorKind::InvalidPath)
        } else {
            Ok(QueryModel { path_contains: q.path_contains.push(nfc_form(x)), ..q })
        },
    }
}

fn path_ok_exec(n: &[char]) -> (r: bool)
    ensures
        r == path_ok(n@),
{
    if n.len() == 0 || n[0] == '/' || contains_char(n, '\\') {
        return false;
    }
    if n.len() >= 2 && (('a' <= n[0] && n[0] <= 'z') || ('A' <= n[0] && n[0] <= 'Z')) && n[1] == ':' {
        return false;
    }
    let segments = split_exec(n, '/');
    let ghost sv = views(segments@);
    let mut i: usize = 0;
    while i < segments.len()
        invariant
            i <= segments.len(),
            sv == views(segments@),
            sv == split_on(n@, '/'),
            forall|j: int| 0 <= j < i ==> #[trigger] sv[j] != "."@ && sv[j] != ".."@,
        decreases segments.len() - i,
    {
        assert(sv[i as int] == segments@[i as int]@);
        if eq_literal(&segments[i], ".") || eq_literal(&segments[i], "..") {
            assert(!(sv[i as int] != "."@ && sv[i as int] != ".."@));
            return false;
        }
        i = i + 1;
    }
    let mut j: usize = 0;
    while j < n.len()
        invariant
            j <= n.len(),
            forall|k: int| 0 <= k < j ==> !is_control_char(#[trigger] n@[k]),
        decreases n.len() - j,
    {
        if crate::text::is_control(n[j]) {
            return false;
        }
        j = j + 1;
    }
    true
}

pub fn parse_path_filter(v: &[char], q: &mut AssetQuery) -> (r: Result<(), Failure>)
    ensures
        match path_filter_spec(v@, old(q)@) {
            Ok(m) => r is Ok && final(q)@ == m,
            Err(k) => r matches Err(f) && f.0 == k,
        },
{
    let x = equality_value(v)?;
    if eq_literal(&x, "unknown") {
        return Err((QueryParseErrorKind::UnsupportedUnknown, "path cannot be unknown"));
    }
    let n = nfc_chars(&x);
    if !path_ok_exec(&n) {
        return Err((
            QueryParseErrorKind::InvalidPath,
            "path requires a non-empty root-relative substring without dot segments",
        ));
    }
    let ghost before = q.path_contains@;
    q.path_contains.push(crate::text::string_from(&n));
    assert(crate::query_model::strs(q.path_contains@) =~= crate::query_model::strs(before).push(n@));
    Ok(())
}

pub open spec fn boolean_named(x: Seq<char>) -> Option<bool> {
    if x == "true"@ {
        Some(true)
    } else if x == "false"@ {
        Some(false)
    } else {
        None
    }
}

fn parse_boolean(x: &[char]) -> (r: Result<bool, Failure>)
    ensures
        match boolean_named(x@) {
            Some(b) => r == Ok::<bool, Failure>(b),
            None => r matches Err(f) && f.0 == QueryParseErrorKind::InvalidEnum,
        },
{
    if eq_literal(x, "true") {
        Ok(true)
    } else if eq_literal(x, "false") {
        Ok(false)
    } else {
        Err((QueryParseErrorKind::InvalidEnum, "boolean field requires true or false"))
    }
}

/// `has-note:`: `true` or `false`, consistent with earlier `has-note:` filters.
pub open spec fn has_note_spec(v: Seq<char>, q: QueryModel) -> Result<QueryModel, QueryParseErrorKind> {
    match equality_value_spec(v) {
        Err(k) => Err(k),
        Ok(x) => if x == "unknown"@ {
            Err(QueryParseErrorKind::UnsupportedUnknown)
        } else {
            match boolean_named(x) {
                None => Err(QueryParseErrorKind::InvalidEnum),
                Some(b) => if q.has_note matches Some(c) && c != b {
                    Err(conflicting())
                } else {
                    Ok(QueryModel { has_note: Some(b), ..q })
                },
            }
        },
    }
}

pub fn parse_has_note_filter(v: &[char], q: &mut AssetQuery) -> (r: Result<(), Failure>)
    ensures
        match has_note_spec(v@, old(q)@) {
            Ok(m) => r is Ok && final(q)@ == m,
            Err(k) => r matches Err(f) && f.0 == k,
        },
{
    let x = equality_value(v)?;
    if eq_literal(&x, "unknown") {
        return Err((QueryParseErrorKind::UnsupportedUnknown, "has-note cannot be unknown"));
    }
    let b = parse_boolean(&x)?;
    if let Some(c) = q.has_note {
        if c != b {
            return Err(conflicting_value());
        }
    }
    q.has_note = Some(b);
    Ok(())
}

/// `has-alpha:`: `true`, `false` or `unknown`, consistent with earlier `has-alpha:` filters.
pub open spec fn has_alpha_spec(v: Seq<char>, q: QueryModel) -> Result<QueryModel, QueryParseErrorKind> {
    match equality_value_spec(v) {
        Err(k) => Err(k),
        Ok(x) => {
            let parsed: Option<(NullableBoolean, QueryModel)> = if x == "unknown"@ {
                Some(
                    (
                        NullableBoolean::Unknown,
                        QueryModel { unknown_fields: set_add(q.unknown_fields, UnknownField::HasAlpha), ..q },
                    ),
                )
            } else {
                match boolean_named(x) {
                    None => None,
                    Some(b) => Some((NullableBoolean::Known(b), q)),
                }
            };
            match parsed {
                None => Err(QueryParseErrorKind::InvalidEnum),
                Some((p, q1)) => if q1.has_alpha matches Some(c) && c != p {
                    Err(conflicting())
                } else {
                    Ok(QueryModel { has_alpha: Some(p), ..q1 })
                },
            }
        },
    }
}

pub fn parse_has_alpha_filter(v: &[char], q: &mut AssetQuery) -> (r: Result<(), Failure>)
    ensures
        match has_alpha_spec(v@, old(q)@) {
            Ok(m) => r is Ok && final(q)@ == m,
            Err(k) => r matches Err(f) && f.0 == k,
        },
{
    let x = equality_value(v)?;
    let parsed = if eq_literal(&x, "unknown") {
        add_member(&mut q.unknown_fields, UnknownField::HasAlpha);
        NullableBoolean::Unknown
    } else {
        NullableBoolean::Known(parse_boolean(&x)?)
    };
    if let Some(c) = q.has_alpha {
        if c != parsed {
            return Err(conflicting_value());
        }
    }
    q.has_alpha = Some(parsed);
    Ok(())
}

/// The advanced filters, by field name.
#[derive(Debug, Clone, Copy, PartialEq, Eq, Structural)]
pub enum AdvancedField {
    Rating,
    Size,
    Width,
    Height,
    Duration,
    Pages,
    Created,
    Modified,
    Aspect,
    Orientation,
    Root,
    Path,
    ColorSpace,
    HasNote,
    HasAlpha,
}

pub open spec fn advanced_field_named(field: Seq<char>) -> Option<AdvancedField> {
    if field == "rating"@ {
        Some(AdvancedField::Rating)
    } else if field == "size"@ {
        Some(AdvancedField::Size)
    } else if field == "width"@ {
        Some(AdvancedField::Width)
    } else if field == "height"@ {
        Some(AdvancedField::Height)
    } else if field == "duration"@ {
        Some(AdvancedField::Duration)
    } else if field == "pages"@ {
        Some(AdvancedField::Pages)
    } else if field == "created"@ {
        Some(AdvancedField::Created)
    } else if field == "modified"@ {
        Some(AdvancedField::Modified)
    } else if field == "aspect"@ {
        Some(AdvancedField::Aspect)
    } else if field == "orientation"@ {
        Some(AdvancedField::Orientation)
    } else if field == "root"@ {
        Some(AdvancedField::Root)
    } else if field == "path"@ {
        Some(AdvancedField::Path)
    } else if field == "color-space"@ {
        Some(AdvancedField::ColorSpace)
    } else if field == "has-note"@ {
        Some(AdvancedField::HasNote)
    } else if field == "has-alpha"@ {
        Some(AdvancedField::HasAlpha)
    } else {
        None
    }
}

/// One advanced filter applied to the query.
pub open spec fn apply_advanced(f: AdvancedField, x: Seq<char>, q: QueryModel) -> Result<QueryModel, QueryParseErrorKind> {
    match f {
        AdvancedField::Rating => integer_filter_spec(IntegerField::Rating, x, q),
        AdvancedField::Size => integer_filter_spec(IntegerField::Size, x, q),
        AdvancedField::Width => integer_filter_spec(IntegerField::Width, x, q),
        AdvancedField::Height => integer_filter_spec(IntegerField::Height, x, q),
        AdvancedField::Duration => integer_filter_spec(IntegerField::Duration, x, q),
        AdvancedField::Pages => integer_filter_spec(IntegerField::Pages, x, q),
        AdvancedField::Created => instant_filter_spec(InstantField::Created, UnknownField::Created, x, q),
        AdvancedField::Modified => instant_filter_spec(InstantField::Modified, UnknownField::Modified, x, q),
        AdvancedField::Aspect => ratio_filter_spec(x, q),
        AdvancedField::Orientation => choice_filter_spec(ChoiceField::Orientation, x, q),
        AdvancedField::Root => choice_filter_spec(ChoiceField::Root, x, q),
        AdvancedField::Path => path_filter_spec(x, q),
        AdvancedField::ColorSpace => choice_filter_spec(ChoiceField::ColorSpace, x, q),
        AdvancedField::HasNote => has_note_spec(x, q),
        AdvancedField::HasAlpha => has_alpha_spec(x, q),
    }
}

/// Two queries have the same required, excluded and grouped tags.
pub open spec fn same_tags(a: QueryModel, b: QueryModel) -> bool {
    &&& a.all_tags == b.all_tags
    &&& a.excluded_tags == b.excluded_tags
    &&& a.any_tag_groups == b.any_tag_groups
}

proof fn lemma_choice_fold_keeps_tags(f: ChoiceField, xs: Seq<Seq<char>>, n: int, q: QueryModel)
    ensures
        choice_fold(f, xs, n, q) matches Ok(q1) ==> same_tags(q1, q),
    decreases n,
{
    if n > 0 {
        lemma_choice_fold_keeps_tags(f, xs, n - 1, q);
    }
}

/// An advanced filter changes no tag of a query.
pub proof fn lemma_advanced_keeps_tags(f: AdvancedField, x: Seq<char>, q: QueryModel)
    ensures
        apply_advanced(f, x, q) matches Ok(q1) ==> same_tags(q1, q),
{
    match f {
        AdvancedField::Orientation => {
            lemma_choice_fold_keeps_tags(ChoiceField::Orientation, split_on(equality_value_spec(x)->Ok_0, '|'), split_on(equality_value_spec(x)->Ok_0, '|').len() as int, q);
        },
        AdvancedField::Root => {
            lemma_choice_fold_keeps_tags(ChoiceField::Root, split_on(equality_value_spec(x)->Ok_0, '|'), split_on(equality_value_spec(x)->Ok_0, '|').len() as int, q);
        },
        AdvancedField::ColorSpace => {
            lemma_choice_fold_keeps_tags(ChoiceField::ColorSpace, split_on(equality_value_spec(x)->Ok_0, '|'), split_on(equality_value_spec(x)->Ok_0, '|').len() as int, q);
        },
        _ => {},
    }
}

/// A `field:value` token whose field is an advanced filter: `None` for any other token.
pub open spec fn advanced_spec(v: Seq<char>, q: QueryModel) -> Option<Result<QueryModel, QueryParseErrorKind>> {
    match find_char(v, ':') {
        None => None,
        Some(i) => match advanced_field_named(v.subrange(0, i)) {
            None => None,
            Some(f) => Some(apply_advanced(f, v.subrange(i + 1, v.len() as int), q)),
        },
    }
}

pub fn advanced_field_exec(field: &[char]) -> (r: Option<AdvancedField>)
    ensures
        r == advanced_field_named(field@),
{
    if eq_literal(field, "rating") {
        Some(AdvancedField::Rating)
    } else if eq_literal(field, "size") {
        Some(AdvancedField::Size)
    } else if eq_literal(field, "width") {
        Some(AdvancedField::Width)
    } else if eq_literal(field, "height") {
        Some(AdvancedField::Height)
    } else if eq_literal(field, "duration") {
        Some(AdvancedField::Duration)
    } else if eq_literal(field, "pages") {
        Some(AdvancedField::Pages)
    } else if eq_literal(field, "created") {
        Some(AdvancedField::Created)
    } else if eq_literal(field, "modified") {
        Some(AdvancedField::Modified)
    } else if eq_literal(field, "aspect") {
        Some(AdvancedField::Aspect)
    } else if eq_literal(field, "orientation") {
        Some(AdvancedField::Orientation)
    } else if eq_literal(field, "root") {
        Some(AdvancedField::Root)
    } else if eq_literal(field, "path") {
        Some(AdvancedField::Path)
    } else if eq_literal(field, "color-space") {
        Some(AdvancedField::ColorSpace)
    } else if eq_literal(field, "has-note") {
        Some(AdvancedField::HasNote)
    } else if eq_literal(field, "has-alpha") {
        Some(AdvancedField::HasAlpha)
    } else {
        None
    }
}

fn apply_advanced_exec(f: AdvancedField, x: &[char], q: &mut AssetQuery) -> (r: Result<(), Failure>)
    ensures
        match apply_advanced(f, x@, old(q)@) {
            Ok(m) => r is Ok && final(q)@ == m,
            Err(k) => r matches Err(e) && e.0 == k,
        },
{
    match f {
        AdvancedField::Rating => parse_integer_filter(IntegerField::Rating, x, q),
        AdvancedField::Size => parse_integer_filter(IntegerField::Size, x, q),
        AdvancedField::Width => parse_integer_filter(IntegerField::Width, x, q),
        AdvancedField::Height => parse_integer_filter(IntegerField::Height, x, q),
        AdvancedField::Duration => parse_integer_filter(IntegerField::Duration, x, q),
        AdvancedField::Pages => parse_integer_filter(IntegerField::Pages, x, q),
        AdvancedField::Created => parse_instant_filter(InstantField::Created, UnknownField::Created, x, q),
        AdvancedField::Modified => parse_instant_filter(InstantField::Modified, UnknownField::Modified, x, q),
        AdvancedField::Aspect => parse_ratio_filter(x, q),
        AdvancedField::Orientation => parse_choice_filter(ChoiceField::Orientation, x, q),
        AdvancedField::Root => parse_choice_filter(ChoiceField::Root, x, q),
        AdvancedField::Path => parse_path_filter(x, q),
        AdvancedField::ColorSpace => parse_choice_filter(ChoiceField::ColorSpace, x, q),
        AdvancedField::HasNote => parse_has_note_filter(x, q),
        AdvancedField::HasAlpha => parse_has_alpha_filter(x, q),
    }
}

/// Applies an advanced filter token; `Ok(false)`, with the query untouched, when the token
/// is not one.
pub fn parse_advanced_filter(v: &[char], q: &mut AssetQuery) -> (r: Result<bool, Failure>)
    ensures
        match advanced_spec(v@, old(q)@) {
            None => r == Ok::<bool, Failure>(false) && final(q)@ == old(q)@,
            Some(Ok(m)) => r == Ok::<bool, Failure>(true) && final(q)@ == m,
            Some(Err(k)) => r matches Err(f) && f.0 == k,
        },
{
    let found = find_char_exec(v, ':');
    let i = match found {
        None => return Ok(false),
        Some(i) => i,
    };
    let n = v.len();
    let field = subslice(v, 0, i);
    let x = subslice(v, i + 1, n);
    match advanced_field_exec(&field) {
        None => Ok(false),
        Some(f) => {
            apply_advanced_exec(f, &x, q)?;
            Ok(true)
        },
    }
}

} // verus!
