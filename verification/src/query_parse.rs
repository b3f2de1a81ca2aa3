//! The token grammar of the query language and the parse of a whole expression.
//!
//! Each token is one predicate: a tag (`tag`, `tag:tag`, `-tag`), an OR group
//! (`any:(a|b)`), a field filter (`type:`, `ext:`, `favorite:`) or an advanced filter
//! (`rating:`, `size:`, `created:`, `aspect:`, `orientation:`, `root:`, `path:`, ...).
use vstd::prelude::*;

use crate::asset_core::AssetKind;
use crate::query_lex::{byte_at, lex, tokenize, Token, TokenModel};
use crate::query_model::{
    add_member, add_str, contains_member, empty_model, set_add, AssetQuery, ErrorModel,
    IntegerField, InstantField, NullableBoolean, Orientation, QueryModel, QueryParseError,
    QueryParseErrorKind, RatioField, UnknownField,
};
use crate::query_values::{
    apply_range, apply_range_spec, duration_spec, find_key, has_key, instant_spec, parse_duration,
    parse_instant, parse_positive_integer, parse_rating, parse_ratio, parse_size, positive_spec,
    rating_spec, ratio_spec, size_spec, split_operator, split_operator_spec, ComparisonOperator,
    Failure,
};
use crate::text::{
    after_prefix, before_suffix, chars_of, count_char, count_of, contains_char, eq_literal,
    find_char, has_prefix, has_suffix, is_alnum_char, is_control_char, is_digit_char,
    is_lower_char, is_alpha_char, lower_chars, lower_seq, split_exec, split_on, strip_literal,
    strip_literal_suffix, string_from, trim, trim_seq, utf8_len, views,
};

verus! {

/// Why a tag cannot be used, if it cannot: blank, longer than 128 characters, or a `*`
/// anywhere but in a single trailing `/*` after a non-empty namespace.
pub open spec fn tag_error(tag: Seq<char>) -> Option<QueryParseErrorKind> {
    if trim_seq(tag).len() == 0 {
        Some(QueryParseErrorKind::EmptyTag)
    } else if tag.len() > 128 {
        Some(QueryParseErrorKind::TagTooLong)
    } else if tag.contains('*') && (count_char(tag, '*') != 1 || !has_suffix(tag, "/*"@)
        || tag.len() == 2) {
        Some(QueryParseErrorKind::InvalidWildcard)
    } else {
        None
    }
}

pub fn validate_tag(tag: &[char]) -> (r: Result<(), Failure>)
    ensures
        match tag_error(tag@) {
            Some(k) => r matches Err(f) && f.0 == k,
            None => r is Ok,
        },
{
    if trim(tag).len() == 0 {
        return Err((QueryParseErrorKind::EmptyTag, "tag cannot be empty"));
    }
    if tag.len() > 128 {
        return Err((QueryParseErrorKind::TagTooLong, "tag cannot exceed 128 characters"));
    }
    if contains_char(tag, '*') && (count_of(tag, '*') != 1 || strip_literal_suffix(tag, "/*").is_none()
        || tag.len() == 2) {
        return Err((
            QueryParseErrorKind::InvalidWildcard,
            "tag wildcard is only valid as a non-empty namespace followed by /*",
        ));
    }
    Ok(())
}

/// The first error among the first `n` tags.
pub open spec fn first_tag_error(tags: Seq<Seq<char>>, n: int) -> Option<QueryParseErrorKind>
    decreases n,
{
    if n <= 0 {
        None
    } else {
        match first_tag_error(tags, n - 1) {
            Some(k) => Some(k),
            None => tag_error(tags[n - 1]),
        }
    }
}

/// The distinct values among the first `n`, in order of first appearance.
pub open spec fn distinct<T>(xs: Seq<T>, n: int) -> Seq<T>
    decreases n,
{
    if n <= 0 {
        seq![]
    } else {
        set_add(distinct(xs, n - 1), xs[n - 1])
    }
}

/// The body of `any:(a|b|...)`: at least two valid tags, at least two of them distinct.
pub open spec fn or_group_spec(v: Seq<char>) -> Result<Seq<Seq<char>>, QueryParseErrorKind> {
    if !(has_prefix(v, "("@) && has_suffix(after_prefix(v, "("@), ")"@)) {
        Err(QueryParseErrorKind::InvalidOrGroup)
    } else {
        let tags = split_on(before_suffix(after_prefix(v, "("@), ")"@), '|');
        if tags.len() < 2 {
            Err(QueryParseErrorKind::InvalidOrGroup)
        } else {
            match first_tag_error(tags, tags.len() as int) {
                Some(k) => Err(k),
                None => {
                    let group = distinct(tags, tags.len() as int);
                    if group.len() < 2 {
                        Err(QueryParseErrorKind::InvalidOrGroup)
                    } else {
                        Ok(group)
                    }
                },
            }
        }
    }
}

pub proof fn lemma_first_tag_error_stays(tags: Seq<Seq<char>>, i: int, n: int)
    requires
        i <= n,
        first_tag_error(tags, i) is Some,
    ensures
        first_tag_error(tags, n) == first_tag_error(tags, i),
    decreases n,
{
    if n > i {
        lemma_first_tag_error_stays(tags, i, n - 1);
    }
}

pub fn parse_or_group(v: &[char]) -> (r: Result<Vec<String>, Failure>)
    ensures
        match or_group_spec(v@) {
            Ok(g) => r matches Ok(x) && crate::query_model::strs(x@) == g,
            Err(k) => r matches Err(f) && f.0 == k,
        },
{
    let shape = (QueryParseErrorKind::InvalidOrGroup, "OR group must use any:(tag-a|tag-b)");
    let open = match strip_literal(v, "(") {
        Some(x) => x,
        None => return Err(shape),
    };
    let inner = match strip_literal_suffix(&open, ")") {
        Some(x) => x,
        None => return Err(shape),
    };
    let tags = split_exec(&inner, '|');
    let ghost tv = views(tags@);
    if tags.len() < 2 {
        return Err((QueryParseErrorKind::InvalidOrGroup, "OR group must contain at least two tags"));
    }
    let mut group: Vec<String> = Vec::new();
    let mut i: usize = 0;
    while i < tags.len()
        invariant
            i <= tags.len(),
            tv == views(tags@),
            tv == split_on(before_suffix(after_prefix(v@, "("@), ")"@), '|'),
            has_prefix(v@, "("@) && has_suffix(after_prefix(v@, "("@), ")"@),
            tv.len() >= 2,
            first_tag_error(tv, i as int) is None,
            crate::query_model::strs(group@) == distinct(tv, i as int),
        decreases tags.len() - i,
    {
        assert(tv[i as int] == tags@[i as int]@);
        if let Err(f) = validate_tag(&tags[i]) {
            proof {
                lemma_first_tag_error_stays(tv, i + 1, tv.len() as int);
            }
            return Err(f);
        }
        add_str(&mut group, &tags[i]);
        i = i + 1;
    }
    if group.len() < 2 {
        return Err((QueryParseErrorKind::InvalidOrGroup, "OR group must contain at least two distinct tags"));
    }
    Ok(group)
}

/// The asset kind a `type:` value names, ignoring ASCII case.
pub open spec fn kind_named(x: Seq<char>) -> Option<AssetKind> {
    let l = lower_seq(x);
    if l == "image"@ {
        Some(AssetKind::Image)
    } else if l == "video"@ {
        Some(AssetKind::Video)
    } else if l == "audio"@ {
        Some(AssetKind::Audio)
    } else if l == "pdf"@ {
        Some(AssetKind::Pdf)
    } else if l == "other"@ {
        Some(AssetKind::Other)
    } else {
        None
    }
}

/// The kinds after adding the first `n` values; `None` when one of them names no kind.
pub open spec fn add_kinds(xs: Seq<Seq<char>>, n: int, kinds: Seq<AssetKind>) -> Option<Seq<AssetKind>>
    decreases n,
{
    if n <= 0 {
        Some(kinds)
    } else {
        match add_kinds(xs, n - 1, kinds) {
            None => None,
            Some(k) => match kind_named(xs[n - 1]) {
                None => None,
                Some(a) => Some(set_add(k, a)),
            },
        }
    }
}

pub proof fn lemma_add_kinds_stays(xs: Seq<Seq<char>>, i: int, n: int, kinds: Seq<AssetKind>)
    requires
        i <= n,
        add_kinds(xs, i, kinds) is None,
    ensures
        add_kinds(xs, n, kinds) is None,
    decreases n,
{
    if n > i {
        lemma_add_kinds_stays(xs, i, n - 1, kinds);
    }
}

/// `type:` values: kinds separated by `|`.
pub open spec fn kinds_spec(v: Seq<char>, kinds: Seq<AssetKind>) -> Result<Seq<AssetKind>, QueryParseErrorKind> {
    if v.len() == 0 {
        Err(QueryParseErrorKind::InvalidType)
    } else {
        let xs = split_on(v, '|');
        match add_kinds(xs, xs.len() as int, kinds) {
            None => Err(QueryParseErrorKind::InvalidType),
            Some(k) => Ok(k),
        }
    }
}

fn kind_named_exec(x: &[char]) -> (r: Option<AssetKind>)
    ensures
        r == kind_named(x@),
{
    let l = lower_chars(x);
    if eq_literal(&l, "image") {
        Some(AssetKind::Image)
    } else if eq_literal(&l, "video") {
        Some(AssetKind::Video)
    } else if eq_literal(&l, "audio") {
        Some(AssetKind::Audio)
    } else if eq_literal(&l, "pdf") {
        Some(AssetKind::Pdf)
    } else if eq_literal(&l, "other") {
        Some(AssetKind::Other)
    } else {
        None
    }
}

pub fn parse_kinds(v: &[char], kinds: &mut Vec<AssetKind>) -> (r: Result<(), Failure>)
    ensures
        match kinds_spec(v@, old(kinds)@) {
            Ok(k) => r is Ok && final(kinds)@ == k,
            Err(k) => r matches Err(f) && f.0 == k,
        },
{
    let invalid = (
        QueryParseErrorKind::InvalidType,
        "type filter requires image, video, audio, pdf, or other",
    );
    if v.len() == 0 {
        return Err(invalid);
    }
    let xs = split_exec(v, '|');
    let ghost xv = views(xs@);
    let ghost start = kinds@;
    let mut i: usize = 0;
    while i < xs.len()
        invariant
            i <= xs.len(),
            xv == views(xs@),
            xv == split_on(v@, '|'),
            v@.len() > 0,
            start == old(kinds)@,
            add_kinds(xv, i as int, start) == Some(kinds@),
        decreases xs.len() - i,
    {
        assert(xv[i as int] == xs@[i as int]@);
        match kind_named_exec(&xs[i]) {
            Some(a) => add_member(kinds, a),
            None => {
                proof {
                    lemma_add_kinds_stays(xv, i + 1, xv.len() as int, start);
                }
                return Err((
                    QueryParseErrorKind::InvalidType,
                    "type filter requires image, video, audio, pdf, or other",
                ));
            },
        }
        i = i + 1;
    }
    Ok(())
}

/// One `ext:` value: an optional leading dot, then 1 to 32 ASCII letters or digits.
pub open spec fn extension_ok(x: Seq<char>) -> bool {
    let e = if has_prefix(x, "."@) {
        after_prefix(x, "."@)
    } else {
        x
    };
    e.len() > 0 && e.len() <= 32 && all_alnum_spec(e)
}

pub open spec fn all_alnum_spec(s: Seq<char>) -> bool {
    forall|i: int| 0 <= i < s.len() ==> is_alnum_char(#[trigger] s[i])
}

pub open spec fn extension_key(x: Seq<char>) -> Seq<char> {
    lower_seq(
        if has_prefix(x, "."@) {
            after_prefix(x, "."@)
        } else {
            x
        },
    )
}

pub open spec fn add_extensions(xs: Seq<Seq<char>>, n: int, exts: Seq<Seq<char>>) -> Option<Seq<Seq<char>>>
    decreases n,
{
    if n <= 0 {
        Some(exts)
    } else {
        match add_extensions(xs, n - 1, exts) {
            None => None,
            Some(e) => if extension_ok(xs[n - 1]) {
                Some(set_add(e, extension_key(xs[n - 1])))
            } else {
                None
            },
        }
    }
}

pub proof fn lemma_add_extensions_stays(xs: Seq<Seq<char>>, i: int, n: int, exts: Seq<Seq<char>>)
    requires
        i <= n,
        add_extensions(xs, i, exts) is None,
    ensures
        add_extensions(xs, n, exts) is None,
    decreases n,
{
    if n > i {
        lemma_add_extensions_stays(xs, i, n - 1, exts);
    }
}

/// `ext:` values: extensions separated by `|`, kept in ASCII lower case without the dot.
pub open spec fn extensions_spec(v: Seq<char>, exts: Seq<Seq<char>>) -> Result<Seq<Seq<char>>, QueryParseErrorKind> {
    if v.len() == 0 {
        Err(QueryParseErrorKind::InvalidExtension)
    } else {
        let xs = split_on(v, '|');
        match add_extensions(xs, xs.len() as int, exts) {
            None => Err(QueryParseErrorKind::InvalidExtension),
            Some(e) => Ok(e),
        }
    }
}

fn all_alnum(s: &[char]) -> (r: bool)
    ensures
        r == all_alnum_spec(s@),
{
    let mut i: usize = 0;
    while i < s.len()
        invariant
            i <= s.len(),
            forall|j: int| 0 <= j < i ==> is_alnum_char(#[trigger] s@[j]),
        decreases s.len() - i,
    {
        let c = s[i];
        if !(('a' <= c && c <= 'z') || ('A' <= c && c <= 'Z') || ('0' <= c && c <= '9')) {
            assert(!is_alnum_char(s@[i as int]));
            return false;
        }
        i = i + 1;
    }
    true
}

pub fn parse_extensions(v: &[char], exts: &mut Vec<String>) -> (r: Result<(), Failure>)
    ensures
        match extensions_spec(v@, crate::query_model::strs(old(exts)@)) {
            Ok(e) => r is Ok && crate::query_model::strs(final(exts)@) == e,
            Err(k) => r matches Err(f) && f.0 == k,
        },
{
    if v.len() == 0 {
        return Err((QueryParseErrorKind::InvalidExtension, "extension filter requires at least one extension"));
    }
    let xs = split_exec(v, '|');
    let ghost xv = views(xs@);
    let ghost start = crate::query_model::strs(exts@);
    let mut i: usize = 0;
    while i < xs.len()
        invariant
            i <= xs.len(),
            xv == views(xs@),
            xv == split_on(v@, '|'),
            v@.len() > 0,
            start == crate::query_model::strs(old(exts)@),
            add_extensions(xv, i as int, start) == Some(crate::query_model::strs(exts@)),
        decreases xs.len() - i,
    {
        assert(xv[i as int] == xs@[i as int]@);
        let e = match strip_literal(&xs[i], ".") {
            Some(x) => x,
            None => crate::text::subslice(&xs[i], 0, xs[i].len()),
        };
        assert(xs@[i as int]@.subrange(0, xs@[i as int]@.len() as int) =~= xs@[i as int]@);
        if e.len() == 0 || e.len() > 32 || !all_alnum(&e) {
            assert(e@ == (if has_prefix(xv[i as int], "."@) {
                after_prefix(xv[i as int], "."@)
            } else {
                xv[i as int]
            }));
            assert(!extension_ok(xv[i as int]));
            assert(add_extensions(xv, i + 1, start) is None);
            proof {
                lemma_add_extensions_stays(xv, i + 1, xv.len() as int, start);
            }
            return Err((
                QueryParseErrorKind::InvalidExtension,
                "extensions must contain 1 to 32 ASCII letters or digits",
            ));
        }
        let key = lower_chars(&e);
        add_str(exts, &key);
        i = i + 1;
    }
    Ok(())
}

/// `favorite:` values: `true` or `false`, ignoring ASCII case.
pub open spec fn favorite_spec(v: Seq<char>) -> Option<bool> {
    if lower_seq(v) == "true"@ {
        Some(true)
    } else if lower_seq(v) == "false"@ {
        Some(false)
    } else {
        None
    }
}

pub fn parse_favorite(v: &[char]) -> (r: Result<bool, Failure>)
    ensures
        match favorite_spec(v@) {
            Some(b) => r == Ok::<bool, Failure>(b),
            None => r matches Err(f) && f.0 == QueryParseErrorKind::InvalidFavorite,
        },
{
    let l = lower_chars(v);
    if eq_literal(&l, "true") {
        Ok(true)
    } else if eq_literal(&l, "false") {
        Ok(false)
    } else {
        Err((QueryParseErrorKind::InvalidFavorite, "favorite filter requires true or false"))
    }
}

/// A plain tag term: `tag` or `tag:tag`; a bare term may not hold `:` and no term `|`.
pub open spec fn tag_term_spec(v: Seq<char>, q: QueryModel) -> Result<QueryModel, QueryParseErrorKind> {
    let explicit = has_prefix(v, "tag:"@);
    let tag = if explicit {
        after_prefix(v, "tag:"@)
    } else {
        v
    };
    if !explicit && tag.contains(':') {
        Err(QueryParseErrorKind::UnknownFilter)
    } else if tag.contains('|') {
        Err(QueryParseErrorKind::InvalidOrGroup)
    } else {
        match tag_error(tag) {
            Some(k) => Err(k),
            None => Ok(QueryModel { all_tags: set_add(q.all_tags, tag), ..q }),
        }
    }
}

/// One token applied to the query.
pub open spec fn token_spec(v: Seq<char>, q: QueryModel) -> Result<QueryModel, QueryParseErrorKind> {
    if has_prefix(v, "-"@) {
        let ex = after_prefix(v, "-"@);
        let explicit = has_prefix(ex, "tag:"@);
        let tag = if explicit {
            after_prefix(ex, "tag:"@)
        } else {
            ex
        };
        if !explicit && tag.contains(':') {
            Err(QueryParseErrorKind::UnknownFilter)
        } else {
            match tag_error(tag) {
                Some(k) => Err(k),
                None => Ok(QueryModel { excluded_tags: set_add(q.excluded_tags, tag), ..q }),
            }
        }
    } else if has_prefix(v, "any:"@) {
        match or_group_spec(after_prefix(v, "any:"@)) {
            Err(k) => Err(k),
            Ok(g) => Ok(QueryModel { any_tag_groups: q.any_tag_groups.push(g), ..q }),
        }
    } else if has_prefix(v, "type:"@) {
        match kinds_spec(after_prefix(v, "type:"@), q.kinds) {
            Err(k) => Err(k),
            Ok(ks) => Ok(QueryModel { kinds: ks, ..q }),
        }
    } else if has_prefix(v, "ext:"@) {
        match extensions_spec(after_prefix(v, "ext:"@), q.extensions) {
            Err(k) => Err(k),
            Ok(es) => Ok(QueryModel { extensions: es, ..q }),
        }
    } else if has_prefix(v, "favorite:"@) {
        match favorite_spec(after_prefix(v, "favorite:"@)) {
            None => Err(QueryParseErrorKind::InvalidFavorite),
            Some(b) => if q.favorite matches Some(c) && c != b {
                Err(QueryParseErrorKind::ConflictingFavorite)
            } else {
                Ok(QueryModel { favorite: Some(b), ..q })
            },
        }
    } else {
        match crate::query_filters::advanced_spec(v, q) {
            Some(r) => r,
            None => tag_term_spec(v, q),
        }
    }
}

fn parse_tag_term(v: &[char], q: &mut AssetQuery) -> (r: Result<(), Failure>)
    ensures
        match tag_term_spec(v@, old(q)@) {
            Ok(m) => r is Ok && final(q)@ == m,
            Err(k) => r matches Err(f) && f.0 == k,
        },
{
    let stripped = strip_literal(v, "tag:");
    let explicit = stripped.is_some();
    let tag = match stripped {
        Some(t) => t,
        None => crate::text::subslice(v, 0, v.len()),
    };
    assert(v@.subrange(0, v@.len() as int) =~= v@);
    if !explicit && contains_char(&tag, ':') {
        return Err((
            QueryParseErrorKind::UnknownFilter,
            "unknown filter; use tag: to search for a tag containing a colon",
        ));
    }
    if contains_char(&tag, '|') {
        return Err((QueryParseErrorKind::InvalidOrGroup, "tag OR groups must use any:(tag-a|tag-b)"));
    }
    validate_tag(&tag)?;
    add_str(&mut q.all_tags, &tag);
    Ok(())
}

/// Applies one token's predicate to the query.
pub fn parse_token_value(v: &[char], q: &mut AssetQuery) -> (r: Result<(), Failure>)
    ensures
        match token_spec(v@, old(q)@) {
            Ok(m) => r is Ok && final(q)@ == m,
            Err(k) => r matches Err(f) && f.0 == k,
        },
{
    if let Some(ex) = strip_literal(v, "-") {
        let stripped = strip_literal(&ex, "tag:");
        let explicit = stripped.is_some();
        let tag = match stripped {
            Some(t) => t,
            None => crate::text::subslice(&ex, 0, ex.len()),
        };
        assert(ex@.subrange(0, ex@.len() as int) =~= ex@);
        if !explicit && contains_char(&tag, ':') {
            return Err((
                QueryParseErrorKind::UnknownFilter,
                "only tag terms can use the exclusion prefix",
            ));
        }
        validate_tag(&tag)?;
        add_str(&mut q.excluded_tags, &tag);
        return Ok(());
    }
    if let Some(x) = strip_literal(v, "any:") {
        let group = parse_or_group(&x)?;
        let ghost before = q.any_tag_groups@;
        q.any_tag_groups.push(group);
        assert(crate::query_model::str_groups(q.any_tag_groups@) =~= crate::query_model::str_groups(
            before,
        ).push(crate::query_model::strs(group@)));
    } else if let Some(x) = strip_literal(v, "type:") {
        parse_kinds(&x, &mut q.kinds)?;
    } else if let Some(x) = strip_literal(v, "ext:") {
        parse_extensions(&x, &mut q.extensions)?;
    } else if let Some(x) = strip_literal(v, "favorite:") {
        let favorite = parse_favorite(&x)?;
        if let Some(current) = q.favorite {
            if current != favorite {
                return Err((
                    QueryParseErrorKind::ConflictingFavorite,
                    "favorite filter cannot require both true and false",
                ));
            }
        }
        q.favorite = Some(favorite);
    } else if crate::query_filters::parse_advanced_filter(v, q)? {
    } else {
        parse_tag_term(v, q)?;
    }
    Ok(())
}

/// The error for a failed token: its kind, the token's byte offset, the token's value.
pub fn token_error(token: &Token, failure: Failure) -> (e: QueryParseError)
    ensures
        e.kind == failure.0,
        e.offset == token.offset,
        e.token matches Some(t) && t@ == token.value@,
{
    QueryParseError {
        kind: failure.0,
        offset: token.offset,
        token: Some(string_from(&token.value)),
        message: failure.1.to_string(),
    }
}

/// The query after the first `n` tokens, or the index of the first failing token and why.
pub open spec fn parse_tokens(ts: Seq<TokenModel>, n: int) -> Result<QueryModel, (int, QueryParseErrorKind)>
    decreases n,
{
    if n <= 0 {
        Ok(empty_model())
    } else {
        match parse_tokens(ts, n - 1) {
            Err(e) => Err(e),
            Ok(q) => match token_spec(ts[n - 1].value, q) {
                Err(k) => Err((n - 1, k)),
                Ok(q1) => Ok(q1),
            },
        }
    }
}

pub proof fn lemma_parse_tokens_stays(ts: Seq<TokenModel>, i: int, n: int)
    requires
        i <= n,
        parse_tokens(ts, i) is Err,
    ensures
        parse_tokens(ts, n) == parse_tokens(ts, i),
    decreases n,
{
    if n > i {
        lemma_parse_tokens_stays(ts, i, n - 1);
    }
}

/// The meaning of a whole expression: its lexical error, or the first token's error at
/// that token's byte offset, or the query that all its tokens together select.
pub open spec fn query_spec(e: Seq<char>) -> Result<QueryModel, ErrorModel> {
    match lex(e) {
        Err(em) => Err(em),
        Ok(ts) => match parse_tokens(ts, ts.len() as int) {
            Ok(q) => Ok(q),
            Err((i, k)) => Err(
                ErrorModel { kind: k, offset: byte_at(e, ts[i].start), token: Some(ts[i].value) },
            ),
        },
    }
}

/// Parses a query expression into a validated query.
///
/// Whitespace-separated terms are combined with AND; `-` excludes a tag, `any:(a|b)` is an
/// OR group, `type:`, `ext:` and `favorite:` filter fields, and double quotes keep white
/// space inside a term.
pub fn parse_query(expression: &str) -> (r: Result<AssetQuery, QueryParseError>)
    ensures
        match query_spec(expression@) {
            Ok(m) => r matches Ok(q) && q@ == m,
            Err(em) => r matches Err(x) && crate::query_model::error_model(x) == em,
        },
{
    let tokens = tokenize(expression)?;
    let ghost ts = crate::query_lex::tokens_model(tokens@);
    let mut query = AssetQuery::new();
    let mut i: usize = 0;
    while i < tokens.len()
        invariant
            i <= tokens.len(),
            lex(expression@) == Ok::<Seq<TokenModel>, ErrorModel>(ts),
            ts == crate::query_lex::tokens_model(tokens@),
            forall|k: int| 0 <= k < ts.len() ==> crate::query_lex::token_bytes_wf(#[trigger] tokens@[k], expression@),
            parse_tokens(ts, i as int) == Ok::<QueryModel, (int, QueryParseErrorKind)>(query@),
        decreases tokens.len() - i,
    {
        assert(ts[i as int].value == tokens@[i as int].value@);
        match parse_token_value(&tokens[i].value, &mut query) {
            Ok(()) => {},
            Err(f) => {
                proof {
                    lemma_parse_tokens_stays(ts, i + 1, ts.len() as int);
                    assert(crate::query_lex::token_bytes_wf(tokens@[i as int], expression@));
                }
                return Err(token_error(&tokens[i], f));
            },
        }
        i = i + 1;
    }
    Ok(query)
}

} // verus!
