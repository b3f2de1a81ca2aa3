//! The tag nodes of a query expression: every place where a tag is written, with its kind,
//! its value, and its span in the source.
use vstd::prelude::*;

use crate::query_filters::advanced_field_named;
use crate::query_lex::{byte_at, token_model, token_wf, units_wf, Token, TokenModel};
use crate::query_parse::{first_tag_error, or_group_spec, tag_error, token_spec};
use crate::query_model::QueryModel;
use crate::text::{
    after_prefix, before_suffix, chars_of, find_char, find_char_exec, has_prefix, has_suffix,
    split_exec, split_on, split_prefix, strip_literal, strip_literal_suffix, subslice, trim_seq,
    utf8_len, views,
};

verus! {

#[derive(Debug, Clone, Copy, PartialEq, Eq, Structural)]
pub enum QueryTagNodeKind {
    All,
    Explicit,
    Excluded,
    AnyMember,
}

/// A half-open range of UTF-8 byte offsets into an expression.
#[derive(Debug, Clone, Copy, PartialEq, Eq, Structural)]
pub struct QueryByteSpan {
    pub start: usize,
    pub end: usize,
}

/// A tag as written in an expression: its kind, its value and its byte span.
#[derive(Debug, Clone, PartialEq, Eq)]
pub struct QueryTagNode {
    pub kind: QueryTagNodeKind,
    pub value: String,
    pub span: QueryByteSpan,
}

/// A tag node located by character indices, and whether it lies inside quotes that also
/// enclose other text of its token.
#[derive(Debug, Clone)]
pub struct LexedTagNode {
    pub kind: QueryTagNodeKind,
    pub value: Vec<char>,
    pub start: usize,
    pub end: usize,
    pub inside_quotes: bool,
}

pub struct NodeModel {
    pub kind: QueryTagNodeKind,
    pub value: Seq<char>,
    pub start: int,
    pub end: int,
    pub inside_quotes: bool,
}

pub open spec fn node_model(n: LexedTagNode) -> NodeModel {
    NodeModel {
        kind: n.kind,
        value: n.value@,
        start: n.start as int,
        end: n.end as int,
        inside_quotes: n.inside_quotes,
    }
}

pub open spec fn nodes_model(ns: Seq<LexedTagNode>) -> Seq<NodeModel> {
    ns.map_values(|n: LexedTagNode| node_model(n))
}

/// A node covering a whole token.
pub open spec fn whole_token_node(t: TokenModel, kind: QueryTagNodeKind, value: Seq<char>) -> NodeModel {
    NodeModel { kind, value, start: t.start, end: t.end, inside_quotes: false }
}

/// The member of an OR group whose value characters are `a..b` of the token: its span runs
/// from the source of the first to that of the last, widened by one on each side when the
/// member alone is quoted.
pub open spec fn member_node(e: Seq<char>, t: TokenModel, value: Seq<char>, a: int, b: int) -> NodeModel {
    let ss = t.units[a].source_start as int;
    let se = t.units[b - 1].source_end as int;
    let locally_quoted = ss > t.start && se < t.end && e[ss - 1] == '"' && e[se] == '"';
    NodeModel {
        kind: QueryTagNodeKind::AnyMember,
        value,
        start: if locally_quoted {
            ss - 1
        } else {
            ss
        },
        end: if locally_quoted {
            se + 1
        } else {
            se
        },
        inside_quotes: !locally_quoted && forall|k: int| a <= k < b ==> (#[trigger] t.units[k]).quoted,
    }
}

/// The members from the `k`-th on, the `k`-th starting at value index `cursor`.
pub open spec fn member_nodes(e: Seq<char>, t: TokenModel, ms: Seq<Seq<char>>, k: int, cursor: int) -> Seq<NodeModel>
    decreases ms.len() - k,
{
    if k >= ms.len() {
        seq![]
    } else {
        seq![member_node(e, t, ms[k], cursor, cursor + ms[k].len())] + member_nodes(
            e,
            t,
            ms,
            k + 1,
            cursor + ms[k].len() + 1,
        )
    }
}

/// A field filter token, which holds no tag.
pub open spec fn is_field_token(v: Seq<char>) -> bool {
    ||| has_prefix(v, "type:"@)
    ||| has_prefix(v, "ext:"@)
    ||| has_prefix(v, "favorite:"@)
    ||| (find_char(v, ':') matches Some(i) && advanced_field_named(v.subrange(0, i)) is Some)
}

/// The OR group body of an `any:(...)` token, if it has that shape.
pub open spec fn group_body(v: Seq<char>) -> Option<Seq<char>> {
    if has_prefix(v, "any:("@) && has_suffix(after_prefix(v, "any:("@), ")"@) {
        Some(before_suffix(after_prefix(v, "any:("@), ")"@))
    } else {
        None
    }
}

/// The tag nodes of one token.
pub open spec fn token_nodes(e: Seq<char>, t: TokenModel) -> Seq<NodeModel> {
    let v = t.value;
    if has_prefix(v, "-"@) {
        let ex = after_prefix(v, "-"@);
        let value = if has_prefix(ex, "tag:"@) {
            after_prefix(ex, "tag:"@)
        } else {
            ex
        };
        seq![whole_token_node(t, QueryTagNodeKind::Excluded, value)]
    } else if group_body(v) is Some {
        member_nodes(e, t, split_on(group_body(v)->0, '|'), 0, "any:("@.len() as int)
    } else if is_field_token(v) {
        seq![]
    } else if has_prefix(v, "tag:"@) {
        seq![whole_token_node(t, QueryTagNodeKind::Explicit, after_prefix(v, "tag:"@))]
    } else {
        seq![whole_token_node(t, QueryTagNodeKind::All, v)]
    }
}

/// The tag nodes of the first `n` tokens, in order.
pub open spec fn all_nodes(e: Seq<char>, ts: Seq<TokenModel>, n: int) -> Seq<NodeModel>
    decreases n,
{
    if n <= 0 {
        seq![]
    } else {
        all_nodes(e, ts, n - 1) + token_nodes(e, ts[n - 1])
    }
}

/// Total room the pieces from the `k`-th on take with one separator after each.
pub open spec fn pieces_span(ms: Seq<Seq<char>>, k: int) -> int
    decreases ms.len() - k,
{
    if k >= ms.len() {
        0
    } else {
        ms[k].len() + 1 + pieces_span(ms, k + 1)
    }
}

pub proof fn lemma_pieces_span_nonneg(ms: Seq<Seq<char>>, k: int)
    ensures
        pieces_span(ms, k) >= 0,
    decreases ms.len() - k,
{
    if k < ms.len() {
        lemma_pieces_span_nonneg(ms, k + 1);
    }
}

pub proof fn lemma_pieces_span_push(ms: Seq<Seq<char>>, x: Seq<char>, k: int)
    requires
        0 <= k <= ms.len(),
    ensures
        pieces_span(ms.push(x), k) == pieces_span(ms, k) + x.len() + 1,
    decreases ms.len() - k,
{
    if k < ms.len() {
        lemma_pieces_span_push(ms, x, k + 1);
        assert(ms.push(x)[k] == ms[k]);
    } else {
        assert(ms.push(x)[k] == x);
        assert(pieces_span(ms.push(x), k + 1) == 0);
    }
}

pub proof fn lemma_split_prefix_span(s: Seq<char>, sep: char, n: int)
    requires
        0 <= n <= s.len(),
    ensures
        pieces_span(split_prefix(s, sep, n).0, 0) + split_prefix(s, sep, n).1.len() == n,
    decreases n,
{
    if n > 0 {
        lemma_split_prefix_span(s, sep, n - 1);
        let (done, cur) = split_prefix(s, sep, n - 1);
        if s[n - 1] == sep {
            lemma_pieces_span_push(done, cur, 0);
        }
    }
}

/// The pieces of a split, each followed by one separator, fill the text and one more place.
pub proof fn lemma_split_span(s: Seq<char>, sep: char)
    ensures
        pieces_span(split_on(s, sep), 0) == s.len() + 1,
{
    lemma_split_prefix_span(s, sep, s.len() as int);
    let (done, cur) = split_prefix(s, sep, s.len() as int);
    lemma_pieces_span_push(done, cur, 0);
}

pub open spec fn nodes_ordered(ns: Seq<NodeModel>) -> bool {
    forall|i: int, j: int| 0 <= i < j < ns.len() ==> (#[trigger] ns[i]).end <= (#[trigger] ns[j]).start
}

pub open spec fn nodes_within(ns: Seq<NodeModel>, lo: int, hi: int) -> bool {
    forall|i: int| 0 <= i < ns.len() ==> lo <= (#[trigger] ns[i]).start <= ns[i].end <= hi
}

/// Members of a group never overlap and stay inside their token.
pub proof fn lemma_member_nodes_ordered(
    e: Seq<char>,
    t: TokenModel,
    ms: Seq<Seq<char>>,
    k: int,
    cursor: int,
)
    requires
        token_wf(t, e, e.len() as int),
        0 <= k <= ms.len(),
        0 <= cursor,
        cursor + pieces_span(ms, k) == t.units.len(),
        forall|j: int| k <= j < ms.len() ==> (#[trigger] ms[j]).len() > 0,
    ensures
        nodes_ordered(member_nodes(e, t, ms, k, cursor)),
        nodes_within(member_nodes(e, t, ms, k, cursor), t.start, t.end),
        k < ms.len() ==> forall|i: int|
            0 <= i < member_nodes(e, t, ms, k, cursor).len() ==> (#[trigger] member_nodes(
                e,
                t,
                ms,
                k,
                cursor,
            )[i]).start >= t.units[cursor].source_start - 1,
    decreases ms.len() - k,
{
    if k < ms.len() {
        let a = cursor;
        let b = cursor + ms[k].len();
        let next = b + 1;
        let head = member_node(e, t, ms[k], a, b);
        let rest = member_nodes(e, t, ms, k + 1, next);
        let all = member_nodes(e, t, ms, k, cursor);
        assert(all == seq![head] + rest);
        lemma_pieces_span_nonneg(ms, k + 1);
        if k + 1 < ms.len() {
            lemma_pieces_span_nonneg(ms, k + 2);
        }
        assert(b < t.units.len());
        lemma_member_nodes_ordered(e, t, ms, k + 1, next);
        let ub = t.units[b];
        let ua = t.units[a];
        let ul = t.units[b - 1];
        assert(t.start <= ua.source_start < ua.source_end <= t.end);
        assert(t.start <= ul.source_start < ul.source_end <= t.end);
        assert(t.start <= ub.source_start < ub.source_end <= t.end);
        if a < b - 1 {
            assert(ua.source_end <= ul.source_start);
        }
        assert(ul.source_end <= ub.source_start);
        assert(e[ub.source_start as int] != '"');
        assert(head.end <= ub.source_start);
        assert(head.start >= ua.source_start - 1);
        assert(head.start <= head.end);
        if k + 1 < ms.len() {
            assert(next < t.units.len());
            assert(ub.source_end <= t.units[next].source_start);
            assert forall|i: int| 0 <= i < rest.len() implies head.end <= (#[trigger] rest[i]).start by {}
        }
        assert forall|i: int, j: int| 0 <= i < j < all.len() implies (#[trigger] all[i]).end <= (#[trigger] all[j]).start by {
            if i == 0 {
                assert(all[j] == rest[j - 1]);
            } else {
                assert(all[i] == rest[i - 1]);
                assert(all[j] == rest[j - 1]);
            }
        }
        assert forall|i: int| 0 <= i < all.len() implies t.start <= (#[trigger] all[i]).start <= all[i].end <= t.end by {
            if i > 0 {
                assert(all[i] == rest[i - 1]);
            }
        }
        assert forall|i: int| 0 <= i < all.len() implies (#[trigger] all[i]).start >= t.units[cursor].source_start - 1 by {
            if i > 0 {
                assert(all[i] == rest[i - 1]);
                assert(ua.source_end <= ub.source_start || a == b);
            }
        }
    }
}

/// Every member of an `any:(...)` token's group is non-empty, as the parse of the token
/// guarantees.
pub open spec fn group_members_nonempty(v: Seq<char>) -> bool {
    match group_body(v) {
        Some(g) => members_nonempty(split_on(g, '|')),
        None => true,
    }
}

pub open spec fn members_nonempty(ms: Seq<Seq<char>>) -> bool {
    forall|j: int| 0 <= j < ms.len() ==> (#[trigger] ms[j]).len() > 0
}

pub proof fn lemma_first_tag_error_none(tags: Seq<Seq<char>>, n: int, j: int)
    requires
        0 <= j < n,
        first_tag_error(tags, n) is None,
    ensures
        tag_error(tags[j]) is None,
    decreases n,
{
    if j < n - 1 {
        lemma_first_tag_error_none(tags, n - 1, j);
    }
}

/// A token that parses has non-empty group members.
pub proof fn lemma_parsed_group_members(v: Seq<char>, q: QueryModel)
    requires
        token_spec(v, q) is Ok,
    ensures
        group_members_nonempty(v),
{
    if let Some(g) = group_body(v) {
        reveal_strlit("any:(");
        reveal_strlit("any:");
        reveal_strlit("(");
        reveal_strlit(")");
        reveal_strlit("-");
        assert("any:("@ =~= seq!['a', 'n', 'y', ':', '(']);
        assert("any:"@ =~= seq!['a', 'n', 'y', ':']);
        assert("-"@ =~= seq!['-']);
        assert("("@ =~= seq!['(']);
        assert(v.subrange(0, 5) == "any:("@);
        assert(v[0] == v.subrange(0, 5)[0]);
        assert(v[0] == 'a');
        assert(!has_prefix(v, "-"@)) by {
            if has_prefix(v, "-"@) {
                assert(v.subrange(0, 1)[0] == v[0]);
            }
        }
        assert(v.subrange(0, 4) =~= v.subrange(0, 5).subrange(0, 4));
        assert("any:("@.subrange(0, 4) =~= "any:"@);
        assert(has_prefix(v, "any:"@));
        let x = after_prefix(v, "any:"@);
        assert(x.subrange(0, 1) =~= v.subrange(4, 5));
        assert(has_prefix(x, "("@));
        assert(after_prefix(x, "("@) =~= after_prefix(v, "any:("@));
        let tags = split_on(g, '|');
        assert(or_group_spec(x) is Ok);
        assert forall|j: int| 0 <= j < tags.len() implies (#[trigger] tags[j]).len() > 0 by {
            lemma_first_tag_error_none(tags, tags.len() as int, j);
            crate::text::lemma_first_non_white(tags[j]);
            crate::text::lemma_last_non_white_end(crate::text::trim_start_seq(tags[j]));
            assert(trim_seq(tags[j]).len() <= tags[j].len());
        }
    }
}

/// A query names a tag: among its required or excluded tags, or in one of its OR groups.
pub open spec fn names_tag(q: QueryModel, t: Seq<char>) -> bool {
    ||| q.all_tags.contains(t)
    ||| q.excluded_tags.contains(t)
    ||| exists|g: int| 0 <= g < q.any_tag_groups.len() && #[trigger] q.any_tag_groups[g].contains(t)
}

/// Some node holds a value.
pub open spec fn has_node_value(ns: Seq<NodeModel>, t: Seq<char>) -> bool {
    exists|i: int| 0 <= i < ns.len() && #[trigger] ns[i].value == t
}

proof fn lemma_member_values(e: Seq<char>, t: TokenModel, ms: Seq<Seq<char>>, k: int, cursor: int, j: int)
    requires
        0 <= k <= j < ms.len(),
    ensures
        has_node_value(member_nodes(e, t, ms, k, cursor), ms[j]),
    decreases ms.len() - k,
{
    let ns = member_nodes(e, t, ms, k, cursor);
    if j == k {
        assert(ns[0].value == ms[j]);
    } else {
        let rest = member_nodes(e, t, ms, k + 1, cursor + ms[k].len() + 1);
        lemma_member_values(e, t, ms, k + 1, cursor + ms[k].len() + 1, j);
        let i = choose|i: int| 0 <= i < rest.len() && #[trigger] rest[i].value == ms[j];
        assert(ns[i + 1] == rest[i]);
    }
}

proof fn lemma_distinct_from(xs: Seq<Seq<char>>, n: int, x: Seq<char>)
    requires
        0 <= n <= xs.len(),
        crate::query_parse::distinct(xs, n).contains(x),
    ensures
        exists|j: int| 0 <= j < n && #[trigger] xs[j] == x,
    decreases n,
{
    let prev = crate::query_parse::distinct(xs, n - 1);
    if prev.contains(x) {
        lemma_distinct_from(xs, n - 1, x);
        let j = choose|j: int| 0 <= j < n - 1 && #[trigger] xs[j] == x;
        assert(xs[j] == x);
    } else {
        let w = prev.push(xs[n - 1]);
        assert(crate::query_parse::distinct(xs, n) == w);
        let k = choose|k: int| 0 <= k < w.len() && #[trigger] w[k] == x;
        if k < prev.len() {
            assert(prev[k] == x);
        }
        assert(xs[n - 1] == x);
    }
}

/// A tag that one token adds to a query is the value of one of that token's nodes.
pub proof fn lemma_token_tags_are_nodes(e: Seq<char>, tok: TokenModel, q: QueryModel, x: Seq<char>)
    requires
        token_spec(tok.value, q) is Ok,
        names_tag(token_spec(tok.value, q)->Ok_0, x),
    ensures
        names_tag(q, x) || has_node_value(token_nodes(e, tok), x),
{
    let v = tok.value;
    let q1 = token_spec(v, q)->Ok_0;
    reveal_strlit("any:(");
    reveal_strlit("any:");
    reveal_strlit("(");
    reveal_strlit("-");
    assert("any:("@ =~= seq!['a', 'n', 'y', ':', '(']);
    assert("any:"@ =~= seq!['a', 'n', 'y', ':']);
    assert("("@ =~= seq!['(']);
    assert("-"@ =~= seq!['-']);
    if has_prefix(v, "-"@) {
        let ns = token_nodes(e, tok);
        if !names_tag(q, x) {
            assert(q1.all_tags == q.all_tags && q1.any_tag_groups == q.any_tag_groups);
            assert(!q.excluded_tags.contains(x));
            let ex = after_prefix(v, "-"@);
            let tag = if has_prefix(ex, "tag:"@) { after_prefix(ex, "tag:"@) } else { ex };
            assert(q1.excluded_tags == crate::query_model::set_add(q.excluded_tags, tag));
            assert(x == tag) by {
                if !q.excluded_tags.contains(tag) {
                    let w = q.excluded_tags.push(tag);
                    let k = choose|k: int| 0 <= k < w.len() && w[k] == x;
                    if k < q.excluded_tags.len() {
                        assert(q.excluded_tags[k] == x);
                    }
                }
            }
            assert(ns[0].value == x);
        }
    } else if has_prefix(v, "any:"@) {
        let w = after_prefix(v, "any:"@);
        let g = or_group_spec(w)->Ok_0;
        assert(q1.any_tag_groups == q.any_tag_groups.push(g));
        if !names_tag(q, x) {
            assert(q1.all_tags == q.all_tags && q1.excluded_tags == q.excluded_tags);
            let gi = choose|gi: int| 0 <= gi < q1.any_tag_groups.len() && #[trigger] q1.any_tag_groups[gi].contains(x);
            if gi < q.any_tag_groups.len() {
                assert(q.any_tag_groups[gi] == q1.any_tag_groups[gi]);
            }
            assert(gi == q.any_tag_groups.len());
            assert(g.contains(x));
            assert(has_prefix(w, "("@));
            assert(v.subrange(0, 5) =~= "any:("@) by {
                assert(v.subrange(0, 4) == "any:"@);
                assert(w.subrange(0, 1) == "("@);
                assert(w.subrange(0, 1)[0] == w[0]);
                assert(v[4] == w[0]);
                assert forall|k: int| 0 <= k < 5 implies v.subrange(0, 5)[k] == "any:("@[k] by {
                    if k < 4 {
                        assert(v.subrange(0, 4)[k] == v[k]);
                    }
                }
            }
            assert(has_prefix(v, "any:("@));
            assert(after_prefix(w, "("@) =~= after_prefix(v, "any:("@));
            assert(group_body(v) is Some);
            let body = group_body(v)->0;
            let tags = split_on(body, '|');
            assert(g == crate::query_parse::distinct(tags, tags.len() as int));
            lemma_distinct_from(tags, tags.len() as int, x);
            let j = choose|j: int| 0 <= j < tags.len() && #[trigger] tags[j] == x;
            lemma_member_values(e, tok, tags, 0, "any:("@.len() as int, j);
        }
    } else if has_prefix(v, "type:"@) || has_prefix(v, "ext:"@) || has_prefix(v, "favorite:"@) {
        assert(q1.all_tags == q.all_tags && q1.excluded_tags == q.excluded_tags && q1.any_tag_groups == q.any_tag_groups);
    } else if crate::query_filters::advanced_spec(v, q) is Some {
        let i = find_char(v, ':')->0;
        let f = advanced_field_named(v.subrange(0, i))->0;
        crate::query_filters::lemma_advanced_keeps_tags(f, v.subrange(i + 1, v.len() as int), q);
        assert(q1.all_tags == q.all_tags && q1.excluded_tags == q.excluded_tags && q1.any_tag_groups == q.any_tag_groups);
    } else {
        let explicit = has_prefix(v, "tag:"@);
        let tag = if explicit { after_prefix(v, "tag:"@) } else { v };
        assert(q1.all_tags == crate::query_model::set_add(q.all_tags, tag));
        if !names_tag(q, x) {
            assert(q1.excluded_tags == q.excluded_tags && q1.any_tag_groups == q.any_tag_groups);
            assert(x == tag) by {
                if !q.all_tags.contains(tag) {
                    let w = q.all_tags.push(tag);
                    let k = choose|k: int| 0 <= k < w.len() && w[k] == x;
                    if k < q.all_tags.len() {
                        assert(q.all_tags[k] == x);
                    }
                }
            }
            assert(group_body(v) is None) by {
                if has_prefix(v, "any:("@) {
                    assert(v.subrange(0, 4) =~= v.subrange(0, 5).subrange(0, 4));
                    assert("any:("@.subrange(0, 4) =~= "any:"@);
                }
            }
            assert(!is_field_token(v)) by {
                if let Some(i) = find_char(v, ':') {
                    if advanced_field_named(v.subrange(0, i)) is Some {
                        assert(crate::query_filters::advanced_spec(v, q) is Some);
                    }
                }
            }
            let ns = token_nodes(e, tok);
            assert(ns[0].value == x);
        }
    }
}

/// The nodes of a token never overlap and stay inside the token.
pub proof fn lemma_token_nodes_ordered(e: Seq<char>, t: TokenModel)
    requires
        token_wf(t, e, e.len() as int),
        group_members_nonempty(t.value),
    ensures
        nodes_ordered(token_nodes(e, t)),
        nodes_within(token_nodes(e, t), t.start, t.end),
{
    let v = t.value;
    if !has_prefix(v, "-"@) && group_body(v) is Some {
        let g = group_body(v)->0;
        let ms = split_on(g, '|');
        reveal_strlit("any:(");
        reveal_strlit(")");
        lemma_split_span(g, '|');
        lemma_member_nodes_ordered(e, t, ms, 0, "any:("@.len() as int);
    }
}

/// The nodes of a whole expression are in source order, without overlap, inside it.
pub proof fn lemma_all_nodes_ordered(e: Seq<char>, ts: Seq<TokenModel>, n: int)
    requires
        0 <= n <= ts.len(),
        crate::query_lex::tokens_ordered(ts),
        forall|k: int|
            0 <= k < ts.len() ==> token_wf(#[trigger] ts[k], e, e.len() as int) && group_members_nonempty(ts[k].value),
    ensures
        nodes_ordered(all_nodes(e, ts, n)),
        nodes_within(all_nodes(e, ts, n), 0, e.len() as int),
        n > 0 ==> forall|i: int|
            0 <= i < all_nodes(e, ts, n).len() ==> (#[trigger] all_nodes(e, ts, n)[i]).end <= ts[n - 1].end,
    decreases n,
{
    if n > 0 {
        lemma_all_nodes_ordered(e, ts, n - 1);
        let before = all_nodes(e, ts, n - 1);
        let t = ts[n - 1];
        assert(token_wf(t, e, e.len() as int));
        lemma_token_nodes_ordered(e, t);
        let mine = token_nodes(e, t);
        let all = all_nodes(e, ts, n);
        assert(all == before + mine);
        if n > 1 {
            assert(ts[n - 2].end <= ts[n - 1].start);
        }
        assert forall|i: int, j: int| 0 <= i < j < all.len() implies (#[trigger] all[i]).end <= (#[trigger] all[j]).start by {
            if j < before.len() {
                assert(all[i] == before[i] && all[j] == before[j]);
            } else if i < before.len() {
                assert(all[i] == before[i] && all[j] == mine[j - before.len()]);
                assert(before[i].end <= ts[n - 2].end);
            } else {
                assert(all[i] == mine[i - before.len()] && all[j] == mine[j - before.len()]);
            }
        }
        assert forall|i: int| 0 <= i < all.len() implies 0 <= (#[trigger] all[i]).start <= all[i].end <= e.len() by {
            if i < before.len() {
                assert(all[i] == before[i]);
            } else {
                assert(all[i] == mine[i - before.len()]);
            }
        }
        assert forall|i: int| 0 <= i < all.len() implies (#[trigger] all[i]).end <= ts[n - 1].end by {
            if i < before.len() {
                assert(all[i] == before[i]);
                assert(before[i].end <= ts[n - 2].end);
            } else {
                assert(all[i] == mine[i - before.len()]);
            }
        }
    }
}

fn whole_token_node_exec(token: &Token, kind: QueryTagNodeKind, value: Vec<char>) -> (n: LexedTagNode)
    ensures
        node_model(n) == whole_token_node(token_model(*token), kind, value@),
{
    LexedTagNode { kind, value, start: token.start, end: token.end, inside_quotes: false }
}

fn member_node_exec(e: &[char], token: &Token, value: &[char], a: usize, b: usize) -> (n: LexedTagNode)
    requires
        token_wf(token_model(*token), e@, e@.len() as int),
        a < b <= token.units@.len(),
    ensures
        node_model(n) == member_node(e@, token_model(*token), value@, a as int, b as int),
{
    let ghost t = token_model(*token);
    assert(t.units[a as int] == token.units@[a as int]);
    assert(t.units[b - 1] == token.units@[b - 1]);
    let ss = token.units[a].source_start;
    let se = token.units[b - 1].source_end;
    let locally_quoted = ss > token.start && se < token.end && e[ss - 1] == '"' && e[se] == '"';
    let mut all_quoted = true;
    let mut k = a;
    while k < b
        invariant
            a <= k <= b <= token.units@.len(),
            t == token_model(*token),
            all_quoted == forall|j: int| a <= j < k ==> (#[trigger] t.units[j]).quoted,
        decreases b - k,
    {
        assert(t.units[k as int] == token.units@[k as int]);
        all_quoted = all_quoted && token.units[k].quoted;
        k = k + 1;
    }
    let value_copy = subslice(value, 0, value.len());
    assert(value@.subrange(0, value@.len() as int) =~= value@);
    LexedTagNode {
        kind: QueryTagNodeKind::AnyMember,
        value: value_copy,
        start: if locally_quoted {
            ss - 1
        } else {
            ss
        },
        end: if locally_quoted {
            se + 1
        } else {
            se
        },
        inside_quotes: !locally_quoted && all_quoted,
    }
}

fn is_field_token_exec(v: &[char]) -> (r: bool)
    ensures
        r == is_field_token(v@),
{
    if strip_literal(v, "type:").is_some() || strip_literal(v, "ext:").is_some() || strip_literal(
        v,
        "favorite:",
    ).is_some() {
        return true;
    }
    let n = v.len();
    match find_char_exec(v, ':') {
        None => false,
        Some(i) => {
            let field = subslice(v, 0, i);
            crate::query_filters::advanced_field_exec(&field).is_some()
        },
    }
}

/// The tag nodes of one token, which parsed.
pub fn tag_nodes_for_token(e: &[char], token: &Token) -> (r: Vec<LexedTagNode>)
    requires
        token_wf(token_model(*token), e@, e@.len() as int),
        group_members_nonempty(token.value@),
    ensures
        nodes_model(r@) == token_nodes(e@, token_model(*token)),
{
    let ghost t = token_model(*token);
    let v = &token.value;
    let mut out: Vec<LexedTagNode> = Vec::new();
    if let Some(ex) = strip_literal(v, "-") {
        let value = match strip_literal(&ex, "tag:") {
            Some(x) => x,
            None => subslice(&ex, 0, ex.len()),
        };
        assert(ex@.subrange(0, ex@.len() as int) =~= ex@);
        out.push(whole_token_node_exec(token, QueryTagNodeKind::Excluded, value));
        assert(nodes_model(out@) =~= token_nodes(e@, t));
        return out;
    }
    let shaped = match strip_literal(v, "any:(") {
        Some(x) => strip_literal_suffix(&x, ")"),
        None => None,
    };
    if let Some(body) = shaped {
        let ms = split_exec(&body, '|');
        let ghost mv = views(ms@);
        let ghost target = member_nodes(e@, t, mv, 0, "any:("@.len() as int);
        let mut cursor = chars_of("any:(").len();
        proof {
            reveal_strlit(")");
            lemma_split_span(body@, '|');
        }
        assert(cursor + pieces_span(mv, 0) == t.units.len());
        assert(group_body(v@) == Some(body@));
        assert(mv == split_on(body@, '|'));
        assert(token.value@ == v@);
        assert(group_members_nonempty(v@));
        assert(members_nonempty(mv));
        let ulen = token.units.len();
        let mut k: usize = 0;
        while k < ms.len()
            invariant
                k <= ms.len(),
                mv == views(ms@),
                t == token_model(*token),
                token_wf(t, e@, e@.len() as int),
                members_nonempty(mv),
                cursor + pieces_span(mv, k as int) == t.units.len(),
                t.units.len() == ulen,
                nodes_model(out@) + member_nodes(e@, t, mv, k as int, cursor as int) == target,
            decreases ms.len() - k,
        {
            assert(mv[k as int] == ms@[k as int]@);
            proof {
                lemma_pieces_span_nonneg(mv, k + 1);
            }
            assert(pieces_span(mv, k as int) == mv[k as int].len() + 1 + pieces_span(mv, k + 1));
            let a = cursor;
            let b = cursor + ms[k].len();
            let node = member_node_exec(e, token, &ms[k], a, b);
            let ghost before = out@;
            out.push(node);
            assert(nodes_model(out@) =~= nodes_model(before).push(node_model(node)));
            assert(member_nodes(e@, t, mv, k as int, cursor as int) == seq![node_model(node)]
                + member_nodes(e@, t, mv, k + 1, b + 1));
            assert(nodes_model(out@) + member_nodes(e@, t, mv, k + 1, b + 1) =~= nodes_model(before)
                + member_nodes(e@, t, mv, k as int, cursor as int));
            cursor = b + 1;
            k = k + 1;
        }
        assert(nodes_model(out@) =~= nodes_model(out@) + member_nodes(e@, t, mv, k as int, cursor as int));
        return out;
    }
    if is_field_token_exec(v) {
        assert(nodes_model(out@) =~= token_nodes(e@, t));
        return out;
    }
    let node = match strip_literal(v, "tag:") {
        Some(x) => whole_token_node_exec(token, QueryTagNodeKind::Explicit, x),
        None => whole_token_node_exec(token, QueryTagNodeKind::All, subslice(v, 0, v.len())),
    };
    assert(v@.subrange(0, v@.len() as int) =~= v@);
    out.push(node);
    assert(nodes_model(out@) =~= token_nodes(e@, t));
    out
}

} // verus!
