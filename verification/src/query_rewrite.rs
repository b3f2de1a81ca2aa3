//! Tag nodes of whole expressions, and renaming a tag inside an expression.
//!
//! A rename rewrites the selected tag nodes from the end of the expression toward its start,
//! parses the result again and accepts it only when its query is the old query with the
//! tag renamed.
use vstd::prelude::*;

use crate::query_lex::{byte_at, byte_len, lex, lemma_byte_at_mono, lemma_byte_at_step, token_model, tokenize, tokens_model, TokenModel};
use crate::query_model::{
    add_str, empty_model, error_model, remove_str, set_add, set_remove, strs, str_groups,
    AssetQuery, ErrorModel, Member, QueryModel, QueryParseError, QueryParseErrorKind, Ratio,
    RangeBound, RangeConstraint,
};
use crate::query_nodes::{
    all_nodes, group_members_nonempty, lemma_all_nodes_ordered, lemma_parsed_group_members,
    node_model, nodes_model, nodes_ordered, nodes_within, tag_nodes_for_token, LexedTagNode,
    NodeModel, QueryByteSpan, QueryTagNode, QueryTagNodeKind,
};
use crate::query_parse::{parse_query, parse_token_value, parse_tokens, query_spec, token_error, token_spec};
use crate::text::{
    char_width, chars_of, concat, contains_char, has_suffix, is_white, is_whitespace,
    string_from, strip_literal_suffix, subslice, trim, trim_seq, utf8_len,
};

verus! {

/// The tokens of an expression that lexes, and none otherwise.
pub open spec fn lexed(e: Seq<char>) -> Seq<TokenModel> {
    match lex(e) {
        Ok(ts) => ts,
        Err(_) => seq![],
    }
}

/// Every tag node of an expression, in source order.
pub open spec fn expression_nodes(e: Seq<char>) -> Seq<NodeModel> {
    all_nodes(e, lexed(e), lexed(e).len() as int)
}

/// A tag node as reported: kind, value and UTF-8 byte span.
pub struct TagNodeView {
    pub kind: QueryTagNodeKind,
    pub value: Seq<char>,
    pub start: nat,
    pub end: nat,
}

pub open spec fn tag_node_view(n: QueryTagNode) -> TagNodeView {
    TagNodeView { kind: n.kind, value: n.value@, start: n.span.start as nat, end: n.span.end as nat }
}

pub open spec fn tag_node_views(ns: Seq<QueryTagNode>) -> Seq<TagNodeView> {
    ns.map_values(|n: QueryTagNode| tag_node_view(n))
}

/// A node of `e` located by bytes.
pub open spec fn located(e: Seq<char>, n: NodeModel) -> TagNodeView {
    TagNodeView { kind: n.kind, value: n.value, start: byte_at(e, n.start), end: byte_at(e, n.end) }
}

pub open spec fn located_all(e: Seq<char>, ns: Seq<NodeModel>) -> Seq<TagNodeView> {
    ns.map_values(|n: NodeModel| located(e, n))
}

/// The byte offset of character index `i`.
pub fn byte_offset(e: &[char], i: usize) -> (b: usize)
    requires
        i <= e@.len(),
        utf8_len(e@) <= usize::MAX,
    ensures
        b == byte_at(e@, i as int),
{
    let mut b: usize = 0;
    let mut k: usize = 0;
    assert(e@.subrange(0, 0) =~= Seq::<char>::empty());
    while k < i
        invariant
            k <= i <= e@.len(),
            utf8_len(e@) <= usize::MAX,
            b == byte_at(e@, k as int),
        decreases i - k,
    {
        proof {
            lemma_byte_at_step(e@, k as int);
            lemma_byte_at_mono(e@, k + 1, e@.len() as int);
            assert(e@.subrange(0, e@.len() as int) =~= e@);
        }
        b = b + crate::text::char_len_utf8(e[k]);
        k = k + 1;
    }
    b
}

fn locate(e: &[char], n: &LexedTagNode) -> (r: QueryTagNode)
    requires
        n.start <= n.end <= e@.len(),
        utf8_len(e@) <= usize::MAX,
    ensures
        tag_node_view(r) == located(e@, node_model(*n)),
{
    QueryTagNode {
        kind: n.kind,
        value: string_from(&n.value),
        span: QueryByteSpan { start: byte_offset(e, n.start), end: byte_offset(e, n.end) },
    }
}

/// Parses an expression and collects its tag nodes, in source order and without overlap.
pub fn parse_with_nodes(expression: &str) -> (r: Result<(AssetQuery, Vec<LexedTagNode>), QueryParseError>)
    ensures
        match query_spec(expression@) {
            Ok(m) => r matches Ok((q, ns)) && q@ == m && nodes_model(ns@) == expression_nodes(expression@)
                && nodes_ordered(nodes_model(ns@)) && nodes_within(nodes_model(ns@), 0, expression@.len() as int),
            Err(em) => r matches Err(x) && error_model(x) == em,
        },
{
    let e = chars_of(expression);
    let tokens = tokenize(expression)?;
    let ghost ts = tokens_model(tokens@);
    let elen = e.len();
    proof {
        crate::query_lex::lemma_lex_wf(expression@);
    }
    let mut query = AssetQuery::new();
    let mut nodes: Vec<LexedTagNode> = Vec::new();
    let mut i: usize = 0;
    while i < tokens.len()
        invariant
            i <= tokens.len(),
            e@ == expression@,
            lex(expression@) == Ok::<Seq<TokenModel>, ErrorModel>(ts),
            ts == tokens_model(tokens@),
            forall|k: int| 0 <= k < ts.len() ==> crate::query_lex::token_bytes_wf(#[trigger] tokens@[k], expression@),
            forall|k: int| 0 <= k < ts.len() ==> crate::query_lex::token_wf(#[trigger] ts[k], expression@, expression@.len() as int),
            crate::query_lex::tokens_ordered(ts),
            forall|k: int| 0 <= k < i ==> group_members_nonempty(#[trigger] ts[k].value),
            parse_tokens(ts, i as int) == Ok::<QueryModel, (int, QueryParseErrorKind)>(query@),
            nodes_model(nodes@) == all_nodes(expression@, ts, i as int),
        decreases tokens.len() - i,
    {
        assert(ts[i as int] == token_model(tokens@[i as int]));
        let ghost before = query@;
        match parse_token_value(&tokens[i].value, &mut query) {
            Ok(()) => {},
            Err(f) => {
                proof {
                    crate::query_parse::lemma_parse_tokens_stays(ts, i + 1, ts.len() as int);
                    assert(crate::query_lex::token_bytes_wf(tokens@[i as int], expression@));
                }
                return Err(token_error(&tokens[i], f));
            },
        }
        proof {
            lemma_parsed_group_members(ts[i as int].value, before);
        }
        let mut found = tag_nodes_for_token(&e, &tokens[i]);
        let ghost prior = nodes@;
        let ghost mine = found@;
        nodes.append(&mut found);
        assert(nodes_model(nodes@) =~= nodes_model(prior) + nodes_model(mine));
        i = i + 1;
    }
    proof {
        lemma_all_nodes_ordered(expression@, ts, ts.len() as int);
    }
    Ok((query, nodes))
}

/// Parses a query and reports every tag node with its exact UTF-8 byte span.
///
/// A top-level tag term's span covers its whole token, an OR group member's only the
/// member; field filters and quoted field values are not tag nodes.
pub fn parse_query_with_tag_nodes(expression: &str) -> (r: Result<(AssetQuery, Vec<QueryTagNode>), QueryParseError>)
    ensures
        match query_spec(expression@) {
            Ok(m) => r matches Ok((q, ns)) && q@ == m && tag_node_views(ns@) == located_all(
                expression@,
                expression_nodes(expression@),
            ),
            Err(em) => r matches Err(x) && error_model(x) == em,
        },
{
    let (query, lexed_nodes) = parse_with_nodes(expression)?;
    let e = chars_of(expression);
    let total = byte_len(expression);
    let ghost target = expression_nodes(expression@);
    let mut out: Vec<QueryTagNode> = Vec::new();
    let mut i: usize = 0;
    while i < lexed_nodes.len()
        invariant
            i <= lexed_nodes.len(),
            e@ == expression@,
            total == utf8_len(e@),
            nodes_model(lexed_nodes@) == target,
            nodes_within(target, 0, expression@.len() as int),
            tag_node_views(out@) == located_all(expression@, target.subrange(0, i as int)),
        decreases lexed_nodes.len() - i,
    {
        assert(target[i as int] == node_model(lexed_nodes@[i as int]));
        let n = locate(&e, &lexed_nodes[i]);
        let ghost prior = out@;
        out.push(n);
        assert(tag_node_views(out@) =~= tag_node_views(prior).push(tag_node_view(n)));
        assert(target.subrange(0, i + 1) =~= target.subrange(0, i as int).push(target[i as int]));
        assert(located_all(expression@, target.subrange(0, i + 1)) =~= located_all(expression@, target.subrange(0, i as int)).push(located(expression@, target[i as int])));
        i = i + 1;
    }
    assert(target.subrange(0, target.len() as int) =~= target);
    Ok((query, out))
}

/// How a rename chooses the nodes it changes: `Exact` leaves namespace wildcards alone;
/// `NamespaceWildcard` renames one `namespace/*` wildcard to another.
#[derive(Debug, Clone, Copy, PartialEq, Eq, Structural)]
pub enum TagRenameMode {
    Exact,
    NamespaceWildcard,
}

/// A successful rename: the new expression and the nodes it changed.
#[derive(Debug, Clone)]
pub struct QueryTagRewrite {
    pub expression: String,
    pub node_count: usize,
    pub nodes: Vec<QueryTagNode>,
}

/// Why a rename was refused.
#[derive(Debug, Clone)]
pub enum QueryTagRewriteError {
    /// The source expression does not parse.
    InvalidQuery(QueryParseError),
    /// A tag of the rename cannot be written in the query grammar, or the mode does not fit.
    InvalidTag,
    /// The rewritten expression does not parse.
    RewriteInvalid(QueryParseError),
    /// The rewritten query means more than the old one with the tag renamed.
    EquivalenceFailed,
}

/// The escape of one character inside double quotes.
pub open spec fn escape_char(c: char) -> Seq<char> {
    if c == '\\' {
        seq!['\\', '\\']
    } else if c == '"' {
        seq!['\\', '"']
    } else {
        seq![c]
    }
}

/// A text escaped for use between double quotes: backslashes doubled, quotes escaped.
pub open spec fn escape_quoted(t: Seq<char>) -> Seq<char>
    decreases t.len(),
{
    if t.len() == 0 {
        seq![]
    } else {
        escape_quoted(t.drop_last()) + escape_char(t.last())
    }
}

pub open spec fn needs_quotes(t: Seq<char>) -> bool {
    exists|i: int| 0 <= i < t.len() && (is_white(#[trigger] t[i]) || t[i] == '"' || t[i] == '\\')
}

/// A tag as one query atom: quoted and escaped when it holds white space, a quote or a
/// backslash, as it is otherwise.
pub open spec fn encode_tag_atom(t: Seq<char>) -> Seq<char> {
    if needs_quotes(t) {
        seq!['"'] + escape_quoted(t) + seq!['"']
    } else {
        t
    }
}

pub fn escape_quoted_content(t: &[char]) -> (r: Vec<char>)
    ensures
        r@ == escape_quoted(t@),
{
    let mut r: Vec<char> = Vec::new();
    let mut i: usize = 0;
    while i < t.len()
        invariant
            i <= t.len(),
            r@ == escape_quoted(t@.subrange(0, i as int)),
        decreases t.len() - i,
    {
        let ghost prior = r@;
        let c = t[i];
        if c == '\\' {
            r.push('\\');
            r.push('\\');
        } else if c == '"' {
            r.push('\\');
            r.push('"');
        } else {
            r.push(c);
        }
        assert(t@.subrange(0, i + 1).drop_last() =~= t@.subrange(0, i as int));
        assert(r@ =~= prior + escape_char(c));
        i = i + 1;
    }
    assert(t@.subrange(0, t@.len() as int) =~= t@);
    r
}

pub fn encode_tag_atom_exec(t: &[char]) -> (r: Vec<char>)
    ensures
        r@ == encode_tag_atom(t@),
{
    let mut quote = false;
    let mut i: usize = 0;
    while i < t.len()
        invariant
            i <= t.len(),
            quote == exists|j: int| 0 <= j < i && (is_white(#[trigger] t@[j]) || t@[j] == '"' || t@[j] == '\\'),
        decreases t.len() - i,
    {
        let c = t[i];
        if is_whitespace(c) || c == '"' || c == '\\' {
            quote = true;
        }
        i = i + 1;
    }
    if quote {
        let mut r: Vec<char> = Vec::new();
        r.push('"');
        let body = escape_quoted_content(t);
        let mut r = concat(&r, &body);
        let ghost prior = r@;
        r.push('"');
        assert(r@ =~= seq!['"'] + escape_quoted(t@) + seq!['"']);
        r
    } else {
        let r = subslice(t, 0, t.len());
        assert(t@.subrange(0, t@.len() as int) =~= t@);
        r
    }
}

/// A namespace wildcard: one `*`, in a trailing `/*`.
pub open spec fn namespace_pattern(t: Seq<char>) -> bool {
    has_suffix(t, "/*"@) && crate::text::count_char(t, '*') == 1
}

/// A tag that a rename may use: not blank, at most 128 characters, no `|` or line break,
/// and `tag:` followed by its atom parses back to exactly that tag.
pub open spec fn rename_tag_ok(t: Seq<char>) -> bool {
    &&& trim_seq(t).len() > 0
    &&& t.len() <= 128
    &&& !t.contains('|')
    &&& !t.contains('\n')
    &&& !t.contains('\r')
    &&& (query_spec("tag:"@ + encode_tag_atom(t)) matches Ok(m) && m.all_tags.to_set() == set![t])
}

pub open spec fn rename_tags_ok(old_tag: Seq<char>, new_tag: Seq<char>, mode: TagRenameMode) -> bool {
    &&& match mode {
        TagRenameMode::Exact => !old_tag.contains('*') && !new_tag.contains('*'),
        TagRenameMode::NamespaceWildcard => namespace_pattern(old_tag) && namespace_pattern(new_tag),
    }
    &&& rename_tag_ok(old_tag)
    &&& rename_tag_ok(new_tag)
}

fn only_tag(v: &Vec<String>, t: &[char]) -> (r: bool)
    ensures
        r == (strs(v@).to_set() == set![t@]),
{
    if v.len() == 0 {
        assert(!strs(v@).to_set().contains(t@));
        return false;
    }
    let mut i: usize = 0;
    while i < v.len()
        invariant
            i <= v.len(),
            forall|j: int| 0 <= j < i ==> strs(v@)[j] == t@,
        decreases v.len() - i,
    {
        let c = chars_of(v[i].as_str());
        if !crate::text::slice_eq(&c, t) {
            assert(strs(v@).to_set().contains(strs(v@)[i as int]));
            assert(!set![t@].contains(strs(v@)[i as int]));
            return false;
        }
        i = i + 1;
    }
    assert(strs(v@).to_set() =~= set![t@]) by {
        assert(strs(v@).contains(strs(v@)[0]));
    }
    true
}

fn rename_tag_ok_exec(t: &[char]) -> (r: bool)
    ensures
        r == rename_tag_ok(t@),
{
    if trim(t).len() == 0 || t.len() > 128 || contains_char(t, '|') || contains_char(t, '\n')
        || contains_char(t, '\r') {
        return false;
    }
    let atom = encode_tag_atom_exec(t);
    let text = concat(&chars_of("tag:"), &atom);
    let source = string_from(&text);
    match parse_query(source.as_str()) {
        Err(_) => false,
        Ok(q) => only_tag(&q.all_tags, t),
    }
}

fn namespace_pattern_exec(t: &[char]) -> (r: bool)
    ensures
        r == namespace_pattern(t@),
{
    strip_literal_suffix(t, "/*").is_some() && crate::text::count_of(t, '*') == 1
}

/// Whether the two tags and the mode make a rename that the grammar can express.
pub fn validate_rename_tags(old_tag: &[char], new_tag: &[char], mode: TagRenameMode) -> (r: bool)
    ensures
        r == rename_tags_ok(old_tag@, new_tag@, mode),
{
    let mode_ok = match mode {
        TagRenameMode::Exact => !contains_char(old_tag, '*') && !contains_char(new_tag, '*'),
        TagRenameMode::NamespaceWildcard => namespace_pattern_exec(old_tag) && namespace_pattern_exec(new_tag),
    };
    mode_ok && rename_tag_ok_exec(old_tag) && rename_tag_ok_exec(new_tag)
}

/// Whether a node is one that the rename changes.
pub open spec fn selected_by(n: NodeModel, old_tag: Seq<char>, mode: TagRenameMode) -> bool {
    match mode {
        TagRenameMode::Exact => n.value == old_tag && !has_suffix(n.value, "/*"@),
        TagRenameMode::NamespaceWildcard => n.value == old_tag,
    }
}

/// The selected nodes among the first `n`, in order.
pub open spec fn select(ns: Seq<NodeModel>, old_tag: Seq<char>, mode: TagRenameMode, n: int) -> Seq<NodeModel>
    decreases n,
{
    if n <= 0 {
        seq![]
    } else {
        select(ns, old_tag, mode, n - 1) + if selected_by(ns[n - 1], old_tag, mode) {
            seq![ns[n - 1]]
        } else {
            seq![]
        }
    }
}

/// A selection keeps the order of the nodes and ends before every later node.
pub proof fn lemma_select_ordered(ns: Seq<NodeModel>, old_tag: Seq<char>, mode: TagRenameMode, n: int, lo: int, hi: int)
    requires
        0 <= n <= ns.len(),
        nodes_ordered(ns),
        nodes_within(ns, lo, hi),
    ensures
        nodes_ordered(select(ns, old_tag, mode, n)),
        nodes_within(select(ns, old_tag, mode, n), lo, hi),
        forall|j: int, m: int|
            0 <= j < select(ns, old_tag, mode, n).len() && n <= m < ns.len() ==> (#[trigger] select(
                ns,
                old_tag,
                mode,
                n,
            )[j]).end <= (#[trigger] ns[m]).start,
    decreases n,
{
    if n > 0 {
        lemma_select_ordered(ns, old_tag, mode, n - 1, lo, hi);
        let prior = select(ns, old_tag, mode, n - 1);
        let all = select(ns, old_tag, mode, n);
        if selected_by(ns[n - 1], old_tag, mode) {
            assert(all == prior.push(ns[n - 1]));
            assert forall|i: int, j: int| 0 <= i < j < all.len() implies (#[trigger] all[i]).end <= (#[trigger] all[j]).start by {
                assert(all[i] == prior[i]);
                if j < prior.len() {
                    assert(all[j] == prior[j]);
                } else {
                    assert(prior[i].end <= ns[n - 1].start);
                }
            }
            assert forall|j: int, m: int| 0 <= j < all.len() && n <= m < ns.len() implies (#[trigger] all[j]).end <= (#[trigger] ns[m]).start by {
                if j < prior.len() {
                    assert(all[j] == prior[j]);
                    assert(prior[j].end <= ns[m].start);
                } else {
                    assert(ns[n - 1].end <= ns[m].start);
                }
            }
            assert forall|i: int| 0 <= i < all.len() implies lo <= (#[trigger] all[i]).start <= all[i].end <= hi by {
                if i < prior.len() {
                    assert(all[i] == prior[i]);
                }
            }
        } else {
            assert(all =~= prior);
        }
    }
}

/// The text that replaces a selected node.
pub open spec fn replacement(n: NodeModel, new_tag: Seq<char>) -> Seq<char> {
    if n.inside_quotes {
        escape_quoted(new_tag)
    } else {
        let atom = encode_tag_atom(new_tag);
        match n.kind {
            QueryTagNodeKind::All => if new_tag.contains(':') {
                "tag:"@ + atom
            } else {
                atom
            },
            QueryTagNodeKind::AnyMember => atom,
            QueryTagNodeKind::Explicit => "tag:"@ + atom,
            QueryTagNodeKind::Excluded => "-tag:"@ + atom,
        }
    }
}

/// `s` with `s[a..b]` replaced by `r`.
pub open spec fn splice(s: Seq<char>, a: int, b: int, r: Seq<char>) -> Seq<char> {
    s.subrange(0, a) + r + s.subrange(b, s.len() as int)
}

/// `e` after replacing the selected nodes from the `k`-th on, last node first.
pub open spec fn rewrite_from(e: Seq<char>, sel: Seq<NodeModel>, new_tag: Seq<char>, k: int) -> Seq<char>
    decreases sel.len() - k,
{
    if k >= sel.len() {
        e
    } else {
        splice(rewrite_from(e, sel, new_tag, k + 1), sel[k].start, sel[k].end, replacement(sel[k], new_tag))
    }
}

fn replacement_for_node(n: &LexedTagNode, new_tag: &[char]) -> (r: Vec<char>)
    ensures
        r@ == replacement(node_model(*n), new_tag@),
{
    if n.inside_quotes {
        return escape_quoted_content(new_tag);
    }
    let atom = encode_tag_atom_exec(new_tag);
    match n.kind {
        QueryTagNodeKind::All => if contains_char(new_tag, ':') {
            concat(&chars_of("tag:"), &atom)
        } else {
            atom
        },
        QueryTagNodeKind::AnyMember => atom,
        QueryTagNodeKind::Explicit => concat(&chars_of("tag:"), &atom),
        QueryTagNodeKind::Excluded => concat(&chars_of("-tag:"), &atom),
    }
}

fn splice_exec(s: &[char], a: usize, b: usize, r: &[char]) -> (out: Vec<char>)
    requires
        a <= b <= s@.len(),
    ensures
        out@ == splice(s@, a as int, b as int, r@),
{
    let head = subslice(s, 0, a);
    let tail = subslice(s, b, s.len());
    let mid = concat(&head, r);
    concat(&mid, &tail)
}

/// Set equality of two sequences.
pub open spec fn same_set<T>(a: Seq<T>, b: Seq<T>) -> bool {
    a.to_set() == b.to_set()
}

pub open spec fn same_groups(a: Seq<Seq<Seq<char>>>, b: Seq<Seq<Seq<char>>>) -> bool {
    a.len() == b.len() && forall|i: int| 0 <= i < a.len() ==> same_set(#[trigger] a[i], b[i])
}

/// Two queries select the same assets: equal as the sets, maps and lists they stand for.
pub open spec fn same_query(a: QueryModel, b: QueryModel) -> bool {
    &&& same_set(a.all_tags, b.all_tags)
    &&& same_groups(a.any_tag_groups, b.any_tag_groups)
    &&& same_set(a.excluded_tags, b.excluded_tags)
    &&& same_set(a.kinds, b.kinds)
    &&& same_set(a.extensions, b.extensions)
    &&& a.favorite == b.favorite
    &&& same_set(a.integer_ranges, b.integer_ranges)
    &&& same_set(a.instant_ranges, b.instant_ranges)
    &&& same_set(a.ratio_ranges, b.ratio_ranges)
    &&& same_set(a.unknown_fields, b.unknown_fields)
    &&& same_set(a.orientations, b.orientations)
    &&& same_set(a.root_ids, b.root_ids)
    &&& a.path_contains == b.path_contains
    &&& same_set(a.color_spaces, b.color_spaces)
    &&& a.has_note == b.has_note
    &&& a.has_alpha == b.has_alpha
}

/// Renames `old_tag` to `new_tag` in a set of tags.
pub open spec fn replace_in(s: Seq<Seq<char>>, old_tag: Seq<char>, new_tag: Seq<char>) -> Seq<Seq<char>> {
    if s.contains(old_tag) {
        set_add(set_remove(s, old_tag), new_tag)
    } else {
        s
    }
}

pub open spec fn replace_in_groups(gs: Seq<Seq<Seq<char>>>, old_tag: Seq<char>, new_tag: Seq<char>) -> Seq<Seq<Seq<char>>> {
    gs.map_values(|g: Seq<Seq<char>>| replace_in(g, old_tag, new_tag))
}

/// The query with tag `old_tag` renamed to `new_tag` in every tag set.
pub open spec fn replace_query(q: QueryModel, old_tag: Seq<char>, new_tag: Seq<char>) -> QueryModel {
    QueryModel {
        all_tags: replace_in(q.all_tags, old_tag, new_tag),
        excluded_tags: replace_in(q.excluded_tags, old_tag, new_tag),
        any_tag_groups: replace_in_groups(q.any_tag_groups, old_tag, new_tag),
        ..q
    }
}

impl<T: Member> Member for RangeConstraint<T> {
    fn same(&self, other: &Self) -> (r: bool) {
        let lower = match (self.lower, other.lower) {
            (None, None) => true,
            (Some(a), Some(b)) => a.value.same(&b.value) && a.inclusive == b.inclusive,
            _ => false,
        };
        let upper = match (self.upper, other.upper) {
            (None, None) => true,
            (Some(a), Some(b)) => a.value.same(&b.value) && a.inclusive == b.inclusive,
            _ => false,
        };
        lower && upper
    }
}

fn contains_entry<K: Member, T: Member>(v: &Vec<(K, RangeConstraint<T>)>, x: (K, RangeConstraint<T>)) -> (r: bool)
    ensures
        r == v@.contains(x),
{
    let mut i: usize = 0;
    while i < v.len()
        invariant
            i <= v.len(),
            forall|j: int| 0 <= j < i ==> v@[j] != x,
        decreases v.len() - i,
    {
        let entry = v[i];
        if entry.0.same(&x.0) && entry.1.same(&x.1) {
            assert(v@[i as int] == x);
            return true;
        }
        i = i + 1;
    }
    false
}

fn all_entries_in<K: Member, T: Member>(a: &Vec<(K, RangeConstraint<T>)>, b: &Vec<(K, RangeConstraint<T>)>) -> (r: bool)
    ensures
        r == forall|i: int| 0 <= i < a@.len() ==> b@.contains(#[trigger] a@[i]),
{
    let mut i: usize = 0;
    while i < a.len()
        invariant
            i <= a.len(),
            forall|j: int| 0 <= j < i ==> b@.contains(#[trigger] a@[j]),
        decreases a.len() - i,
    {
        if !contains_entry(b, a[i]) {
            return false;
        }
        i = i + 1;
    }
    true
}

fn same_ranges<K: Member, T: Member>(a: &Vec<(K, RangeConstraint<T>)>, b: &Vec<(K, RangeConstraint<T>)>) -> (r: bool)
    ensures
        r == same_set(a@, b@),
{
    proof {
        lemma_same_set(a@, b@);
    }
    all_entries_in(a, b) && all_entries_in(b, a)
}

fn all_in<T: Member>(a: &Vec<T>, b: &Vec<T>) -> (r: bool)
    ensures
        r == forall|i: int| 0 <= i < a@.len() ==> b@.contains(#[trigger] a@[i]),
{
    let mut i: usize = 0;
    while i < a.len()
        invariant
            i <= a.len(),
            forall|j: int| 0 <= j < i ==> b@.contains(#[trigger] a@[j]),
        decreases a.len() - i,
    {
        if !crate::query_model::contains_member(b, a[i]) {
            return false;
        }
        i = i + 1;
    }
    true
}

pub proof fn lemma_same_set<T>(a: Seq<T>, b: Seq<T>)
    ensures
        same_set(a, b) <==> (forall|i: int| 0 <= i < a.len() ==> b.contains(#[trigger] a[i])) && (
        forall|i: int| 0 <= i < b.len() ==> a.contains(#[trigger] b[i])),
{
    if (forall|i: int| 0 <= i < a.len() ==> b.contains(#[trigger] a[i])) && (forall|i: int|
        0 <= i < b.len() ==> a.contains(#[trigger] b[i])) {
        assert(a.to_set() =~= b.to_set());
    }
    if same_set(a, b) {
        assert forall|i: int| 0 <= i < a.len() implies b.contains(#[trigger] a[i]) by {
            assert(a.to_set().contains(a[i]));
        }
        assert forall|i: int| 0 <= i < b.len() implies a.contains(#[trigger] b[i]) by {
            assert(b.to_set().contains(b[i]));
        }
    }
}

fn same_members<T: Member>(a: &Vec<T>, b: &Vec<T>) -> (r: bool)
    ensures
        r == same_set(a@, b@),
{
    proof {
        lemma_same_set(a@, b@);
    }
    all_in(a, b) && all_in(b, a)
}

fn all_strs_in(a: &Vec<String>, b: &Vec<String>) -> (r: bool)
    ensures
        r == forall|i: int| 0 <= i < strs(a@).len() ==> strs(b@).contains(#[trigger] strs(a@)[i]),
{
    let mut i: usize = 0;
    while i < a.len()
        invariant
            i <= a.len(),
            forall|j: int| 0 <= j < i ==> strs(b@).contains(#[trigger] strs(a@)[j]),
        decreases a.len() - i,
    {
        let c = chars_of(a[i].as_str());
        assert(strs(a@)[i as int] == c@);
        if !crate::query_model::contains_str(b, &c) {
            return false;
        }
        i = i + 1;
    }
    true
}

fn same_strs(a: &Vec<String>, b: &Vec<String>) -> (r: bool)
    ensures
        r == same_set(strs(a@), strs(b@)),
{
    proof {
        lemma_same_set(strs(a@), strs(b@));
    }
    all_strs_in(a, b) && all_strs_in(b, a)
}

fn same_string_lists(a: &Vec<String>, b: &Vec<String>) -> (r: bool)
    ensures
        r == (strs(a@) == strs(b@)),
{
    if a.len() != b.len() {
        assert(strs(a@).len() != strs(b@).len());
        return false;
    }
    let mut i: usize = 0;
    while i < a.len()
        invariant
            i <= a.len() == b.len(),
            forall|j: int| 0 <= j < i ==> strs(a@)[j] == strs(b@)[j],
        decreases a.len() - i,
    {
        if !crate::text::slice_eq(&chars_of(a[i].as_str()), &chars_of(b[i].as_str())) {
            assert(strs(a@)[i as int] != strs(b@)[i as int]);
            return false;
        }
        i = i + 1;
    }
    assert(strs(a@) =~= strs(b@));
    true
}

fn same_groups_exec(a: &Vec<Vec<String>>, b: &Vec<Vec<String>>) -> (r: bool)
    ensures
        r == same_groups(str_groups(a@), str_groups(b@)),
{
    if a.len() != b.len() {
        return false;
    }
    let mut i: usize = 0;
    while i < a.len()
        invariant
            i <= a.len() == b.len(),
            forall|j: int| 0 <= j < i ==> same_set(#[trigger] str_groups(a@)[j], str_groups(b@)[j]),
        decreases a.len() - i,
    {
        if !same_strs(&a[i], &b[i]) {
            assert(!same_set(str_groups(a@)[i as int], str_groups(b@)[i as int]));
            return false;
        }
        i = i + 1;
    }
    true
}

/// Whether two queries select the same assets.
pub fn same_query_exec(a: &AssetQuery, b: &AssetQuery) -> (r: bool)
    ensures
        r == same_query(a@, b@),
{
    same_strs(&a.all_tags, &b.all_tags) && same_groups_exec(&a.any_tag_groups, &b.any_tag_groups)
        && same_strs(&a.excluded_tags, &b.excluded_tags) && same_members(&a.kinds, &b.kinds)
        && same_strs(&a.extensions, &b.extensions) && a.favorite == b.favorite && same_ranges(
        &a.integer_ranges,
        &b.integer_ranges,
    ) && same_ranges(&a.instant_ranges, &b.instant_ranges) && same_ranges(
        &a.ratio_ranges,
        &b.ratio_ranges,
    ) && same_members(&a.unknown_fields, &b.unknown_fields) && same_members(
        &a.orientations,
        &b.orientations,
    ) && same_members(&a.root_ids, &b.root_ids) && same_string_lists(
        &a.path_contains,
        &b.path_contains,
    ) && same_strs(&a.color_spaces, &b.color_spaces) && a.has_note == b.has_note && a.has_alpha
        == b.has_alpha
}

fn replace_tag_in_set(tags: &mut Vec<String>, old_tag: &[char], new_tag: &[char])
    ensures
        strs(final(tags)@) == replace_in(strs(old(tags)@), old_tag@, new_tag@),
{
    let ghost before = strs(tags@);
    if remove_str(tags, old_tag) {
        add_str(tags, new_tag);
    } else {
        proof {
            crate::query_model::lemma_set_remove_absent(before, old_tag@);
        }
    }
}

/// Renames a tag in every tag set of the query.
pub fn replace_query_tag_value(q: &mut AssetQuery, old_tag: &[char], new_tag: &[char])
    ensures
        final(q)@ == replace_query(old(q)@, old_tag@, new_tag@),
{
    replace_tag_in_set(&mut q.all_tags, old_tag, new_tag);
    replace_tag_in_set(&mut q.excluded_tags, old_tag, new_tag);
    let mut groups: Vec<Vec<String>> = Vec::new();
    std::mem::swap(&mut groups, &mut q.any_tag_groups);
    let ghost source = str_groups(groups@);
    let mut done: Vec<Vec<String>> = Vec::new();
    while groups.len() > 0
        invariant
            done@.len() + groups@.len() == source.len(),
            str_groups(done@) == replace_in_groups(source.subrange(0, done@.len() as int), old_tag@, new_tag@),
            str_groups(groups@) == source.subrange(done@.len() as int, source.len() as int),
        decreases groups.len(),
    {
        let ghost prior = done@;
        let ghost pending = groups@;
        let mut g = groups.remove(0);
        assert(g == pending[0]);
        assert(str_groups(pending)[0] == strs(g@));
        assert(source.subrange(done@.len() as int, source.len() as int)[0] == source[done@.len() as int]);
        assert(strs(g@) == source[done@.len() as int]);
        assert(groups@ =~= pending.subrange(1, pending.len() as int));
        replace_tag_in_set(&mut g, old_tag, new_tag);
        done.push(g);
        assert(str_groups(done@) =~= str_groups(prior).push(strs(g@)));
        assert(source.subrange(0, done@.len() as int) =~= source.subrange(0, prior.len() as int).push(
            source[prior.len() as int],
        ));
        assert(replace_in_groups(source.subrange(0, done@.len() as int), old_tag@, new_tag@) =~= replace_in_groups(
            source.subrange(0, prior.len() as int),
            old_tag@,
            new_tag@,
        ).push(replace_in(source[prior.len() as int], old_tag@, new_tag@)));
        assert forall|j: int| 0 <= j < groups@.len() implies str_groups(groups@)[j] == source[done@.len() + j] by {
            assert(groups@[j] == pending[j + 1]);
            assert(str_groups(pending)[j + 1] == source.subrange(prior.len() as int, source.len() as int)[j + 1]);
        }
        assert(str_groups(groups@) =~= source.subrange(done@.len() as int, source.len() as int));
    }
    assert(source.subrange(0, done@.len() as int) =~= source);
    q.any_tag_groups = done;
}

/// The model of a successful rename.
pub struct RewriteModel {
    pub expression: Seq<char>,
    pub nodes: Seq<TagNodeView>,
}

/// The model of a refused rename.
pub enum RewriteErrorModel {
    InvalidQuery(ErrorModel),
    InvalidTag,
    RewriteInvalid(ErrorModel),
    EquivalenceFailed,
}

/// Renaming tag `old_tag` to `new_tag` in expression `e`: the tags must be expressible and
/// `e` must parse; without selected nodes `e` stays as it is; otherwise the selected nodes
/// are rewritten, last first, and the result must parse to the old query with the tag
/// renamed.
pub open spec fn rewrite_spec(e: Seq<char>, old_tag: Seq<char>, new_tag: Seq<char>, mode: TagRenameMode) -> Result<
    RewriteModel,
    RewriteErrorModel,
> {
    if !rename_tags_ok(old_tag, new_tag, mode) {
        Err(RewriteErrorModel::InvalidTag)
    } else {
        match query_spec(e) {
            Err(em) => Err(RewriteErrorModel::InvalidQuery(em)),
            Ok(before) => {
                let ns = expression_nodes(e);
                let sel = select(ns, old_tag, mode, ns.len() as int);
                if sel.len() == 0 {
                    Ok(RewriteModel { expression: e, nodes: seq![] })
                } else {
                    let rewritten = rewrite_from(e, sel, new_tag, 0);
                    match query_spec(rewritten) {
                        Err(em) => Err(RewriteErrorModel::RewriteInvalid(em)),
                        Ok(after) => if same_query(after, replace_query(before, old_tag, new_tag)) {
                            Ok(RewriteModel { expression: rewritten, nodes: located_all(e, sel) })
                        } else {
                            Err(RewriteErrorModel::EquivalenceFailed)
                        },
                    }
                }
            },
        }
    }
}

fn copy_node(n: &LexedTagNode) -> (c: LexedTagNode)
    ensures
        node_model(c) == node_model(*n),
{
    let value = subslice(&n.value, 0, n.value.len());
    assert(n.value@.subrange(0, n.value@.len() as int) =~= n.value@);
    LexedTagNode { kind: n.kind, value, start: n.start, end: n.end, inside_quotes: n.inside_quotes }
}

fn selected_by_exec(n: &LexedTagNode, old_tag: &[char], mode: TagRenameMode) -> (r: bool)
    ensures
        r == selected_by(node_model(*n), old_tag@, mode),
{
    let same = crate::text::slice_eq(&n.value, old_tag);
    match mode {
        TagRenameMode::Exact => same && strip_literal_suffix(&n.value, "/*").is_none(),
        TagRenameMode::NamespaceWildcard => same,
    }
}

/// Rewrites every selected tag node from the end of the expression toward its start, parses
/// the result again and checks that nothing but the tag changed.
pub fn rewrite_query_tag(expression: &str, old_tag: &str, new_tag: &str, mode: TagRenameMode) -> (r: Result<
    QueryTagRewrite,
    QueryTagRewriteError,
>)
    ensures
        match rewrite_spec(expression@, old_tag@, new_tag@, mode) {
            Ok(m) => r matches Ok(x) && x.expression@ == m.expression && x.node_count == m.nodes.len()
                && tag_node_views(x.nodes@) == m.nodes,
            Err(RewriteErrorModel::InvalidQuery(em)) => r matches Err(QueryTagRewriteError::InvalidQuery(pe))
                && error_model(pe) == em,
            Err(RewriteErrorModel::InvalidTag) => r matches Err(QueryTagRewriteError::InvalidTag),
            Err(RewriteErrorModel::RewriteInvalid(em)) => r matches Err(QueryTagRewriteError::RewriteInvalid(pe))
                && error_model(pe) == em,
            Err(RewriteErrorModel::EquivalenceFailed) => r matches Err(QueryTagRewriteError::EquivalenceFailed),
        },
        r matches Ok(x) ==> {
            &&& x.node_count == x.nodes@.len()
            &&& forall|i: int| 0 <= i < x.nodes@.len() ==> (#[trigger] x.nodes@[i]).value@ == old_tag@
            &&& (x.node_count == 0 ==> x.expression@ == expression@)
            &&& query_spec(x.expression@) is Ok
            &&& same_query(
                query_spec(x.expression@)->Ok_0,
                replace_query(query_spec(expression@)->Ok_0, old_tag@, new_tag@),
            )
        },
{
    let r = rewrite_tag_checked(expression, old_tag, new_tag, mode);
    proof {
        if r is Ok {
            lemma_rewrite_preserves_meaning(expression@, old_tag@, new_tag@, mode);
            if rewrite_spec(expression@, old_tag@, new_tag@, mode)->Ok_0.nodes.len() == 0 {
                lemma_rename_without_nodes(expression@, old_tag@, new_tag@, mode);
            }
            let x = r->Ok_0;
            assert forall|i: int| 0 <= i < x.nodes@.len() implies (#[trigger] x.nodes@[i]).value@ == old_tag@ by {
                assert(tag_node_views(x.nodes@)[i] == tag_node_view(x.nodes@[i]));
            }
        }
    }
    r
}

fn rewrite_tag_checked(expression: &str, old_tag: &str, new_tag: &str, mode: TagRenameMode) -> (r: Result<
    QueryTagRewrite,
    QueryTagRewriteError,
>)
    ensures
        match rewrite_spec(expression@, old_tag@, new_tag@, mode) {
            Ok(m) => r matches Ok(x) && x.expression@ == m.expression && x.node_count == m.nodes.len()
                && tag_node_views(x.nodes@) == m.nodes,
            Err(RewriteErrorModel::InvalidQuery(em)) => r matches Err(QueryTagRewriteError::InvalidQuery(pe))
                && error_model(pe) == em,
            Err(RewriteErrorModel::InvalidTag) => r matches Err(QueryTagRewriteError::InvalidTag),
            Err(RewriteErrorModel::RewriteInvalid(em)) => r matches Err(QueryTagRewriteError::RewriteInvalid(pe))
                && error_model(pe) == em,
            Err(RewriteErrorModel::EquivalenceFailed) => r matches Err(QueryTagRewriteError::EquivalenceFailed),
        },
{
    let from = chars_of(old_tag);
    let to = chars_of(new_tag);
    if !validate_rename_tags(&from, &to, mode) {
        return Err(QueryTagRewriteError::InvalidTag);
    }
    let (before, nodes) = match parse_with_nodes(expression) {
        Ok(parsed) => parsed,
        Err(e) => return Err(QueryTagRewriteError::InvalidQuery(e)),
    };
    let e = chars_of(expression);
    let total = byte_len(expression);
    let ghost ns = nodes_model(nodes@);
    let mut selected: Vec<LexedTagNode> = Vec::new();
    let mut i: usize = 0;
    while i < nodes.len()
        invariant
            i <= nodes.len(),
            ns == nodes_model(nodes@),
            nodes_model(selected@) == select(ns, from@, mode, i as int),
        decreases nodes.len() - i,
    {
        assert(ns[i as int] == node_model(nodes@[i as int]));
        if selected_by_exec(&nodes[i], &from, mode) {
            let c = copy_node(&nodes[i]);
            let ghost prior = selected@;
            selected.push(c);
            assert(nodes_model(selected@) =~= nodes_model(prior).push(node_model(c)));
        }
        assert(select(ns, from@, mode, i + 1) =~= select(ns, from@, mode, i as int) + if selected_by(
            ns[i as int],
            from@,
            mode,
        ) {
            seq![ns[i as int]]
        } else {
            seq![]
        });
        i = i + 1;
    }
    let ghost sel = nodes_model(selected@);
    if selected.len() == 0 {
        return Ok(QueryTagRewrite { expression: string_from(&e), node_count: 0, nodes: Vec::new() });
    }
    proof {
        lemma_select_ordered(ns, from@, mode, ns.len() as int, 0, e@.len() as int);
    }
    let mut cur = subslice(&e, 0, e.len());
    assert(e@.subrange(0, e@.len() as int) =~= e@);
    let mut k = selected.len();
    while k > 0
        invariant
            k <= selected@.len(),
            sel == nodes_model(selected@),
            nodes_ordered(sel),
            nodes_within(sel, 0, e@.len() as int),
            cur@ == rewrite_from(e@, sel, to@, k as int),
            forall|j: int| 0 <= j < k ==> (#[trigger] sel[j]).end <= cur@.len(),
        decreases k,
    {
        let m = k - 1;
        assert(sel[m as int] == node_model(selected@[m as int]));
        let rep = replacement_for_node(&selected[m], &to);
        let next = splice_exec(&cur, selected[m].start, selected[m].end, &rep);
        assert forall|j: int| 0 <= j < m implies (#[trigger] sel[j]).end <= next@.len() by {
            assert(sel[j].end <= sel[m as int].start);
        }
        cur = next;
        k = m;
    }
    let rewritten = string_from(&cur);
    let after = match parse_query(rewritten.as_str()) {
        Ok(q) => q,
        Err(e) => return Err(QueryTagRewriteError::RewriteInvalid(e)),
    };
    let mut expected = before;
    replace_query_tag_value(&mut expected, &from, &to);
    if !same_query_exec(&after, &expected) {
        return Err(QueryTagRewriteError::EquivalenceFailed);
    }
    let mut out: Vec<QueryTagNode> = Vec::new();
    let mut j: usize = 0;
    while j < selected.len()
        invariant
            j <= selected@.len(),
            sel == nodes_model(selected@),
            nodes_within(sel, 0, e@.len() as int),
            e@ == expression@,
            total == utf8_len(e@),
            tag_node_views(out@) == located_all(expression@, sel.subrange(0, j as int)),
        decreases selected@.len() - j,
    {
        assert(sel[j as int] == node_model(selected@[j as int]));
        let n = locate(&e, &selected[j]);
        let ghost prior = out@;
        out.push(n);
        assert(tag_node_views(out@) =~= tag_node_views(prior).push(tag_node_view(n)));
        assert(sel.subrange(0, j + 1) =~= sel.subrange(0, j as int).push(sel[j as int]));
        assert(located_all(expression@, sel.subrange(0, j + 1)) =~= located_all(expression@, sel.subrange(0, j as int)).push(located(expression@, sel[j as int])));
        j = j + 1;
    }
    assert(sel.subrange(0, sel.len() as int) =~= sel);
    let count = selected.len();
    Ok(QueryTagRewrite { expression: rewritten, node_count: count, nodes: out })
}

proof fn lemma_select_values(ns: Seq<NodeModel>, old_tag: Seq<char>, mode: TagRenameMode, n: int)
    ensures
        forall|i: int| 0 <= i < select(ns, old_tag, mode, n).len() ==> (#[trigger] select(ns, old_tag, mode, n)[i]).value
            == old_tag,
    decreases n,
{
    if n > 0 {
        lemma_select_values(ns, old_tag, mode, n - 1);
        let a = select(ns, old_tag, mode, n - 1);
        assert forall|i: int| 0 <= i < select(ns, old_tag, mode, n).len() implies (#[trigger] select(ns, old_tag, mode, n)[i]).value
            == old_tag by {
            if i < a.len() {
                assert(select(ns, old_tag, mode, n)[i] == a[i]);
            }
        }
    }
}

proof fn lemma_parsed_tags_are_nodes(e: Seq<char>, ts: Seq<TokenModel>, n: int, x: Seq<char>)
    requires
        0 <= n <= ts.len(),
        parse_tokens(ts, n) is Ok,
        crate::query_nodes::names_tag(parse_tokens(ts, n)->Ok_0, x),
    ensures
        crate::query_nodes::has_node_value(all_nodes(e, ts, n), x),
    decreases n,
{
    if n == 0 {
        assert(parse_tokens(ts, 0)->Ok_0 == empty_model());
        assert(false);
    } else {
        let q0 = parse_tokens(ts, n - 1)->Ok_0;
        assert(parse_tokens(ts, n - 1) is Ok);
        crate::query_nodes::lemma_token_tags_are_nodes(e, ts[n - 1], q0, x);
        let prev = all_nodes(e, ts, n - 1);
        let cur = crate::query_nodes::token_nodes(e, ts[n - 1]);
        assert(all_nodes(e, ts, n) == prev + cur);
        if crate::query_nodes::names_tag(q0, x) {
            lemma_parsed_tags_are_nodes(e, ts, n - 1, x);
            let i = choose|i: int| 0 <= i < prev.len() && #[trigger] prev[i].value == x;
            assert((prev + cur)[i] == prev[i]);
        } else {
            let i = choose|i: int| 0 <= i < cur.len() && #[trigger] cur[i].value == x;
            assert((prev + cur)[prev.len() + i] == cur[i]);
        }
    }
}

proof fn lemma_select_none(ns: Seq<NodeModel>, old_tag: Seq<char>, mode: TagRenameMode, n: int)
    requires
        0 <= n <= ns.len(),
        select(ns, old_tag, mode, n).len() == 0,
    ensures
        forall|i: int| 0 <= i < n ==> !selected_by(#[trigger] ns[i], old_tag, mode),
    decreases n,
{
    if n > 0 {
        lemma_select_none(ns, old_tag, mode, n - 1);
    }
}

/// A rename that selects no node leaves the expression as it was, and its query already is
/// the old query with the tag renamed: every tag a query names is the value of one of the
/// expression's nodes, so none of them is the old tag.
pub proof fn lemma_rename_without_nodes(e: Seq<char>, old_tag: Seq<char>, new_tag: Seq<char>, mode: TagRenameMode)
    requires
        rewrite_spec(e, old_tag, new_tag, mode) matches Ok(m) && m.nodes.len() == 0,
    ensures
        query_spec(e) is Ok,
        rewrite_spec(e, old_tag, new_tag, mode)->Ok_0.expression == e,
        same_query(query_spec(e)->Ok_0, replace_query(query_spec(e)->Ok_0, old_tag, new_tag)),
{
    let q = query_spec(e)->Ok_0;
    let ts = lexed(e);
    let ns = expression_nodes(e);
    let sel = select(ns, old_tag, mode, ns.len() as int);
    if sel.len() != 0 {
        assert(located_all(e, sel).len() == sel.len());
    }
    assert(sel.len() == 0);
    lemma_select_none(ns, old_tag, mode, ns.len() as int);
    assert(lex(e) is Ok && parse_tokens(ts, ts.len() as int) == Ok::<QueryModel, (int, QueryParseErrorKind)>(q));
    assert(!crate::query_nodes::names_tag(q, old_tag)) by {
        if crate::query_nodes::names_tag(q, old_tag) {
            lemma_parsed_tags_are_nodes(e, ts, ts.len() as int, old_tag);
            let i = choose|i: int| 0 <= i < ns.len() && #[trigger] ns[i].value == old_tag;
            assert(!selected_by(ns[i], old_tag, mode));
            if mode == TagRenameMode::Exact {
                reveal_strlit("/*");
                assert(has_suffix(old_tag, "/*"@));
                assert(old_tag.subrange(old_tag.len() - 2, old_tag.len() as int)[1] == old_tag[old_tag.len() - 1]);
                assert("/*"@ =~= seq!['/', '*']);
                assert(old_tag.contains('*'));
            }
        }
    }
    let gs = q.any_tag_groups;
    assert(replace_in_groups(gs, old_tag, new_tag) =~= gs) by {
        assert forall|g: int| 0 <= g < gs.len() implies #[trigger] replace_in_groups(gs, old_tag, new_tag)[g] == gs[g] by {
            assert(!gs[g].contains(old_tag));
        }
    }
    assert(replace_query(q, old_tag, new_tag) == q);
}

/// A rename that succeeds reports exactly the nodes it changed, each holding the old tag.
/// When it changes nodes, it yields an expression that parses, and its query is the old
/// query with the tag renamed. When it changes no node, the expression is left as it was.
pub proof fn lemma_rewrite_preserves_meaning(e: Seq<char>, old_tag: Seq<char>, new_tag: Seq<char>, mode: TagRenameMode)
    requires
        rewrite_spec(e, old_tag, new_tag, mode) is Ok,
    ensures
        ({
            let m = rewrite_spec(e, old_tag, new_tag, mode)->Ok_0;
            &&& query_spec(e) is Ok
            &&& forall|i: int| 0 <= i < m.nodes.len() ==> (#[trigger] m.nodes[i]).value == old_tag
            &&& (m.nodes.len() == 0 ==> m.expression == e)
            &&& (m.nodes.len() > 0 ==> query_spec(m.expression) is Ok && same_query(
                query_spec(m.expression)->Ok_0,
                replace_query(query_spec(e)->Ok_0, old_tag, new_tag),
            ))
        }),
{
    let ns = expression_nodes(e);
    lemma_select_values(ns, old_tag, mode, ns.len() as int);
}

} // verus!
