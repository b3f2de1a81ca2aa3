//! Splitting a query expression into tokens.
//!
//! Tokens are separated by unquoted white space. Double quotes toggle quoting and are not
//! part of a token's value; a backslash makes the next character literal. Each character of
//! a token's value keeps the span of source characters it was decoded from.
use vstd::prelude::*;

use crate::query_model::{ErrorModel, QueryParseError, QueryParseErrorKind};
use crate::text::{chars_of, char_len_utf8, is_white, is_whitespace, utf8_len};

verus! {

/// The `UTF-8` byte length of `s`, as `str::len` reports it.
#[verifier::external_body]
pub(crate) fn byte_len(s: &str) -> (n: usize)
    ensures
        n == utf8_len(s@),
{
    s.len()
}

/// The source characters, by index into the expression, that one value character was
/// decoded from; `quoted` when it stood between double quotes.
#[derive(Debug, Clone, Copy, PartialEq, Eq, Structural)]
pub struct DecodedUnit {
    pub source_start: usize,
    pub source_end: usize,
    pub quoted: bool,
}

/// A token: its decoded value, its span as character indices (`start`, `end`) and as
/// UTF-8 byte offsets (`offset`, `end_offset`), and one unit per value character.
#[derive(Debug, Clone)]
pub struct Token {
    pub value: Vec<char>,
    pub start: usize,
    pub end: usize,
    pub offset: usize,
    pub end_offset: usize,
    pub units: Vec<DecodedUnit>,
}

pub struct TokenModel {
    pub value: Seq<char>,
    pub start: int,
    pub end: int,
    pub units: Seq<DecodedUnit>,
}

pub open spec fn token_model(t: Token) -> TokenModel {
    TokenModel { value: t.value@, start: t.start as int, end: t.end as int, units: t.units@ }
}

pub open spec fn tokens_model(ts: Seq<Token>) -> Seq<TokenModel> {
    ts.map_values(|t: Token| token_model(t))
}

/// The state of the lexer after a prefix of the expression.
pub struct LexState {
    pub tokens: Seq<TokenModel>,
    pub value: Seq<char>,
    pub units: Seq<DecodedUnit>,
    pub start: Option<int>,
    pub end: int,
    pub quoted: bool,
    pub escaped: bool,
    pub escape_start: int,
}

pub open spec fn lex_initial() -> LexState {
    LexState {
        tokens: seq![],
        value: seq![],
        units: seq![],
        start: None,
        end: 0,
        quoted: false,
        escaped: false,
        escape_start: 0,
    }
}

/// Closes the pending token, when one was started.
pub open spec fn lex_finish(s: LexState) -> LexState {
    match s.start {
        Some(start) => LexState {
            tokens: s.tokens.push(
                TokenModel { value: s.value, start: start, end: s.end, units: s.units },
            ),
            value: seq![],
            units: seq![],
            start: None,
            end: 0,
            ..s
        },
        None => s,
    }
}

pub open spec fn start_or(s: LexState, i: int) -> Option<int> {
    match s.start {
        Some(x) => Some(x),
        None => Some(i),
    }
}

/// Consumes the character `c` at index `i`.
pub open spec fn lex_step(s: LexState, c: char, i: int) -> LexState {
    if s.escaped {
        LexState {
            value: s.value.push(c),
            units: s.units.push(
                DecodedUnit {
                    source_start: s.escape_start as usize,
                    source_end: (i + 1) as usize,
                    quoted: s.quoted,
                },
            ),
            end: i + 1,
            escaped: false,
            ..s
        }
    } else if c == '\\' {
        LexState { start: start_or(s, i), escape_start: i, end: i + 1, escaped: true, ..s }
    } else if c == '"' {
        LexState { start: start_or(s, i), end: i + 1, quoted: !s.quoted, ..s }
    } else if is_white(c) && !s.quoted {
        lex_finish(s)
    } else {
        LexState {
            start: start_or(s, i),
            value: s.value.push(c),
            units: s.units.push(
                DecodedUnit { source_start: i as usize, source_end: (i + 1) as usize, quoted: s.quoted },
            ),
            end: i + 1,
            ..s
        }
    }
}

pub open spec fn lex_prefix(e: Seq<char>, n: int) -> LexState
    decreases n,
{
    if n <= 0 {
        lex_initial()
    } else {
        lex_step(lex_prefix(e, n - 1), e[n - 1], n - 1)
    }
}

/// The byte offset of the character at index `i`.
pub open spec fn byte_at(e: Seq<char>, i: int) -> nat {
    utf8_len(e.subrange(0, i))
}

/// The tokens of an expression, or the lexical error that ends it: a trailing backslash
/// (at the offset of the last byte) or an unclosed quote (at the offset where the pending
/// token starts).
pub open spec fn lex(e: Seq<char>) -> Result<Seq<TokenModel>, ErrorModel> {
    let s = lex_prefix(e, e.len() as int);
    if s.escaped {
        Err(
            ErrorModel {
                kind: QueryParseErrorKind::TrailingEscape,
                offset: if utf8_len(e) > 0 { (utf8_len(e) - 1) as nat } else { 0 },
                token: None,
            },
        )
    } else if s.quoted {
        Err(
            ErrorModel {
                kind: QueryParseErrorKind::UnclosedQuote,
                offset: match s.start {
                    Some(x) => byte_at(e, x),
                    None => utf8_len(e),
                },
                token: None,
            },
        )
    } else {
        Ok(lex_finish(s).tokens)
    }
}

/// Units lie inside `[lo, hi)`, in source order, and none starts at a double quote.
pub open spec fn units_wf(units: Seq<DecodedUnit>, e: Seq<char>, lo: int, hi: int) -> bool {
    &&& forall|k: int|
        0 <= k < units.len() ==> lo <= (#[trigger] units[k]).source_start < units[k].source_end <= hi
            && e[units[k].source_start as int] != '"'
    &&& forall|i: int, j: int|
        0 <= i < j < units.len() ==> (#[trigger] units[i]).source_end <= (#[trigger] units[j]).source_start
}

/// Structural facts that every token of the lexer satisfies.
pub open spec fn token_wf(t: TokenModel, e: Seq<char>, n: int) -> bool {
    &&& 0 <= t.start < t.end <= n
    &&& t.units.len() == t.value.len()
    &&& units_wf(t.units, e, t.start, t.end)
}

/// Tokens in source order, without overlap.
pub open spec fn tokens_ordered(ts: Seq<TokenModel>) -> bool {
    forall|i: int, j: int| 0 <= i < j < ts.len() ==> (#[trigger] ts[i]).end <= (#[trigger] ts[j]).start
}

pub open spec fn lex_state_wf(s: LexState, e: Seq<char>, n: int) -> bool {
    &&& forall|k: int| 0 <= k < s.tokens.len() ==> token_wf(#[trigger] s.tokens[k], e, n)
    &&& tokens_ordered(s.tokens)
    &&& s.units.len() == s.value.len()
    &&& (s.start is None ==> s.value.len() == 0 && !s.escaped)
    &&& (s.start matches Some(st) ==> (0 <= st < s.end <= n && units_wf(s.units, e, st, s.end) && forall|k: int|
        0 <= k < s.tokens.len() ==> (#[trigger] s.tokens[k]).end <= st))
    &&& (s.escaped ==> (s.start matches Some(st) && st <= s.escape_start < s.end
        && s.escape_start == s.end - 1 && e[s.escape_start] == '\\' && forall|k: int|
        0 <= k < s.units.len() ==> (#[trigger] s.units[k]).source_end <= s.escape_start))
}

pub proof fn lemma_lex_prefix_wf(e: Seq<char>, n: int)
    requires
        0 <= n <= e.len(),
        e.len() <= usize::MAX,
    ensures
        lex_state_wf(lex_prefix(e, n), e, n),
    decreases n,
{
    if n > 0 {
        lemma_lex_prefix_wf(e, n - 1);
        let s = lex_prefix(e, n - 1);
        let t = lex_prefix(e, n);
        let c = e[n - 1];
        assert(t == lex_step(s, c, n - 1));
        assert forall|k: int| 0 <= k < s.tokens.len() implies token_wf(#[trigger] s.tokens[k], e, n) by {
            assert(token_wf(s.tokens[k], e, n - 1));
        }
        if s.escaped {
            let st = s.start->0;
            assert forall|k: int| 0 <= k < t.units.len() implies st <= (#[trigger] t.units[k]).source_start
                < t.units[k].source_end <= t.end && e[t.units[k].source_start as int] != '"' by {
                if k < s.units.len() {
                    assert(t.units[k] == s.units[k]);
                }
            }
            assert forall|i: int, j: int| 0 <= i < j < t.units.len() implies (#[trigger] t.units[i]).source_end
                <= (#[trigger] t.units[j]).source_start by {
                assert(t.units[i] == s.units[i]);
                if j < s.units.len() {
                    assert(t.units[j] == s.units[j]);
                }
            }
        } else if c == '\\' || c == '"' {
            assert(t.units == s.units);
            assert(t.tokens == s.tokens);
        } else if is_white(c) && !s.quoted {
            assert forall|k: int| 0 <= k < t.tokens.len() implies token_wf(#[trigger] t.tokens[k], e, n) by {
                if k < s.tokens.len() {
                    assert(t.tokens[k] == s.tokens[k]);
                }
            }
            assert forall|i: int, j: int| 0 <= i < j < t.tokens.len() implies (#[trigger] t.tokens[i]).end
                <= (#[trigger] t.tokens[j]).start by {
                assert(t.tokens[i] == s.tokens[i]);
                if j < s.tokens.len() {
                    assert(t.tokens[j] == s.tokens[j]);
                }
            }
        } else {
            let st = t.start->0;
            assert forall|k: int| 0 <= k < t.units.len() implies st <= (#[trigger] t.units[k]).source_start
                < t.units[k].source_end <= t.end && e[t.units[k].source_start as int] != '"' by {
                if k < s.units.len() {
                    assert(t.units[k] == s.units[k]);
                }
            }
            assert forall|i: int, j: int| 0 <= i < j < t.units.len() implies (#[trigger] t.units[i]).source_end
                <= (#[trigger] t.units[j]).source_start by {
                assert(t.units[i] == s.units[i]);
                if j < s.units.len() {
                    assert(t.units[j] == s.units[j]);
                }
            }
        }
    }
}

pub proof fn lemma_lex_wf(e: Seq<char>)
    requires
        e.len() <= usize::MAX,
    ensures
        lex(e) matches Ok(ts) ==> tokens_ordered(ts) && forall|k: int| 0 <= k < ts.len() ==> token_wf(#[trigger] ts[k], e, e.len() as int),
{
    lemma_lex_prefix_wf(e, e.len() as int);
    let s = lex_prefix(e, e.len() as int);
    let f = lex_finish(s);
    assert forall|k: int| 0 <= k < f.tokens.len() implies token_wf(#[trigger] f.tokens[k], e, e.len() as int) by {
        if k < s.tokens.len() {
            assert(f.tokens[k] == s.tokens[k]);
        }
    }
    assert forall|i: int, j: int| 0 <= i < j < f.tokens.len() implies (#[trigger] f.tokens[i]).end
        <= (#[trigger] f.tokens[j]).start by {
        assert(f.tokens[i] == s.tokens[i]);
        if j < s.tokens.len() {
            assert(f.tokens[j] == s.tokens[j]);
        }
    }
}

pub proof fn lemma_byte_at_step(e: Seq<char>, i: int)
    requires
        0 <= i < e.len(),
    ensures
        byte_at(e, i + 1) == byte_at(e, i) + crate::text::char_width(e[i]),
{
    assert(e.subrange(0, i + 1).drop_last() =~= e.subrange(0, i));
}

pub proof fn lemma_byte_at_mono(e: Seq<char>, i: int, j: int)
    requires
        0 <= i <= j <= e.len(),
    ensures
        byte_at(e, i) <= byte_at(e, j),
    decreases j - i,
{
    if i < j {
        lemma_byte_at_mono(e, i, j - 1);
        lemma_byte_at_step(e, j - 1);
    }
}

pub open spec fn token_bytes_wf(t: Token, e: Seq<char>) -> bool {
    &&& t.offset == byte_at(e, t.start as int)
    &&& t.end_offset == byte_at(e, t.end as int)
}

fn finish_token(
    tokens: &mut Vec<Token>,
    value: &mut Vec<char>,
    start: &mut Option<usize>,
    start_byte: usize,
    end: &mut usize,
    end_byte: usize,
    units: &mut Vec<DecodedUnit>,
    Ghost(e): Ghost<Seq<char>>,
)
    requires
        *old(start) matches Some(st) ==> start_byte == byte_at(e, st as int) && end_byte == byte_at(
            e,
            *old(end) as int,
        ),
    ensures
        ({
            let before = LexState {
                tokens: tokens_model(old(tokens)@),
                value: old(value)@,
                units: old(units)@,
                start: match *old(start) {
                    Some(x) => Some(x as int),
                    None => None,
                },
                end: *old(end) as int,
                quoted: false,
                escaped: false,
                escape_start: 0,
            };
            let after = lex_finish(before);
            &&& tokens_model(final(tokens)@) == after.tokens
            &&& final(value)@ == after.value
            &&& final(units)@ == after.units
            &&& (match *final(start) {
                Some(x) => Some(x as int),
                None => None,
            }) == after.start
            &&& *final(end) as int == after.end
        }),
        forall|k: int|
            0 <= k < old(tokens)@.len() ==> final(tokens)@[k] == #[trigger] old(tokens)@[k],
        final(tokens)@.len() >= old(tokens)@.len(),
        *old(start) is Some ==> final(tokens)@.len() == old(tokens)@.len() + 1 && token_bytes_wf(
            final(tokens)@.last(),
            e,
        ) && final(tokens)@.last().start == (*old(start))->0 && final(tokens)@.last().end == *old(end),
        *old(start) is None ==> final(tokens)@ == old(tokens)@,
{
    if let Some(s) = *start {
        let mut taken_value: Vec<char> = Vec::new();
        std::mem::swap(&mut taken_value, value);
        let mut taken_units: Vec<DecodedUnit> = Vec::new();
        std::mem::swap(&mut taken_units, units);
        let t = Token {
            value: taken_value,
            start: s,
            end: *end,
            offset: start_byte,
            end_offset: end_byte,
            units: taken_units,
        };
        tokens.push(t);
        *start = None;
        *end = 0;
        assert(tokens_model(tokens@) =~= tokens_model(old(tokens)@).push(token_model(t)));
    }
}

/// Splits an expression into tokens, or reports a trailing escape or an unclosed quote.
pub fn tokenize(expression: &str) -> (r: Result<Vec<Token>, QueryParseError>)
    ensures
        match lex(expression@) {
            Ok(ts) => r is Ok && tokens_model(r->Ok_0@) == ts && forall|k: int|
                0 <= k < ts.len() ==> token_bytes_wf(#[trigger] r->Ok_0@[k], expression@),
            Err(em) => r is Err && crate::query_model::error_model(r->Err_0) == em,
        },
{
    let e = chars_of(expression);
    let total = byte_len(expression);
    let mut tokens: Vec<Token> = Vec::new();
    let mut value: Vec<char> = Vec::new();
    let mut units: Vec<DecodedUnit> = Vec::new();
    let mut start: Option<usize> = None;
    let mut start_byte: usize = 0;
    let mut end: usize = 0;
    let mut end_byte: usize = 0;
    let mut quoted = false;
    let mut escaped = false;
    let mut escape_start: usize = 0;
    let mut i: usize = 0;
    let mut b: usize = 0;
    proof {
        crate::text::lemma_utf8_len_ge_len(e@);
    }
    while i < e.len()
        invariant
            i <= e.len(),
            e@ == expression@,
            total == utf8_len(e@),
            b == byte_at(e@, i as int),
            e.len() <= total,
            ({
                let s = lex_prefix(e@, i as int);
                &&& tokens_model(tokens@) == s.tokens
                &&& value@ == s.value
                &&& units@ == s.units
                &&& (match start {
                    Some(x) => Some(x as int),
                    None => None,
                }) == s.start
                &&& end as int == s.end
                &&& quoted == s.quoted
                &&& escaped == s.escaped
                &&& escape_start as int == s.escape_start
            }),
            lex_state_wf(lex_prefix(e@, i as int), e@, i as int),
            start matches Some(st) ==> start_byte == byte_at(e@, st as int) && end_byte == byte_at(
                e@,
                end as int,
            ),
            forall|k: int| 0 <= k < tokens@.len() ==> token_bytes_wf(#[trigger] tokens@[k], e@),
        decreases e.len() - i,
    {
        proof {
            lemma_byte_at_step(e@, i as int);
            lemma_byte_at_mono(e@, i + 1, e@.len() as int);
            assert(e@.subrange(0, e@.len() as int) =~= e@);
            lemma_lex_prefix_wf(e@, i + 1);
        }
        let c = e[i];
        let next_b = b + char_len_utf8(c);
        let ghost before_tokens = tokens@;
        if escaped {
            value.push(c);
            units.push(DecodedUnit { source_start: escape_start, source_end: i + 1, quoted });
            end = i + 1;
            end_byte = next_b;
            escaped = false;
        } else if c == '\\' {
            if start.is_none() {
                start = Some(i);
                start_byte = b;
            }
            escape_start = i;
            end = i + 1;
            end_byte = next_b;
            escaped = true;
        } else if c == '"' {
            if start.is_none() {
                start = Some(i);
                start_byte = b;
            }
            end = i + 1;
            end_byte = next_b;
            quoted = !quoted;
        } else if is_whitespace(c) && !quoted {
            finish_token(
                &mut tokens,
                &mut value,
                &mut start,
                start_byte,
                &mut end,
                end_byte,
                &mut units,
                Ghost(e@),
            );
            assert forall|k: int| 0 <= k < tokens@.len() implies token_bytes_wf(#[trigger] tokens@[k], e@) by {
                if k < before_tokens.len() {
                    assert(tokens@[k] == before_tokens[k]);
                }
            }
        } else {
            if start.is_none() {
                start = Some(i);
                start_byte = b;
            }
            value.push(c);
            units.push(DecodedUnit { source_start: i, source_end: i + 1, quoted });
            end = i + 1;
            end_byte = next_b;
        }
        i = i + 1;
        b = next_b;
    }
    assert(e@.subrange(0, e@.len() as int) =~= e@);
    let ghost before_tokens = tokens@;
    if escaped {
        let offset = if total > 0 { total - 1 } else { 0 };
        return Err(
            QueryParseError {
                kind: QueryParseErrorKind::TrailingEscape,
                offset,
                token: None,
                message: "query cannot end with an escape character".to_string(),
            },
        );
    }
    if quoted {
        let offset = match start {
            Some(_) => start_byte,
            None => total,
        };
        return Err(
            QueryParseError {
                kind: QueryParseErrorKind::UnclosedQuote,
                offset,
                token: None,
                message: "query contains an unclosed double quote".to_string(),
            },
        );
    }
    finish_token(
        &mut tokens,
        &mut value,
        &mut start,
        start_byte,
        &mut end,
        end_byte,
        &mut units,
        Ghost(e@),
    );
    assert forall|k: int| 0 <= k < tokens@.len() implies token_bytes_wf(#[trigger] tokens@[k], e@) by {
        if k < before_tokens.len() {
            assert(tokens@[k] == before_tokens[k]);
        }
    }
    Ok(tokens)
}

} // verus!
