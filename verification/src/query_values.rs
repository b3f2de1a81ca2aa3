//! Values of the advanced filters: unsigned decimals with units, reduced ratios, instants,
//! comparison operators, and the intersection of range predicates.
use vstd::prelude::*;

use crate::query_model::{
    Member, QueryParseErrorKind, Ratio, RangeBound, RangeConstraint,
};
use crate::text::{
    after_prefix, before_suffix, chars_of, has_prefix, has_suffix, is_alpha_char, is_digit_char,
    strip_literal, strip_literal_suffix,
};

verus! {

/// A failed parse step: the error kind and a message for people.
pub type Failure = (QueryParseErrorKind, &'static str);

pub open spec fn all_digits(s: Seq<char>) -> bool {
    forall|i: int| 0 <= i < s.len() ==> is_digit_char(#[trigger] s[i])
}

pub open spec fn any_alpha(s: Seq<char>) -> bool {
    exists|i: int| 0 <= i < s.len() && is_alpha_char(#[trigger] s[i])
}

/// The number written by a string of decimal digits.
pub open spec fn digits_value(s: Seq<char>) -> nat
    decreases s.len(),
{
    if s.len() == 0 {
        0
    } else {
        digits_value(s.drop_last()) * 10 + ((s.last() as u32) - ('0' as u32)) as nat
    }
}

/// An unsigned decimal integer: digits only, at most `u64::MAX`.
pub open spec fn decimal_spec(s: Seq<char>) -> Result<u64, QueryParseErrorKind> {
    if s.len() == 0 || !all_digits(s) {
        Err(QueryParseErrorKind::InvalidInteger)
    } else if digits_value(s) > u64::MAX {
        Err(QueryParseErrorKind::NumericOverflow)
    } else {
        Ok(digits_value(s) as u64)
    }
}

pub proof fn lemma_digits_value_prefix(s: Seq<char>, i: int)
    requires
        0 <= i <= s.len(),
        all_digits(s),
    ensures
        digits_value(s.subrange(0, i)) <= digits_value(s),
    decreases s.len() - i,
{
    if i < s.len() {
        lemma_digits_value_prefix(s, i + 1);
        assert(s.subrange(0, i + 1).drop_last() =~= s.subrange(0, i));
        assert(is_digit_char(s[i]));
    } else {
        assert(s.subrange(0, i) =~= s);
    }
}

fn all_digits_exec(s: &[char]) -> (r: bool)
    ensures
        r == all_digits(s@),
{
    let mut i: usize = 0;
    while i < s.len()
        invariant
            i <= s.len(),
            forall|j: int| 0 <= j < i ==> is_digit_char(#[trigger] s@[j]),
        decreases s.len() - i,
    {
        if !('0' <= s[i] && s[i] <= '9') {
            return false;
        }
        i = i + 1;
    }
    true
}

/// `parse_decimal`: an unsigned decimal integer.
pub fn parse_decimal(s: &[char]) -> (r: Result<u64, Failure>)
    ensures
        match decimal_spec(s@) {
            Ok(n) => r == Ok::<u64, Failure>(n),
            Err(k) => r matches Err(f) && f.0 == k,
        },
{
    if s.len() == 0 || !all_digits_exec(s) {
        return Err((QueryParseErrorKind::InvalidInteger, "value must be an unsigned decimal integer"));
    }
    let mut n: u64 = 0;
    let mut i: usize = 0;
    while i < s.len()
        invariant
            i <= s.len(),
            all_digits(s@),
            n == digits_value(s@.subrange(0, i as int)),
        decreases s.len() - i,
    {
        assert(s@.subrange(0, i + 1).drop_last() =~= s@.subrange(0, i as int));
        assert(is_digit_char(s@[i as int]));
        let d = ((s[i] as u32) - ('0' as u32)) as u64;
        proof {
            lemma_digits_value_prefix(s@, i + 1);
        }
        if n > (u64::MAX - d) / 10 {
            assert(digits_value(s@.subrange(0, i + 1)) > u64::MAX) by (nonlinear_arith)
                requires
                    n > (u64::MAX - d) / 10,
                    digits_value(s@.subrange(0, i + 1)) == n * 10 + d,
                    d <= 9,
            ;
            return Err((QueryParseErrorKind::NumericOverflow, "integer could not be represented"));
        }
        assert(n * 10 + d <= u64::MAX) by (nonlinear_arith)
            requires
                n <= (u64::MAX - d) / 10,
                d <= 9,
        ;
        n = n * 10 + d;
        i = i + 1;
    }
    assert(s@.subrange(0, s.len() as int) =~= s@);
    Ok(n)
}

/// `u32::from_str`: an optional `+` followed by decimal digits, at most `u32::MAX`.
pub open spec fn u32_text(s: Seq<char>) -> Option<u32> {
    let d = if s.len() > 0 && s[0] == '+' {
        s.drop_first()
    } else {
        s
    };
    if d.len() == 0 || !all_digits(d) || digits_value(d) > u32::MAX {
        None
    } else {
        Some(digits_value(d) as u32)
    }
}

pub fn parse_u32(s: &[char]) -> (r: Option<u32>)
    ensures
        r == u32_text(s@),
{
    let d = if s.len() > 0 && s[0] == '+' {
        crate::text::subslice(s, 1, s.len())
    } else {
        crate::text::subslice(s, 0, s.len())
    };
    assert(s@.subrange(0, s@.len() as int) =~= s@);
    assert(s@.len() > 0 ==> s@.subrange(1, s@.len() as int) =~= s@.drop_first());
    match parse_decimal(&d) {
        Ok(n) => {
            if n <= u32::MAX as u64 {
                Some(n as u32)
            } else {
                None
            }
        },
        Err(_) => None,
    }
}

/// The greatest common divisor, by Euclid's algorithm.
pub open spec fn gcd(a: nat, b: nat) -> nat
    decreases b,
{
    if b == 0 {
        a
    } else {
        gcd(b, a % b)
    }
}

pub proof fn lemma_gcd_bounds(a: nat, b: nat)
    requires
        a > 0 || b > 0,
    ensures
        gcd(a, b) > 0,
        b > 0 ==> gcd(a, b) <= b,
        a > 0 && b == 0 ==> gcd(a, b) == a,
    decreases b,
{
    if b > 0 {
        lemma_gcd_bounds(b, a % b);
    }
}

pub fn greatest_common_divisor(left: u32, right: u32) -> (g: u32)
    ensures
        g == gcd(left as nat, right as nat),
{
    let mut a = left;
    let mut b = right;
    while b != 0
        invariant
            gcd(a as nat, b as nat) == gcd(left as nat, right as nat),
        decreases b,
    {
        let t = a % b;
        a = b;
        b = t;
    }
    a
}

/// `aspect:` values: a fraction of two integers in `1..=1000000`, reduced to lowest terms.
pub open spec fn ratio_spec(v: Seq<char>) -> Option<Ratio> {
    match crate::text::find_char(v, '/') {
        None => None,
        Some(i) => {
            let n = v.subrange(0, i);
            let d = v.subrange(i + 1, v.len() as int);
            if d.contains('/') {
                None
            } else {
                match (u32_text(n), u32_text(d)) {
                    (Some(a), Some(b)) => if 1 <= a <= 1_000_000 && 1 <= b <= 1_000_000 {
                        let g = gcd(a as nat, b as nat);
                        Some(Ratio { numerator: (a as nat / g) as u32, denominator: (b as nat / g) as u32 })
                    } else {
                        None
                    },
                    _ => None,
                }
            }
        },
    }
}

pub fn parse_ratio(v: &[char]) -> (r: Result<Ratio, Failure>)
    ensures
        match ratio_spec(v@) {
            Some(x) => r == Ok::<Ratio, Failure>(x),
            None => r matches Err(f) && f.0 == QueryParseErrorKind::InvalidRatio,
        },
{
    let invalid = (
        QueryParseErrorKind::InvalidRatio,
        "aspect requires a positive fraction with components at most 1000000",
    );
    proof {
        crate::text::lemma_find_char(v@, '/');
    }
    let i = match crate::text::find_char_exec(v, '/') {
        Some(i) => i,
        None => return Err(invalid),
    };
    let len = v.len();
    let n = crate::text::subslice(v, 0, i);
    let d = crate::text::subslice(v, i + 1, len);
    if crate::text::contains_char(&d, '/') {
        return Err(invalid);
    }
    let a = match parse_u32(&n) {
        Some(a) => a,
        None => return Err(invalid),
    };
    let b = match parse_u32(&d) {
        Some(b) => b,
        None => return Err(invalid),
    };
    if !(1 <= a && a <= 1_000_000 && 1 <= b && b <= 1_000_000) {
        return Err(invalid);
    }
    let g = greatest_common_divisor(a, b);
    proof {
        lemma_gcd_bounds(a as nat, b as nat);
    }
    Ok(Ratio { numerator: a / g, denominator: b / g })
}

/// `rating:` values: a decimal in `0..=5`.
pub open spec fn rating_spec(v: Seq<char>) -> Result<u64, QueryParseErrorKind> {
    match decimal_spec(v) {
        Err(k) => Err(k),
        Ok(n) => if n > 5 {
            Err(QueryParseErrorKind::InvalidInteger)
        } else {
            Ok(n)
        },
    }
}

/// `width:`, `height:` and `pages:` values: a decimal greater than zero.
pub open spec fn positive_spec(v: Seq<char>) -> Result<u64, QueryParseErrorKind> {
    match decimal_spec(v) {
        Err(k) => Err(k),
        Ok(n) => if n == 0 {
            Err(QueryParseErrorKind::InvalidInteger)
        } else {
            Ok(n)
        },
    }
}

pub fn parse_rating(v: &[char]) -> (r: Result<u64, Failure>)
    ensures
        match rating_spec(v@) {
            Ok(n) => r == Ok::<u64, Failure>(n),
            Err(k) => r matches Err(f) && f.0 == k,
        },
{
    let n = parse_decimal(v)?;
    if n > 5 {
        return Err((QueryParseErrorKind::InvalidInteger, "rating must be between 0 and 5"));
    }
    Ok(n)
}

pub fn parse_positive_integer(v: &[char], message: &'static str) -> (r: Result<u64, Failure>)
    ensures
        match positive_spec(v@) {
            Ok(n) => r == Ok::<u64, Failure>(n),
            Err(k) => r matches Err(f) && f.0 == k,
        },
{
    let n = parse_decimal(v)?;
    if n == 0 {
        return Err((QueryParseErrorKind::InvalidInteger, message));
    }
    Ok(n)
}

/// A number with a unit suffix, scaled by the unit's multiplier without overflow.
pub open spec fn scaled_spec(number: Seq<char>, multiplier: u64) -> Result<u64, QueryParseErrorKind> {
    if any_alpha(number) {
        Err(QueryParseErrorKind::InvalidUnit)
    } else {
        match decimal_spec(number) {
            Err(k) => Err(k),
            Ok(n) => if n * multiplier > u64::MAX {
                Err(QueryParseErrorKind::NumericOverflow)
            } else {
                Ok((n * multiplier) as u64)
            },
        }
    }
}

/// `size:` values: bytes, with an optional `TiB`, `GiB`, `MiB`, `KiB` or `B` suffix (tried
/// in that order).
pub open spec fn size_spec(v: Seq<char>) -> Result<u64, QueryParseErrorKind> {
    if has_suffix(v, "TiB"@) {
        scaled_spec(before_suffix(v, "TiB"@), 1_099_511_627_776)
    } else if has_suffix(v, "GiB"@) {
        scaled_spec(before_suffix(v, "GiB"@), 1_073_741_824)
    } else if has_suffix(v, "MiB"@) {
        scaled_spec(before_suffix(v, "MiB"@), 1_048_576)
    } else if has_suffix(v, "KiB"@) {
        scaled_spec(before_suffix(v, "KiB"@), 1024)
    } else if has_suffix(v, "B"@) {
        scaled_spec(before_suffix(v, "B"@), 1)
    } else {
        scaled_spec(v, 1)
    }
}

/// `duration:` values: milliseconds, with an optional `min`, `ms`, `s` or `h` suffix (tried
/// in that order).
pub open spec fn duration_spec(v: Seq<char>) -> Result<u64, QueryParseErrorKind> {
    if has_suffix(v, "min"@) {
        scaled_spec(before_suffix(v, "min"@), 60_000)
    } else if has_suffix(v, "ms"@) {
        scaled_spec(before_suffix(v, "ms"@), 1)
    } else if has_suffix(v, "s"@) {
        scaled_spec(before_suffix(v, "s"@), 1000)
    } else if has_suffix(v, "h"@) {
        scaled_spec(before_suffix(v, "h"@), 3_600_000)
    } else {
        scaled_spec(v, 1)
    }
}

proof fn lemma_not_suffix(v: Seq<char>, w: Seq<char>, k: int)
    requires
        0 < k <= w.len(),
        k <= v.len(),
        v[v.len() - k] != w[w.len() - k],
    ensures
        !has_suffix(v, w),
{
    if has_suffix(v, w) {
        assert(v.subrange(v.len() - w.len(), v.len() as int)[w.len() - k] == v[v.len() - k]);
    }
}

proof fn lemma_unit_suffix(d: Seq<char>, u: Seq<char>)
    ensures
        has_suffix(d + u, u),
        before_suffix(d + u, u) == d,
{
    assert((d + u).subrange(d.len() as int, (d + u).len() as int) =~= u);
    assert(before_suffix(d + u, u) =~= d);
}

/// Digits hold no letter, so a number of digits scales by its unit.
proof fn lemma_scaled_digits(d: Seq<char>, m: u64)
    requires
        d.len() > 0,
        all_digits(d),
        m > 0,
    ensures
        digits_value(d) * m <= u64::MAX ==> scaled_spec(d, m) == Ok::<u64, QueryParseErrorKind>((digits_value(d) * m) as u64),
{
    assert(!any_alpha(d)) by {
        if any_alpha(d) {
            let i = choose|i: int| 0 <= i < d.len() && is_alpha_char(#[trigger] d[i]);
            assert(is_digit_char(d[i]));
        }
    }
    assert(digits_value(d) <= digits_value(d) * m) by (nonlinear_arith)
        requires
            m > 0,
    ;
}

/// A duration written as a number of digits and a unit is that many units, in
/// milliseconds, for every number that fits: `ms` is milliseconds (not seconds of
/// `…m`), `s` seconds, `min` minutes, `h` hours, and no unit milliseconds.
pub proof fn lemma_duration_units(d: Seq<char>)
    requires
        d.len() > 0,
        all_digits(d),
    ensures
        digits_value(d) <= u64::MAX ==> duration_spec(d) == Ok::<u64, QueryParseErrorKind>(digits_value(d) as u64),
        digits_value(d) <= u64::MAX ==> duration_spec(d + "ms"@) == Ok::<u64, QueryParseErrorKind>(digits_value(d) as u64),
        digits_value(d) * 1000 <= u64::MAX ==> duration_spec(d + "s"@) == Ok::<u64, QueryParseErrorKind>(
            (digits_value(d) * 1000) as u64,
        ),
        digits_value(d) * 60000 <= u64::MAX ==> duration_spec(d + "min"@) == Ok::<u64, QueryParseErrorKind>(
            (digits_value(d) * 60000) as u64,
        ),
        digits_value(d) * 3600000 <= u64::MAX ==> duration_spec(d + "h"@) == Ok::<u64, QueryParseErrorKind>(
            (digits_value(d) * 3600000) as u64,
        ),
{
    reveal_strlit("min");
    reveal_strlit("ms");
    reveal_strlit("s");
    reveal_strlit("h");
    assert("min"@ =~= seq!['m', 'i', 'n']);
    assert("ms"@ =~= seq!['m', 's']);
    assert("s"@ =~= seq!['s']);
    assert("h"@ =~= seq!['h']);
    lemma_scaled_digits(d, 1);
    lemma_scaled_digits(d, 1000);
    lemma_scaled_digits(d, 60000);
    lemma_scaled_digits(d, 3600000);
    let last = d[d.len() - 1];
    assert(is_digit_char(last));
    lemma_not_suffix(d, "min"@, 1);
    lemma_not_suffix(d, "ms"@, 1);
    lemma_not_suffix(d, "s"@, 1);
    lemma_not_suffix(d, "h"@, 1);
    let ms = d + "ms"@;
    assert(ms[ms.len() - 1] == 's');
    lemma_not_suffix(ms, "min"@, 1);
    lemma_unit_suffix(d, "ms"@);
    let sec = d + "s"@;
    assert(sec[sec.len() - 1] == 's');
    assert(sec[sec.len() - 2] == last);
    lemma_not_suffix(sec, "min"@, 1);
    lemma_not_suffix(sec, "ms"@, 2);
    lemma_unit_suffix(d, "s"@);
    lemma_unit_suffix(d, "min"@);
    let hr = d + "h"@;
    assert(hr[hr.len() - 1] == 'h');
    lemma_not_suffix(hr, "min"@, 1);
    lemma_not_suffix(hr, "ms"@, 1);
    lemma_not_suffix(hr, "s"@, 1);
    lemma_unit_suffix(d, "h"@);
}

/// A size written as a number of digits and a unit is that many units, in bytes, for
/// every number that fits: `B` bytes, `KiB`, `MiB`, `GiB` and `TiB` their binary
/// multiples, and no unit bytes.
pub proof fn lemma_size_units(d: Seq<char>)
    requires
        d.len() > 0,
        all_digits(d),
    ensures
        digits_value(d) <= u64::MAX ==> size_spec(d) == Ok::<u64, QueryParseErrorKind>(digits_value(d) as u64),
        digits_value(d) <= u64::MAX ==> size_spec(d + "B"@) == Ok::<u64, QueryParseErrorKind>(digits_value(d) as u64),
        digits_value(d) * 1024 <= u64::MAX ==> size_spec(d + "KiB"@) == Ok::<u64, QueryParseErrorKind>(
            (digits_value(d) * 1024) as u64,
        ),
        digits_value(d) * 1048576 <= u64::MAX ==> size_spec(d + "MiB"@) == Ok::<u64, QueryParseErrorKind>(
            (digits_value(d) * 1048576) as u64,
        ),
        digits_value(d) * 1073741824 <= u64::MAX ==> size_spec(d + "GiB"@) == Ok::<u64, QueryParseErrorKind>(
            (digits_value(d) * 1073741824) as u64,
        ),
        digits_value(d) * 1099511627776 <= u64::MAX ==> size_spec(d + "TiB"@) == Ok::<u64, QueryParseErrorKind>(
            (digits_value(d) * 1099511627776) as u64,
        ),
{
    reveal_strlit("TiB");
    reveal_strlit("GiB");
    reveal_strlit("MiB");
    reveal_strlit("KiB");
    reveal_strlit("B");
    assert("TiB"@ =~= seq!['T', 'i', 'B']);
    assert("GiB"@ =~= seq!['G', 'i', 'B']);
    assert("MiB"@ =~= seq!['M', 'i', 'B']);
    assert("KiB"@ =~= seq!['K', 'i', 'B']);
    assert("B"@ =~= seq!['B']);
    lemma_scaled_digits(d, 1);
    lemma_scaled_digits(d, 1024);
    lemma_scaled_digits(d, 1048576);
    lemma_scaled_digits(d, 1073741824);
    lemma_scaled_digits(d, 1099511627776);
    let last = d[d.len() - 1];
    assert(is_digit_char(last));
    lemma_not_suffix(d, "TiB"@, 1);
    lemma_not_suffix(d, "GiB"@, 1);
    lemma_not_suffix(d, "MiB"@, 1);
    lemma_not_suffix(d, "KiB"@, 1);
    lemma_not_suffix(d, "B"@, 1);
    let b = d + "B"@;
    assert(b[b.len() - 2] == last);
    lemma_not_suffix(b, "TiB"@, 2);
    lemma_not_suffix(b, "GiB"@, 2);
    lemma_not_suffix(b, "MiB"@, 2);
    lemma_not_suffix(b, "KiB"@, 2);
    lemma_unit_suffix(d, "B"@);
    let k = d + "KiB"@;
    assert(k[k.len() - 3] == 'K');
    lemma_not_suffix(k, "TiB"@, 3);
    lemma_not_suffix(k, "GiB"@, 3);
    lemma_not_suffix(k, "MiB"@, 3);
    lemma_unit_suffix(d, "KiB"@);
    let m = d + "MiB"@;
    assert(m[m.len() - 3] == 'M');
    lemma_not_suffix(m, "TiB"@, 3);
    lemma_not_suffix(m, "GiB"@, 3);
    lemma_unit_suffix(d, "MiB"@);
    let g = d + "GiB"@;
    assert(g[g.len() - 3] == 'G');
    lemma_not_suffix(g, "TiB"@, 3);
    lemma_unit_suffix(d, "GiB"@);
    lemma_unit_suffix(d, "TiB"@);
}

fn any_alpha_exec(s: &[char]) -> (r: bool)
    ensures
        r == any_alpha(s@),
{
    let mut i: usize = 0;
    while i < s.len()
        invariant
            i <= s.len(),
            forall|j: int| 0 <= j < i ==> !is_alpha_char(#[trigger] s@[j]),
        decreases s.len() - i,
    {
        let c = s[i];
        if ('a' <= c && c <= 'z') || ('A' <= c && c <= 'Z') {
            assert(is_alpha_char(s@[i as int]));
            return true;
        }
        i = i + 1;
    }
    false
}

fn parse_scaled(number: &[char], multiplier: u64) -> (r: Result<u64, Failure>)
    ensures
        match scaled_spec(number@, multiplier) {
            Ok(n) => r == Ok::<u64, Failure>(n),
            Err(k) => r matches Err(f) && f.0 == k,
        },
{
    if any_alpha_exec(number) {
        return Err((QueryParseErrorKind::InvalidUnit, "unit suffix is not supported or has the wrong case"));
    }
    let n = parse_decimal(number)?;
    match n.checked_mul(multiplier) {
        Some(x) => Ok(x),
        None => Err((QueryParseErrorKind::NumericOverflow, "numeric value exceeds the supported integer range")),
    }
}

pub fn parse_size(v: &[char]) -> (r: Result<u64, Failure>)
    ensures
        match size_spec(v@) {
            Ok(n) => r == Ok::<u64, Failure>(n),
            Err(k) => r matches Err(f) && f.0 == k,
        },
{
    if let Some(n) = strip_literal_suffix(v, "TiB") {
        parse_scaled(&n, 1_099_511_627_776)
    } else if let Some(n) = strip_literal_suffix(v, "GiB") {
        parse_scaled(&n, 1_073_741_824)
    } else if let Some(n) = strip_literal_suffix(v, "MiB") {
        parse_scaled(&n, 1_048_576)
    } else if let Some(n) = strip_literal_suffix(v, "KiB") {
        parse_scaled(&n, 1024)
    } else if let Some(n) = strip_literal_suffix(v, "B") {
        parse_scaled(&n, 1)
    } else {
        parse_scaled(v, 1)
    }
}

pub fn parse_duration(v: &[char]) -> (r: Result<u64, Failure>)
    ensures
        match duration_spec(v@) {
            Ok(n) => r == Ok::<u64, Failure>(n),
            Err(k) => r matches Err(f) && f.0 == k,
        },
{
    if let Some(n) = strip_literal_suffix(v, "min") {
        parse_scaled(&n, 60_000)
    } else if let Some(n) = strip_literal_suffix(v, "ms") {
        parse_scaled(&n, 1)
    } else if let Some(n) = strip_literal_suffix(v, "s") {
        parse_scaled(&n, 1000)
    } else if let Some(n) = strip_literal_suffix(v, "h") {
        parse_scaled(&n, 3_600_000)
    } else {
        parse_scaled(v, 1)
    }
}

/// Division that rounds toward zero, as Rust's `/` on signed integers does.
pub open spec fn trunc_div(a: int, b: int) -> int
    recommends
        b > 0,
{
    if a >= 0 {
        a / b
    } else {
        -((-a) / b)
    }
}

/// Unix milliseconds of an instant given as whole seconds and a sub-second part in
/// nanoseconds, truncated toward zero; `None` outside the `i64` range.
pub open spec fn millis_spec(seconds: i64, nanos: u32) -> Option<i64> {
    let ms = trunc_div(seconds * 1_000_000_000 + nanos, 1_000_000);
    if i64::MIN <= ms <= i64::MAX {
        Some(ms as i64)
    } else {
        None
    }
}

pub fn instant_millis(seconds: i64, nanos: u32) -> (r: Option<i64>)
    ensures
        r == millis_spec(seconds, nanos),
{
    let total: i128 = (seconds as i128) * 1_000_000_000 + (nanos as i128);
    let ms: i128 = if total >= 0 {
        total / 1_000_000
    } else {
        -((-total) / 1_000_000)
    };
    if (i64::MIN as i128) <= ms && ms <= (i64::MAX as i128) {
        Some(ms as i64)
    } else {
        None
    }
}

/// What `chrono::DateTime::parse_from_rfc3339` gives for a text: the instant as whole Unix
/// seconds and the nanoseconds within the second, or nothing when it rejects the text.
pub uninterp spec fn rfc3339_instant(text: Seq<char>) -> Option<(i64, u32)>;

/// `chrono::DateTime::parse_from_rfc3339`, read as Unix seconds and sub-second nanoseconds.
/// Trusted: its result is the named `rfc3339_instant` of the text; nothing more is claimed.
#[verifier::external_body]
fn rfc3339_parts(text: &[char]) -> (r: Option<(i64, u32)>)
    ensures
        r == rfc3339_instant(text@),
{
    let owned: String = text.iter().collect();
    match chrono::DateTime::parse_from_rfc3339(&owned) {
        Ok(instant) => Some((instant.timestamp(), instant.timestamp_subsec_nanos())),
        Err(_) => None,
    }
}

/// `created:` and `modified:` values: an RFC 3339 instant as Unix milliseconds.
pub open spec fn instant_spec(v: Seq<char>) -> Result<i64, QueryParseErrorKind> {
    match rfc3339_instant(v) {
        None => Err(QueryParseErrorKind::InvalidDate),
        Some((s, n)) => match millis_spec(s, n) {
            Some(ms) => Ok(ms),
            None => Err(QueryParseErrorKind::NumericOverflow),
        },
    }
}

pub fn parse_instant(v: &[char]) -> (r: Result<i64, Failure>)
    ensures
        match instant_spec(v@) {
            Ok(n) => r == Ok::<i64, Failure>(n),
            Err(k) => r matches Err(f) && f.0 == k,
        },
{
    match rfc3339_parts(v) {
        None => Err((QueryParseErrorKind::InvalidDate, "date must be RFC 3339 with an explicit offset")),
        Some((s, n)) => match instant_millis(s, n) {
            Some(ms) => Ok(ms),
            None => Err((QueryParseErrorKind::NumericOverflow, "date is outside the supported Unix millisecond range")),
        },
    }
}

#[derive(Debug, Clone, Copy, PartialEq, Eq, Structural)]
pub enum ComparisonOperator {
    Equal,
    Less,
    LessOrEqual,
    Greater,
    GreaterOrEqual,
}

pub open spec fn is_operator_char(c: char) -> bool {
    c == '=' || c == '<' || c == '>' || c == '!' || c == '~'
}

/// The leading comparison operator of a filter value (`=` when there is none) and the value
/// after it, which must be non-empty and not start with another operator character.
pub open spec fn split_operator_spec(v: Seq<char>) -> Result<
    (ComparisonOperator, Seq<char>),
    QueryParseErrorKind,
> {
    let split = if has_prefix(v, ">="@) {
        Some((ComparisonOperator::GreaterOrEqual, after_prefix(v, ">="@)))
    } else if has_prefix(v, "<="@) {
        Some((ComparisonOperator::LessOrEqual, after_prefix(v, "<="@)))
    } else if v.len() > 0 && v[0] == '>' {
        Some((ComparisonOperator::Greater, v.drop_first()))
    } else if v.len() > 0 && v[0] == '<' {
        Some((ComparisonOperator::Less, v.drop_first()))
    } else if v.len() > 0 && v[0] == '=' {
        Some((ComparisonOperator::Equal, v.drop_first()))
    } else if v.len() > 0 && (v[0] == '!' || v[0] == '~') {
        None
    } else {
        Some((ComparisonOperator::Equal, v))
    };
    match split {
        None => Err(QueryParseErrorKind::InvalidOperator),
        Some((op, rest)) => if rest.len() == 0 || is_operator_char(rest[0]) {
            Err(QueryParseErrorKind::InvalidOperator)
        } else {
            Ok((op, rest))
        },
    }
}

pub fn split_operator(v: &[char]) -> (r: Result<(ComparisonOperator, Vec<char>), Failure>)
    ensures
        match split_operator_spec(v@) {
            Ok((op, rest)) => r matches Ok((o, x)) && o == op && x@ == rest,
            Err(k) => r matches Err(f) && f.0 == k,
        },
{
    let (op, rest) = if let Some(x) = strip_literal(v, ">=") {
        (ComparisonOperator::GreaterOrEqual, x)
    } else if let Some(x) = strip_literal(v, "<=") {
        (ComparisonOperator::LessOrEqual, x)
    } else if v.len() > 0 && v[0] == '>' {
        (ComparisonOperator::Greater, crate::text::subslice(v, 1, v.len()))
    } else if v.len() > 0 && v[0] == '<' {
        (ComparisonOperator::Less, crate::text::subslice(v, 1, v.len()))
    } else if v.len() > 0 && v[0] == '=' {
        (ComparisonOperator::Equal, crate::text::subslice(v, 1, v.len()))
    } else if v.len() > 0 && (v[0] == '!' || v[0] == '~') {
        return Err((QueryParseErrorKind::InvalidOperator, "operator must be =, <, <=, >, or >="));
    } else {
        (ComparisonOperator::Equal, crate::text::subslice(v, 0, v.len()))
    };
    assert(v@.subrange(0, v@.len() as int) =~= v@);
    assert(v@.len() > 0 ==> v@.subrange(1, v@.len() as int) =~= v@.drop_first());
    if rest.len() == 0 || rest[0] == '=' || rest[0] == '<' || rest[0] == '>' || rest[0] == '!'
        || rest[0] == '~' {
        return Err((QueryParseErrorKind::InvalidOperator, "operator must be followed by exactly one value"));
    }
    Ok((op, rest))
}

/// Values that range predicates compare: `above` is the strict order of the values.
pub trait RangeValue: Member {
    spec fn above(self, other: Self) -> bool;

    fn is_above(&self, other: &Self) -> (r: bool)
        ensures
            r == self.above(*other);
}

impl Member for u64 {
    fn same(&self, other: &Self) -> (r: bool) {
        *self == *other
    }
}

impl Member for i64 {
    fn same(&self, other: &Self) -> (r: bool) {
        *self == *other
    }
}

impl Member for Ratio {
    fn same(&self, other: &Self) -> (r: bool) {
        self.numerator == other.numerator && self.denominator == other.denominator
    }
}

impl RangeValue for u64 {
    open spec fn above(self, other: Self) -> bool {
        self > other
    }

    fn is_above(&self, other: &Self) -> (r: bool) {
        *self > *other
    }
}

impl RangeValue for i64 {
    open spec fn above(self, other: Self) -> bool {
        self > other
    }

    fn is_above(&self, other: &Self) -> (r: bool) {
        *self > *other
    }
}

/// Ratios are ordered by the value of the fraction.
impl RangeValue for Ratio {
    open spec fn above(self, other: Self) -> bool {
        self.numerator * other.denominator > other.numerator * self.denominator
    }

    fn is_above(&self, other: &Self) -> (r: bool) {
        let a = self.numerator as u64;
        let b = other.denominator as u64;
        let c = other.numerator as u64;
        let d = self.denominator as u64;
        assert(a * b <= u64::MAX && c * d <= u64::MAX) by (nonlinear_arith)
            requires
                a <= u32::MAX,
                b <= u32::MAX,
                c <= u32::MAX,
                d <= u32::MAX,
        ;
        a * b > c * d
    }
}

/// Tightens the lower bound with `value`.
pub open spec fn merge_lower<T: RangeValue>(r: RangeConstraint<T>, value: T, inclusive: bool) -> RangeConstraint<T> {
    let replace = match r.lower {
        None => true,
        Some(c) => value.above(c.value) || (value == c.value && !inclusive && c.inclusive),
    };
    if replace {
        RangeConstraint { lower: Some(RangeBound { value, inclusive }), upper: r.upper }
    } else {
        r
    }
}

/// Tightens the upper bound with `value`.
pub open spec fn merge_upper<T: RangeValue>(r: RangeConstraint<T>, value: T, inclusive: bool) -> RangeConstraint<T> {
    let replace = match r.upper {
        None => true,
        Some(c) => c.value.above(value) || (value == c.value && !inclusive && c.inclusive),
    };
    if replace {
        RangeConstraint { lower: r.lower, upper: Some(RangeBound { value, inclusive }) }
    } else {
        r
    }
}

/// The constraint after one predicate `op value`.
pub open spec fn apply_operator<T: RangeValue>(r: RangeConstraint<T>, op: ComparisonOperator, value: T) -> RangeConstraint<T> {
    match op {
        ComparisonOperator::Equal => merge_upper(merge_lower(r, value, true), value, true),
        ComparisonOperator::Less => merge_upper(r, value, false),
        ComparisonOperator::LessOrEqual => merge_upper(r, value, true),
        ComparisonOperator::Greater => merge_lower(r, value, false),
        ComparisonOperator::GreaterOrEqual => merge_lower(r, value, true),
    }
}

/// No value lies between the bounds.
pub open spec fn range_is_empty<T: RangeValue>(r: RangeConstraint<T>) -> bool {
    match (r.lower, r.upper) {
        (Some(l), Some(u)) => l.value.above(u.value) || (l.value == u.value && (!l.inclusive
            || !u.inclusive)),
        _ => false,
    }
}

/// The index of the entry for `key` in a keyed list.
pub open spec fn key_index<K, V>(s: Seq<(K, V)>, key: K) -> Option<int>
    decreases s.len(),
{
    if s.len() == 0 {
        None
    } else if s.last().0 == key {
        Some(s.len() - 1)
    } else {
        key_index(s.drop_last(), key)
    }
}

pub open spec fn has_key<K, V>(s: Seq<(K, V)>, key: K) -> bool {
    key_index(s, key) is Some
}

/// The constraint stored for `key`, unconstrained when there is none.
pub open spec fn constraint_of<K, T>(s: Seq<(K, RangeConstraint<T>)>, key: K) -> RangeConstraint<T> {
    match key_index(s, key) {
        Some(i) => s[i].1,
        None => RangeConstraint { lower: None, upper: None },
    }
}

/// Stores `c` for `key`, replacing an existing entry in place or appending a new one.
pub open spec fn store<K, V>(s: Seq<(K, V)>, key: K, c: V) -> Seq<(K, V)> {
    match key_index(s, key) {
        Some(i) => s.update(i, (key, c)),
        None => s.push((key, c)),
    }
}

/// `apply_range`: intersects the predicate with the constraint stored for the field, and
/// fails when the intersection is empty.
pub open spec fn apply_range_spec<K, T: RangeValue>(
    s: Seq<(K, RangeConstraint<T>)>,
    key: K,
    op: ComparisonOperator,
    value: T,
) -> Result<Seq<(K, RangeConstraint<T>)>, QueryParseErrorKind> {
    let next = apply_operator(constraint_of(s, key), op, value);
    if range_is_empty(next) {
        Err(QueryParseErrorKind::ConflictingRange)
    } else {
        Ok(store(s, key, next))
    }
}

pub proof fn lemma_key_index<K, V>(s: Seq<(K, V)>, key: K)
    ensures
        key_index(s, key) matches Some(i) ==> 0 <= i < s.len() && s[i].0 == key,
        key_index(s, key) is None ==> forall|j: int| 0 <= j < s.len() ==> s[j].0 != key,
    decreases s.len(),
{
    if s.len() > 0 && s.last().0 != key {
        lemma_key_index(s.drop_last(), key);
        if key_index(s, key) is None {
            assert forall|j: int| 0 <= j < s.len() implies s[j].0 != key by {
                if j < s.len() - 1 {
                    assert(s[j] == s.drop_last()[j]);
                }
            }
        }
    }
}

pub fn find_key<K: Member, V: Copy>(s: &Vec<(K, V)>, key: K) -> (r: Option<usize>)
    ensures
        r is None <==> key_index(s@, key) is None,
        r matches Some(i) ==> key_index(s@, key) == Some(i as int),
{
    let mut i = s.len();
    assert(s@.subrange(0, i as int) =~= s@);
    while i > 0
        invariant
            i <= s.len(),
            key_index(s@, key) == key_index(s@.subrange(0, i as int), key),
        decreases i,
    {
        assert(s@.subrange(0, i as int).drop_last() =~= s@.subrange(0, i - 1));
        if s[i - 1].0.same(&key) {
            return Some(i - 1);
        }
        i = i - 1;
    }
    None
}

fn merge_lower_exec<T: RangeValue>(r: RangeConstraint<T>, value: T, inclusive: bool) -> (out: RangeConstraint<T>)
    ensures
        out == merge_lower(r, value, inclusive),
{
    let replace = match r.lower {
        None => true,
        Some(c) => value.is_above(&c.value) || (value.same(&c.value) && !inclusive && c.inclusive),
    };
    if replace {
        RangeConstraint { lower: Some(RangeBound { value, inclusive }), upper: r.upper }
    } else {
        r
    }
}

fn merge_upper_exec<T: RangeValue>(r: RangeConstraint<T>, value: T, inclusive: bool) -> (out: RangeConstraint<T>)
    ensures
        out == merge_upper(r, value, inclusive),
{
    let replace = match r.upper {
        None => true,
        Some(c) => c.value.is_above(&value) || (value.same(&c.value) && !inclusive && c.inclusive),
    };
    if replace {
        RangeConstraint { lower: r.lower, upper: Some(RangeBound { value, inclusive }) }
    } else {
        r
    }
}

pub fn range_is_empty_exec<T: RangeValue>(r: &RangeConstraint<T>) -> (b: bool)
    ensures
        b == range_is_empty(*r),
{
    match (r.lower, r.upper) {
        (Some(l), Some(u)) => l.value.is_above(&u.value) || (l.value.same(&u.value) && (!l.inclusive
            || !u.inclusive)),
        _ => false,
    }
}

/// Intersects the predicate `op value` with the constraint stored for `key`.
pub fn apply_range<K: Member, T: RangeValue>(
    ranges: &mut Vec<(K, RangeConstraint<T>)>,
    key: K,
    op: ComparisonOperator,
    value: T,
) -> (r: Result<(), Failure>)
    ensures
        match apply_range_spec(old(ranges)@, key, op, value) {
            Ok(s) => r is Ok && final(ranges)@ == s,
            Err(k) => r matches Err(f) && f.0 == k,
        },
{
    proof {
        lemma_key_index(ranges@, key);
    }
    let found = find_key(ranges, key);
    let current = match found {
        Some(i) => {
            let entry = ranges[i];
            assert(entry == ranges@[i as int]);
            entry.1
        },
        None => RangeConstraint { lower: None, upper: None },
    };
    let next = match op {
        ComparisonOperator::Equal => merge_upper_exec(merge_lower_exec(current, value, true), value, true),
        ComparisonOperator::Less => merge_upper_exec(current, value, false),
        ComparisonOperator::LessOrEqual => merge_upper_exec(current, value, true),
        ComparisonOperator::Greater => merge_lower_exec(current, value, false),
        ComparisonOperator::GreaterOrEqual => merge_lower_exec(current, value, true),
    };
    assert(current == constraint_of(ranges@, key));
    assert(next == apply_operator(constraint_of(ranges@, key), op, value));
    if range_is_empty_exec(&next) {
        return Err((QueryParseErrorKind::ConflictingRange, "range predicates have an empty intersection"));
    }
    match found {
        Some(i) => {
            ranges.set(i, (key, next));
        },
        None => {
            ranges.push((key, next));
        },
    }
    Ok(())
}

} // verus!
