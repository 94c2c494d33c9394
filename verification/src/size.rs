//! Human size strings ("1MiB", "500k", "1048576") and the token estimate.

use vstd::prelude::*;
use vstd::arithmetic::div_mod::{lemma_div_denominator, lemma_hoist_over_denominator};

use crate::text::{chars_lt, chars_of, lex_lt, string_from_chars};

verus! {

/// `char::is_whitespace`: the Unicode `White_Space` property.
pub open spec fn is_whitespace(c: char) -> bool {
    ||| ('\t' <= c && c <= '\r')
    ||| c == ' '
    ||| c == '\u{85}'
    ||| c == '\u{a0}'
    ||| c == '\u{1680}'
    ||| ('\u{2000}' <= c && c <= '\u{200a}')
    ||| c == '\u{2028}'
    ||| c == '\u{2029}'
    ||| c == '\u{202f}'
    ||| c == '\u{205f}'
    ||| c == '\u{3000}'
}

fn char_is_whitespace(c: char) -> (r: bool)
    ensures
        r == is_whitespace(c),
{
    ('\t' <= c && c <= '\r') || c == ' ' || c == '\u{85}' || c == '\u{a0}' || c == '\u{1680}'
        || ('\u{2000}' <= c && c <= '\u{200a}') || c == '\u{2028}' || c == '\u{2029}' || c
        == '\u{202f}' || c == '\u{205f}' || c == '\u{3000}'
}

/// `s` without its leading whitespace.
pub open spec fn trim_start(s: Seq<char>) -> Seq<char>
    decreases s.len(),
{
    if s.len() > 0 && is_whitespace(s[0]) {
        trim_start(s.drop_first())
    } else {
        s
    }
}

/// `s` without its trailing whitespace.
pub open spec fn trim_end(s: Seq<char>) -> Seq<char>
    decreases s.len(),
{
    if s.len() > 0 && is_whitespace(s.last()) {
        trim_end(s.drop_last())
    } else {
        s
    }
}

/// `str::trim`: `s` without leading and trailing whitespace.
pub open spec fn trim(s: Seq<char>) -> Seq<char> {
    trim_end(trim_start(s))
}

proof fn lemma_trim_start_skip(s: Seq<char>, i: int)
    requires
        0 <= i <= s.len(),
        forall|j: int| 0 <= j < i ==> is_whitespace(#[trigger] s[j]),
    ensures
        trim_start(s) == trim_start(s.skip(i)),
    decreases i,
{
    if i > 0 {
        assert forall|j: int| 0 <= j < i - 1 implies is_whitespace(#[trigger] s.drop_first()[j]) by {
            assert(s.drop_first()[j] == s[j + 1]);
        }
        lemma_trim_start_skip(s.drop_first(), i - 1);
        assert(s.drop_first().skip(i - 1) =~= s.skip(i));
    } else {
        assert(s.skip(0) =~= s);
    }
}

proof fn lemma_trim_end_take(s: Seq<char>, j: int)
    requires
        0 <= j <= s.len(),
        forall|k: int| j <= k < s.len() ==> is_whitespace(#[trigger] s[k]),
    ensures
        trim_end(s) == trim_end(s.take(j)),
    decreases s.len() - j,
{
    if j < s.len() {
        assert(s.last() == s[s.len() - 1]);
        assert forall|k: int| j <= k < s.drop_last().len() implies is_whitespace(#[trigger] s.drop_last()[k]) by {
            assert(s.drop_last()[k] == s[k]);
        }
        lemma_trim_end_take(s.drop_last(), j);
        assert(s.drop_last().take(j) =~= s.take(j));
    } else {
        assert(s.take(j) =~= s);
    }
}

/// The characters of `v` from `from` up to (not including) `to`.
fn copy_range(v: &Vec<char>, from: usize, to: usize) -> (r: Vec<char>)
    requires
        from <= to <= v@.len(),
    ensures
        r@ == v@.subrange(from as int, to as int),
{
    let mut r: Vec<char> = Vec::new();
    let mut i: usize = from;
    while i < to
        invariant
            from <= i <= to <= v@.len(),
            r@ == v@.subrange(from as int, i as int),
        decreases to - i,
    {
        r.push(v[i]);
        i = i + 1;
        assert(r@ =~= v@.subrange(from as int, i as int));
    }
    r
}

/// `v` without leading and trailing whitespace.
fn trim_chars(v: &Vec<char>) -> (r: Vec<char>)
    ensures
        r@ == trim(v@),
{
    let mut i: usize = 0;
    while i < v.len() && char_is_whitespace(v[i])
        invariant
            i <= v@.len(),
            forall|j: int| 0 <= j < i ==> is_whitespace(#[trigger] v@[j]),
        decreases v@.len() - i,
    {
        i = i + 1;
    }
    proof {
        lemma_trim_start_skip(v@, i as int);
        if i < v@.len() {
            assert(v@.skip(i as int)[0] == v@[i as int]);
        }
    }
    let ghost rest = v@.skip(i as int);
    assert(trim_start(v@) == rest);
    let mut j: usize = v.len();
    while j > i && char_is_whitespace(v[j - 1])
        invariant
            i <= j <= v@.len(),
            rest == v@.skip(i as int),
            forall|k: int| j - i <= k < rest.len() ==> is_whitespace(#[trigger] rest[k]),
        decreases j,
    {
        assert(rest[j - 1 - i] == v@[j - 1]);
        j = j - 1;
    }
    proof {
        lemma_trim_end_take(rest, j - i);
        if j > i {
            assert(rest.take(j - i).last() == v@[j - 1]);
        }
        assert(rest.take(j - i) =~= v@.subrange(i as int, j as int));
    }
    copy_range(v, i, j)
}

pub open spec fn is_ascii_alpha(c: char) -> bool {
    ('A' <= c && c <= 'Z') || ('a' <= c && c <= 'z')
}

/// Index of the first ASCII letter in `s`, or its length when it has none.
pub open spec fn first_alpha(s: Seq<char>) -> nat
    decreases s.len(),
{
    if s.len() == 0 || is_ascii_alpha(s[0]) {
        0
    } else {
        1 + first_alpha(s.drop_first())
    }
}

proof fn lemma_first_alpha_at(s: Seq<char>, i: int)
    requires
        0 <= i <= s.len(),
        forall|j: int| 0 <= j < i ==> !is_ascii_alpha(#[trigger] s[j]),
        i == s.len() || is_ascii_alpha(s[i]),
    ensures
        first_alpha(s) == i,
    decreases i,
{
    if i > 0 {
        assert forall|j: int| 0 <= j < i - 1 implies !is_ascii_alpha(#[trigger] s.drop_first()[j]) by {
            assert(s.drop_first()[j] == s[j + 1]);
        }
        lemma_first_alpha_at(s.drop_first(), i - 1);
    }
}

/// `char::to_ascii_lowercase`.
pub open spec fn ascii_lower(c: char) -> char {
    if 'A' <= c && c <= 'Z' {
        ((c as u32) + 32) as char
    } else {
        c
    }
}

/// `str::to_ascii_lowercase`.
pub open spec fn ascii_lowercase(s: Seq<char>) -> Seq<char> {
    s.map_values(|c: char| ascii_lower(c))
}

pub fn char_to_ascii_lower(c: char) -> (r: char)
    ensures
        r == ascii_lower(c),
{
    if 'A' <= c && c <= 'Z' {
        let u: u32 = c as u32 + 32;
        let r: char = (u as u8) as char;
        assert(r == ascii_lower(c));
        r
    } else {
        c
    }
}

pub fn chars_to_ascii_lowercase(v: &Vec<char>) -> (r: Vec<char>)
    ensures
        r@ == ascii_lowercase(v@),
{
    let mut r: Vec<char> = Vec::new();
    let mut i: usize = 0;
    while i < v.len()
        invariant
            i <= v@.len(),
            r@ == ascii_lowercase(v@.take(i as int)),
        decreases v@.len() - i,
    {
        r.push(char_to_ascii_lower(v[i]));
        i = i + 1;
        assert(r@ =~= ascii_lowercase(v@.take(i as int)));
    }
    assert(v@.take(i as int) =~= v@);
    r
}

/// Bytes per unit; decimal units (k, M, G) are powers of 1000, binary ones (Ki, Mi, Gi)
/// powers of 1024, a trailing `b` changes nothing. The unit is given in lower case.
pub open spec fn unit_multiplier(u: Seq<char>) -> Option<nat> {
    if u == Seq::<char>::empty() || u == seq!['b'] {
        Some(1)
    } else if u == seq!['k'] || u == seq!['k', 'b'] {
        Some(1000)
    } else if u == seq!['k', 'i'] || u == seq!['k', 'i', 'b'] {
        Some(1024)
    } else if u == seq!['m'] || u == seq!['m', 'b'] {
        Some(1000000)
    } else if u == seq!['m', 'i'] || u == seq!['m', 'i', 'b'] {
        Some(1048576)
    } else if u == seq!['g'] || u == seq!['g', 'b'] {
        Some(1000000000)
    } else if u == seq!['g', 'i'] || u == seq!['g', 'i', 'b'] {
        Some(1073741824)
    } else {
        None
    }
}

fn chars_are(v: &Vec<char>, a: char, b: char, c: char, n: usize) -> (r: bool)
    requires
        n <= 3,
    ensures
        r == (v@ == seq![a, b, c].take(n as int)),
{
    let ghost want = seq![a, b, c].take(n as int);
    if v.len() != n {
        return false;
    }
    let mut i: usize = 0;
    while i < n
        invariant
            i <= n <= 3,
            v@.len() == n,
            want == seq![a, b, c].take(n as int),
            forall|j: int| 0 <= j < i ==> v@[j] == want[j],
        decreases n - i,
    {
        let w = if i == 0 {
            a
        } else if i == 1 {
            b
        } else {
            c
        };
        if v[i] != w {
            return false;
        }
        i = i + 1;
    }
    assert(v@ =~= want);
    true
}

/// The multiplier of a lower-case unit, if it is one.
fn multiplier_of(u: &Vec<char>) -> (r: Option<u64>)
    ensures
        r matches Some(m) ==> unit_multiplier(u@) == Some(m as nat),
        r is None ==> unit_multiplier(u@) is None,
{
    assert(seq!['b', 'b', 'b'].take(0) =~= Seq::<char>::empty());
    assert(seq!['b', 'b', 'b'].take(1) =~= seq!['b']);
    assert(seq!['k', 'b', 'b'].take(1) =~= seq!['k']);
    assert(seq!['k', 'b', 'b'].take(2) =~= seq!['k', 'b']);
    assert(seq!['k', 'i', 'b'].take(2) =~= seq!['k', 'i']);
    assert(seq!['k', 'i', 'b'].take(3) =~= seq!['k', 'i', 'b']);
    assert(seq!['m', 'b', 'b'].take(1) =~= seq!['m']);
    assert(seq!['m', 'b', 'b'].take(2) =~= seq!['m', 'b']);
    assert(seq!['m', 'i', 'b'].take(2) =~= seq!['m', 'i']);
    assert(seq!['m', 'i', 'b'].take(3) =~= seq!['m', 'i', 'b']);
    assert(seq!['g', 'b', 'b'].take(1) =~= seq!['g']);
    assert(seq!['g', 'b', 'b'].take(2) =~= seq!['g', 'b']);
    assert(seq!['g', 'i', 'b'].take(2) =~= seq!['g', 'i']);
    assert(seq!['g', 'i', 'b'].take(3) =~= seq!['g', 'i', 'b']);
    if chars_are(u, 'b', 'b', 'b', 0) || chars_are(u, 'b', 'b', 'b', 1) {
        Some(1)
    } else if chars_are(u, 'k', 'b', 'b', 1) || chars_are(u, 'k', 'b', 'b', 2) {
        Some(1000)
    } else if chars_are(u, 'k', 'i', 'b', 2) || chars_are(u, 'k', 'i', 'b', 3) {
        Some(1024)
    } else if chars_are(u, 'm', 'b', 'b', 1) || chars_are(u, 'm', 'b', 'b', 2) {
        Some(1000000)
    } else if chars_are(u, 'm', 'i', 'b', 2) || chars_are(u, 'm', 'i', 'b', 3) {
        Some(1048576)
    } else if chars_are(u, 'g', 'b', 'b', 1) || chars_are(u, 'g', 'b', 'b', 2) {
        Some(1000000000)
    } else if chars_are(u, 'g', 'i', 'b', 2) || chars_are(u, 'g', 'i', 'b', 3) {
        Some(1073741824)
    } else {
        None
    }
}


pub open spec fn is_digit(c: char) -> bool {
    '0' <= c && c <= '9'
}

pub open spec fn all_digits(s: Seq<char>) -> bool {
    forall|i: int| 0 <= i < s.len() ==> is_digit(#[trigger] s[i])
}

pub open spec fn digit_value(c: char) -> nat {
    (c as int - '0' as int) as nat
}

/// The number a string of decimal digits denotes.
pub open spec fn digits_value(s: Seq<char>) -> nat
    decreases s.len(),
{
    if s.len() == 0 {
        0
    } else {
        digits_value(s.drop_last()) * 10 + digit_value(s.last())
    }
}

pub open spec fn pow10(k: nat) -> nat
    decreases k,
{
    if k == 0 {
        1
    } else {
        10 * pow10((k - 1) as nat)
    }
}

/// Index of the first `c` in `s`, or its length when there is none.
pub open spec fn index_of(s: Seq<char>, c: char) -> nat
    decreases s.len(),
{
    if s.len() == 0 || s[0] == c {
        0
    } else {
        1 + index_of(s.drop_first(), c)
    }
}

/// A decimal numeral as `f64::from_str` reads one without exponent: an optional sign,
/// digits with at most one '.', at least one digit in all.
pub struct Numeral {
    pub negative: bool,
    pub whole: Seq<char>,
    pub fraction: Seq<char>,
}

pub open spec fn numeral(s: Seq<char>) -> Option<Numeral> {
    let signed = s.len() > 0 && (s[0] == '+' || s[0] == '-');
    let body = if signed {
        s.drop_first()
    } else {
        s
    };
    let dot = index_of(body, '.');
    let whole = body.take(dot as int);
    let fraction = if dot < body.len() {
        body.skip((dot + 1) as int)
    } else {
        Seq::<char>::empty()
    };
    if all_digits(whole) && all_digits(fraction) && whole.len() + fraction.len() > 0 {
        Some(Numeral { negative: signed && s[0] == '-', whole, fraction })
    } else {
        None
    }
}

/// The smallest whole number that `f64::from_str` reads as infinity, in decimal:
/// 2^1024 - 2^970, halfway between the largest finite `f64` and 2^1024 (a tie, which
/// rounds to the even neighbour, 2^1024).
pub open spec fn f64_overflow_digits() -> Seq<char> {
    "179769313486231580793728971405303415079934132710037826936173778980444968292764750946649017977587207096330286416692887910946555547851940402630657488671505820681908902000708383676273854845817711531764475730270069855571366959622842914819860834936475292719074168444365510704342711559699508093042880177904174497792"@
}

/// Whether the number part is too large to be a finite `f64`.
pub open spec fn numeral_overflows(n: Numeral) -> bool {
    digits_value(n.whole) >= digits_value(f64_overflow_digits())
}

/// Whether a numeral denotes zero.
pub open spec fn numeral_is_zero(n: Numeral) -> bool {
    digits_value(n.whole) == 0 && digits_value(n.fraction) == 0
}

/// The whole number of bytes in `n` units of `m` bytes: the floor of the product.
pub open spec fn scaled_floor(n: Numeral, m: nat) -> nat {
    digits_value(n.whole) * m + (digits_value(n.fraction) * m) / pow10(n.fraction.len())
}

/// Cast to `u64` the way a float-to-integer cast does: values past the top give the top.
pub open spec fn saturate(x: nat) -> u64 {
    if x > u64::MAX {
        u64::MAX
    } else {
        x as u64
    }
}

/// The number part of a size string: what comes before its first letter, trimmed.
pub open spec fn size_number_part(s: Seq<char>) -> Seq<char> {
    trim(trim(s).take(first_alpha(trim(s)) as int))
}

/// The unit part of a size string: from its first letter on, trimmed and in lower case.
pub open spec fn size_unit_part(s: Seq<char>) -> Seq<char> {
    ascii_lowercase(trim(trim(s).skip(first_alpha(trim(s)) as int)))
}

/// Why a size string was refused.
#[derive(Debug, Clone, PartialEq, Eq)]
pub enum SizeError {
    /// The number part is not a decimal number; carries the input.
    InvalidSize(String),
    /// The number is negative (and not zero), or too large to be a finite `f64`; carries
    /// the input.
    InvalidSizeValue(String),
    /// The unit is not one of b, k, kb, ki, kib, m, mb, mi, mib, g, gb, gi, gib (in any
    /// case); carries the unit in lower case.
    UnknownUnit(String),
}

proof fn lemma_index_of_at(s: Seq<char>, c: char, i: int)
    requires
        0 <= i <= s.len(),
        forall|j: int| 0 <= j < i ==> #[trigger] s[j] != c,
        i == s.len() || s[i] == c,
    ensures
        index_of(s, c) == i,
    decreases i,
{
    if i > 0 {
        assert forall|j: int| 0 <= j < i - 1 implies #[trigger] s.drop_first()[j] != c by {
            assert(s.drop_first()[j] == s[j + 1]);
        }
        lemma_index_of_at(s.drop_first(), c, i - 1);
    }
}

proof fn lemma_digits_value_prefix(s: Seq<char>, i: int)
    requires
        0 <= i <= s.len(),
    ensures
        digits_value(s.take(i)) <= digits_value(s),
    decreases s.len() - i,
{
    if i < s.len() {
        lemma_digits_value_prefix(s.drop_last(), i);
        assert(s.drop_last().take(i) =~= s.take(i));
    } else {
        assert(s.take(i) =~= s);
    }
}

proof fn lemma_digits_value_zero(s: Seq<char>)
    requires
        all_digits(s),
    ensures
        (digits_value(s) == 0) == (forall|i: int| 0 <= i < s.len() ==> #[trigger] s[i] == '0'),
    decreases s.len(),
{
    if s.len() > 0 {
        let init = s.drop_last();
        assert forall|i: int| 0 <= i < init.len() implies is_digit(#[trigger] init[i]) by {
            assert(init[i] == s[i]);
        }
        lemma_digits_value_zero(init);
        if digits_value(s) == 0 {
            assert forall|i: int| 0 <= i < s.len() implies #[trigger] s[i] == '0' by {
                if i < s.len() - 1 {
                    assert(init[i] == s[i]);
                } else {
                    assert(is_digit(s[i]));
                }
            }
        }
        if forall|i: int| 0 <= i < s.len() ==> #[trigger] s[i] == '0' {
            assert forall|i: int| 0 <= i < init.len() implies #[trigger] init[i] == '0' by {
                assert(init[i] == s[i]);
            }
            assert(s[s.len() - 1] == '0');
        }
    }
}

proof fn lemma_digits_value_front(s: Seq<char>)
    requires
        s.len() >= 1,
    ensures
        digits_value(s) == digit_value(s[0]) * pow10((s.len() - 1) as nat) + digits_value(s.drop_first()),
    decreases s.len(),
{
    if s.len() == 1 {
        assert(s.drop_first() =~= Seq::<char>::empty());
        assert(s.drop_last() =~= Seq::<char>::empty());
        assert(s.last() == s[0]);
        assert(pow10(0) == 1);
        assert(digit_value(s[0]) * 1 == digit_value(s[0]));
    } else {
        let init = s.drop_last();
        lemma_digits_value_front(init);
        assert(init.drop_first() =~= s.drop_first().drop_last());
        assert(s.drop_first().last() == s.last());
        let d0 = digit_value(s[0]);
        let p = pow10((s.len() - 2) as nat);
        let r = digits_value(init.drop_first());
        let l = digit_value(s.last());
        assert(init[0] == s[0]);
        assert(digits_value(init) == d0 * p + r);
        assert(digits_value(s.drop_first()) == r * 10 + l);
        assert(pow10((s.len() - 1) as nat) == 10 * p);
        assert((d0 * p + r) * 10 + l == d0 * (10 * p) + (r * 10 + l)) by (nonlinear_arith);
    }
}

/// `m` times the fraction `0.d1 d2 .. dk`, rounded down, worked out from the last digit.
pub open spec fn fraction_scaled(d: Seq<char>, m: nat) -> nat
    decreases d.len(),
{
    if d.len() == 0 {
        0
    } else {
        (m * digit_value(d[0]) + fraction_scaled(d.drop_first(), m)) / 10
    }
}

proof fn lemma_pow10_positive(k: nat)
    ensures
        pow10(k) >= 1,
    decreases k,
{
    if k > 0 {
        lemma_pow10_positive((k - 1) as nat);
    }
}

proof fn lemma_fraction_scaled(d: Seq<char>, m: nat)
    requires
        all_digits(d),
        m >= 1,
    ensures
        fraction_scaled(d, m) == (digits_value(d) * m) / pow10(d.len()),
        fraction_scaled(d, m) < m,
    decreases d.len(),
{
    if d.len() > 0 {
        let rest = d.drop_first();
        assert forall|i: int| 0 <= i < rest.len() implies is_digit(#[trigger] rest[i]) by {
            assert(rest[i] == d[i + 1]);
        }
        lemma_fraction_scaled(rest, m);
        lemma_digits_value_front(d);
        let p = pow10(rest.len());
        lemma_pow10_positive(rest.len());
        let d0 = digit_value(d[0]);
        assert(is_digit(d[0]));
        assert(d0 <= 9);
        let r = digits_value(rest);
        let w = fraction_scaled(rest, m);
        assert(digits_value(d) * m == (d0 * m) * p + r * m) by (nonlinear_arith)
            requires
                digits_value(d) == d0 * p + r,
        ;
        let x = digits_value(d) * m;
        lemma_hoist_over_denominator((r * m) as int, (d0 * m) as int, p);
        assert(x / p == w + d0 * m);
        lemma_div_denominator(x as int, p as int, 10);
        assert(pow10(d.len()) == p * 10);
        assert(x / pow10(d.len()) == (w + d0 * m) / 10);
        assert((m * d0 + w) / 10 < m) by (nonlinear_arith)
            requires
                d0 <= 9,
                w < m,
        ;
        assert(m * d0 == d0 * m) by (nonlinear_arith);
    } else {
        assert(digits_value(d) == 0);
        assert(0 * m == 0);
        assert(pow10(0) == 1);
    }
}

/// The number a string of digits denotes, or `None` when it does not fit in `u64`.
fn digits_to_u64(d: &Vec<char>) -> (r: Option<u64>)
    requires
        all_digits(d@),
    ensures
        r matches Some(v) ==> v == digits_value(d@),
        r is None ==> digits_value(d@) > u64::MAX,
{
    let mut v: u64 = 0;
    let mut i: usize = 0;
    while i < d.len()
        invariant
            i <= d@.len(),
            all_digits(d@),
            v == digits_value(d@.take(i as int)),
        decreases d@.len() - i,
    {
        let c = d[i];
        assert(is_digit(d@[i as int]));
        let dig: u64 = (c as u32 - '0' as u32) as u64;
        assert(d@.take(i + 1).drop_last() =~= d@.take(i as int));
        if v > (u64::MAX - dig) / 10 {
            proof {
                lemma_digits_value_prefix(d@, i + 1);
            }
            return None;
        }
        v = v * 10 + dig;
        i = i + 1;
    }
    assert(d@.take(i as int) =~= d@);
    Some(v)
}

/// Whether every character of `d` is '0'.
fn all_zero_chars(d: &Vec<char>) -> (r: bool)
    ensures
        r == (forall|i: int| 0 <= i < d@.len() ==> #[trigger] d@[i] == '0'),
{
    let mut i: usize = 0;
    while i < d.len()
        invariant
            i <= d@.len(),
            forall|j: int| 0 <= j < i ==> #[trigger] d@[j] == '0',
        decreases d@.len() - i,
    {
        if d[i] != '0' {
            return false;
        }
        i = i + 1;
    }
    true
}

/// Whether every character of `d` is a decimal digit.
fn all_digit_chars(d: &Vec<char>) -> (r: bool)
    ensures
        r == all_digits(d@),
{
    let mut i: usize = 0;
    while i < d.len()
        invariant
            i <= d@.len(),
            forall|j: int| 0 <= j < i ==> is_digit(#[trigger] d@[j]),
        decreases d@.len() - i,
    {
        if !('0' <= d[i] && d[i] <= '9') {
            return false;
        }
        i = i + 1;
    }
    true
}

/// `m` times the fraction whose digits are `d`, rounded down.
fn fraction_times(d: &Vec<char>, m: u64) -> (r: u64)
    requires
        all_digits(d@),
        1 <= m <= 1073741824,
    ensures
        r == (digits_value(d@) * m) / (pow10(d@.len()) as int),
{
    let mut w: u64 = 0;
    let mut i: usize = d.len();
    while i > 0
        invariant
            i <= d@.len(),
            all_digits(d@),
            1 <= m <= 1073741824,
            w == fraction_scaled(d@.skip(i as int), m as nat),
            w < m,
        decreases i,
    {
        let ghost tail = d@.skip(i - 1);
        assert(tail.drop_first() =~= d@.skip(i as int));
        assert(tail[0] == d@[i - 1]);
        assert(is_digit(d@[i - 1]));
        let dig: u64 = (d[i - 1] as u32 - '0' as u32) as u64;
        proof {
            assert forall|j: int| 0 <= j < tail.len() implies is_digit(#[trigger] tail[j]) by {
                assert(tail[j] == d@[i - 1 + j]);
            }
            lemma_fraction_scaled(tail, m as nat);
        }
        assert(m * dig <= 9 * 1073741824) by (nonlinear_arith)
            requires
                m <= 1073741824,
                dig <= 9,
        ;
        w = (m * dig + w) / 10;
        i = i - 1;
    }
    assert(d@.skip(0) =~= d@);
    proof {
        lemma_fraction_scaled(d@, m as nat);
    }
    w
}

proof fn lemma_digits_value_leading_zeros(s: Seq<char>, z: int)
    requires
        0 <= z <= s.len(),
        forall|k: int| 0 <= k < z ==> #[trigger] s[k] == '0',
    ensures
        digits_value(s) == digits_value(s.skip(z)),
    decreases z,
{
    if z > 0 {
        lemma_digits_value_front(s);
        assert(digit_value(s[0]) == 0);
        assert(0 * pow10((s.len() - 1) as nat) == 0);
        assert forall|k: int| 0 <= k < z - 1 implies #[trigger] s.drop_first()[k] == '0' by {
            assert(s.drop_first()[k] == s[k + 1]);
        }
        lemma_digits_value_leading_zeros(s.drop_first(), z - 1);
        assert(s.drop_first().skip(z - 1) =~= s.skip(z));
    } else {
        assert(s.skip(0) =~= s);
    }
}

proof fn lemma_digits_value_below(s: Seq<char>)
    requires
        all_digits(s),
    ensures
        digits_value(s) < pow10(s.len()),
    decreases s.len(),
{
    if s.len() > 0 {
        let init = s.drop_last();
        assert forall|i: int| 0 <= i < init.len() implies is_digit(#[trigger] init[i]) by {
            assert(init[i] == s[i]);
        }
        lemma_digits_value_below(init);
        assert(is_digit(s[s.len() - 1]));
        let v = digits_value(init);
        let p = pow10(init.len());
        let d = digit_value(s.last());
        assert(v * 10 + d < 10 * p) by (nonlinear_arith)
            requires
                v < p,
                d <= 9,
        ;
    }
}

proof fn lemma_digits_value_above(s: Seq<char>)
    requires
        all_digits(s),
        s.len() >= 1,
        s[0] != '0',
    ensures
        digits_value(s) >= pow10((s.len() - 1) as nat),
{
    lemma_digits_value_front(s);
    assert(is_digit(s[0]));
    let d0 = digit_value(s[0]);
    let p = pow10((s.len() - 1) as nat);
    assert(d0 * p >= p) by (nonlinear_arith)
        requires
            d0 >= 1,
    ;
}

proof fn lemma_pow10_monotone(a: nat, b: nat)
    requires
        a <= b,
    ensures
        pow10(a) <= pow10(b),
    decreases b,
{
    if a < b {
        lemma_pow10_monotone(a, (b - 1) as nat);
        lemma_pow10_positive((b - 1) as nat);
    }
}

proof fn lemma_digits_value_order(a: Seq<char>, b: Seq<char>)
    requires
        all_digits(a),
        all_digits(b),
        a.len() == b.len(),
    ensures
        (digits_value(a) < digits_value(b)) == lex_lt(a, b),
    decreases a.len(),
{
    if a.len() > 0 {
        let ra = a.drop_first();
        let rb = b.drop_first();
        assert forall|i: int| 0 <= i < ra.len() implies is_digit(#[trigger] ra[i]) by {
            assert(ra[i] == a[i + 1]);
        }
        assert forall|i: int| 0 <= i < rb.len() implies is_digit(#[trigger] rb[i]) by {
            assert(rb[i] == b[i + 1]);
        }
        lemma_digits_value_front(a);
        lemma_digits_value_front(b);
        lemma_digits_value_below(ra);
        lemma_digits_value_below(rb);
        assert(is_digit(a[0]) && is_digit(b[0]));
        let p = pow10((a.len() - 1) as nat);
        let a0 = digit_value(a[0]);
        let b0 = digit_value(b[0]);
        let va = digits_value(ra);
        let vb = digits_value(rb);
        if a[0] == b[0] {
            lemma_digits_value_order(ra, rb);
        } else if a[0] < b[0] {
            assert(a0 * p + va < b0 * p + vb) by (nonlinear_arith)
                requires
                    a0 + 1 <= b0,
                    va < p,
            ;
        } else {
            assert(b0 * p + vb < a0 * p + va) by (nonlinear_arith)
                requires
                    b0 + 1 <= a0,
                    vb < p,
            ;
        }
    } else {
        assert(a =~= b);
    }
}

/// Whether a whole part is too large to be a finite `f64`.
fn whole_overflows_f64(whole: &Vec<char>) -> (r: bool)
    requires
        all_digits(whole@),
    ensures
        r == (digits_value(whole@) >= digits_value(f64_overflow_digits())),
{
    let mut z: usize = 0;
    while z < whole.len() && whole[z] == '0'
        invariant
            z <= whole@.len(),
            forall|k: int| 0 <= k < z ==> #[trigger] whole@[k] == '0',
        decreases whole@.len() - z,
    {
        z = z + 1;
    }
    proof {
        lemma_digits_value_leading_zeros(whole@, z as int);
    }
    let sig = copy_range(whole, z, whole.len());
    assert(sig@ =~= whole@.skip(z as int));
    let limit = chars_of("179769313486231580793728971405303415079934132710037826936173778980444968292764750946649017977587207096330286416692887910946555547851940402630657488671505820681908902000708383676273854845817711531764475730270069855571366959622842914819860834936475292719074168444365510704342711559699508093042880177904174497792");
    proof {
        reveal_strlit("179769313486231580793728971405303415079934132710037826936173778980444968292764750946649017977587207096330286416692887910946555547851940402630657488671505820681908902000708383676273854845817711531764475730270069855571366959622842914819860834936475292719074168444365510704342711559699508093042880177904174497792");
        assert(limit@.len() == 309);
        assert(limit@[0] == '1');
        assert(all_digits(limit@));
        assert(all_digits(sig@)) by {
            assert forall|i: int| 0 <= i < sig@.len() implies is_digit(#[trigger] sig@[i]) by {
                assert(sig@[i] == whole@[z + i]);
            }
        }
        lemma_digits_value_below(limit@);
        lemma_digits_value_above(limit@);
        lemma_digits_value_below(sig@);
        if sig@.len() > 0 {
            assert(sig@[0] == whole@[z as int]);
            lemma_digits_value_above(sig@);
        }
    }
    if sig.len() > limit.len() {
        proof {
            lemma_pow10_monotone(309, (sig@.len() - 1) as nat);
        }
        true
    } else if sig.len() < limit.len() {
        proof {
            lemma_pow10_monotone(sig@.len(), 308);
        }
        false
    } else {
        proof {
            lemma_digits_value_order(sig@, limit@);
        }
        !chars_lt(&sig, &limit)
    }
}

/// Parse a human size string ("1MiB", "500k", "1048576") into bytes.
/// Decimal units (MB) use 1000, binary units (MiB) use 1024; the number may have a
/// fraction, and the bytes are the product rounded down (at most `u64::MAX`).
pub fn parse_size(input: &str) -> (r: Result<u64, SizeError>)
    ensures
        match numeral(size_number_part(input@)) {
            None => r matches Err(SizeError::InvalidSize(i)) && i@ == input@,
            Some(n) => if (n.negative && !numeral_is_zero(n)) || numeral_overflows(n) {
                r matches Err(SizeError::InvalidSizeValue(i)) && i@ == input@
            } else {
                match unit_multiplier(size_unit_part(input@)) {
                    None => r matches Err(SizeError::UnknownUnit(u)) && u@ == size_unit_part(input@),
                    Some(m) => r == Ok::<u64, SizeError>(saturate(scaled_floor(n, m))),
                }
            },
        },
{
    let raw = chars_of(input);
    let s = trim_chars(&raw);
    let mut split: usize = 0;
    while split < s.len() && !(('A' <= s[split] && s[split] <= 'Z') || ('a' <= s[split] && s[split] <= 'z'))
        invariant
            split <= s@.len(),
            forall|j: int| 0 <= j < split ==> !is_ascii_alpha(#[trigger] s@[j]),
        decreases s@.len() - split,
    {
        split = split + 1;
    }
    proof {
        lemma_first_alpha_at(s@, split as int);
    }
    let num_raw = copy_range(&s, 0, split);
    let num = trim_chars(&num_raw);
    let unit_raw = copy_range(&s, split, s.len());
    let unit_trimmed = trim_chars(&unit_raw);
    let unit = chars_to_ascii_lowercase(&unit_trimmed);
    assert(s@.subrange(0, split as int) =~= s@.take(split as int));
    assert(s@.subrange(split as int, s@.len() as int) =~= s@.skip(split as int));
    assert(num@ == size_number_part(input@));
    assert(unit@ == size_unit_part(input@));

    // The numeral: optional sign, whole digits, optional '.' and fraction digits.
    let signed = num.len() > 0 && (num[0] == '+' || num[0] == '-');
    let negative = signed && num[0] == '-';
    let body = if signed {
        copy_range(&num, 1, num.len())
    } else {
        copy_range(&num, 0, num.len())
    };
    assert(signed ==> body@ =~= num@.drop_first());
    assert(!signed ==> body@ =~= num@);
    let mut dot: usize = 0;
    while dot < body.len() && body[dot] != '.'
        invariant
            dot <= body@.len(),
            forall|j: int| 0 <= j < dot ==> #[trigger] body@[j] != '.',
        decreases body@.len() - dot,
    {
        dot = dot + 1;
    }
    proof {
        lemma_index_of_at(body@, '.', dot as int);
    }
    let whole = copy_range(&body, 0, dot);
    let fraction = if dot < body.len() {
        copy_range(&body, dot + 1, body.len())
    } else {
        Vec::new()
    };
    assert(whole@ =~= body@.take(dot as int));
    assert(dot < body@.len() ==> fraction@ =~= body@.skip(dot + 1));
    assert(dot >= body@.len() ==> fraction@ =~= Seq::<char>::empty());
    if !(all_digit_chars(&whole) && all_digit_chars(&fraction) && whole.len() + fraction.len() > 0) {
        return Err(SizeError::InvalidSize(string_from_chars(raw)));
    }
    let ghost n = numeral(num@).unwrap();
    assert(n.whole == whole@ && n.fraction == fraction@ && n.negative == negative);
    let whole_value = digits_to_u64(&whole);
    if negative {
        let zero = match whole_value {
            Some(v) => v == 0 && all_zero_chars(&fraction),
            None => false,
        };
        proof {
            lemma_digits_value_zero(fraction@);
        }
        if !zero {
            return Err(SizeError::InvalidSizeValue(string_from_chars(raw)));
        }
    }
    if whole_overflows_f64(&whole) {
        return Err(SizeError::InvalidSizeValue(string_from_chars(raw)));
    }
    let m = match multiplier_of(&unit) {
        Some(m) => m,
        None => {
            return Err(SizeError::UnknownUnit(string_from_chars(unit)));
        },
    };
    let frac = fraction_times(&fraction, m);
    match whole_value {
        None => {
            assert(scaled_floor(n, m as nat) >= digits_value(whole@)) by (nonlinear_arith)
                requires
                    m >= 1,
                    scaled_floor(n, m as nat) == digits_value(whole@) * m + frac,
            ;
            Ok(u64::MAX)
        },
        Some(w) => {
            match w.checked_mul(m) {
                None => {
                    assert(scaled_floor(n, m as nat) >= w * m);
                    Ok(u64::MAX)
                },
                Some(wm) => {
                    match wm.checked_add(frac) {
                        None => Ok(u64::MAX),
                        Some(total) => Ok(total),
                    }
                },
            }
        },
    }
}

/// `b` to the power `e`.
pub open spec fn power(b: nat, e: nat) -> nat
    decreases e,
{
    if e == 0 {
        1
    } else {
        b * power(b, (e - 1) as nat)
    }
}

/// The letter of the `step`-th unit: k, m, g.
pub open spec fn unit_letter(step: nat) -> char {
    if step == 1 {
        'k'
    } else if step == 2 {
        'm'
    } else {
        'g'
    }
}

/// Decimal units are powers of 1000 and binary units (the letter followed by `i`) powers
/// of 1024, the same power for the same letter; a trailing `b` changes neither.
pub proof fn law_decimal_and_binary_units(step: nat)
    requires
        1 <= step <= 3,
    ensures
        unit_multiplier(seq![unit_letter(step)]) == Some(power(1000, step)),
        unit_multiplier(seq![unit_letter(step), 'b']) == Some(power(1000, step)),
        unit_multiplier(seq![unit_letter(step), 'i']) == Some(power(1024, step)),
        unit_multiplier(seq![unit_letter(step), 'i', 'b']) == Some(power(1024, step)),
        unit_multiplier(Seq::<char>::empty()) == Some(1nat),
        unit_multiplier(seq!['b']) == Some(1nat),
{
    reveal_with_fuel(power, 4);
    let c = unit_letter(step);
    let u1 = seq![c];
    let u2 = seq![c, 'b'];
    let u3 = seq![c, 'i'];
    let u4 = seq![c, 'i', 'b'];
    assert(u1.len() == 1 && u1[0] == c);
    assert(u2.len() == 2 && u2[0] == c && u2[1] == 'b');
    assert(u3.len() == 2 && u3[0] == c && u3[1] == 'i');
    assert(u4.len() == 3 && u4[0] == c && u4[1] == 'i' && u4[2] == 'b');
    assert(seq!['b'].len() == 1 && seq!['b'][0] == 'b');
    assert(Seq::<char>::empty().len() == 0);
}

/// A size written as plain digits is that many bytes: its number part is all of it, its
/// unit is empty (one byte), and the numeral is its digits with no fraction.
pub proof fn law_plain_digits_are_bytes(s: Seq<char>)
    requires
        s.len() > 0,
        all_digits(s),
    ensures
        size_number_part(s) == s,
        size_unit_part(s) == Seq::<char>::empty(),
        unit_multiplier(size_unit_part(s)) == Some(1nat),
        numeral(s) == Some(Numeral { negative: false, whole: s, fraction: Seq::<char>::empty() }),
        scaled_floor(numeral(s).unwrap(), 1) == digits_value(s),
{
    assert(is_digit(s[0]));
    assert(is_digit(s.last()));
    assert(trim_start(s) == s);
    assert(trim_end(s) == s);
    assert(trim(s) == s);
    assert forall|j: int| 0 <= j < s.len() implies !is_ascii_alpha(#[trigger] s[j]) by {
        assert(is_digit(s[j]));
    }
    lemma_first_alpha_at(s, s.len() as int);
    assert(s.take(s.len() as int) =~= s);
    assert(s.skip(s.len() as int) =~= Seq::<char>::empty());
    assert(trim(Seq::<char>::empty()) == Seq::<char>::empty());
    assert(ascii_lowercase(Seq::<char>::empty()) =~= Seq::<char>::empty());
    assert forall|j: int| 0 <= j < s.len() implies #[trigger] s[j] != '.' by {
        assert(is_digit(s[j]));
    }
    lemma_index_of_at(s, '.', s.len() as int);
    assert(digits_value(Seq::<char>::empty()) == 0);
    assert(pow10(0) == 1);
    assert(digits_value(s) * 1 == digits_value(s));
}

/// A rough token estimate: about 4 characters per token, rounded up.
pub fn approx_tokens(chars: usize) -> (r: usize)
    ensures
        r == (chars + 3) / 4,
{
    chars / 4 + if chars % 4 == 0 {
        0
    } else {
        1
    }
}

} // verus!
