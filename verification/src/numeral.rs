//! Reading decimal numerals as double-precision numbers are written.
//!
//! A numeral is an optional sign, followed by `inf`, `infinity` or `nan` in any case, or by
//! digits with an optional point and an optional power of ten.

use crate::bignat::BigNat;
use crate::rounding::nearest_double;
use crate::rounding::nearest_double_huge;
use crate::rounding::nearest_double_of_scaled;
use crate::rounding::nearest_double_tiny;
use crate::rounding::round_fixed;
use crate::text::decimal;
use vstd::arithmetic::div_mod::lemma_fundamental_div_mod;
use vstd::arithmetic::div_mod::lemma_fundamental_div_mod_converse;
use vstd::arithmetic::power::lemma_pow_adds;
use vstd::arithmetic::power::lemma_pow_increases;
use vstd::arithmetic::power::lemma_pow_positive;
use vstd::arithmetic::power::pow;
use vstd::arithmetic::power2::lemma2_to64;
use vstd::arithmetic::power2::lemma2_to64_rest;
use vstd::arithmetic::power2::pow2;
use vstd::prelude::*;

verus! {

/// Whether a character is a decimal digit.
pub open spec fn is_digit(c: char) -> bool {
    '0' <= c <= '9'
}

/// What a decimal digit stands for.
pub open spec fn digit_value(c: char) -> nat {
    (c as int - '0' as int) as nat
}

/// The number that a row of digits stands for.
pub open spec fn decimal_value(digits: Seq<char>) -> nat
    decreases digits.len(),
{
    if digits.len() == 0 {
        0
    } else {
        10 * decimal_value(digits.drop_last()) + digit_value(digits.last())
    }
}

/// Where the row of digits that begins at `from` ends.
pub open spec fn digits_end(s: Seq<char>, from: int) -> int
    decreases s.len() - from,
{
    if 0 <= from < s.len() && is_digit(s[from]) {
        digits_end(s, from + 1)
    } else {
        from
    }
}

/// Whether `s` is the given word of small letters, in any case.
pub open spec fn is_word(s: Seq<char>, word: Seq<char>) -> bool {
    &&& s.len() == word.len()
    &&& forall|i: int|
        0 <= i < s.len() ==> #[trigger] s[i] == word[i] || s[i] as u32 + 32 == word[i] as u32
}

/// Whether a sign stands in front.
pub open spec fn is_signed(s: Seq<char>) -> bool {
    s.len() > 0 && (s[0] == '+' || s[0] == '-')
}

/// Whether a minus stands in front.
pub open spec fn is_negative(s: Seq<char>) -> bool {
    s.len() > 0 && s[0] == '-'
}

/// What follows the sign, where there is one.
pub open spec fn after_sign(s: Seq<char>) -> Seq<char> {
    if is_signed(s) {
        s.skip(1)
    } else {
        s
    }
}

/// What a numeral says.
pub enum Numeral {
    /// It is `nan`.
    NotANumber,
    /// It is infinity.
    Infinite { negative: bool },
    /// It is `digits`, read as a whole number, times ten to the power of `exponent`.
    Finite { negative: bool, digits: Seq<char>, exponent: int },
}

/// The power of ten that ends a numeral; nought where there is none.
pub open spec fn exponent_of(s: Seq<char>) -> Option<int> {
    if s.len() == 0 {
        Some(0)
    } else if s[0] == 'e' || s[0] == 'E' {
        let rest = s.skip(1);
        let digits = after_sign(rest);
        if digits.len() > 0 && digits_end(digits, 0) == digits.len() {
            if is_negative(rest) {
                Some(-(decimal_value(digits) as int))
            } else {
                Some(decimal_value(digits) as int)
            }
        } else {
            None
        }
    } else {
        None
    }
}

/// Where the digits before the point end.
pub open spec fn whole_end(s: Seq<char>) -> int {
    digits_end(s, 0)
}

/// Whether a point follows the digits.
pub open spec fn has_point(s: Seq<char>) -> bool {
    whole_end(s) < s.len() && s[whole_end(s)] == '.'
}

/// Where the digits end, those behind the point included.
pub open spec fn fraction_end(s: Seq<char>) -> int {
    if has_point(s) {
        digits_end(s, whole_end(s) + 1)
    } else {
        whole_end(s)
    }
}

/// The digits behind the point.
pub open spec fn fraction_of(s: Seq<char>) -> Seq<char> {
    if has_point(s) {
        s.subrange(whole_end(s) + 1, fraction_end(s))
    } else {
        Seq::empty()
    }
}

/// What an unsigned numeral of digits says.
pub open spec fn finite_numeral(negative: bool, s: Seq<char>) -> Option<Numeral> {
    let digits = s.take(whole_end(s)) + fraction_of(s);
    match exponent_of(s.skip(fraction_end(s))) {
        Some(e) if digits.len() > 0 => Some(
            Numeral::Finite { negative, digits, exponent: e - fraction_of(s).len() },
        ),
        _ => None,
    }
}

/// What `s` says, where it is a numeral.
pub open spec fn numeral(s: Seq<char>) -> Option<Numeral> {
    let negative = is_negative(s);
    let body = after_sign(s);
    if is_word(body, "inf"@) || is_word(body, "infinity"@) {
        Some(Numeral::Infinite { negative })
    } else if is_word(body, "nan"@) {
        Some(Numeral::NotANumber)
    } else {
        finite_numeral(negative, body)
    }
}

/// Ten to the power of `e`, as a fraction: what stands above the line.
pub open spec fn ten_up(e: int) -> nat {
    if e > 0 {
        pow(10, e as nat) as nat
    } else {
        1
    }
}

/// Ten to the power of `e`, as a fraction: what stands below the line.
pub open spec fn ten_down(e: int) -> nat {
    if e < 0 {
        pow(10, (-e) as nat) as nat
    } else {
        1
    }
}

/// The largest `u64` that is not above `n`.
pub open spec fn saturated(n: nat) -> u64 {
    if n > u64::MAX {
        u64::MAX
    } else {
        n as u64
    }
}

/// The double nearest to `digits` times ten to the power of `exponent`, times a power of two,
/// as an unsigned integer. Numbers beyond the exponents that doubles have end as nought or as the
/// largest integer in any case.
pub open spec fn finite_times(digits: Seq<char>, exponent: int, unit: nat) -> u64 {
    saturated(
        nearest_double(decimal_value(digits) * ten_up(exponent) * unit, ten_down(exponent)),
    )
}

/// A numeral as a double, times a power of two, as an unsigned integer: what is negative or no
/// number becomes nought, what is too large the largest integer, and a fraction is cut off.
pub open spec fn numeral_times(n: Numeral, unit: nat) -> u64 {
    match n {
        Numeral::NotANumber => 0,
        Numeral::Infinite { negative } => if negative {
            0
        } else {
            u64::MAX
        },
        Numeral::Finite { negative, digits, exponent } => if negative {
            0
        } else {
            finite_times(digits, exponent, unit)
        },
    }
}

/// How large a power of ten is read exactly.
pub open spec fn exponent_limit() -> int {
    0x1_0000_0000_0000_0000_0000
}

/// Whether `got` stands for `wanted`: it is the same, or both are out of all bounds on the
/// same side.
pub open spec fn same_exponent(got: int, wanted: int) -> bool {
    ||| got == wanted
    ||| got > exponent_limit() && wanted > exponent_limit()
    ||| got < -exponent_limit() && wanted < -exponent_limit()
}

spec fn exponent_bound() -> int {
    0x20_0000_0000_0000_0000_0000_0000
}

/// What was read of a numeral.
enum Reading {
    NotANumber,
    Infinite { negative: bool },
    Finite { negative: bool, digits: Vec<char>, exponent: i128 },
}

spec fn reads(r: Option<Reading>, n: Option<Numeral>) -> bool {
    match (r, n) {
        (None, None) => true,
        (Some(Reading::NotANumber), Some(Numeral::NotANumber)) => true,
        (
            Some(Reading::Infinite { negative }),
            Some(Numeral::Infinite { negative: wanted }),
        ) => negative == wanted,
        (
            Some(Reading::Finite { negative, digits, exponent }),
            Some(Numeral::Finite { negative: n2, digits: d2, exponent: e2 }),
        ) => negative == n2 && digits@ == d2 && same_exponent(exponent as int, e2) && -exponent_bound()
            <= exponent <= exponent_bound() && (forall|i: int|
            0 <= i < d2.len() ==> is_digit(#[trigger] d2[i])),
        _ => false,
    }
}

proof fn lemma_digits_end(s: Seq<char>, from: int)
    requires
        0 <= from <= s.len(),
    ensures
        from <= digits_end(s, from) <= s.len(),
        forall|i: int| from <= i < digits_end(s, from) ==> is_digit(#[trigger] s[i]),
        digits_end(s, from) < s.len() ==> !is_digit(s[digits_end(s, from)]),
    decreases s.len() - from,
{
    if from < s.len() && is_digit(s[from]) {
        lemma_digits_end(s, from + 1);
    }
}

/// Where the row of digits that begins at `from` ends.
fn find_digits_end(s: &Vec<char>, from: usize) -> (end: usize)
    requires
        from <= s@.len(),
    ensures
        end == digits_end(s@, from as int),
        from <= end <= s@.len(),
{
    let mut i: usize = from;
    while i < s.len() && '0' <= s[i] && s[i] <= '9'
        invariant
            from <= i <= s@.len(),
            digits_end(s@, from as int) == digits_end(s@, i as int),
        decreases s@.len() - i,
    {
        i += 1;
    }
    i
}

/// The part of `s` from `from` up to but not at `to`.
fn part(s: &Vec<char>, from: usize, to: usize) -> (r: Vec<char>)
    requires
        from <= to <= s@.len(),
    ensures
        r@ == s@.subrange(from as int, to as int),
{
    let mut r: Vec<char> = Vec::new();
    let mut i: usize = from;
    while i < to
        invariant
            from <= i <= to <= s@.len(),
            r@ == s@.subrange(from as int, i as int),
        decreases to - i,
    {
        r.push(s[i]);
        i += 1;
        assert(r@ =~= s@.subrange(from as int, i as int));
    }
    r
}

/// Whether `s` is the given word of small letters, in any case.
fn spells(s: &Vec<char>, word: &str) -> (r: bool)
    ensures
        r == is_word(s@, word@),
{
    let w = crate::text::chars_of(word);
    if s.len() != w.len() {
        return false;
    }
    let mut i: usize = 0;
    while i < s.len()
        invariant
            i <= s@.len(),
            s@.len() == w@.len(),
            w@ == word@,
            forall|j: int|
                0 <= j < i ==> #[trigger] s@[j] == w@[j] || s@[j] as u32 + 32 == w@[j] as u32,
        decreases s@.len() - i,
    {
        let c: char = s[i];
        let d: char = w[i];
        proof {
            vstd::utf8::char_is_scalar(c);
            vstd::utf8::char_is_scalar(d);
        }
        if c != d && c as u32 + 32 != d as u32 {
            assert(s@[i as int] == c && w@[i as int] == d);
            return false;
        }
        i += 1;
    }
    true
}

/// The number that a row of digits stands for, or `2^100` where it is larger.
fn read_digits(s: &Vec<char>) -> (n: i128)
    requires
        forall|i: int| 0 <= i < s@.len() ==> is_digit(#[trigger] s@[i]),
    ensures
        0 <= n <= 0x10_0000_0000_0000_0000_0000_0000,
        n < 0x10_0000_0000_0000_0000_0000_0000 ==> n == decimal_value(s@),
        n == 0x10_0000_0000_0000_0000_0000_0000 ==> decimal_value(s@) >= n,
{
    let mut n: i128 = 0;
    let mut i: usize = 0;
    while i < s.len()
        invariant
            i <= s@.len(),
            forall|j: int| 0 <= j < s@.len() ==> is_digit(#[trigger] s@[j]),
            0 <= n <= 0x10_0000_0000_0000_0000_0000_0000,
            n < 0x10_0000_0000_0000_0000_0000_0000 ==> n == decimal_value(s@.take(i as int)),
            n == 0x10_0000_0000_0000_0000_0000_0000 ==> decimal_value(s@.take(i as int)) >= n,
        decreases s@.len() - i,
    {
        let c: char = s[i];
        assert(is_digit(s@[i as int]));
        let d: u32 = c as u32 - '0' as u32;
        assert(d == digit_value(c));
        n = n * 10 + d as i128;
        if n > 0x10_0000_0000_0000_0000_0000_0000 {
            n = 0x10_0000_0000_0000_0000_0000_0000;
        }
        assert(s@.take(i + 1).drop_last() =~= s@.take(i as int));
        i += 1;
    }
    assert(s@.take(i as int) =~= s@);
    n
}

/// The power of ten that `s` writes from `from` on.
fn read_exponent(s: &Vec<char>, from: usize) -> (r: Option<i128>)
    requires
        from <= s@.len(),
    ensures
        match (r, exponent_of(s@.skip(from as int))) {
            (None, None) => true,
            (Some(got), Some(wanted)) => -0x10_0000_0000_0000_0000_0000_0000 <= got
                <= 0x10_0000_0000_0000_0000_0000_0000 && (if got
                == 0x10_0000_0000_0000_0000_0000_0000 {
                wanted >= got
            } else if got == -0x10_0000_0000_0000_0000_0000_0000 {
                wanted <= got
            } else {
                wanted == got
            }),
            _ => false,
        },
{
    let ghost tail = s@.skip(from as int);
    if from == s.len() {
        return Some(0);
    }
    if s[from] != 'e' && s[from] != 'E' {
        return None;
    }
    let rest = from + 1;
    let ghost behind = tail.skip(1);
    assert(behind =~= s@.skip(rest as int));
    let signed = rest < s.len() && (s[rest] == '+' || s[rest] == '-');
    let negative = rest < s.len() && s[rest] == '-';
    let start = if signed {
        rest + 1
    } else {
        rest
    };
    let digits = part(s, start, s.len());
    assert(digits@ =~= after_sign(behind));
    proof {
        lemma_digits_end(digits@, 0);
    }
    if digits.len() == 0 || find_digits_end(&digits, 0) != digits.len() {
        return None;
    }
    let n = read_digits(&digits);
    if negative {
        Some(-n)
    } else {
        Some(n)
    }
}

/// Reads an unsigned numeral of digits.
fn read_finite(negative: bool, s: &Vec<char>) -> (r: Option<Reading>)
    ensures
        reads(r, finite_numeral(negative, s@)),
{
    proof {
        lemma_digits_end(s@, 0);
        if has_point(s@) {
            lemma_digits_end(s@, whole_end(s@) + 1);
        }
    }
    let whole = find_digits_end(s, 0);
    let point = whole < s.len() && s[whole] == '.';
    let end = if point {
        find_digits_end(s, whole + 1)
    } else {
        whole
    };
    let mut digits = part(s, 0, whole);
    assert(digits@ =~= s@.take(whole as int));
    let mut places: usize = 0;
    if point {
        let mut fraction = part(s, whole + 1, end);
        places = fraction.len();
        digits.append(&mut fraction);
    }
    assert(places == fraction_of(s@).len());
    assert(digits@ =~= s@.take(whole as int) + fraction_of(s@));
    if digits.len() == 0 {
        return None;
    }
    match read_exponent(s, end) {
        None => None,
        Some(e) => Some(
            Reading::Finite { negative, digits, exponent: e - places as i128 },
        ),
    }
}

/// Reads a numeral.
fn read_numeral(s: &Vec<char>) -> (r: Option<Reading>)
    ensures
        reads(r, numeral(s@)),
{
    let signed = s.len() > 0 && (s[0] == '+' || s[0] == '-');
    let negative = s.len() > 0 && s[0] == '-';
    let body = part(s, if signed { 1 } else { 0 }, s.len());
    assert(body@ =~= after_sign(s@));
    if spells(&body, "inf") || spells(&body, "infinity") {
        Some(Reading::Infinite { negative })
    } else if spells(&body, "nan") {
        Some(Reading::NotANumber)
    } else {
        read_finite(negative, &body)
    }
}

/// A number lies between the powers of ten that its digits behind the leading noughts span.
proof fn lemma_decimal_bounds(s: Seq<char>, zeros: int)
    requires
        0 <= zeros <= s.len(),
        forall|i: int| 0 <= i < s.len() ==> is_digit(#[trigger] s[i]),
        forall|i: int| 0 <= i < zeros ==> #[trigger] s[i] == '0',
        zeros < s.len() ==> s[zeros] != '0',
    ensures
        decimal_value(s) < pow(10, (s.len() - zeros) as nat),
        zeros < s.len() ==> decimal_value(s) >= pow(10, (s.len() - zeros - 1) as nat),
        zeros == s.len() ==> decimal_value(s) == 0,
    decreases s.len(),
{
    reveal(pow);
    if s.len() > 0 {
        let front = s.drop_last();
        assert(is_digit(s[s.len() - 1]));
        if zeros == s.len() {
            assert(s[s.len() - 1] == '0');
            lemma_decimal_bounds(front, zeros - 1);
        } else {
            lemma_decimal_bounds(front, zeros);
            if zeros == s.len() - 1 {
                assert(pow(10, 1) == 10 * pow(10, 0));
            }
        }
    }
}

proof fn lemma_ten_positive(e: int)
    ensures
        ten_up(e) > 0,
        ten_down(e) > 0,
        e >= 0 ==> ten_up(e) == pow(10, e as nat),
        e <= 0 ==> ten_down(e) == pow(10, (-e) as nat),
{
    reveal(pow);
    if e > 0 {
        lemma_pow_positive(10, e as nat);
    }
    if e < 0 {
        lemma_pow_positive(10, (-e) as nat);
    }
}

/// More than twenty digits before the point are more than any `u64`.
proof fn lemma_finite_large(digits: Seq<char>, count: nat, e: int, unit: nat)
    requires
        count > 0,
        decimal_value(digits) >= pow(10, (count - 1) as nat),
        e + count > 20,
        unit > 0,
    ensures
        finite_times(digits, e, unit) == u64::MAX,
{
    let m = decimal_value(digits) as int;
    let u = unit as int;
    lemma_ten_positive(e);
    lemma2_to64();
    let top = pow2(64) as int;
    assert(pow(10, 20) >= top) by {
        reveal_with_fuel(pow, 21);
    }
    let big = pow(10, 20);
    let up = ten_up(e) as int;
    let down = ten_down(e) as int;
    let low = pow(10, (count - 1) as nat);
    lemma_pow_positive(10, (count - 1) as nat);
    assert(low * up >= big * down) by {
        if e >= 0 {
            lemma_pow_adds(10, (count - 1) as nat, e as nat);
            lemma_pow_increases(10, 20, (count - 1 + e) as nat);
        } else {
            lemma_pow_adds(10, 20, (-e) as nat);
            lemma_pow_increases(10, (20 - e) as nat, (count - 1) as nat);
        }
    }
    assert(m * up * u >= down * top) by (nonlinear_arith)
        requires
            m >= low,
            low * up >= big * down,
            big >= top,
            u >= 1,
            up > 0,
            down > 0,
            m >= 0,
    ;
    nearest_double_huge(decimal_value(digits) * ten_up(e) * unit, ten_down(e));
}

/// With ten noughts behind the point nothing is left of a size.
proof fn lemma_finite_small(digits: Seq<char>, count: nat, e: int, unit: nat)
    requires
        decimal_value(digits) < pow(10, count),
        e + count < -9,
        unit <= 0x4000_0000,
    ensures
        finite_times(digits, e, unit) == 0,
{
    let m = decimal_value(digits) as int;
    let u = unit as int;
    lemma_ten_positive(e);
    assert(pow(10, 10) == 10_000_000_000) by {
        reveal_with_fuel(pow, 11);
    }
    let high = pow(10, count);
    let down = ten_down(e) as int;
    lemma_pow_adds(10, count, 10);
    lemma_pow_increases(10, (count + 10) as nat, (-e) as nat);
    assert(2 * (m * 1 * u) < down) by (nonlinear_arith)
        requires
            m < high,
            m >= 0,
            0 <= u <= 0x4000_0000,
            down >= high * 10_000_000_000,
    ;
    nearest_double_tiny(decimal_value(digits) * ten_up(e) * unit, ten_down(e));
}

/// Dividing by ten once more, and what is lost by it.
proof fn lemma_next_tenth(n: nat, p: nat)
    requires
        p > 0,
    ensures
        (n / p) / 10 == n / (10 * p),
        n % (10 * p) == 0 <==> n % p == 0 && (n / p) % 10 == 0,
{
    let q = (n / p) as int;
    let r = (n % p) as int;
    let a = q / 10;
    let b = q % 10;
    lemma_fundamental_div_mod(n as int, p as int);
    let i = p as int;
    let rest = i * b + r;
    assert(n == a * (10 * i) + rest) by (nonlinear_arith)
        requires
            n == i * q + r,
            q == 10 * a + b,
            rest == i * b + r,
    ;
    assert(0 <= rest < 10 * i) by (nonlinear_arith)
        requires
            0 <= b <= 9,
            0 <= r < i,
            rest == i * b + r,
    ;
    lemma_fundamental_div_mod_converse(n as int, 10 * i, a, rest);
    assert(rest == 0 <==> b == 0 && r == 0) by (nonlinear_arith)
        requires
            0 <= b,
            0 <= r < i,
            rest == i * b + r,
    ;
}

/// Multiplies `n` by ten `times` times.
fn raise(n: &mut BigNat, times: u32)
    ensures
        final(n)@ == old(n)@ * pow(10, times as nat),
{
    let ghost start = n@;
    let mut i: u32 = 0;
    proof {
        reveal(pow);
    }
    while i < times
        invariant
            i <= times,
            n@ == start * pow(10, i as nat),
        decreases times - i,
    {
        n.mul_add(10, 0);
        proof {
            reveal(pow);
            let p = pow(10, i as nat);
            assert(start * p * 10 == start * (10 * p)) by (nonlinear_arith);
        }
        i += 1;
    }
}

/// Divides `n` by ten `times` times, and says whether anything was lost.
fn lower(n: &mut BigNat, times: u128) -> (lost: bool)
    ensures
        pow(10, times as nat) > 0,
        final(n)@ == old(n)@ as int / pow(10, times as nat),
        lost == (old(n)@ as int % pow(10, times as nat) != 0),
{
    let ghost start = n@;
    let mut lost = false;
    let mut i: u128 = 0;
    proof {
        reveal(pow);
    }
    while i < times
        invariant
            i <= times,
            pow(10, i as nat) > 0,
            n@ == start as int / pow(10, i as nat),
            lost == (start as int % pow(10, i as nat) != 0),
        decreases times - i,
    {
        proof {
            reveal(pow);
            lemma_next_tenth(start, pow(10, i as nat) as nat);
        }
        let rem = n.div_rem(10);
        if rem != 0 {
            lost = true;
        }
        i += 1;
    }
    lost
}

/// The number that a row of digits stands for.
fn whole_number(digits: &Vec<char>) -> (n: BigNat)
    requires
        forall|i: int| 0 <= i < digits@.len() ==> is_digit(#[trigger] digits@[i]),
    ensures
        n@ == decimal_value(digits@),
{
    let mut n = BigNat::zero();
    let mut i: usize = 0;
    while i < digits.len()
        invariant
            i <= digits@.len(),
            forall|j: int| 0 <= j < digits@.len() ==> is_digit(#[trigger] digits@[j]),
            n@ == decimal_value(digits@.take(i as int)),
        decreases digits@.len() - i,
    {
        let c: char = digits[i];
        assert(is_digit(digits@[i as int]));
        n.mul_add(10, c as u32 - '0' as u32);
        assert(digits@.take(i + 1).drop_last() =~= digits@.take(i as int));
        i += 1;
    }
    assert(digits@.take(i as int) =~= digits@);
    n
}

/// `n` times `unit` as a quotient of binary places, ready for rounding.
fn round_scaled(n: BigNat, exponent: i128, unit: u32) -> (r: u64)
    requires
        -0x2_0000_0000_0000_0000 < exponent <= 20,
    ensures
        r == saturated(
            nearest_double(
                n@ * ten_up(exponent as int) * unit as nat,
                ten_down(exponent as int),
            ),
        ),
{
    let mut n = n;
    let ghost m = n@ as int;
    let ghost e = exponent as int;
    let ghost u = unit as int;
    let ghost up = ten_up(e) as int;
    let ghost num = n@ * ten_up(e) * unit as nat;
    let ghost den = ten_down(e);
    proof {
        lemma_ten_positive(e);
        lemma2_to64();
        lemma2_to64_rest();
    }
    n.mul_add(unit, 0);
    if exponent > 0 {
        raise(&mut n, exponent as u32);
    }
    assert(n@ == num) by {
        assert(m * u * up == m * up * u) by (nonlinear_arith);
    }
    n.mul_add(0x1000_0000, 0);
    n.mul_add(0x1000_0000, 0);
    assert(n@ == num * pow2(56));
    let mut lost = false;
    proof {
        assert(num * pow2(56) % 1 == 0);
        assert(num * pow2(56) / 1 == num * pow2(56));
    }
    if exponent < 0 {
        lost = lower(&mut n, (-exponent) as u128);
    }
    match n.to_u128() {
        None => {
            proof {
                let a = (num * pow2(56)) as int;
                let d = den as int;
                let k = num as int;
                lemma_fundamental_div_mod(a, d);
                let f = a / d;
                assert(k >= d * pow2(64)) by (nonlinear_arith)
                    requires
                        a == k * pow2(56),
                        a >= d * f,
                        f > 0xffff_ffff_ffff_ffff_ffff_ffff_ffff_ffff,
                        pow2(56) == 0x100_0000_0000_0000,
                        pow2(64) == 0x1_0000_0000_0000_0000,
                        d > 0,
                ;
                nearest_double_huge(num, den);
            }
            u64::MAX
        },
        Some(fixed) => {
            let r = round_fixed(fixed, lost);
            assert(r == nearest_double(num, den));
            if r > u64::MAX as u128 {
                u64::MAX
            } else {
                r as u64
            }
        },
    }
}

/// The double nearest to `digits` times ten to the power of `exponent`, times `unit`, as an
/// unsigned integer.
fn scale_digits(digits: &Vec<char>, exponent: i128, unit: u32) -> (r: u64)
    requires
        forall|i: int| 0 <= i < digits@.len() ==> is_digit(#[trigger] digits@[i]),
        -exponent_bound() <= exponent <= exponent_bound(),
        0 < unit <= 0x4000_0000,
    ensures
        forall|e: int|
            same_exponent(exponent as int, e) ==> r == #[trigger] finite_times(
                digits@,
                e,
                unit as nat,
            ),
{
    let mut zeros: usize = 0;
    while zeros < digits.len() && digits[zeros] == '0'
        invariant
            zeros <= digits@.len(),
            forall|i: int| 0 <= i < zeros ==> #[trigger] digits@[i] == '0',
        decreases digits@.len() - zeros,
    {
        zeros += 1;
    }
    proof {
        lemma_decimal_bounds(digits@, zeros as int);
    }
    let count = digits.len() - zeros;
    if count == 0 {
        proof {
            assert forall|e: int| 0 == #[trigger] finite_times(digits@, e, unit as nat) by {
                let up = ten_up(e);
                assert(0 * up * unit as nat == 0) by (nonlinear_arith);
            }
        }
        return 0;
    }
    let top: i128 = exponent + count as i128;
    if top > 20 {
        proof {
            assert forall|e: int| same_exponent(exponent as int, e) implies u64::MAX
                == #[trigger] finite_times(digits@, e, unit as nat) by {
                lemma_finite_large(digits@, count as nat, e, unit as nat);
            }
        }
        return u64::MAX;
    }
    if top < -9 {
        proof {
            assert forall|e: int| same_exponent(exponent as int, e) implies 0
                == #[trigger] finite_times(digits@, e, unit as nat) by {
                lemma_finite_small(digits@, count as nat, e, unit as nat);
            }
        }
        return 0;
    }
    let n = whole_number(digits);
    round_scaled(n, exponent, unit)
}

/// Reads `s` as a double, multiplies it by `unit`, a power of two, and makes an unsigned integer
/// of it; gives `None` where `s` is no numeral.
pub fn read_times(s: &Vec<char>, unit: u32) -> (r: Option<u64>)
    requires
        0 < unit <= 0x4000_0000,
    ensures
        r == match numeral(s@) {
            Some(n) => Some(numeral_times(n, unit as nat)),
            None => None,
        },
{
    match read_numeral(s) {
        None => None,
        Some(Reading::NotANumber) => Some(0),
        Some(Reading::Infinite { negative }) => Some(
            if negative {
                0
            } else {
                u64::MAX
            },
        ),
        Some(Reading::Finite { negative, digits, exponent }) => {
            if negative {
                Some(0)
            } else {
                Some(scale_digits(&digits, exponent, unit))
            }
        },
    }
}

/// Whether a text is a row of digits; it may be empty.
pub open spec fn is_row(s: Seq<char>) -> bool {
    forall|i: int| 0 <= i < s.len() ==> '0' <= #[trigger] s[i] <= '9'
}

/// Digits have place values: those in front count by as many tens as there are digits behind them. A
/// digit by itself counts as what it is.
pub proof fn digits_have_place_values(front: Seq<char>, back: Seq<char>, c: char)
    ensures
        decimal_value(front + back) == decimal_value(front) * pow(10, back.len())
            + decimal_value(back),
        '0' <= c <= '9' ==> decimal_value(seq![c]) == c as int - 48,
    decreases back.len(),
{
    reveal(pow);
    assert(decimal_value(Seq::<char>::empty()) == 0);
    assert(seq![c].drop_last() =~= Seq::<char>::empty());
    if back.len() == 0 {
        assert(front + back =~= front);
    } else {
        let b = back.drop_last();
        digits_have_place_values(front, b, c);
        assert((front + back).drop_last() =~= front + b);
        let v = decimal_value(front) as int;
        let p = pow(10, b.len());
        assert(v * (10 * p) == 10 * (v * p)) by (nonlinear_arith);
    }
}

/// A sign: a plus, a minus, or nothing.
pub open spec fn is_sign(s: Seq<char>) -> bool {
    s.len() == 0 || s == seq!['+'] || s == seq!['-']
}

/// A point with the digits behind it, where there is a point.
pub open spec fn point_part(fraction: Option<Seq<char>>) -> Seq<char> {
    match fraction {
        Some(f) => seq!['.'] + f,
        None => Seq::empty(),
    }
}

/// The digits behind the point.
pub open spec fn fraction_digits(fraction: Option<Seq<char>>) -> Seq<char> {
    match fraction {
        Some(f) => f,
        None => Seq::empty(),
    }
}

/// A power of ten: the letter, the sign and the digits of the exponent.
pub struct Power {
    pub letter: char,
    pub sign: Seq<char>,
    pub digits: Seq<char>,
}

/// How a power of ten is written, where there is one.
pub open spec fn power_part(power: Option<Power>) -> Seq<char> {
    match power {
        Some(p) => seq![p.letter] + p.sign + p.digits,
        None => Seq::empty(),
    }
}

/// Whether a power of ten is written as it should be.
pub open spec fn is_power(power: Option<Power>) -> bool {
    match power {
        Some(p) => (p.letter == 'e' || p.letter == 'E') && is_sign(p.sign) && is_row(p.digits)
            && p.digits.len() > 0,
        None => true,
    }
}

/// The exponent of a power of ten.
pub open spec fn power_value(power: Option<Power>) -> int {
    match power {
        Some(p) => if p.sign == seq!['-'] {
            -(decimal_value(p.digits) as int)
        } else {
            decimal_value(p.digits) as int
        },
        None => 0,
    }
}

/// The parts of a numeral of digits.
pub struct Written {
    pub sign: Seq<char>,
    pub whole: Seq<char>,
    pub fraction: Option<Seq<char>>,
    pub power: Option<Power>,
}

impl Written {
    /// Whether the parts are what they should be, with a digit before or behind the point.
    pub open spec fn valid(self) -> bool {
        &&& is_sign(self.sign)
        &&& is_row(self.whole)
        &&& is_row(fraction_digits(self.fraction))
        &&& self.whole.len() + fraction_digits(self.fraction).len() > 0
        &&& is_power(self.power)
    }

    /// The numeral.
    pub open spec fn text(self) -> Seq<char> {
        self.sign + self.whole + point_part(self.fraction) + power_part(self.power)
    }

    /// The digits of the numeral, without the point.
    pub open spec fn digits(self) -> Seq<char> {
        self.whole + fraction_digits(self.fraction)
    }

    /// The power of ten by which the digits count.
    pub open spec fn exponent(self) -> int {
        power_value(self.power) - fraction_digits(self.fraction).len()
    }
}

proof fn lemma_row_end(s: Seq<char>, from: int, to: int)
    requires
        0 <= from <= to <= s.len(),
        forall|i: int| from <= i < to ==> '0' <= #[trigger] s[i] <= '9',
        to < s.len() ==> !is_digit(s[to]),
    ensures
        digits_end(s, from) == to,
    decreases to - from,
{
    if from < to {
        assert('0' <= s[from] <= '9');
        lemma_row_end(s, from + 1, to);
    }
}

proof fn lemma_power_read(power: Option<Power>)
    requires
        is_power(power),
    ensures
        exponent_of(power_part(power)) == Some(power_value(power)),
{
    if let Some(p) = power {
        let s = power_part(power);
        let rest = s.skip(1);
        assert(rest =~= p.sign + p.digits);
        assert(s[0] == p.letter);
        if p.sign.len() == 0 {
            assert(rest =~= p.digits);
            assert('0' <= p.digits[0] <= '9');
            assert(p.sign != seq!['-']);
        } else {
            assert(rest[0] == p.sign[0]);
            assert(rest.skip(1) =~= p.digits);
            assert(p.sign == seq!['+'] ==> p.sign[0] == '+');
            assert(p.sign == seq!['-'] ==> p.sign[0] == '-');
        }
        assert(after_sign(rest) == p.digits);
        lemma_row_end(p.digits, 0, p.digits.len() as int);
    }
}

/// Every numeral of digits is read as it is written: the digits before and behind the point as one
/// whole number, counted by as many tenths as there are digits behind the point, and by the power of
/// ten at its end.
pub proof fn written_numerals_are_read(n: Written)
    requires
        n.valid(),
    ensures
        numeral(n.text()) == Some(
            Numeral::Finite {
                negative: n.sign == seq!['-'],
                digits: n.digits(),
                exponent: n.exponent(),
            },
        ),
{
    reveal_strlit("inf");
    reveal_strlit("infinity");
    reveal_strlit("nan");
    let s = n.text();
    let f = fraction_digits(n.fraction);
    let body = n.whole + point_part(n.fraction) + power_part(n.power);
    assert(s =~= n.sign + body);
    if n.whole.len() > 0 {
        assert(body[0] == n.whole[0]);
    } else {
        assert(n.fraction is Some);
        assert(body[0] == '.');
    }
    if n.sign.len() == 0 {
        assert(s =~= body);
        assert(n.sign != seq!['-']);
    } else {
        assert(s[0] == n.sign[0]);
        assert(s.skip(1) =~= body);
        assert(n.sign == seq!['+'] ==> n.sign[0] == '+');
        assert(n.sign == seq!['-'] ==> n.sign[0] == '-');
    }
    assert(after_sign(s) == body);
    assert("inf"@[0] == 'i' && "infinity"@[0] == 'i' && "nan"@[0] == 'n');
    assert(!is_word(body, "inf"@) && !is_word(body, "infinity"@) && !is_word(body, "nan"@));
    let w = n.whole.len() as int;
    assert forall|i: int| 0 <= i < w implies '0' <= #[trigger] body[i] <= '9' by {
        assert(body[i] == n.whole[i]);
    }
    if n.power is Some {
        assert(power_part(n.power)[0] == n.power->0.letter);
    }
    match n.fraction {
        Some(g) => {
            assert(body[w] == '.');
            lemma_row_end(body, 0, w);
            let e = w + 1 + g.len();
            assert forall|i: int| w + 1 <= i < e implies '0' <= #[trigger] body[i] <= '9' by {
                assert(body[i] == g[i - w - 1]);
            }
            if e < body.len() {
                assert(body[e] == power_part(n.power)[0]);
            }
            lemma_row_end(body, w + 1, e);
            assert(body.subrange(w + 1, e) =~= g);
            assert(body.skip(e) =~= power_part(n.power));
        },
        None => {
            if w < body.len() {
                assert(body[w] == power_part(n.power)[0]);
            }
            lemma_row_end(body, 0, w);
            assert(body.skip(w) =~= power_part(n.power));
        },
    }
    assert(body.take(w) =~= n.whole);
    lemma_power_read(n.power);
}

/// The small form of a letter.
pub open spec fn small(c: char) -> char {
    if 'A' <= c <= 'Z' {
        (c as u32 + 32) as char
    } else {
        c
    }
}

/// A text in small letters.
pub open spec fn in_small(s: Seq<char>) -> Seq<char> {
    s.map_values(|c: char| small(c))
}

proof fn lemma_word_small(s: Seq<char>, word: Seq<char>)
    requires
        forall|i: int| 0 <= i < word.len() ==> 'a' <= #[trigger] word[i] <= 'z',
    ensures
        is_word(s, word) <==> in_small(s) == word,
{
    if is_word(s, word) {
        assert forall|i: int| 0 <= i < s.len() implies #[trigger] in_small(s)[i] == word[i] by {
            assert(s[i] == word[i] || s[i] as u32 + 32 == word[i] as u32);
            assert('a' <= word[i] <= 'z');
        }
        assert(in_small(s) =~= word);
    }
    if in_small(s) == word {
        assert(s.len() == word.len());
        assert forall|i: int| 0 <= i < s.len() implies #[trigger] s[i] == word[i] || s[i] as u32 + 32
            == word[i] as u32 by {
            assert(in_small(s)[i] == word[i]);
        }
    }
}

/// The words for infinity and for what is no number are read in any case, with or without a sign.
pub proof fn words_are_read(sign: Seq<char>, word: Seq<char>)
    requires
        is_sign(sign),
    ensures
        in_small(word) == "inf"@ || in_small(word) == "infinity"@ ==> numeral(sign + word) == Some(
            Numeral::Infinite { negative: sign == seq!['-'] },
        ),
        in_small(word) == "nan"@ ==> numeral(sign + word) == Some(Numeral::NotANumber),
{
    reveal_strlit("inf");
    reveal_strlit("infinity");
    reveal_strlit("nan");
    lemma_word_small(word, "inf"@);
    lemma_word_small(word, "infinity"@);
    lemma_word_small(word, "nan"@);
    if in_small(word) == "inf"@ || in_small(word) == "infinity"@ || in_small(word) == "nan"@ {
        let s = sign + word;
        assert(in_small(word)[0] == small(word[0]));
        if sign.len() == 0 {
            assert(s =~= word);
            assert(sign != seq!['-']);
        } else {
            assert(s[0] == sign[0]);
            assert(s.skip(1) =~= word);
            assert(sign == seq!['+'] ==> sign[0] == '+');
            assert(sign == seq!['-'] ==> sign[0] == '-');
        }
        assert(after_sign(s) == word);
        assert("inf"@.len() == 3 && "infinity"@.len() == 8 && "nan"@[0] == 'n' && "inf"@[0] == 'i');
        if in_small(word) == "nan"@ {
            assert(in_small(word)[0] == 'n');
        }
    }
}

proof fn lemma_power_shape(tail: Seq<char>) -> (power: Option<Power>)
    requires
        exponent_of(tail) is Some,
    ensures
        is_power(power),
        power_part(power) == tail,
{
    if tail.len() == 0 {
        assert(tail =~= Seq::<char>::empty());
        None
    } else {
        let rest = tail.skip(1);
        let digits = after_sign(rest);
        lemma_digits_end(digits, 0);
        let sign = if is_signed(rest) {
            seq![rest[0]]
        } else {
            Seq::empty()
        };
        assert(rest =~= sign + digits);
        assert(tail =~= seq![tail[0]] + sign + digits);
        assert forall|i: int| 0 <= i < digits.len() implies '0' <= #[trigger] digits[i] <= '9' by {
            assert(is_digit(digits[i]));
        }
        Some(Power { letter: tail[0], sign, digits })
    }
}

proof fn lemma_finite_shape(negative: bool, sign: Seq<char>, body: Seq<char>) -> (n: Written)
    requires
        is_sign(sign),
        finite_numeral(negative, body) is Some,
    ensures
        n.valid(),
        n.text() == sign + body,
{
    let w = whole_end(body);
    lemma_digits_end(body, 0);
    if has_point(body) {
        lemma_digits_end(body, w + 1);
    }
    let e = fraction_end(body);
    let tail = body.skip(e);
    let fraction = if has_point(body) {
        Some(fraction_of(body))
    } else {
        None
    };
    let power = lemma_power_shape(tail);
    let n = Written { sign, whole: body.take(w), fraction, power };
    assert forall|i: int| 0 <= i < w implies '0' <= #[trigger] n.whole[i] <= '9' by {
        assert(is_digit(body[i]));
    }
    let f = fraction_digits(fraction);
    assert forall|i: int| 0 <= i < f.len() implies '0' <= #[trigger] f[i] <= '9' by {
        assert(is_digit(body[w + 1 + i]));
    }
    assert(f =~= fraction_of(body));
    assert(body =~= n.whole + point_part(fraction) + tail);
    assert(sign + body =~= sign + n.whole + point_part(fraction) + tail);
    n
}

/// Nothing else is read: what is a finite number is written as a numeral of digits, and the rest are
/// the words.
pub proof fn only_numerals_are_read(s: Seq<char>) -> (n: Written)
    ensures
        match numeral(s) {
            Some(Numeral::Finite { .. }) => n.valid() && s == n.text(),
            Some(Numeral::Infinite { .. }) => is_sign(n.sign) && s == n.sign + n.whole && (in_small(
                n.whole,
            ) == "inf"@ || in_small(n.whole) == "infinity"@),
            Some(Numeral::NotANumber) => is_sign(n.sign) && s == n.sign + n.whole && in_small(n.whole)
                == "nan"@,
            None => true,
        },
{
    reveal_strlit("inf");
    reveal_strlit("infinity");
    reveal_strlit("nan");
    let body = after_sign(s);
    let sign = if is_signed(s) {
        seq![s[0]]
    } else {
        Seq::empty()
    };
    assert(s =~= sign + body);
    lemma_word_small(body, "inf"@);
    lemma_word_small(body, "infinity"@);
    lemma_word_small(body, "nan"@);
    if numeral(s) matches Some(Numeral::Finite { .. }) {
        lemma_finite_shape(is_negative(s), sign, body)
    } else {
        Written { sign, whole: body, fraction: None, power: None }
    }
}

/// What follows of the shape of a numeral: it is not empty, and begins and ends with certain
/// characters only.
pub proof fn numerals_begin_and_end(s: Seq<char>)
    requires
        numeral(s) is Some,
    ensures
        s.len() > 0,
        is_digit(s[0]) || s[0] == '+' || s[0] == '-' || s[0] == '.' || small(s[0]) == 'i' || small(
            s[0],
        ) == 'n',
        is_digit(s[s.len() - 1]) || s[s.len() - 1] == '.' || small(s[s.len() - 1]) == 'f' || small(
            s[s.len() - 1],
        ) == 'y' || small(s[s.len() - 1]) == 'n',
{
    reveal_strlit("inf");
    reveal_strlit("infinity");
    reveal_strlit("nan");
    let n = only_numerals_are_read(s);
    let last = s.len() - 1;
    if numeral(s) matches Some(Numeral::Finite { .. }) {
        let p = power_part(n.power);
        let q = point_part(n.fraction);
        let body = n.whole + q + p;
        assert(s =~= n.sign + body);
        if n.whole.len() > 0 {
            assert(is_digit(n.whole[0]));
            assert(body[0] == n.whole[0]);
        } else {
            assert(body[0] == '.');
        }
        if n.sign.len() > 0 {
            assert(s[0] == n.sign[0]);
        } else {
            assert(s[0] == body[0]);
        }
        assert(s[last] == body[body.len() - 1]);
        if n.power is Some {
            let d = n.power->0.digits;
            assert(is_digit(d[d.len() - 1]));
            assert(body[body.len() - 1] == d[d.len() - 1]);
        } else if n.fraction is Some {
            let f = n.fraction->0;
            if f.len() > 0 {
                assert('0' <= fraction_digits(n.fraction)[f.len() - 1] <= '9');
                assert(body[body.len() - 1] == f[f.len() - 1]);
            } else {
                assert(body[body.len() - 1] == '.');
            }
        } else {
            assert('0' <= n.whole[n.whole.len() - 1] <= '9');
            assert(body[body.len() - 1] == n.whole[n.whole.len() - 1]);
        }
    } else {
        let w = n.whole;
        let t = in_small(w);
        assert(t.len() == w.len());
        assert(t[0] == small(w[0]) && t[t.len() - 1] == small(w[w.len() - 1]));
        assert(s[last] == w[w.len() - 1]);
        if n.sign.len() > 0 {
            assert(s[0] == n.sign[0]);
        } else {
            assert(s[0] == w[0]);
        }
    }
}

/// A numeral as a size: nothing below nought, and otherwise the double nearest to the number that is
/// written, times the unit, cut off behind the point, and not more than a `u64` holds. With `up` and
/// `down` tens the exponent is what they differ by.
pub proof fn numerals_count_by_tens(n: Written, unit: nat, up: nat, down: nat)
    requires
        n.valid(),
        n.exponent() == up - down,
    ensures
        numeral(n.text()) is Some,
        numeral_times(numeral(n.text())->0, unit) == if n.sign == seq!['-'] {
            0
        } else {
            saturated(
                nearest_double(
                    decimal_value(n.digits()) * pow(10, up) as nat * unit,
                    pow(10, down) as nat,
                ),
            )
        },
{
    written_numerals_are_read(n);
    let e = n.exponent();
    let v = decimal_value(n.digits());
    lemma_pow_positive(10, up);
    lemma_pow_positive(10, down);
    lemma_ten_positive(e);
    let c = if up < down {
        up
    } else {
        down
    };
    lemma_pow_positive(10, c);
    let k = pow(10, c) as nat;
    assert(pow(10, up) == ten_up(e) * k && pow(10, down) == ten_down(e) * k) by {
        reveal(pow);
        if e >= 0 {
            lemma_pow_adds(10, e as nat, c);
            assert(1 * k == k);
        } else {
            lemma_pow_adds(10, (-e) as nat, c);
            assert(1 * k == k);
        }
    }
    let a = v as int;
    let b = ten_up(e) as int;
    let u = unit as int;
    let m = k as int;
    assert(a * (b * m) * u == (a * b * u) * m) by (nonlinear_arith);
    nearest_double_of_scaled(v * ten_up(e) * unit, ten_down(e), k);
}

/// A number in decimal digits is that number, with no nought in front that is not needed.
pub proof fn decimals_are_read_back(n: nat)
    ensures
        decimal(n).len() > 0,
        is_row(decimal(n)),
        decimal_value(decimal(n)) == n,
        n > 0 ==> decimal(n)[0] != '0',
        n < 10 ==> decimal(n).len() == 1,
    decreases n,
{
    if n >= 10 {
        decimals_are_read_back(n / 10);
        assert(decimal(n).drop_last() =~= decimal(n / 10));
    } else {
        assert(decimal(n).drop_last() =~= Seq::<char>::empty());
        assert(decimal_value(decimal(n).drop_last()) == 0);
    }
}

/// What a `u64` holds stays as it is; what is too large becomes the largest.
pub proof fn saturation_keeps_what_fits(n: nat)
    ensures
        n <= u64::MAX ==> saturated(n) == n,
        n > u64::MAX ==> saturated(n) == u64::MAX,
{
}

} // verus!
