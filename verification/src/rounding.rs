//! Rounding as binary floating point does it, in exact integer arithmetic.
//!
//! A double-precision number keeps 53 significant bits. A quotient is rounded to the nearest
//! such number, and a tie goes to the one whose last kept bit is nought.

use vstd::arithmetic::div_mod::lemma_fundamental_div_mod;
use vstd::arithmetic::div_mod::lemma_fundamental_div_mod_converse;
use vstd::arithmetic::power2::lemma2_to64;
use vstd::arithmetic::power2::lemma2_to64_rest;
use vstd::arithmetic::power2::lemma_pow2_adds;
use vstd::arithmetic::power2::lemma_pow2_pos;
use vstd::arithmetic::power2::lemma_pow2_strictly_increases;
use vstd::arithmetic::power2::lemma_pow2_unfold;
use vstd::arithmetic::power2::pow2;
use vstd::prelude::*;

verus! {

/// The integer nearest to `num / den`; of two equally near ones, the even one.
pub open spec fn half_even(num: nat, den: nat) -> nat {
    let quotient = num / den;
    let rest = num % den;
    if 2 * rest < den || (2 * rest == den && quotient % 2 == 0) {
        quotient
    } else {
        quotient + 1
    }
}

/// The step `2^q` as a fraction: what stands above the line.
pub open spec fn step_up(q: int) -> nat {
    if q > 0 {
        pow2(q as nat)
    } else {
        1
    }
}

/// The step `2^q` as a fraction: what stands below the line.
pub open spec fn step_down(q: int) -> nat {
    if q < 0 {
        pow2((-q) as nat)
    } else {
        1
    }
}

/// Whether `num / den`, counted in steps of `2^q`, has exactly 53 bits before the point.
pub open spec fn on_grid(num: nat, den: nat, q: int) -> bool {
    den * step_up(q) * pow2(52) <= num * step_down(q) < den * step_up(q) * pow2(53)
}

/// The exponent of the last bit that is kept of `num / den`.
pub open spec fn last_bit(num: nat, den: nat) -> int {
    choose|q: int| on_grid(num, den, q)
}

/// The double nearest to `num / den`, without what it has behind the point.
///
/// The exponent has no bounds here.
pub open spec fn nearest_double(num: nat, den: nat) -> nat {
    if num == 0 {
        0
    } else {
        let q = last_bit(num, den);
        half_even(num * step_down(q), den * step_up(q)) * step_up(q) / step_down(q)
    }
}

proof fn lemma_steps_positive(q: int)
    ensures
        step_up(q) > 0,
        step_down(q) > 0,
{
    if q > 0 {
        lemma_pow2_pos(q as nat);
    }
    if q < 0 {
        lemma_pow2_pos((-q) as nat);
    }
}

/// A wider step is at least twice as wide.
proof fn lemma_steps_apart(q: int, p: int)
    requires
        q < p,
    ensures
        2 * (step_up(q) * step_down(p)) <= step_up(p) * step_down(q),
{
    let a = if q > 0 { q as nat } else { 0 };
    let b = if p < 0 { (-p) as nat } else { 0 };
    let c = if p > 0 { p as nat } else { 0 };
    let d = if q < 0 { (-q) as nat } else { 0 };
    lemma2_to64();
    lemma_pow2_adds(a, b);
    lemma_pow2_adds(c, d);
    lemma_pow2_unfold((a + b + 1) as nat);
    if a + b + 1 < c + d {
        lemma_pow2_strictly_increases((a + b + 1) as nat, (c + d) as nat);
    }
}

/// No quotient is on two grids.
proof fn lemma_grid_unique(num: nat, den: nat, q: int, p: int)
    requires
        den > 0,
        on_grid(num, den, q),
        on_grid(num, den, p),
    ensures
        q == p,
{
    if q < p {
        lemma_grid_below(num, den, q, p);
    }
    if p < q {
        lemma_grid_below(num, den, p, q);
    }
}

proof fn lemma_grid_below(num: nat, den: nat, q: int, p: int)
    requires
        den > 0,
        q < p,
        on_grid(num, den, q),
    ensures
        !on_grid(num, den, p),
{
    if on_grid(num, den, p) {
        lemma_steps_apart(q, p);
        lemma_steps_positive(q);
        lemma_steps_positive(p);
        lemma_pow2_unfold(53);
        let n = num as int;
        let d = den as int;
        let uq = step_up(q) as int;
        let dq = step_down(q) as int;
        let up = step_up(p) as int;
        let dp = step_down(p) as int;
        let h = pow2(52) as int;
        lemma_pow2_pos(52);
        assert(d * up * h * dq <= n * dp * dq) by (nonlinear_arith)
            requires
                d * up * h <= n * dp,
                dq > 0,
        ;
        assert(n * dq * dp < d * uq * (2 * h) * dp) by (nonlinear_arith)
            requires
                n * dq < d * uq * (2 * h),
                dp > 0,
        ;
        assert(n * dp * dq == n * dq * dp) by (nonlinear_arith);
        assert(d * uq * (2 * h) * dp == (d * h) * (2 * (uq * dp))) by (nonlinear_arith);
        assert(d * up * h * dq == (d * h) * (up * dq)) by (nonlinear_arith);
        assert((d * h) * (2 * (uq * dp)) <= (d * h) * (up * dq)) by (nonlinear_arith)
            requires
                2 * (uq * dp) <= up * dq,
                d > 0,
                h > 0,
        ;
    }
}

/// Every positive quotient below `2^53` is on a grid of steps no wider than one.
proof fn lemma_grid_exists_small(num: nat, den: nat) -> (q: int)
    requires
        num > 0,
        den > 0,
        num < den * pow2(53),
    ensures
        q <= 0,
        on_grid(num, den, q),
    decreases den * pow2(53) - num,
{
    lemma_pow2_unfold(53);
    if num >= den * pow2(52) {
        0
    } else {
        let n2: nat = 2 * num;
        assert(den * pow2(53) == 2 * (den * pow2(52))) by (nonlinear_arith)
            requires
                pow2(53) == 2 * pow2(52),
        ;
        let q = lemma_grid_exists_small(n2, den);
        lemma_pow2_unfold((1 - q) as nat);
        lemma2_to64();
        let dq = step_down(q) as int;
        let n = num as int;
        assert((2 * n) * dq == n * (2 * dq)) by (nonlinear_arith);
        assert(step_down(q - 1) == 2 * dq);
        q - 1
    }
}

/// Every quotient of at least `2^52` is on a grid of steps no narrower than one.
proof fn lemma_grid_exists_large(num: nat, den: nat) -> (q: int)
    requires
        den > 0,
        num >= den * pow2(52),
    ensures
        q >= 0,
        on_grid(num, den, q),
    decreases num - den,
{
    lemma_pow2_unfold(53);
    lemma_pow2_pos(52);
    if num < den * pow2(53) {
        0
    } else {
        let d2: nat = 2 * den;
        assert(den * pow2(53) == d2 * pow2(52)) by (nonlinear_arith)
            requires
                pow2(53) == 2 * pow2(52),
                d2 == 2 * den,
        ;
        assert(d2 * pow2(52) >= d2) by (nonlinear_arith)
            requires
                pow2(52) >= 1,
        ;
        let q = lemma_grid_exists_large(num, d2);
        lemma_pow2_unfold((q + 1) as nat);
        lemma2_to64();
        let uq = step_up(q) as int;
        let d = den as int;
        assert(d2 * uq == d * (2 * uq)) by (nonlinear_arith)
            requires
                d2 == 2 * d,
        ;
        assert(step_up(q + 1) == 2 * uq);
        q + 1
    }
}

/// The exponent of the last bit is known as soon as a grid is found that the quotient is on.
pub proof fn last_bit_is_unique(num: nat, den: nat, q: int)
    requires
        den > 0,
        on_grid(num, den, q),
    ensures
        last_bit(num, den) == q,
{
    lemma_grid_unique(num, den, q, last_bit(num, den));
}

proof fn lemma_half_even_scaled(num: nat, den: nat, c: nat)
    requires
        den > 0,
        c > 0,
    ensures
        half_even(num * c, den * c) == half_even(num, den),
{
    let k = (num / den) as int;
    let r = (num % den) as int;
    let n = num as int;
    let d = den as int;
    let f = c as int;
    lemma_fundamental_div_mod(n, d);
    assert(n * f == k * (d * f) + r * f) by (nonlinear_arith)
        requires
            n == d * k + r,
    ;
    assert(0 <= r * f < d * f) by (nonlinear_arith)
        requires
            0 <= r < d,
            f > 0,
    ;
    lemma_fundamental_div_mod_converse(n * f, d * f, k, r * f);
    assert((2 * r < d) == (2 * (r * f) < d * f)) by (nonlinear_arith)
        requires
            f > 0,
    ;
    assert((2 * r == d) == (2 * (r * f) == d * f)) by (nonlinear_arith)
        requires
            f > 0,
    ;
}

/// Rounding `fixed / 2^d`, where `fixed` is a quotient that may have lost a rest.
pub open spec fn rounded_shift(fixed: nat, lost: bool, d: nat) -> nat {
    let kept = fixed / pow2(d);
    let rest = fixed % pow2(d);
    if 2 * rest < pow2(d) || (2 * rest == pow2(d) && !lost && kept % 2 == 0) {
        kept
    } else {
        kept + 1
    }
}

/// How `num / den` is rounded, read off its first 56 binary places.
proof fn lemma_rounded_fixed(num: nat, den: nat, fixed: nat, d: nat)
    requires
        den > 0,
        d > 0,
        fixed == num * pow2(56) / den,
        pow2(52 + d) <= fixed < pow2(53 + d),
    ensures
        last_bit(num, den) == d - 56,
        half_even(num * step_down(d - 56), den * step_up(d - 56)) == rounded_shift(
            fixed,
            num * pow2(56) % den != 0,
            d,
        ),
{
    let q = d - 56;
    let c = if d < 56 { pow2(d) } else { pow2(56) };
    lemma_pow2_pos(d);
    lemma_pow2_pos(56);
    lemma_steps_positive(q);
    let n = num as int;
    let e = den as int;
    let a = n * pow2(56);
    let w = e * pow2(d);
    let up = step_up(q) as int;
    let dn = step_down(q) as int;
    assert((n * dn) * c == a && (e * up) * c == w) by {
        lemma2_to64();
        if d < 56 {
            lemma_pow2_adds((56 - d) as nat, d);
            assert((n * dn) * c == n * (dn * c)) by (nonlinear_arith);
        } else {
            lemma_pow2_adds((d - 56) as nat, 56);
            assert((e * up) * c == e * (up * c)) by (nonlinear_arith);
        }
    }
    let f = fixed as int;
    let s = a % e;
    lemma_fundamental_div_mod(a, e);
    lemma_pow2_adds(52, d);
    lemma_pow2_adds(53, d);
    let h = pow2(52) as int;
    let t = pow2(53) as int;
    let m = pow2(d) as int;
    assert(e * up * h <= n * dn) by {
        assert(w * h <= a) by (nonlinear_arith)
            requires
                w == e * m,
                h * m <= f,
                a == e * f + s,
                s >= 0,
                e > 0,
        ;
        let cc = c as int;
        let x = e * up;
        let y = n * dn;
        assert(x * h <= y) by (nonlinear_arith)
            requires
                x * cc * h <= y * cc,
                cc > 0,
        ;
    }
    assert(n * dn < e * up * t) by {
        assert(a < w * t) by (nonlinear_arith)
            requires
                w == e * m,
                f < t * m,
                a == e * f + s,
                s < e,
                e > 0,
        ;
        let cc = c as int;
        let x = e * up;
        let y = n * dn;
        assert(y < x * t) by (nonlinear_arith)
            requires
                y * cc < x * cc * t,
                cc > 0,
        ;
    }
    last_bit_is_unique(num, den, q);
    assert(e * up > 0) by (nonlinear_arith)
        requires
            e > 0,
            up > 0,
    ;
    lemma_half_even_scaled(num * step_down(q), den * step_up(q), c);
    let kept = f / m;
    let rest = f % m;
    lemma_fundamental_div_mod(f, m);
    let r = e * rest + s;
    assert(a == kept * w + r) by (nonlinear_arith)
        requires
            a == e * f + s,
            f == m * kept + rest,
            w == e * m,
            r == e * rest + s,
    ;
    assert(0 <= r < w) by (nonlinear_arith)
        requires
            0 <= rest < m,
            0 <= s < e,
            w == e * m,
            r == e * rest + s,
    ;
    lemma_fundamental_div_mod_converse(a, w, kept, r);
    lemma_pow2_unfold(d);
    let half = pow2((d - 1) as nat) as int;
    assert(rest < half ==> 2 * r < w) by (nonlinear_arith)
        requires
            m == 2 * half,
            0 <= s < e,
            w == e * m,
            r == e * rest + s,
    ;
    assert(rest == half ==> 2 * r == w + 2 * s) by (nonlinear_arith)
        requires
            m == 2 * half,
            w == e * m,
            r == e * rest + s,
    ;
    assert(rest > half ==> 2 * r > w) by (nonlinear_arith)
        requires
            m == 2 * half,
            0 <= s < e,
            w == e * m,
            r == e * rest + s,
    ;
}

proof fn lemma_half_even_near(num: nat, den: nat)
    requires
        den > 0,
    ensures
        num / den <= half_even(num, den) <= num / den + 1,
{
}

/// A quotient below one half rounds to a double below one.
pub proof fn nearest_double_tiny(num: nat, den: nat)
    requires
        den > 0,
        2 * num < den,
    ensures
        nearest_double(num, den) == 0,
{
    if num > 0 {
        lemma2_to64();
        lemma2_to64_rest();
        lemma_pow2_pos(53);
        assert(num < den * pow2(53)) by (nonlinear_arith)
            requires
                2 * num < den,
                pow2(53) >= 1,
        ;
        let q = lemma_grid_exists_small(num, den);
        last_bit_is_unique(num, den, q);
        let dn = step_down(q) as int;
        let n = num as int;
        let d = den as int;
        let h = pow2(52) as int;
        let t = pow2(53) as int;
        lemma_steps_positive(q);
        assert(d * 1 * h == d * h && d * 1 * t == d * t) by (nonlinear_arith);
        if q >= -53 {
            if -q < 53 {
                lemma_pow2_strictly_increases((-q) as nat, 53);
            }
            assert(n * dn < d * h) by (nonlinear_arith)
                requires
                    2 * n < d,
                    0 < dn <= 2 * h,
                    n >= 0,
            ;
        }
        let m = half_even(num * step_down(q), den * step_up(q));
        assert(num * step_down(q) / den <= t - 1) by (nonlinear_arith)
            requires
                n * dn < d * t,
                d > 0,
                n == num,
                dn == step_down(q),
                d == den,
        ;
        assert(den * 1 == den);
        lemma_half_even_near(num * step_down(q), den);
        assert(m <= t);
        if -q > 54 {
            lemma_pow2_strictly_increases(54, (-q) as nat);
        }
        assert(m * 1 == m);
        assert(m < step_down(q));
        vstd::arithmetic::div_mod::lemma_basic_div(m as int, dn);
    }
}

/// A quotient of at least `2^64` rounds to a double of at least `2^64`.
pub proof fn nearest_double_huge(num: nat, den: nat)
    requires
        den > 0,
        num >= den * pow2(64),
    ensures
        nearest_double(num, den) >= pow2(64),
{
    lemma2_to64();
    lemma2_to64_rest();
    let n = num as int;
    let d = den as int;
    let top = pow2(64) as int;
    assert(n >= d * pow2(52) && n > 0) by (nonlinear_arith)
        requires
            n >= d * top,
            top >= pow2(52),
            top > 0,
            d > 0,
    ;
    let q = lemma_grid_exists_large(num, den);
    last_bit_is_unique(num, den, q);
    lemma_steps_positive(q);
    let up = step_up(q) as int;
    let w = d * up;
    assert(w > 0) by (nonlinear_arith)
        requires
            d > 0,
            up > 0,
            w == d * up,
    ;
    assert(n * 1 == n);
    let m = half_even(num * step_down(q), den * step_up(q)) as int;
    lemma_half_even_near(num * step_down(q), den * step_up(q));
    assert(m * up >= top) by {
        if q <= 64 {
            lemma_pow2_adds((64 - q) as nat, q as nat);
            let k = pow2((64 - q) as nat) as int;
            assert(n >= k * w) by (nonlinear_arith)
                requires
                    n >= d * top,
                    top == k * up,
                    w == d * up,
            ;
            assert(n / w >= k) by (nonlinear_arith)
                requires
                    n >= k * w,
                    w > 0,
            ;
            assert(m * up >= k * up) by (nonlinear_arith)
                requires
                    m >= k,
                    up > 0,
            ;
        } else {
            lemma_pow2_strictly_increases(64, q as nat);
            let h = pow2(52) as int;
            assert(n / w >= h) by (nonlinear_arith)
                requires
                    n >= w * h,
                    w > 0,
            ;
            assert(m * up >= top) by (nonlinear_arith)
                requires
                    m >= 1,
                    up > top,
                    top > 0,
            ;
        }
    }
    assert(m * up / 1 == m * up);
}

/// The place of the highest bit of `n`, with the power of two that it stands for.
fn highest_bit(n: u128) -> (r: (u32, u128))
    requires
        n > 0,
    ensures
        r.1 == pow2(r.0 as nat),
        r.0 < 128,
        pow2(r.0 as nat) <= n < pow2((r.0 + 1) as nat),
{
    let mut place: u32 = 0;
    let mut power: u128 = 1;
    proof {
        lemma2_to64();
    }
    while power <= n / 2
        invariant
            n > 0,
            power == pow2(place as nat),
            place < 128,
            power <= n,
        decreases n - power,
    {
        proof {
            lemma_pow2_unfold((place + 1) as nat);
            lemma_pow2_pos(place as nat);
            if place == 127 {
                lemma2_to64_rest();
                lemma_pow2_adds(63, 64);
                assert(pow2(127) == 0x8000_0000_0000_0000_0000_0000_0000_0000);
            }
        }
        power = power * 2;
        place += 1;
    }
    proof {
        lemma_pow2_unfold((place + 1) as nat);
    }
    (place, power)
}

/// Rounds a quotient that is given by its first 56 binary places, `fixed`, and by whether
/// anything stands behind them.
pub fn round_fixed(fixed: u128, lost: bool) -> (r: u128)
    ensures
        forall|num: nat, den: nat|
            den > 0 && fixed == num * pow2(56) / den && lost == (num * pow2(56) % den != 0)
                ==> r == #[trigger] nearest_double(num, den),
{
    proof {
        lemma2_to64();
        lemma2_to64_rest();
    }
    if fixed < 0x80_0000_0000_0000 {
        proof {
            assert forall|num: nat, den: nat|
                den > 0 && fixed == num * pow2(56) / den && lost == (num * pow2(56) % den
                    != 0) implies 0 == #[trigger] nearest_double(num, den) by {
                let n = num as int;
                let d = den as int;
                lemma_fundamental_div_mod(n * pow2(56), d);
                assert(2 * n < d) by (nonlinear_arith)
                    requires
                        n * pow2(56) == d * fixed + (n * pow2(56)) % d,
                        (n * pow2(56)) % d < d,
                        fixed + 1 <= 0x80_0000_0000_0000,
                        pow2(56) == 0x100_0000_0000_0000,
                        d > 0,
                ;
                nearest_double_tiny(num, den);
            }
        }
        return 0;
    }
    let (place, power) = highest_bit(fixed);
    proof {
        if place < 55 {
            lemma_pow2_strictly_increases((place + 1) as nat, 56);
            if place + 1 < 55 {
                lemma_pow2_strictly_increases((place + 1) as nat, 55);
            }
        }
    }
    let ghost d = (place - 52) as nat;
    let unit: u128 = power / 0x10_0000_0000_0000;
    proof {
        lemma_pow2_adds(d, 52);
        lemma_pow2_pos(d);
        assert(unit == pow2(d)) by (nonlinear_arith)
            requires
                unit == power / 0x10_0000_0000_0000,
                power == pow2(d) * 0x10_0000_0000_0000,
        ;
    }
    let kept: u128 = fixed / unit;
    let rest: u128 = fixed % unit;
    proof {
        lemma_fundamental_div_mod(fixed as int, unit as int);
        lemma_pow2_adds(53, d);
        assert(kept < 0x20_0000_0000_0000) by (nonlinear_arith)
            requires
                kept == fixed / unit,
                fixed < 0x20_0000_0000_0000 * unit,
                unit > 0,
        ;
        lemma_pow2_unfold(d);
    }
    let half: u128 = unit / 2;
    let m: u128 = if rest < half || (rest == half && !lost && kept % 2 == 0) {
        kept
    } else {
        kept + 1
    };
    assert(m == rounded_shift(fixed as nat, lost, d));
    let r: u128 = if place >= 108 {
        let up: u128 = unit / 0x100_0000_0000_0000;
        proof {
            let k = (d - 56) as nat;
            lemma_pow2_adds(k, 56);
            assert(up == pow2(k)) by (nonlinear_arith)
                requires
                    up == unit / 0x100_0000_0000_0000,
                    unit == pow2(k) * 0x100_0000_0000_0000,
            ;
            if k < 20 {
                lemma_pow2_strictly_increases(k, 20);
            }
            assert(m * up <= 0x20_0000_0000_0000 * 0x10_0000) by (nonlinear_arith)
                requires
                    0 <= m <= 0x20_0000_0000_0000,
                    0 <= up <= 0x10_0000,
            ;
        }
        m * up
    } else {
        let down: u128 = 0x100_0000_0000_0000 / unit;
        proof {
            let k = (56 - d) as nat;
            lemma_pow2_adds(k, d);
            lemma_pow2_pos(k);
            assert(down == pow2(k)) by (nonlinear_arith)
                requires
                    down == 0x100_0000_0000_0000u128 / unit,
                    pow2(k) * unit == 0x100_0000_0000_0000,
                    unit > 0,
            ;
        }
        m / down
    };
    proof {
        assert forall|num: nat, den: nat|
            den > 0 && fixed == num * pow2(56) / den && lost == (num * pow2(56) % den
                != 0) implies r == #[trigger] nearest_double(num, den) by {
            lemma_pow2_adds(52, d);
            lemma_rounded_fixed(num, den, fixed as nat, d);
            assert(num != 0) by {
                if num == 0 {
                    assert(0 * pow2(56) == 0);
                    vstd::arithmetic::div_mod::lemma_div_of0(den as int);
                }
            }
            let up = step_up(d - 56);
            assert(m * 1 == m);
            assert(m * up / 1 == m * up);
        }
    }
    r
}

/// The double nearest to a whole number, as `as f64` gives it; it is whole again.
pub fn double_of(n: u64) -> (r: u128)
    ensures
        r == nearest_double(n as nat, 1),
{
    proof {
        lemma2_to64();
        lemma2_to64_rest();
        assert(n as nat * pow2(56) / 1 == n * 0x100_0000_0000_0000);
        assert(n as nat * pow2(56) % 1 == 0);
    }
    round_fixed(n as u128 * 0x100_0000_0000_0000, false)
}

/// Whole numbers below `2^53` are doubles themselves.
pub proof fn nearest_double_exact(n: nat)
    requires
        n < pow2(53),
    ensures
        nearest_double(n, 1) == n,
{
    if n > 0 {
        let q = lemma_grid_exists_small(n, 1);
        last_bit_is_unique(n, 1, q);
        lemma_steps_positive(q);
        let dn = step_down(q) as int;
        assert(half_even(n * step_down(q), 1) == n * step_down(q));
        vstd::arithmetic::div_mod::lemma_div_by_multiple(n as int, dn);
        assert(n * step_down(q) * 1 == n * dn);
    }
}

/// Whole numbers below `2^53` times a power of two are doubles themselves.
pub proof fn nearest_double_scaled(n: nat, k: nat)
    requires
        n < pow2(53),
    ensures
        nearest_double(n * pow2(k), 1) == n * pow2(k),
{
    let num = n * pow2(k);
    if num < pow2(53) {
        nearest_double_exact(num);
    } else {
        lemma2_to64();
        lemma2_to64_rest();
        let q = lemma_grid_exists_large(num, 1);
        last_bit_is_unique(num, 1, q);
        lemma_steps_positive(q);
        lemma_pow2_pos(k);
        let up = step_up(q) as int;
        let m = n as int;
        let p = pow2(k) as int;
        assert(1 * up == up && num * 1 == num);
        if q > k {
            lemma_pow2_unfold((k + 1) as nat);
            if q > k + 1 {
                lemma_pow2_strictly_increases((k + 1) as nat, q as nat);
            }
            assert(up * 0x10_0000_0000_0000 > m * p) by (nonlinear_arith)
                requires
                    up >= 2 * p,
                    0 <= m < 0x20_0000_0000_0000,
                    p > 0,
            ;
        }
        let c = pow2((k - q) as nat) as int;
        lemma_pow2_adds((k - q) as nat, q as nat);
        assert(m * p == (m * c) * up + 0) by (nonlinear_arith)
            requires
                p == c * up,
        ;
        lemma_fundamental_div_mod_converse(m * p, up, m * c, 0);
        assert(half_even(num, step_up(q)) == m * c);
        assert((m * c) * up / 1 == num);
    }
}

/// The double nearest to a `u64` is at most `2^64`.
pub proof fn nearest_double_bound(n: u64)
    ensures
        nearest_double(n as nat, 1) <= 0x1_0000_0000_0000_0000,
{
    lemma2_to64();
    lemma2_to64_rest();
    if n < pow2(53) {
        nearest_double_exact(n as nat);
    } else {
        let num = n as nat;
        let q = lemma_grid_exists_large(num, 1);
        last_bit_is_unique(num, 1, q);
        lemma_steps_positive(q);
        let up = step_up(q) as int;
        let h = pow2(52) as int;
        let k = n as int;
        assert(1 * up == up && num * 1 == num);
        lemma_half_even_near(num, step_up(q));
        if q > 11 {
            if q > 12 {
                lemma_pow2_strictly_increases(12, q as nat);
            }
            assert(up * h > k) by (nonlinear_arith)
                requires
                    up >= 0x1000,
                    h == 0x10_0000_0000_0000,
                    k <= 0xffff_ffff_ffff_ffff,
            ;
        }
        let c = pow2((64 - q) as nat) as int;
        lemma_pow2_adds((64 - q) as nat, q as nat);
        assert(k / up < c) by (nonlinear_arith)
            requires
                k < c * up,
                up > 0,
        ;
        let m = half_even(num, step_up(q)) as int;
        assert(m * up <= c * up) by (nonlinear_arith)
            requires
                m <= c,
                up > 0,
        ;
        assert(m * up / 1 == m * up);
    }
}

/// How far two numbers are apart.
pub open spec fn gap(a: int, b: int) -> int {
    if a < b {
        b - a
    } else {
        a - b
    }
}

/// Rounding goes to a nearest integer: it misses by one half at most, and where it does, it has gone
/// to an even one.
pub proof fn half_even_is_nearest(num: nat, den: nat)
    requires
        den > 0,
    ensures
        2 * gap((half_even(num, den) * den) as int, num as int) <= den,
        2 * gap((half_even(num, den) * den) as int, num as int) == den ==> half_even(num, den) % 2 == 0,
{
    let k = (num / den) as int;
    let r = (num % den) as int;
    let d = den as int;
    lemma_fundamental_div_mod(num as int, d);
    assert((k + 1) * d == d * k + d && k * d == d * k) by (nonlinear_arith);
}

/// No integer is nearer than the one that rounding gives.
proof fn lemma_no_nearer(num: nat, den: nat, t: int)
    requires
        den > 0,
    ensures
        gap((half_even(num, den) * den) as int, num as int) <= gap(t * den, num as int),
{
    half_even_is_nearest(num, den);
    let m = half_even(num, den) as int;
    let d = den as int;
    if t > m {
        assert(t * d >= m * d + d) by (nonlinear_arith)
            requires
                t >= m + 1,
                d > 0,
        ;
    } else if t < m {
        assert(t * d <= m * d - d) by (nonlinear_arith)
            requires
                t <= m - 1,
                d > 0,
        ;
    }
}

proof fn lemma_grid_exists(num: nat, den: nat) -> (q: int)
    requires
        num > 0,
        den > 0,
    ensures
        on_grid(num, den, q),
        last_bit(num, den) == q,
{
    lemma2_to64();
    lemma2_to64_rest();
    let q = if num < den * pow2(53) {
        lemma_grid_exists_small(num, den)
    } else {
        assert(den * pow2(52) <= den * pow2(53)) by (nonlinear_arith)
            requires
                pow2(52) <= pow2(53),
        ;
        lemma_grid_exists_large(num, den)
    };
    last_bit_is_unique(num, den, q);
    q
}

/// A quotient that is written with larger numbers has the same nearest double.
pub proof fn nearest_double_of_scaled(num: nat, den: nat, c: nat)
    requires
        den > 0,
        c > 0,
    ensures
        nearest_double(num * c, den * c) == nearest_double(num, den),
{
    let f = c as int;
    let d = den as int;
    let n = num as int;
    assert(d * f > 0) by (nonlinear_arith)
        requires
            d > 0,
            f > 0,
    ;
    if num == 0 {
        assert(0 * c == 0);
    } else {
        let q = lemma_grid_exists(num, den);
        lemma_steps_positive(q);
        let up = step_up(q) as int;
        let dn = step_down(q) as int;
        let h = pow2(52) as int;
        let t = pow2(53) as int;
        assert(n * f > 0) by (nonlinear_arith)
            requires
                n > 0,
                f > 0,
        ;
        assert((n * f) * dn == (n * dn) * f) by (nonlinear_arith);
        assert((d * f) * up == (d * up) * f) by (nonlinear_arith);
        assert((d * up) * f * h <= (n * dn) * f) by (nonlinear_arith)
            requires
                d * up * h <= n * dn,
                f > 0,
        ;
        assert((n * dn) * f < (d * up) * f * t) by (nonlinear_arith)
            requires
                n * dn < d * up * t,
                f > 0,
        ;
        last_bit_is_unique(num * c, den * c, q);
        assert(d * up > 0) by (nonlinear_arith)
            requires
                d > 0,
                up > 0,
        ;
        lemma_half_even_scaled(num * step_down(q), den * step_up(q), c);
    }
}

/// The nearest double is right to 53 bits: cut off behind the point, it is above the quotient, or one
/// or more below it, by no more than a part in `2^53`.
pub proof fn nearest_double_is_near(num: nat, den: nat)
    requires
        den > 0,
    ensures
        nearest_double(num, den) * den * 0x20_0000_0000_0000 <= num * 0x20_0000_0000_0001,
        (nearest_double(num, den) + 1) * den * 0x20_0000_0000_0000 > num * 0x1f_ffff_ffff_ffff,
{
    let r = nearest_double(num, den) as int;
    let d = den as int;
    let n = num as int;
    if num == 0 {
        assert(r * d == 0);
        assert((r + 1) * d == d) by (nonlinear_arith)
            requires
                r == 0,
        ;
    } else {
        lemma2_to64();
        lemma2_to64_rest();
        let q = lemma_grid_exists(num, den);
        lemma_steps_positive(q);
        let up = step_up(q) as int;
        let dn = step_down(q) as int;
        let a = n * dn;
        let b = d * up;
        assert(b > 0) by (nonlinear_arith)
            requires
                d > 0,
                up > 0,
                b == d * up,
        ;
        half_even_is_nearest(num * step_down(q), den * step_up(q));
        let m = half_even(num * step_down(q), den * step_up(q)) as int;
        let mb = m * b;
        assert(b * 0x10_0000_0000_0000 <= a);
        assert(mb * 0x20_0000_0000_0000 <= a * 0x20_0000_0000_0001);
        assert(mb * 0x20_0000_0000_0000 >= a * 0x1f_ffff_ffff_ffff);
        let v = m * up;
        lemma_fundamental_div_mod(v, dn);
        assert(r == v / dn);
        assert(r * dn <= v < (r + 1) * dn) by (nonlinear_arith)
            requires
                v == dn * r + v % dn,
                0 <= v % dn < dn,
        ;
        let x = r * d * 0x20_0000_0000_0000;
        let y = n * 0x20_0000_0000_0001;
        assert(mb == v * d) by (nonlinear_arith)
            requires
                mb == m * b,
                b == d * up,
                v == m * up,
        ;
        assert(x * dn <= y * dn) by (nonlinear_arith)
            requires
                x == r * d * 0x20_0000_0000_0000,
                y == n * 0x20_0000_0000_0001,
                a == n * dn,
                r * dn <= v,
                mb == v * d,
                mb * 0x20_0000_0000_0000 <= a * 0x20_0000_0000_0001,
                d > 0,
        ;
        assert(x <= y) by (nonlinear_arith)
            requires
                x * dn <= y * dn,
                dn > 0,
        ;
        let z = (r + 1) * d * 0x20_0000_0000_0000;
        let w = n * 0x1f_ffff_ffff_ffff;
        assert(z * dn > w * dn) by (nonlinear_arith)
            requires
                z == (r + 1) * d * 0x20_0000_0000_0000,
                w == n * 0x1f_ffff_ffff_ffff,
                a == n * dn,
                (r + 1) * dn > v,
                mb == v * d,
                mb * 0x20_0000_0000_0000 >= a * 0x1f_ffff_ffff_ffff,
                d > 0,
        ;
        assert(z > w) by (nonlinear_arith)
            requires
                z * dn > w * dn,
                dn > 0,
        ;
    }
}

/// No double is nearer to a whole number than its nearest double.
pub proof fn no_double_is_nearer(n: nat, m: nat, k: nat)
    requires
        m < pow2(53),
    ensures
        gap(nearest_double(n, 1) as int, n as int) <= gap((m * pow2(k)) as int, n as int),
{
    if n < pow2(53) {
        nearest_double_exact(n);
    } else {
        lemma2_to64();
        lemma2_to64_rest();
        let q = lemma_grid_exists_large(n, 1);
        last_bit_is_unique(n, 1, q);
        lemma_steps_positive(q);
        lemma_pow2_pos(k);
        let up = step_up(q) as int;
        let s = m as int;
        let p = pow2(k) as int;
        assert(1 * up == up && n * 1 == n);
        let r = half_even(n, step_up(q)) as int;
        assert(r * up / 1 == r * up);
        if k >= q {
            let c = pow2((k - q) as nat) as int;
            lemma_pow2_adds((k - q) as nat, q as nat);
            assert(s * p == (s * c) * up) by (nonlinear_arith)
                requires
                    p == c * up,
            ;
            lemma_no_nearer(n, step_up(q), s * c);
        } else {
            lemma_pow2_unfold((k + 1) as nat);
            if k + 1 < q {
                lemma_pow2_strictly_increases((k + 1) as nat, q as nat);
            }
            assert(s * p <= 0x10_0000_0000_0000 * up) by (nonlinear_arith)
                requires
                    0 <= s < 0x20_0000_0000_0000,
                    2 * p <= up,
                    p > 0,
            ;
            lemma_no_nearer(n, step_up(q), 0x10_0000_0000_0000);
        }
    }
}

} // verus!
