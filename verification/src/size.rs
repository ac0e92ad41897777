//! Sizes in bytes, read and written in units of 1024.

use crate::numeral::decimal_value;
use crate::numeral::digits_end;
use crate::numeral::is_digit;
use crate::numeral::in_small;
use crate::numeral::is_row;
use crate::numeral::is_sign;
use crate::numeral::is_word;
use crate::numeral::numeral;
use crate::numeral::numeral_times;
use crate::numeral::numerals_begin_and_end;
use crate::numeral::numerals_count_by_tens;
use crate::numeral::read_times;
use crate::numeral::saturated;
use crate::numeral::words_are_read;
use crate::numeral::Numeral;
use crate::numeral::Written;
use crate::rounding::double_of;
use crate::rounding::gap;
use crate::rounding::half_even;
use crate::rounding::half_even_is_nearest;
use crate::rounding::nearest_double;
use crate::rounding::nearest_double_bound;
use crate::rounding::nearest_double_exact;
use crate::rounding::nearest_double_is_near;
use crate::rounding::nearest_double_scaled;
use crate::text::all_white;
use crate::text::chars_of;
use crate::text::decimal;
use crate::text::decimal_text;
use crate::text::ends;
use crate::text::ends_with;
use crate::text::is_white;
use crate::text::trim_chars;
use crate::text::trimmed;
use crate::text::trimming_leaves_the_text;
use crate::text::trimming_takes_white_space_only;
use vstd::arithmetic::power::pow;
use vstd::arithmetic::power2::lemma2_to64;
use vstd::arithmetic::power2::lemma2_to64_rest;
use vstd::arithmetic::power2::pow2;
use vstd::prelude::*;

verus! {

/// Bytes in a kilobyte.
pub const KB: u64 = 1024;

/// Bytes in a megabyte.
pub const MB: u64 = 1024 * 1024;

/// Bytes in a gigabyte.
pub const GB: u64 = 1024 * 1024 * 1024;

/// The size that a numeral in front of a unit stands for; nought where it is no numeral.
pub open spec fn amount(s: Seq<char>, unit: nat) -> u64 {
    match numeral(trimmed(s)) {
        Some(n) => numeral_times(n, unit),
        None => 0,
    }
}

/// The size in bytes that a text such as `1.5GB` stands for.
pub open spec fn docker_size(s: Seq<char>) -> u64 {
    let t = trimmed(s);
    if ends(t, "GB"@) {
        amount(t.take(t.len() - 2), GB as nat)
    } else if ends(t, "MB"@) {
        amount(t.take(t.len() - 2), MB as nat)
    } else if ends(t, "kB"@) {
        amount(t.take(t.len() - 2), KB as nat)
    } else if ends(t, "B"@) {
        amount(t.take(t.len() - 1), 1)
    } else {
        0
    }
}

/// The size that the first characters of `v`, all but `behind`, stand for in the given unit.
fn read_amount(v: &Vec<char>, behind: usize, unit: u32) -> (r: u64)
    requires
        behind <= v@.len(),
        0 < unit <= 0x4000_0000,
    ensures
        r == amount(v@.take(v@.len() - behind), unit as nat),
{
    let mut front: Vec<char> = Vec::new();
    let n = v.len() - behind;
    let mut i: usize = 0;
    while i < n
        invariant
            i <= n <= v@.len(),
            front@ == v@.take(i as int),
        decreases n - i,
    {
        front.push(v[i]);
        i += 1;
        assert(front@ =~= v@.take(i as int));
    }
    match read_times(&trim_chars(&front), unit) {
        Some(size) => size,
        None => 0,
    }
}

/// Reads a size as the container engine writes it, such as `123MB`, `1.5GB` or `45.3kB`; gives
/// nought where it is no size.
pub fn parse_docker_size(s: &str) -> (r: u64)
    ensures
        r == docker_size(s@),
{
    let t = trim_chars(&chars_of(s));
    proof {
        reveal_strlit("GB");
        reveal_strlit("MB");
        reveal_strlit("kB");
        reveal_strlit("B");
    }
    if ends_with(&t, "GB") {
        read_amount(&t, 2, 0x4000_0000)
    } else if ends_with(&t, "MB") {
        read_amount(&t, 2, 0x10_0000)
    } else if ends_with(&t, "kB") {
        read_amount(&t, 2, 0x400)
    } else if ends_with(&t, "B") {
        read_amount(&t, 1, 1)
    } else {
        0
    }
}

/// `num / den` in decimal digits, rounded to one place behind the point.
pub open spec fn one_place(num: nat, den: nat) -> Seq<char> {
    let tenths = half_even(10 * num, den);
    decimal(tenths / 10) + "."@ + decimal(tenths % 10)
}

/// A size in bytes, written in the largest unit that it reaches. Gigabytes and megabytes have
/// one place behind the point, and the number of bytes is taken as the double nearest to it.
pub open spec fn size_text(bytes: u64) -> Seq<char> {
    let taken = nearest_double(bytes as nat, 1);
    if bytes >= GB {
        one_place(taken, GB as nat) + " GB"@
    } else if bytes >= MB {
        one_place(taken, MB as nat) + " MB"@
    } else if bytes >= KB {
        decimal(half_even(taken, KB as nat)) + " KB"@
    } else {
        decimal(bytes as nat) + " B"@
    }
}

/// The integer nearest to `num / den`; of two equally near ones, the even one.
fn round_quotient(num: u128, den: u128) -> (r: u128)
    requires
        0 < den < 0x1_0000_0000,
        num < 0x1_0000_0000_0000_0000_0000_0000,
    ensures
        r == half_even(num as nat, den as nat),
{
    let quotient: u128 = num / den;
    let rest: u128 = num % den;
    assert(quotient <= num) by (nonlinear_arith)
        requires
            quotient == num / den,
            den > 0,
    ;
    if 2 * rest < den || (2 * rest == den && quotient % 2 == 0) {
        quotient
    } else {
        quotient + 1
    }
}

/// Writes `num / den`, rounded to one place behind the point.
fn one_place_text(num: u128, den: u128) -> (r: String)
    requires
        0 < den < 0x1_0000_0000,
        num <= 0x1_0000_0000_0000_0000,
    ensures
        r@ == one_place(num as nat, den as nat),
{
    let tenths = round_quotient(10 * num, den);
    let mut r = decimal_text(tenths / 10);
    r.append(".");
    r.append(decimal_text(tenths % 10).as_str());
    r
}

/// Writes a size in bytes for people to read.
pub fn format_size(bytes: u64) -> (r: String)
    ensures
        r@ == size_text(bytes),
{
    let taken = double_of(bytes);
    proof {
        nearest_double_bound(bytes);
    }
    if bytes >= GB {
        let mut r = one_place_text(taken, 0x4000_0000);
        r.append(" GB");
        r
    } else if bytes >= MB {
        let mut r = one_place_text(taken, 0x10_0000);
        r.append(" MB");
        r
    } else if bytes >= KB {
        let mut r = decimal_text(round_quotient(taken, 0x400));
        r.append(" KB");
        r
    } else {
        let mut r = decimal_text(bytes as u128);
        r.append(" B");
        r
    }
}

proof fn lemma_all_digits_end(s: Seq<char>, from: int)
    requires
        0 <= from <= s.len(),
        forall|i: int| 0 <= i < s.len() ==> is_digit(#[trigger] s[i]),
    ensures
        digits_end(s, from) == s.len(),
    decreases s.len() - from,
{
    if from < s.len() {
        assert(is_digit(s[from]));
        lemma_all_digits_end(s, from + 1);
    }
}

/// A row of digits is a numeral of itself.
proof fn lemma_digits_numeral(s: Seq<char>)
    requires
        s.len() > 0,
        forall|i: int| 0 <= i < s.len() ==> is_digit(#[trigger] s[i]),
    ensures
        numeral(s) == Some(Numeral::Finite { negative: false, digits: s, exponent: 0 }),
        trimmed(s) == s,
{
    reveal_strlit("inf");
    reveal_strlit("infinity");
    reveal_strlit("nan");
    assert(is_digit(s[0]));
    assert(is_digit(s[s.len() - 1]));
    assert(!is_word(s, "inf"@) && !is_word(s, "infinity"@) && !is_word(s, "nan"@)) by {
        assert("inf"@[0] == 'i' && "infinity"@[0] == 'i' && "nan"@[0] == 'n');
    }
    lemma_all_digits_end(s, 0);
    assert(s.take(s.len() as int) + Seq::<char>::empty() =~= s);
    assert(s.skip(s.len() as int).len() == 0);
}

/// A size that is written as a whole number below `2^53`, of bytes, kilobytes, megabytes or
/// gigabytes, is read as it is, as far as it is not too large for a `u64`.
pub proof fn whole_sizes_are_read_back(digits: Seq<char>)
    requires
        digits.len() > 0,
        forall|i: int| 0 <= i < digits.len() ==> is_digit(#[trigger] digits[i]),
        decimal_value(digits) < 0x20_0000_0000_0000,
    ensures
        docker_size(digits + "B"@) == decimal_value(digits),
        docker_size(digits + "kB"@) == saturated(decimal_value(digits) * KB as nat),
        docker_size(digits + "MB"@) == saturated(decimal_value(digits) * MB as nat),
        docker_size(digits + "GB"@) == saturated(decimal_value(digits) * GB as nat),
{
    reveal_strlit("GB");
    reveal_strlit("MB");
    reveal_strlit("kB");
    reveal_strlit("B");
    let d = digits;
    lemma_digits_numeral(d);
    lemma2_to64();
    lemma2_to64_rest();
    lemma_whole_amount(d, 0);
    lemma_whole_amount(d, 10);
    lemma_whole_amount(d, 20);
    lemma_whole_amount(d, 30);
    assert(is_digit(d[0]) && is_digit(d[d.len() - 1]));
    let b = d + "B"@;
    let kb = d + "kB"@;
    let mb = d + "MB"@;
    let gb = d + "GB"@;
    assert(b.last() == 'B' && kb.last() == 'B' && mb.last() == 'B' && gb.last() == 'B');
    assert(trimmed(b) == b && trimmed(kb) == kb && trimmed(mb) == mb && trimmed(gb) == gb);
    assert(b.take(b.len() - 1) =~= d);
    assert(kb.take(kb.len() - 2) =~= d);
    assert(mb.take(mb.len() - 2) =~= d);
    assert(gb.take(gb.len() - 2) =~= d);
    assert(b.skip(b.len() - 2)[0] == d[d.len() - 1]);
    assert(kb.skip(kb.len() - 2)[0] == 'k');
    assert(mb.skip(mb.len() - 2)[0] == 'M');
    assert("GB"@[0] == 'G' && "MB"@[0] == 'M' && "kB"@[0] == 'k');
    assert(b.skip(b.len() - 1) =~= "B"@);
    assert(kb.skip(kb.len() - 2) =~= "kB"@);
    assert(mb.skip(mb.len() - 2) =~= "MB"@);
    assert(gb.skip(gb.len() - 2) =~= "GB"@);
}

proof fn lemma_whole_amount(digits: Seq<char>, k: nat)
    requires
        numeral(digits) == Some(Numeral::Finite { negative: false, digits, exponent: 0 }),
        trimmed(digits) == digits,
        decimal_value(digits) < 0x20_0000_0000_0000,
    ensures
        amount(digits, pow2(k)) == saturated(decimal_value(digits) * pow2(k)),
{
    lemma2_to64();
    lemma2_to64_rest();
    let n = decimal_value(digits);
    nearest_double_scaled(n, k);
    assert(n * 1 * pow2(k) == n * pow2(k));
}

/// A text that ends with something behind its white space, without the white space behind that.
proof fn lemma_unit_found(front: Seq<char>, t: Seq<char>, mid: Seq<char>, u: Seq<char>, back: Seq<char>)
    requires
        all_white(front),
        all_white(mid),
        all_white(back),
        numeral(t) is Some,
        u.len() > 0,
        !is_white(u[u.len() - 1]),
    ensures
        trimmed(front + t + mid + u + back) == t + mid + u,
        (t + mid + u).take((t + mid).len() as int) == t + mid,
        ends(t + mid + u, u),
        trimmed(t + mid) == t,
        (t + mid).len() > 0,
        !((t + mid)[(t + mid).len() - 1] == 'G' || (t + mid)[(t + mid).len() - 1] == 'M' || (t
            + mid)[(t + mid).len() - 1] == 'k'),
{
    numerals_begin_and_end(t);
    let tm = t + mid;
    let s = tm + u;
    assert(front + t + mid + u + back =~= front + s + back);
    assert(s[0] == t[0]);
    assert(s[s.len() - 1] == u[u.len() - 1]);
    trimming_leaves_the_text(front, s, back);
    assert(s.take(tm.len() as int) =~= tm);
    assert(s.skip(s.len() - u.len()) =~= u);
    let none = Seq::<char>::empty();
    assert(none + t + mid =~= tm);
    trimming_leaves_the_text(none, t, mid);
    if mid.len() > 0 {
        assert(tm[tm.len() - 1] == mid[mid.len() - 1]);
        assert(is_white(mid[mid.len() - 1]));
    } else {
        assert(tm =~= t);
    }
}

/// A numeral in front of a unit counts by that unit, and white space does not matter round them nor
/// between them.
pub proof fn units_are_read(front: Seq<char>, t: Seq<char>, mid: Seq<char>, back: Seq<char>)
    requires
        all_white(front),
        all_white(mid),
        all_white(back),
        numeral(t) is Some,
    ensures
        docker_size(front + t + mid + "B"@ + back) == numeral_times(numeral(t)->0, 1),
        docker_size(front + t + mid + "kB"@ + back) == numeral_times(numeral(t)->0, 1024),
        docker_size(front + t + mid + "MB"@ + back) == numeral_times(numeral(t)->0, 1024 * 1024),
        docker_size(front + t + mid + "GB"@ + back) == numeral_times(
            numeral(t)->0,
            1024 * 1024 * 1024,
        ),
{
    reveal_strlit("GB");
    reveal_strlit("MB");
    reveal_strlit("kB");
    reveal_strlit("B");
    lemma_unit_found(front, t, mid, "B"@, back);
    lemma_unit_found(front, t, mid, "kB"@, back);
    lemma_unit_found(front, t, mid, "MB"@, back);
    lemma_unit_found(front, t, mid, "GB"@, back);
    let tm = t + mid;
    let b = tm + "B"@;
    assert(b.skip(b.len() - 2)[0] == tm[tm.len() - 1]);
    let kb = tm + "kB"@;
    assert(kb.skip(kb.len() - 2)[0] == 'k');
    let mb = tm + "MB"@;
    assert(mb.skip(mb.len() - 2)[0] == 'M');
    assert("GB"@[0] == 'G' && "MB"@[0] == 'M' && "kB"@[0] == 'k');
}

/// What has a size is a numeral in front of a unit, with nothing but white space besides.
pub proof fn only_sizes_are_read(s: Seq<char>) -> (r: (
    Seq<char>,
    Seq<char>,
    Seq<char>,
    Seq<char>,
    Seq<char>,
))
    ensures
        docker_size(s) > 0 ==> {
            &&& all_white(r.0)
            &&& numeral(r.1) is Some
            &&& all_white(r.2)
            &&& r.3 == "B"@ || r.3 == "kB"@ || r.3 == "MB"@ || r.3 == "GB"@
            &&& all_white(r.4)
            &&& s == r.0 + r.1 + r.2 + r.3 + r.4
        },
{
    reveal_strlit("GB");
    reveal_strlit("MB");
    reveal_strlit("kB");
    reveal_strlit("B");
    let (front, back) = trimming_takes_white_space_only(s);
    let t = trimmed(s);
    let u = if ends(t, "GB"@) {
        "GB"@
    } else if ends(t, "MB"@) {
        "MB"@
    } else if ends(t, "kB"@) {
        "kB"@
    } else {
        "B"@
    };
    let head = t.take(t.len() - u.len());
    let n = trimmed(head);
    let (before, mid) = trimming_takes_white_space_only(head);
    if docker_size(s) > 0 {
        assert(t =~= head + u);
        // The text is tight, so no white space stands before the numeral.
        if before.len() > 0 {
            assert(is_white(before[0]));
            assert(t[0] == before[0]);
        }
        assert(head =~= n + mid);
        assert(s =~= front + n + mid + u + back);
    }
    (front, n, mid, u, back)
}

/// A size that is written with digits, a point and a power of ten, in front of a unit, is the double
/// nearest to that number, times the unit, cut off behind the point.
pub proof fn written_sizes_are_read(n: Written, up: nat, down: nat)
    requires
        n.valid(),
        n.exponent() == up - down,
        n.sign != seq!['-'],
    ensures
        docker_size(n.text() + "B"@) == saturated(
            nearest_double(
                decimal_value(n.digits()) * pow(10, up) as nat * 1,
                pow(10, down) as nat,
            ),
        ),
        docker_size(n.text() + "kB"@) == saturated(
            nearest_double(
                decimal_value(n.digits()) * pow(10, up) as nat * 1024,
                pow(10, down) as nat,
            ),
        ),
        docker_size(n.text() + "MB"@) == saturated(
            nearest_double(
                decimal_value(n.digits()) * pow(10, up) as nat * (1024 * 1024),
                pow(10, down) as nat,
            ),
        ),
        docker_size(n.text() + "GB"@) == saturated(
            nearest_double(
                decimal_value(n.digits()) * pow(10, up) as nat * (1024 * 1024 * 1024),
                pow(10, down) as nat,
            ),
        ),
{
    numerals_count_by_tens(n, 1, up, down);
    numerals_count_by_tens(n, 1024, up, down);
    numerals_count_by_tens(n, 1024 * 1024, up, down);
    numerals_count_by_tens(n, 1024 * 1024 * 1024, up, down);
    let none = Seq::<char>::empty();
    let t = n.text();
    units_are_read(none, t, none, none);
    assert(none + t + none + "B"@ + none =~= t + "B"@);
    assert(none + t + none + "kB"@ + none =~= t + "kB"@);
    assert(none + t + none + "MB"@ + none =~= t + "MB"@);
    assert(none + t + none + "GB"@ + none =~= t + "GB"@);
}

/// The digits behind the point count by as many tenths as there are of them: `whole.fraction` stands
/// for all digits as one number, divided by ten for each digit behind the point.
pub proof fn decimal_fractions_are_read(whole: Seq<char>, fraction: Seq<char>)
    requires
        is_row(whole),
        is_row(fraction),
        whole.len() + fraction.len() > 0,
    ensures
        docker_size(whole + seq!['.'] + fraction + "B"@) == saturated(
            nearest_double(
                decimal_value(whole + fraction),
                pow(10, fraction.len()) as nat,
            ),
        ),
        docker_size(whole + seq!['.'] + fraction + "kB"@) == saturated(
            nearest_double(
                decimal_value(whole + fraction) * 1024,
                pow(10, fraction.len()) as nat,
            ),
        ),
        docker_size(whole + seq!['.'] + fraction + "MB"@) == saturated(
            nearest_double(
                decimal_value(whole + fraction) * (1024 * 1024),
                pow(10, fraction.len()) as nat,
            ),
        ),
        docker_size(whole + seq!['.'] + fraction + "GB"@) == saturated(
            nearest_double(
                decimal_value(whole + fraction) * (1024 * 1024 * 1024),
                pow(10, fraction.len()) as nat,
            ),
        ),
{
    reveal(pow);
    let n = Written { sign: Seq::empty(), whole, fraction: Some(fraction), power: None };
    assert(n.sign != seq!['-']) by {
        assert(seq!['-'].len() == 1);
    }
    written_sizes_are_read(n, 0, fraction.len());
    assert(n.text() =~= whole + seq!['.'] + fraction);
    let v = decimal_value(whole + fraction);
    let one = pow(10, 0) as nat;
    assert(v * one == v) by (nonlinear_arith)
        requires
            one == 1,
    ;
    assert(n.digits() == whole + fraction);
}

/// A size below a kilobyte is written in bytes.
pub proof fn small_sizes_are_written_in_full(bytes: u64)
    requires
        bytes < 1024,
    ensures
        size_text(bytes) == decimal(bytes as nat) + " B"@,
{
}

/// Sizes of kilobytes are written as the nearest whole number of them, the even one of two.
pub proof fn kilobytes_are_written_rounded(bytes: u64) -> (k: nat)
    requires
        1024 <= bytes < 1024 * 1024,
    ensures
        size_text(bytes) == decimal(k) + " KB"@,
        2 * gap((k * 1024) as int, bytes as int) <= 1024,
        2 * gap((k * 1024) as int, bytes as int) == 1024 ==> k % 2 == 0,
{
    lemma2_to64_rest();
    nearest_double_exact(bytes as nat);
    half_even_is_nearest(bytes as nat, 1024);
    half_even(bytes as nat, 1024)
}

/// Sizes of megabytes are written as the nearest number of tenths of them, the even one of two.
pub proof fn megabytes_are_written_rounded(bytes: u64) -> (t: nat)
    requires
        1024 * 1024 <= bytes < 1024 * 1024 * 1024,
    ensures
        size_text(bytes) == decimal(t / 10) + "."@ + decimal(t % 10) + " MB"@,
        2 * gap((t * 0x10_0000) as int, 10 * bytes) <= 0x10_0000,
        2 * gap((t * 0x10_0000) as int, 10 * bytes) == 0x10_0000 ==> t % 2 == 0,
{
    lemma2_to64_rest();
    nearest_double_exact(bytes as nat);
    half_even_is_nearest((10 * bytes) as nat, 0x10_0000);
    half_even((10 * bytes) as nat, 0x10_0000)
}

/// Sizes of gigabytes are written as the nearest number of tenths of them, the even one of two. From
/// `2^53` bytes on the number of bytes itself is taken to 53 bits.
pub proof fn gigabytes_are_written_rounded(bytes: u64) -> (t: nat)
    requires
        bytes >= 1024 * 1024 * 1024,
    ensures
        size_text(bytes) == decimal(t / 10) + "."@ + decimal(t % 10) + " GB"@,
        bytes < 0x20_0000_0000_0000 ==> 2 * gap((t * 0x4000_0000) as int, 10 * bytes) <= 0x4000_0000
            && (2 * gap((t * 0x4000_0000) as int, 10 * bytes) == 0x4000_0000 ==> t % 2 == 0),
        2 * gap((t * 0x4000_0000) as int, 10 * bytes) <= 0x4000_0000 + 20 * 2049,
{
    lemma2_to64_rest();
    let taken = nearest_double(bytes as nat, 1);
    if bytes < 0x20_0000_0000_0000 {
        nearest_double_exact(bytes as nat);
    }
    nearest_double_is_near(bytes as nat, 1);
    assert(taken * 1 == taken && (taken + 1) * 1 == taken + 1);
    assert(gap(taken as int, bytes as int) <= 2049);
    half_even_is_nearest((10 * taken) as nat, 0x4000_0000);
    half_even((10 * taken) as nat, 0x4000_0000)
}

/// Infinity is the largest size, unless it is negative; what is no number is none.
pub proof fn words_have_extreme_sizes(sign: Seq<char>, word: Seq<char>)
    requires
        is_sign(sign),
    ensures
        in_small(word) == "inf"@ || in_small(word) == "infinity"@ ==> docker_size(
            sign + word + "B"@,
        ) == (if sign == seq!['-'] {
            0
        } else {
            u64::MAX
        }) && docker_size(sign + word + "kB"@) == docker_size(sign + word + "B"@) && docker_size(
            sign + word + "MB"@,
        ) == docker_size(sign + word + "B"@) && docker_size(sign + word + "GB"@) == docker_size(
            sign + word + "B"@,
        ),
        in_small(word) == "nan"@ ==> docker_size(sign + word + "B"@) == 0 && docker_size(
            sign + word + "kB"@,
        ) == 0 && docker_size(sign + word + "MB"@) == 0 && docker_size(sign + word + "GB"@) == 0,
{
    words_are_read(sign, word);
    let t = sign + word;
    let none = Seq::<char>::empty();
    if numeral(t) is Some {
        units_are_read(none, t, none, none);
        assert(none + t + none + "B"@ + none =~= t + "B"@);
        assert(none + t + none + "kB"@ + none =~= t + "kB"@);
        assert(none + t + none + "MB"@ + none =~= t + "MB"@);
        assert(none + t + none + "GB"@ + none =~= t + "GB"@);
    }
}

/// A negative number has no size.
pub proof fn negative_sizes_are_nought(n: Written)
    requires
        n.valid(),
        n.sign == seq!['-'],
    ensures
        docker_size(n.text() + "B"@) == 0,
        docker_size(n.text() + "kB"@) == 0,
        docker_size(n.text() + "MB"@) == 0,
        docker_size(n.text() + "GB"@) == 0,
{
    let up = if n.exponent() > 0 {
        n.exponent() as nat
    } else {
        0
    };
    let down = (up - n.exponent()) as nat;
    numerals_count_by_tens(n, 1, up, down);
    numerals_count_by_tens(n, 1024, up, down);
    numerals_count_by_tens(n, 1024 * 1024, up, down);
    numerals_count_by_tens(n, 1024 * 1024 * 1024, up, down);
    let none = Seq::<char>::empty();
    let t = n.text();
    units_are_read(none, t, none, none);
    assert(none + t + none + "B"@ + none =~= t + "B"@);
    assert(none + t + none + "kB"@ + none =~= t + "kB"@);
    assert(none + t + none + "MB"@ + none =~= t + "MB"@);
    assert(none + t + none + "GB"@ + none =~= t + "GB"@);
}

} // verus!
