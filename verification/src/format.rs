//! Sizes and times as text.

use vstd::prelude::*;
use vstd::string::StringExecFns;
use std::fmt::Write;
use crate::text::decimal;
use crate::text::push_decimal;
use crate::text::push_decimal_wide;
use crate::tree::Timestamp;
use crate::tree::text_view;

verus! {

/// The factor between one unit and the next: 1000 for SI units, else 1024.
pub open spec fn unit_base(si: bool) -> nat {
    if si {
        1000
    } else {
        1024
    }
}

/// The suffix of the unit of rank `k`, from 1 to 5.
pub open spec fn unit_suffix(si: bool, k: nat) -> Seq<char> {
    if si {
        if k == 1 {
            seq!['k', 'B']
        } else if k == 2 {
            seq!['M', 'B']
        } else if k == 3 {
            seq!['G', 'B']
        } else if k == 4 {
            seq!['T', 'B']
        } else {
            seq!['P', 'B']
        }
    } else {
        if k == 1 {
            seq!['K']
        } else if k == 2 {
            seq!['M']
        } else if k == 3 {
            seq!['G']
        } else if k == 4 {
            seq!['T']
        } else {
            seq!['P']
        }
    }
}

/// The whole number nearest to `num / den`; of two equally near, the even
/// one.
pub open spec fn rounded(num: nat, den: nat) -> nat
    recommends
        den > 0,
{
    let q = num / den;
    let r = num % den;
    if 2 * r > den || (2 * r == den && q % 2 == 1) {
        q + 1
    } else {
        q
    }
}

/// Two to the power `k`.
pub open spec fn pow2(k: nat) -> nat
    decreases k,
{
    if k == 0 {
        1
    } else {
        2 * pow2((k - 1) as nat)
    }
}

/// The whole part of the binary logarithm of `num / den`, for a quotient of
/// at least one.
pub open spec fn log2_floor(num: nat, den: nat) -> nat
    decreases num - den,
{
    if den == 0 || num < 2 * den {
        0
    } else {
        1 + log2_floor(num, 2 * den)
    }
}

/// A number in binary floating point: `num` divided by two to the power
/// `shift`.
pub ghost struct Double {
    pub num: nat,
    pub shift: nat,
}

/// The double-precision number nearest to `num / den`, for a quotient of at
/// least one: the quotient rounded to 53 significant bits, a tie to the even
/// neighbour.
pub open spec fn nearest_double(num: nat, den: nat) -> Double {
    let p = log2_floor(num, den);
    if p >= 52 {
        Double { num: pow2((p - 52) as nat) * rounded(num, den * pow2((p - 52) as nat)), shift: 0 }
    } else {
        Double { num: rounded(num * pow2((52 - p) as nat), den), shift: (52 - p) as nat }
    }
}

impl Double {
    /// Whether the number is `c` or more.
    pub open spec fn at_least(self, c: nat) -> bool {
        self.num >= c * pow2(self.shift)
    }

    /// The number divided by `base`, in double precision.
    pub open spec fn divided(self, base: nat) -> Double {
        nearest_double(self.num, base * pow2(self.shift))
    }

    /// The whole number nearest to `factor` times the number, a tie to the
    /// even neighbour.
    pub open spec fn times_rounded(self, factor: nat) -> nat {
        rounded(factor * self.num, pow2(self.shift))
    }
}

/// A size scaled to its unit: it is divided by the base, in double
/// precision, as long as it is one base or more and a larger unit is left.
/// `rank` counts the divisions made.
pub open spec fn scaled(x: Double, base: nat, rank: nat) -> (Double, nat)
    decreases 5 - rank,
{
    if rank < 5 && x.at_least(base) {
        scaled(x.divided(base), base, rank + 1)
    } else {
        (x, rank)
    }
}

/// The number in which a size is shown. Below one base: the number of
/// bytes. From one base on: the size as a double-precision number, scaled to
/// the largest fitting unit, with no decimals where that is ten units or
/// more, else with one decimal.
pub open spec fn size_number(size: nat, si: bool) -> Seq<char> {
    if size < unit_base(si) {
        decimal(size)
    } else {
        let (x, rank) = scaled(nearest_double(size, 1), unit_base(si), 0);
        if x.at_least(10) {
            decimal(x.times_rounded(1))
        } else {
            let tenths = x.times_rounded(10);
            decimal(tenths / 10) + seq!['.'] + decimal(tenths % 10)
        }
    }
}

/// The suffix of the unit in which a size is shown; nothing below one base.
pub open spec fn size_suffix(size: nat, si: bool) -> Seq<char> {
    if size < unit_base(si) {
        Seq::empty()
    } else {
        unit_suffix(si, scaled(nearest_double(size, 1), unit_base(si), 0).1)
    }
}

/// A size as it is shown: the number, then the unit's suffix. Below one
/// base that is the bare number of bytes.
pub open spec fn size_text(size: nat, si: bool) -> Seq<char> {
    size_number(size, si) + size_suffix(size, si)
}

/// Powers of two multiply as their exponents add.
pub proof fn lemma_pow2_add(a: nat, b: nat)
    ensures
        pow2(a + b) == pow2(a) * pow2(b),
    decreases a,
{
    if a > 0 {
        lemma_pow2_add((a - 1) as nat, b);
        assert(pow2(a + b) == 2 * pow2((a - 1 + b) as nat));
        assert(2 * (pow2((a - 1) as nat) * pow2(b)) == (2 * pow2((a - 1) as nat)) * pow2(b))
            by (nonlinear_arith);
    } else {
        assert(pow2(a) * pow2(b) == pow2(b)) by (nonlinear_arith)
            requires
                pow2(a) == 1,
        ;
    }
}

/// A larger exponent gives a larger power of two.
pub proof fn lemma_pow2_grows(a: nat, b: nat)
    requires
        a <= b,
    ensures
        1 <= pow2(a) <= pow2(b),
    decreases b,
{
    if b > 0 {
        if a == b {
            lemma_pow2_grows((a - 1) as nat, (b - 1) as nat);
        } else {
            lemma_pow2_grows(a, (b - 1) as nat);
        }
    }
}

/// The quotient lies between the powers of two that its logarithm names.
pub proof fn lemma_log2_floor(num: nat, den: nat)
    requires
        0 < den <= num,
    ensures
        den * pow2(log2_floor(num, den)) <= num < den * pow2(log2_floor(num, den) + 1),
    decreases num - den,
{
    if num < 2 * den {
        assert(pow2(1) == 2) by {
            reveal_with_fuel(pow2, 2);
        }
        assert(den * 1 == den && den * 2 == 2 * den);
    } else {
        let p = log2_floor(num, 2 * den);
        lemma_log2_floor(num, 2 * den);
        assert((2 * den) * pow2(p) == den * pow2(p + 1)) by (nonlinear_arith)
            requires
                pow2(p + 1) == 2 * pow2(p),
        ;
        assert((2 * den) * pow2(p + 1) == den * pow2(p + 2)) by (nonlinear_arith)
            requires
                pow2(p + 2) == 2 * pow2(p + 1),
        ;
    }
}

/// The powers of two that the rounding works with.
pub proof fn lemma_pow2_values()
    ensures
        pow2(0) == 1,
        pow2(11) == 2048,
        pow2(52) == 0x10_0000_0000_0000,
        pow2(53) == 0x20_0000_0000_0000,
        pow2(64) == 0x1_0000_0000_0000_0000,
{
    assert(pow2(11) == 2048) by {
        reveal_with_fuel(pow2, 12);
    }
    assert(pow2(8) == 256) by {
        reveal_with_fuel(pow2, 9);
    }
    lemma_pow2_add(11, 11);
    assert(pow2(22) == 4194304) by (nonlinear_arith)
        requires
            pow2(22) == pow2(11) * pow2(11),
            pow2(11) == 2048,
    ;
    lemma_pow2_add(22, 22);
    assert(pow2(44) == 17592186044416) by (nonlinear_arith)
        requires
            pow2(44) == pow2(22) * pow2(22),
            pow2(22) == 4194304,
    ;
    lemma_pow2_add(44, 8);
    assert(pow2(52) == 0x10_0000_0000_0000) by (nonlinear_arith)
        requires
            pow2(52) == pow2(44) * pow2(8),
            pow2(44) == 17592186044416,
            pow2(8) == 256,
    ;
    assert(pow2(53) == 2 * pow2(52));
    lemma_pow2_add(53, 11);
    assert(pow2(64) == 0x1_0000_0000_0000_0000) by (nonlinear_arith)
        requires
            pow2(64) == pow2(53) * pow2(11),
            pow2(53) == 0x20_0000_0000_0000,
            pow2(11) == 2048,
    ;
}

/// Two to the power `k`.
fn two_to(k: u32) -> (v: u128)
    requires
        k <= 64,
    ensures
        v == pow2(k as nat),
        1 <= v <= 0x1_0000_0000_0000_0000,
{
    let mut v: u128 = 1;
    let mut i: u32 = 0;
    proof {
        lemma_pow2_values();
        lemma_pow2_grows(0, 64);
    }
    while i < k
        invariant
            i <= k <= 64,
            v == pow2(i as nat),
            pow2(i as nat) <= pow2(64),
            pow2(64) == 0x1_0000_0000_0000_0000,
            v >= 1,
        decreases k - i,
    {
        proof {
            lemma_pow2_grows((i + 1) as nat, 64);
        }
        v = 2 * v;
        i = i + 1;
    }
    v
}

/// Divides and rounds to the nearest whole number, a tie to the even one.
fn round_div(num: u128, den: u128) -> (q: u128)
    requires
        1 <= den <= 0x4000_0000_0000_0000_0000_0000_0000_0000,
        num <= 0x4000_0000_0000_0000_0000_0000_0000_0000,
    ensures
        q == rounded(num as nat, den as nat),
        num / den <= q <= num / den + 1,
{
    let q = num / den;
    let r = num % den;
    assert(q <= num) by (nonlinear_arith)
        requires
            q == num / den,
            den >= 1,
    ;
    if 2 * r > den || (2 * r == den && q % 2 == 1) {
        q + 1
    } else {
        q
    }
}

/// The suffix of the unit of rank `k`.
fn suffix(si: bool, k: usize) -> (text: &'static str)
    requires
        1 <= k <= 5,
    ensures
        text@ == unit_suffix(si, k as nat),
{
    proof {
        reveal_strlit("kB");
        reveal_strlit("MB");
        reveal_strlit("GB");
        reveal_strlit("TB");
        reveal_strlit("PB");
        reveal_strlit("K");
        reveal_strlit("M");
        reveal_strlit("G");
        reveal_strlit("T");
        reveal_strlit("P");
    }
    let text = if si {
        if k == 1 {
            "kB"
        } else if k == 2 {
            "MB"
        } else if k == 3 {
            "GB"
        } else if k == 4 {
            "TB"
        } else {
            "PB"
        }
    } else {
        if k == 1 {
            "K"
        } else if k == 2 {
            "M"
        } else if k == 3 {
            "G"
        } else if k == 4 {
            "T"
        } else {
            "P"
        }
    };
    assert(text@ =~= unit_suffix(si, k as nat));
    text
}

/// The whole part of the binary logarithm of `num / den`.
fn binary_log(num: u128, den: u128) -> (p: u32)
    requires
        0 < den <= num,
        num <= 0x1_0000_0000_0000_0000,
        num < den * 0x1_0000_0000_0000_0000,
    ensures
        p == log2_floor(num as nat, den as nat),
        p <= 63,
{
    let mut p: u32 = 0;
    let mut d: u128 = den;
    proof {
        lemma_pow2_values();
        assert(den * pow2(0) == den) by (nonlinear_arith)
            requires
                pow2(0) == 1,
        ;
    }
    while num >= 2 * d
        invariant
            0 < den,
            d == den * pow2(p as nat),
            0 < d <= num,
            num <= 0x1_0000_0000_0000_0000,
            num < den * 0x1_0000_0000_0000_0000,
            pow2(64) == 0x1_0000_0000_0000_0000,
            p <= 63,
            log2_floor(num as nat, d as nat) + p == log2_floor(num as nat, den as nat),
        decreases num - d,
    {
        proof {
            let next = pow2((p + 1) as nat);
            assert(next == 2 * pow2(p as nat));
            assert(2 * (den * pow2(p as nat)) == den * next) by (nonlinear_arith)
                requires
                    next == 2 * pow2(p as nat),
            ;
            if p + 1 >= 64 {
                lemma_pow2_grows(64, (p + 1) as nat);
                assert(den * next >= den * pow2(64)) by (nonlinear_arith)
                    requires
                        next >= pow2(64),
                        den > 0,
                ;
            }
        }
        d = 2 * d;
        p = p + 1;
    }
    p
}

/// The nearest double-precision number where the quotient has 53 bits or
/// more before the binary point.
fn nearest_high(num: u128, den: u128, p: u32, Ghost(c): Ghost<nat>) -> (x: (u128, u32))
    requires
        0 < den <= num,
        den <= 0x4000_0000_0000_0000,
        num <= 0x1_0000_0000_0000_0000,
        p == log2_floor(num as nat, den as nat),
        52 <= p <= 63,
        c <= 0x10_0000_0000_0000,
    ensures
        (Double { num: x.0 as nat, shift: x.1 as nat }) == nearest_double(num as nat, den as nat),
        x.1 == 0,
        x.0 <= 0x1_0000_0000_0000_0000,
        x.0 >= pow2(x.1 as nat),
        x.0 >= c * pow2(x.1 as nat),
{
    let s = p - 52;
    let power = two_to(s);
    proof {
        lemma_pow2_values();
        lemma_log2_floor(num as nat, den as nat);
        lemma_pow2_add(s as nat, 52);
        lemma_pow2_add(s as nat, 53);
        lemma_pow2_grows(s as nat, 11);
        assert(den * power <= 0x4000_0000_0000_0000 * 2048) by (nonlinear_arith)
            requires
                den <= 0x4000_0000_0000_0000,
                power <= 2048,
        ;
    }
    let unit = den * power;
    proof {
        let low = pow2(52);
        let high = pow2(53);
        assert(den * pow2(p as nat) == unit * low) by (nonlinear_arith)
            requires
                pow2(p as nat) == power * low,
                unit == den * power,
        ;
        assert(den * pow2((p + 1) as nat) == unit * high) by (nonlinear_arith)
            requires
                pow2((p + 1) as nat) == power * high,
                unit == den * power,
        ;
        assert(unit <= num && unit > 0) by (nonlinear_arith)
            requires
                unit * low <= num,
                low >= 1,
                unit == den * power,
                den > 0,
                power >= 1,
        ;
    }
    let r = round_div(num, unit);
    proof {
        let low = pow2(52);
        let high = pow2(53);
        assert(num / unit >= low) by (nonlinear_arith)
            requires
                unit * low <= num,
                unit > 0,
        ;
        assert(num / unit < high) by (nonlinear_arith)
            requires
                num < unit * high,
                unit > 0,
        ;
        assert(power * r <= 2048 * 0x20_0000_0000_0000) by (nonlinear_arith)
            requires
                power <= 2048,
                r <= 0x20_0000_0000_0000,
        ;
        assert(power * r >= c && power * r >= 1) by (nonlinear_arith)
            requires
                power >= 1,
                r >= 0x10_0000_0000_0000,
                c <= 0x10_0000_0000_0000,
        ;
        assert(c * pow2(0) == c) by (nonlinear_arith)
            requires
                pow2(0) == 1,
        ;
    }
    (power * r, 0)
}

/// The nearest double-precision number where the quotient has fewer than
/// 53 bits before the binary point.
fn nearest_low(num: u128, den: u128, p: u32, Ghost(c): Ghost<nat>) -> (x: (u128, u32))
    requires
        0 < den <= num,
        den <= 0x4000_0000_0000_0000,
        num <= 0x1_0000_0000_0000_0000,
        p == log2_floor(num as nat, den as nat),
        p < 52,
    ensures
        (Double { num: x.0 as nat, shift: x.1 as nat }) == nearest_double(num as nat, den as nat),
        1 <= x.1 <= 52,
        x.0 <= 0x20_0000_0000_0000,
        x.0 >= pow2(x.1 as nat),
        num >= c * den ==> x.0 >= c * pow2(x.1 as nat),
{
    let t = 52 - p;
    let power = two_to(t);
    proof {
        lemma_pow2_values();
        lemma_log2_floor(num as nat, den as nat);
        lemma_pow2_add((p + 1) as nat, t as nat);
        lemma_pow2_grows(t as nat, 52);
        assert(num * power <= 0x1_0000_0000_0000_0000 * 0x10_0000_0000_0000) by (nonlinear_arith)
            requires
                num <= 0x1_0000_0000_0000_0000,
                power <= 0x10_0000_0000_0000,
        ;
    }
    let wide = num * power;
    let r = round_div(wide, den);
    proof {
        let high = pow2(53);
        let edge = pow2((p + 1) as nat);
        assert(wide < den * high) by (nonlinear_arith)
            requires
                wide == num * power,
                num < den * edge,
                high == edge * power,
                power >= 1,
        ;
        assert(wide / den < high) by (nonlinear_arith)
            requires
                wide < den * high,
                den > 0,
        ;
        assert(wide / den >= power) by (nonlinear_arith)
            requires
                wide == num * power,
                num >= den,
                den > 0,
        ;
        if num >= c * den {
            assert(wide / den >= c * power) by (nonlinear_arith)
                requires
                    wide == num * power,
                    num >= c * den,
                    den > 0,
            ;
        }
    }
    (r, t)
}

/// The double-precision number nearest to `num / den`, as a numerator and
/// the exponent of the power of two to divide it by.
fn nearest(num: u128, den: u128, Ghost(c): Ghost<nat>) -> (x: (u128, u32))
    requires
        0 < den <= num,
        den <= 0x4000_0000_0000_0000,
        num <= 0x1_0000_0000_0000_0000,
        num < den * 0x1_0000_0000_0000_0000,
        c <= 0x10_0000_0000_0000,
    ensures
        (Double { num: x.0 as nat, shift: x.1 as nat }) == nearest_double(num as nat, den as nat),
        x.1 <= 52,
        x.0 <= 0x1_0000_0000_0000_0000,
        x.0 >= pow2(x.1 as nat),
        num >= c * den ==> x.0 >= c * pow2(x.1 as nat),
{
    let p = binary_log(num, den);
    if p >= 52 {
        nearest_high(num, den, p, Ghost(c))
    } else {
        nearest_low(num, den, p, Ghost(c))
    }
}

/// One division of a scaled size by the base, in double precision.
fn divide(x: (u128, u32), base: u128) -> (y: (u128, u32))
    requires
        base == 1000 || base == 1024,
        x.1 <= 52,
        x.0 <= 0x1_0000_0000_0000_0000,
        x.0 >= base * pow2(x.1 as nat),
    ensures
        (Double { num: y.0 as nat, shift: y.1 as nat }) == (Double {
            num: x.0 as nat,
            shift: x.1 as nat,
        }).divided(base as nat),
        y.1 <= 52,
        y.0 <= 0x1_0000_0000_0000_0000,
        y.0 >= pow2(y.1 as nat),
{
    let power = two_to(x.1);
    proof {
        lemma_pow2_values();
        lemma_pow2_grows(x.1 as nat, 52);
        assert(base * power <= 1024 * 0x10_0000_0000_0000 && base * power >= 1000) by (nonlinear_arith)
            requires
                1000 <= base <= 1024,
                1 <= power <= 0x10_0000_0000_0000,
        ;
    }
    let den = base * power;
    proof {
        assert(x.0 < den * 0x1_0000_0000_0000_0000) by (nonlinear_arith)
            requires
                x.0 <= 0x1_0000_0000_0000_0000,
                den >= 1000,
        ;
    }
    nearest(x.0, den, Ghost(1nat))
}

/// Tells whether a scaled size is `c` or more.
fn reaches(x: (u128, u32), c: u128) -> (yes: bool)
    requires
        x.1 <= 52,
        c <= 1024,
    ensures
        yes == (Double { num: x.0 as nat, shift: x.1 as nat }).at_least(c as nat),
{
    let power = two_to(x.1);
    proof {
        lemma_pow2_values();
        lemma_pow2_grows(x.1 as nat, 52);
        assert(c * power <= 1024 * 0x10_0000_0000_0000) by (nonlinear_arith)
            requires
                c <= 1024,
                power <= 0x10_0000_0000_0000,
        ;
    }
    x.0 >= c * power
}

/// The whole number nearest to `factor` times a scaled size.
fn times_rounded(x: (u128, u32), factor: u128) -> (whole: u128)
    requires
        x.1 <= 52,
        x.0 <= 0x1_0000_0000_0000_0000,
        factor <= 10,
    ensures
        whole == (Double { num: x.0 as nat, shift: x.1 as nat }).times_rounded(factor as nat),
{
    let power = two_to(x.1);
    proof {
        assert(factor * x.0 <= 10 * 0x1_0000_0000_0000_0000) by (nonlinear_arith)
            requires
                factor <= 10,
                x.0 <= 0x1_0000_0000_0000_0000,
        ;
    }
    round_div(factor * x.0, power)
}

/// The number and the unit's suffix in which a size is shown.
pub fn scaled_size(size: u64, si: bool) -> (parts: (String, &'static str))
    ensures
        parts.0@ == size_number(size as nat, si),
        parts.1@ == size_suffix(size as nat, si),
{
    let base: u128 = if si { 1000 } else { 1024 };
    let mut number = String::new();
    if size < base as u64 {
        push_decimal(&mut number, size);
        let none = "";
        proof {
            reveal_strlit("");
            assert(none@ =~= Seq::<char>::empty());
        }
        return (number, none);
    }
    let ghost first = nearest_double(size as nat, 1);
    let mut x = nearest(size as u128, 1, Ghost(base as nat));
    let mut rank: usize = 0;
    while rank < 5 && reaches(x, base)
        invariant
            rank <= 5,
            base == unit_base(si),
            x.1 <= 52,
            x.0 <= 0x1_0000_0000_0000_0000,
            rank == 0 ==> x.0 >= base * pow2(x.1 as nat),
            scaled(Double { num: x.0 as nat, shift: x.1 as nat }, base as nat, rank as nat) == scaled(
                first,
                base as nat,
                0,
            ),
        decreases 5 - rank,
    {
        x = divide(x, base);
        rank = rank + 1;
    }
    assert(scaled(first, base as nat, 0) == (Double { num: x.0 as nat, shift: x.1 as nat }, rank as nat));
    if reaches(x, 10) {
        let whole = times_rounded(x, 1);
        push_decimal_wide(&mut number, whole);
    } else {
        let tenths = times_rounded(x, 10);
        push_decimal_wide(&mut number, tenths / 10);
        number.push('.');
        push_decimal_wide(&mut number, tenths % 10);
    }
    assert(number@ =~= size_number(size as nat, si));
    (number, suffix(si, rank))
}

/// Formats a size in bytes for reading: `512` as `"512"`, `1024` as `"1.0K"`,
/// and with SI units `1500` as `"1.5kB"`.
pub fn format_size(size: u64, si: bool) -> (text: String)
    ensures
        text@ == size_text(size as nat, si),
{
    let (number, unit) = scaled_size(size, si);
    let mut text = number;
    text.append(unit);
    text
}

/// The pattern by which a time is shown where none is asked for: month,
/// day, hour and minute.
pub open spec fn default_time_pattern() -> Seq<char> {
    "%b %d %H:%M"@
}

/// The pattern to show times by: the one asked for, else the default.
pub fn time_pattern<'a>(format: Option<&'a str>) -> (pattern: &'a str)
    ensures
        pattern@ == (match format {
            Some(f) => f@,
            None => default_time_pattern(),
        }),
{
    match format {
        Some(f) => f,
        None => "%b %d %H:%M",
    }
}

/// Whether `chrono` can hold the point in time: whether
/// `DateTime::from_timestamp` gives a value for it.
pub uninterp spec fn chrono_holds(secs: i64, nanos: u32) -> bool;

/// What `chrono` writes for the point in time, seen `offset` seconds east of
/// UTC, by the `strftime` pattern; `None` where it cannot hold the point in
/// time, where the offset is a day or more, or where it rejects the pattern.
pub uninterp spec fn time_text(secs: i64, nanos: u32, offset: i32, pattern: Seq<char>) -> Option<Seq<char>>;

/// `chrono`: the offset from UTC, in seconds east, that the machine's local
/// time zone has at the point in time (`DateTime::from_timestamp`,
/// `with_timezone(&Local)`, `offset`, `local_minus_utc`). There is an offset
/// exactly where `chrono` can hold the point in time, and it is less than a
/// day. Which offset it is depends on the time zone of the machine.
#[verifier::external_body]
fn local_offset(secs: i64, nanos: u32) -> (offset: Option<i32>)
    ensures
        offset is Some <==> chrono_holds(secs, nanos),
        offset matches Some(east) ==> -86_400 < east < 86_400,
{
    let utc = chrono::DateTime::from_timestamp(secs, nanos)?;
    Some(utc.with_timezone(&chrono::Local).offset().local_minus_utc())
}

/// `chrono`: the point in time as a `DateTime` at a fixed offset from UTC
/// (`DateTime::from_timestamp`, `FixedOffset::east_opt`, `with_timezone`),
/// written by `format` with a `strftime` pattern. What is written depends on
/// the point in time, the offset and the pattern alone.
#[verifier::external_body]
fn text_at_offset(secs: i64, nanos: u32, offset: i32, pattern: &str) -> (text: Option<String>)
    ensures
        text_view(text) == time_text(secs, nanos, offset, pattern@),
{
    let utc = chrono::DateTime::from_timestamp(secs, nanos)?;
    let zone = chrono::FixedOffset::east_opt(offset)?;
    let mut text = String::new();
    match write!(text, "{}", utc.with_timezone(&zone).format(pattern)) {
        Ok(()) => Some(text),
        Err(_) => None,
    }
}

/// Whether `text` is the point in time as `chrono` writes it by the pattern
/// at some offset of less than a day from UTC; or nothing, where `chrono`
/// cannot hold the point in time.
pub open spec fn shown_locally(time: Timestamp, pattern: Seq<char>, text: Option<Seq<char>>) -> bool {
    ||| text is None && !chrono_holds(time.secs, time.nanos)
    ||| exists|offset: i32|
        -86_400 < offset < 86_400 && #[trigger] time_text(time.secs, time.nanos, offset, pattern) == text
}

/// Formats a point in time for display in the local time zone, by `format`
/// or else by the default pattern: the text is what `chrono` writes by that
/// pattern at the offset that the local time zone has at the point in time.
/// `None` where the time cannot be shown by that pattern.
pub fn format_time(time: Timestamp, format: Option<&str>) -> (text: Option<String>)
    ensures
        shown_locally(
            time,
            match format {
                Some(f) => f@,
                None => default_time_pattern(),
            },
            text_view(text),
        ),
{
    let pattern = time_pattern(format);
    match local_offset(time.secs, time.nanos) {
        Some(offset) => {
            let text = text_at_offset(time.secs, time.nanos, offset, pattern);
            assert(time_text(time.secs, time.nanos, offset, pattern@) == text_view(text));
            text
        },
        None => None,
    }
}

} // verus!
