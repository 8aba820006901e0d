//! Positive single-precision numbers, by their bit patterns.
//!
//! Scale factors are powers of the square root of two and quotients of such
//! powers. Their single-precision encodings follow from integer arithmetic: a
//! pattern `b` stands for `significand(b) * 2^unit_exponent(b)`, greater
//! patterns stand for greater numbers, and every operation gives the nearest
//! number, the even one of two that are equally near.
use vstd::prelude::*;
use vstd::arithmetic::power2::*;

verus! {

/// Significands of normal numbers range from here to twice here; also the
/// pattern of the least normal number.
pub const HIDDEN_BIT: u32 = 0x80_0000;

/// The first pattern that is not finite.
pub const INFINITE: u32 = 0x7f80_0000;

/// The pattern of one.
pub const ONE: u32 = 0x3f80_0000;

/// What the pattern of the square root of two holds below the hidden bit.
pub const ROOT_TWO_FRACTION: u32 = 0x35_04f3;

/// Whether a pattern stands for a positive normal number.
pub open spec fn is_normal(bits: int) -> bool {
    HIDDEN_BIT <= bits < INFINITE
}

/// The 24-bit significand of a normal number.
pub open spec fn significand(bits: int) -> int {
    HIDDEN_BIT + bits % 0x80_0000
}

/// The exponent of the last bit of the significand.
pub open spec fn unit_exponent(bits: int) -> int {
    bits / 0x80_0000 - 150
}

/// The integer nearest to `num / den`, the even one of two.
pub open spec fn nearest(num: int, den: int) -> int {
    if 2 * (num % den) < den {
        num / den
    } else if 2 * (num % den) > den {
        num / den + 1
    } else {
        num / den + (num / den) % 2
    }
}

/// The pattern of `2^(half / 2)`, where that is a normal number.
pub open spec fn half_power(half: int) -> Option<u32> {
    if -252 <= half <= 255 {
        Some(((half / 2 + 127) * 0x80_0000 + (half % 2) * ROOT_TWO_FRACTION) as u32)
    } else {
        None
    }
}

/// The pattern of one more than a normal number. Below one, the number is
/// rounded to the last place of one; from one on, one is rounded to the last
/// place of the sum.
pub open spec fn one_more(bits: int) -> int {
    let exponent = bits / 0x80_0000 - 127;
    let sum = significand(bits) + pow2((23 - exponent) as nat);
    if exponent < 0 {
        ONE + nearest(significand(bits), pow2((-exponent) as nat) as int)
    } else if exponent > 23 {
        let scale = pow2((exponent - 23) as nat);
        (exponent + 126) * 0x80_0000 + nearest(
            significand(bits) * scale + 1,
            scale as int,
        )
    } else if sum < 0x100_0000 {
        (exponent + 126) * 0x80_0000 + sum
    } else {
        (exponent + 127) * 0x80_0000 + nearest(sum, 2)
    }
}

/// By how many places the significand of a dividend is shifted so that the
/// quotient of the significands has 24 bits.
pub open spec fn shift_of(dividend: int, divisor: int) -> int {
    if significand(dividend) >= significand(divisor) {
        23
    } else {
        24
    }
}

/// The exponent of the last bit of a quotient with 24 bits.
pub open spec fn quotient_exponent(dividend: int, divisor: int) -> int {
    unit_exponent(dividend) - unit_exponent(divisor) - shift_of(dividend, divisor)
}

/// What the pattern of a quotient would be if no pattern were too great or too
/// small for a normal number. The last place is never below that of the least
/// normal number.
pub open spec fn quotient_pattern(dividend: int, divisor: int) -> int {
    let scaled = significand(dividend) * pow2(shift_of(dividend, divisor) as nat);
    let exponent = quotient_exponent(dividend, divisor);
    if exponent >= -149 {
        (exponent + 149) * 0x80_0000 + nearest(scaled, significand(divisor))
    } else {
        nearest(scaled, significand(divisor) * pow2((-149 - exponent) as nat))
    }
}

/// The pattern of a quotient of normal numbers, where it is a normal number.
pub open spec fn quotient(dividend: int, divisor: int) -> Option<u32> {
    if is_normal(quotient_pattern(dividend, divisor)) {
        Some(quotient_pattern(dividend, divisor) as u32)
    } else {
        None
    }
}

/// `nearest` is as near as an integer can be, and even where two are equally
/// near.
pub proof fn lemma_nearest_is_nearest(num: int, den: int)
    requires
        den > 0,
    ensures
        -den <= 2 * (nearest(num, den) * den - num) <= den,
        2 * (nearest(num, den) * den - num) == den || 2 * (nearest(num, den) * den - num) == -den
            ==> nearest(num, den) % 2 == 0,
{
    let q = num / den;
    let r = num % den;
    assert(num == q * den + r && 0 <= r < den) by (nonlinear_arith)
        requires
            den > 0,
            q == num / den,
            r == num % den,
    ;
    assert((q + 1) * den == q * den + den) by (nonlinear_arith);
    assert((q + q % 2) * den == q * den + (q % 2) * den) by (nonlinear_arith);
    assert((q % 2) * den == if q % 2 == 0 {
        0
    } else {
        den
    }) by (nonlinear_arith);
}

/// The fraction of the square root of two is the nearest one: the root lies
/// within half a place of the significand.
pub proof fn lemma_root_two_is_nearest()
    ensures
        ({
            let s = HIDDEN_BIT + ROOT_TWO_FRACTION;
            let square = 2 * HIDDEN_BIT * HIDDEN_BIT;
            (2 * s - 1) * (2 * s - 1) < 4 * square < (2 * s + 1) * (2 * s + 1)
        }),
{
    assert(23726565int * 23726565int < 4 * (2 * 8388608int * 8388608int)) by (nonlinear_arith);
    assert(4 * (2 * 8388608int * 8388608int) < 23726567int * 23726567int) by (nonlinear_arith);
}

/// Two half steps double a power: its pattern moves on by one exponent.
pub proof fn lemma_two_half_steps_double(half: int)
    requires
        half_power(half) is Some,
        half_power(half + 2) is Some,
    ensures
        half_power(half + 2)->0 == half_power(half)->0 + HIDDEN_BIT,
        significand(half_power(half + 2)->0 as int) == significand(half_power(half)->0 as int),
        unit_exponent(half_power(half + 2)->0 as int) == unit_exponent(half_power(half)->0 as int)
            + 1,
{
}

/// Powers strictly increase from one half step to the next, and are normal.
pub proof fn lemma_half_steps_increase(half: int, next: int)
    requires
        half < next,
        half_power(half) is Some,
        half_power(next) is Some,
    ensures
        half_power(half)->0 < half_power(next)->0,
        is_normal(half_power(half)->0 as int),
        is_normal(half_power(next)->0 as int),
{
}

/// The integer nearest to `num / den`, the even one of two.
fn nearest_integer(num: u64, den: u64) -> (rounded: u64)
    requires
        0 < den < 0x4000_0000_0000_0000,
        num < 0x4000_0000_0000_0000,
    ensures
        rounded == nearest(num as int, den as int),
{
    let quotient: u64 = num / den;
    let rest: u64 = num % den;
    assert(quotient <= num) by (nonlinear_arith)
        requires
            den > 0,
            quotient == num / den,
    ;
    if 2 * rest < den {
        quotient
    } else if 2 * rest > den {
        quotient + 1
    } else {
        quotient + quotient % 2
    }
}

/// The pattern of `2^(half / 2)`, where that is a normal number.
pub fn exp2_half(half: i32) -> (power: Option<u32>)
    ensures
        power == half_power(half as int),
        power matches Some(bits) ==> is_normal(bits as int),
{
    if half < -252 || half > 255 {
        return None;
    }
    let lifted: u32 = (half + 252) as u32;
    let exponent: u32 = lifted / 2 + 1;
    Some(exponent * 0x80_0000 + lifted % 2 * ROOT_TWO_FRACTION)
}

/// A quotient between two integers is rounded to one between them.
proof fn lemma_nearest_between(num: int, den: int, low: int, high: int)
    requires
        den > 0,
        low * den <= num <= high * den,
    ensures
        low <= nearest(num, den) <= high,
{
    let q = num / den;
    let r = num % den;
    assert(num == q * den + r && 0 <= r < den) by (nonlinear_arith)
        requires
            den > 0,
            q == num / den,
            r == num % den,
    ;
    assert(low <= q) by (nonlinear_arith)
        requires
            den > 0,
            low * den <= q * den + r,
            r < den,
    ;
    assert(q < high || (q == high && r == 0)) by (nonlinear_arith)
        requires
            den > 0,
            q * den + r <= high * den,
            0 <= r,
    ;
}

/// Only a multiple of the divisor and a rest less than half of it is rounded
/// down to that multiple.
proof fn lemma_nearest_of_small_rest(whole: int, rest: int, den: int)
    requires
        den > 0,
        0 <= rest,
        2 * rest < den,
    ensures
        nearest(whole * den + rest, den) == whole,
{
    assert((whole * den + rest) / den == whole && (whole * den + rest) % den == rest)
        by (nonlinear_arith)
        requires
            den > 0,
            0 <= rest < den,
    ;
}

/// Powers of two grow with their exponent.
pub proof fn lemma_pow2_at_least(low: nat, exponent: nat)
    requires
        low <= exponent,
    ensures
        pow2(low) <= pow2(exponent),
{
    if low < exponent {
        vstd::arithmetic::power2::lemma_pow2_strictly_increases(low, exponent);
    }
}

/// The pattern of one more than a normal number.
pub fn one_plus(bits: u32) -> (sum: u32)
    requires
        is_normal(bits as int),
    ensures
        sum == one_more(bits as int),
        is_normal(sum as int),
{
    let biased: u32 = bits / 0x80_0000;
    let own: u64 = 0x80_0000 + (bits % 0x80_0000) as u64;
    proof {
        vstd::arithmetic::power2::lemma2_to64();
    }
    if biased < 127 {
        let places: u32 = 127 - biased;
        if places >= 26 {
            proof {
                lemma_pow2_at_least(26, places as nat);
                lemma_nearest_of_small_rest(0, own as int, pow2(places as nat) as int);
            }
            return ONE;
        }
        let scale: u64 = power_of_two(places);
        let rounded: u64 = nearest_integer(own, scale);
        proof {
            lemma_pow2_at_least(1, places as nat);
            assert(own <= 0x80_0000 * scale) by (nonlinear_arith)
                requires
                    own < 0x100_0000,
                    scale >= 2,
            ;
            lemma_nearest_between(own as int, scale as int, 0, 0x80_0000);
        }
        return ONE + rounded as u32;
    }
    if biased > 151 {
        proof {
            let scale = pow2((biased - 150) as nat);
            lemma_pow2_at_least(2, (biased - 150) as nat);
            lemma_nearest_of_small_rest(own as int, 1, scale as int);
        }
        return bits;
    }
    if biased == 151 {
        assert((own * 2 + 1) / 2 == own && (own * 2 + 1) % 2 == 1);
        return bits + (own % 2) as u32;
    }
    let sum: u64 = own + power_of_two(150 - biased);
    proof {
        lemma_pow2_at_least((150 - biased) as nat, 23);
    }
    if sum < 0x100_0000 {
        return (biased - 1) * 0x80_0000 + sum as u32;
    }
    let rounded: u64 = nearest_integer(sum, 2);
    biased * 0x80_0000 + rounded as u32
}

/// A power of two.
fn power_of_two(exponent: u32) -> (power: u64)
    requires
        exponent < 32,
    ensures
        power == pow2(exponent as nat),
        1 <= power < 0x1_0000_0000,
{
    proof {
        vstd::arithmetic::power2::lemma2_to64();
        vstd::arithmetic::power2::lemma_pow2_pos(exponent as nat);
        vstd::arithmetic::power2::lemma_pow2_strictly_increases(exponent as nat, 32);
        vstd::bits::lemma_u64_shl_is_mul(1, exponent as u64);
    }
    1u64 << exponent as u64
}

/// The pattern of a quotient of normal numbers, where it is a normal number.
pub fn divide_normal(dividend: u32, divisor: u32) -> (result: Option<u32>)
    requires
        is_normal(dividend as int),
        is_normal(divisor as int),
    ensures
        result == quotient(dividend as int, divisor as int),
{
    let above: u64 = 0x80_0000 + (dividend % 0x80_0000) as u64;
    let below: u64 = 0x80_0000 + (divisor % 0x80_0000) as u64;
    let shift: i32 = if above >= below {
        23
    } else {
        24
    };
    let exponent: i32 = (dividend / 0x80_0000) as i32 - (divisor / 0x80_0000) as i32 - shift;
    let scale: u64 = power_of_two(shift as u32);
    proof {
        vstd::arithmetic::power2::lemma2_to64();
    }
    assert(scale == 0x80_0000 || scale == 0x100_0000);
    assert(above * scale < 0x100_0000 * below && above * scale < 0x2_0000_0000_0000)
        by (nonlinear_arith)
        requires
            above < 0x100_0000,
            below >= 0x80_0000,
            scale == 0x80_0000 || (scale == 0x100_0000 && above < below),
    ;
    let scaled: u64 = above * scale;
    if exponent >= -149 {
        let rounded: u64 = nearest_integer(scaled, below);
        proof {
            lemma_nearest_between(scaled as int, below as int, 0, 0x100_0000);
        }
        let pattern: u64 = (exponent + 149) as u64 * 0x80_0000 + rounded;
        if pattern < HIDDEN_BIT as u64 || pattern >= INFINITE as u64 {
            return None;
        }
        return Some(pattern as u32);
    }
    if exponent < -150 {
        proof {
            let places = (-149 - exponent) as nat;
            let wide = below * pow2(places);
            lemma_pow2_at_least(2, places);
            assert(wide > 0 && scaled <= 0x40_0000 * wide) by (nonlinear_arith)
                requires
                    scaled < 0x100_0000 * below,
                    below > 0,
                    wide == below * pow2(places),
                    pow2(places) >= 4,
            ;
            lemma_nearest_between(scaled as int, wide as int, 0, 0x40_0000);
        }
        return None;
    }
    let rounded: u64 = nearest_integer(scaled, below * 2);
    proof {
        lemma_nearest_between(scaled as int, below * 2, 0, 0x80_0000);
    }
    if rounded < HIDDEN_BIT as u64 {
        return None;
    }
    Some(rounded as u32)
}

/// Rounding keeps the order of quotients.
pub proof fn lemma_nearest_is_monotone(num: int, den: int, other_num: int, other_den: int)
    requires
        den > 0,
        other_den > 0,
        num * other_den <= other_num * den,
    ensures
        nearest(num, den) <= nearest(other_num, other_den),
{
    let low = nearest(num, den);
    let high = nearest(other_num, other_den);
    lemma_nearest_is_nearest(num, den);
    lemma_nearest_is_nearest(other_num, other_den);
    if low > high {
        // Both quotients lie within half of their roundings.
        assert((2 * low - 1) * den <= 2 * num) by (nonlinear_arith)
            requires
                2 * (low * den - num) <= den,
        ;
        assert(2 * other_num <= (2 * high + 1) * other_den) by (nonlinear_arith)
            requires
                -other_den <= 2 * (high * other_den - other_num),
        ;
        assert((2 * low - 1) * (den * other_den) <= 2 * (num * other_den)) by (nonlinear_arith)
            requires
                (2 * low - 1) * den <= 2 * num,
                other_den > 0,
        ;
        assert(2 * (other_num * den) <= (2 * high + 1) * (den * other_den)) by (nonlinear_arith)
            requires
                2 * other_num <= (2 * high + 1) * other_den,
                den > 0,
        ;
        assert(den * other_den > 0) by (nonlinear_arith)
            requires
                den > 0,
                other_den > 0,
        ;
        let product = den * other_den;
        assert(2 * low - 1 <= 2 * high + 1) by (nonlinear_arith)
            requires
                (2 * low - 1) * product <= (2 * high + 1) * product,
                product > 0,
        ;
        assert(low == high + 1);
        // Both are ties, and consecutive integers are not both even.
        assert(2 * num * other_den == (2 * low - 1) * product) by (nonlinear_arith)
            requires
                (2 * low - 1) * product <= 2 * (num * other_den),
                num * other_den <= other_num * den,
                2 * (other_num * den) <= (2 * high + 1) * product,
                low == high + 1,
        ;
        assert(2 * other_num * den == (2 * high + 1) * product) by (nonlinear_arith)
            requires
                (2 * low - 1) * product <= 2 * (num * other_den),
                num * other_den <= other_num * den,
                2 * (other_num * den) <= (2 * high + 1) * product,
                low == high + 1,
        ;
        assert(2 * num == (2 * low - 1) * den) by (nonlinear_arith)
            requires
                2 * num * other_den == (2 * low - 1) * product,
                product == den * other_den,
                other_den > 0,
        ;
        assert(2 * other_num == (2 * high + 1) * other_den) by (nonlinear_arith)
            requires
                2 * other_num * den == (2 * high + 1) * product,
                product == den * other_den,
                den > 0,
        ;
        assert(2 * (low * den - num) == den) by (nonlinear_arith)
            requires
                2 * num == (2 * low - 1) * den,
        ;
        assert(2 * (high * other_den - other_num) == -other_den) by (nonlinear_arith)
            requires
                2 * other_num == (2 * high + 1) * other_den,
        ;
    }
}

/// Patterns keep the order of the numbers that they are rounded from: a
/// quotient of 24 bits with a place of its own.
proof fn lemma_patterns_are_monotone(
    place: int,
    num: int,
    den: int,
    other_place: int,
    other_num: int,
    other_den: int,
)
    requires
        den > 0,
        other_den > 0,
        0x80_0000 * den <= num <= 0x100_0000 * den,
        0x80_0000 * other_den <= other_num <= 0x100_0000 * other_den,
        place < other_place || (place == other_place && num * other_den <= other_num * den),
    ensures
        place * 0x80_0000 + nearest(num, den) <= other_place * 0x80_0000 + nearest(
            other_num,
            other_den,
        ),
{
    lemma_nearest_between(num, den, 0x80_0000, 0x100_0000);
    lemma_nearest_between(other_num, other_den, 0x80_0000, 0x100_0000);
    if place == other_place {
        lemma_nearest_is_monotone(num, den, other_num, other_den);
    }
}

/// An even whole part does not take part in rounding.
proof fn lemma_nearest_of_whole(whole: int, rest: int, den: int)
    requires
        den > 0,
        whole % 2 == 0,
    ensures
        nearest(whole * den + rest, den) == whole + nearest(rest, den),
{
    assert((whole * den + rest) / den == whole + rest / den && (whole * den + rest) % den == rest
        % den) by {
        vstd::arithmetic::div_mod::lemma_div_multiples_vanish_fancy(whole, 0, den);
        vstd::arithmetic::div_mod::lemma_hoist_over_denominator(rest, whole, den as nat);
        vstd::arithmetic::div_mod::lemma_mod_multiples_vanish(whole, rest, den);
        assert(whole * den == den * whole) by (nonlinear_arith);
    }
}

/// The place, numerator and denominator that one more than a number is rounded
/// from.
spec fn sum_parts(bits: int) -> (int, int, int) {
    let exponent = bits / 0x80_0000 - 127;
    let own = significand(bits);
    let sum = own + pow2((23 - exponent) as nat);
    if exponent < 0 {
        let den = pow2((-exponent) as nat) as int;
        (126, 0x80_0000 * den + own, den)
    } else if exponent > 23 {
        let den = pow2((exponent - 23) as nat) as int;
        (exponent + 126, own * den + 1, den)
    } else if sum < 0x100_0000 {
        (exponent + 126, sum, 1)
    } else {
        (exponent + 127, sum, 2)
    }
}

proof fn lemma_sum_parts(bits: int)
    requires
        is_normal(bits),
    ensures
        ({
            let (place, num, den) = sum_parts(bits);
            &&& den > 0
            &&& 0x80_0000 * den <= num <= 0x100_0000 * den
            &&& one_more(bits) == place * 0x80_0000 + nearest(num, den)
        }),
{
    let exponent = bits / 0x80_0000 - 127;
    let own = significand(bits);
    vstd::arithmetic::power2::lemma2_to64();
    if exponent < 0 {
        let den = pow2((-exponent) as nat) as int;
        lemma_pow2_at_least(1, (-exponent) as nat);
        lemma_nearest_of_whole(0x80_0000, own, den);
        assert(0x80_0000 * den + own <= 0x100_0000 * den) by (nonlinear_arith)
            requires
                own < 0x100_0000,
                den >= 2,
        ;
    } else if exponent > 23 {
        let den = pow2((exponent - 23) as nat) as int;
        lemma_pow2_at_least(1, (exponent - 23) as nat);
        assert(0x80_0000 * den <= own * den + 1 <= 0x100_0000 * den) by (nonlinear_arith)
            requires
                0x80_0000 <= own <= 0xff_ffff,
                den >= 2,
        ;
    } else {
        lemma_pow2_at_least((23 - exponent) as nat, 23);
        let sum = own + pow2((23 - exponent) as nat);
        assert(nearest(sum, 1) == sum);
    }
}

proof fn lemma_double_power(exponent: nat, other: nat)
    requires
        exponent < other,
    ensures
        2 * pow2(exponent) <= pow2(other),
{
    vstd::arithmetic::power2::lemma_pow2_unfold(exponent + 1);
    lemma_pow2_at_least(exponent + 1, other);
}

/// One more than a greater number is not smaller.
pub proof fn lemma_one_more_is_monotone(bits: int, other: int)
    requires
        is_normal(bits),
        is_normal(other),
        bits <= other,
    ensures
        one_more(bits) <= one_more(other),
{
    let e = bits / 0x80_0000 - 127;
    let f = other / 0x80_0000 - 127;
    let s = significand(bits);
    let t = significand(other);
    let (place, num, den) = sum_parts(bits);
    let (other_place, other_num, other_den) = sum_parts(other);
    lemma_sum_parts(bits);
    lemma_sum_parts(other);
    vstd::arithmetic::power2::lemma2_to64();
    assert(e <= f);
    assert(e == f ==> s <= t);
    assert(place < other_place || (place == other_place && num * other_den <= other_num * den))
        by {
        if f < 0 {
            if e < f {
                lemma_double_power((-f) as nat, (-e) as nat);
                assert(s * other_den <= t * den) by (nonlinear_arith)
                    requires
                        0 <= s < 0x100_0000,
                        0x80_0000 <= t,
                        0 < other_den,
                        2 * other_den <= den,
                ;
            } else {
                assert(s * other_den <= t * den) by (nonlinear_arith)
                    requires
                        s <= t,
                        other_den == den,
                        den > 0,
                ;
            }
            assert(num * other_den <= other_num * den) by (nonlinear_arith)
                requires
                    num == 0x80_0000 * den + s,
                    other_num == 0x80_0000 * other_den + t,
                    s * other_den <= t * den,
            ;
        } else if e < 0 {
            if f == 0 {
                assert(t + pow2(23) >= 0x100_0000);
            }
        } else if e == f {
            if e > 23 {
                assert(num * other_den <= other_num * den) by (nonlinear_arith)
                    requires
                        num == s * den + 1,
                        other_num == t * den + 1,
                        other_den == den,
                        s <= t,
                        den > 0,
                ;
            }
        } else if e <= 23 {
            lemma_pow2_at_least((23 - e) as nat, 23);
            if place == other_place {
                if f <= 23 {
                    vstd::arithmetic::power2::lemma_pow2_unfold((23 - e) as nat);
                    assert(num * 1 <= other_num * 2);
                } else {
                    assert(e == 23 && f == 24);
                    assert(num * 2 <= other_num * 2);
                }
            }
        }
    }
    lemma_patterns_are_monotone(place, num, den, other_place, other_num, other_den);
}

proof fn lemma_quotient_bounds(dividend: int, divisor: int)
    requires
        is_normal(dividend),
        is_normal(divisor),
    ensures
        ({
            let scaled = significand(dividend) * pow2(shift_of(dividend, divisor) as nat);
            0x80_0000 * significand(divisor) <= scaled <= 0x100_0000 * significand(divisor)
        }),
{
    let above = significand(dividend);
    let below = significand(divisor);
    vstd::arithmetic::power2::lemma2_to64();
    if above >= below {
        assert(0x80_0000 * below <= above * 0x80_0000 <= 0x100_0000 * below) by (nonlinear_arith)
            requires
                below <= above < 0x100_0000,
                0x80_0000 <= below,
        ;
    } else {
        assert(0x80_0000 * below <= above * 0x100_0000 <= 0x100_0000 * below) by (nonlinear_arith)
            requires
                0x80_0000 <= above < below,
                below < 0x100_0000,
        ;
    }
}

/// A quotient by a greater divisor is not greater.
pub proof fn lemma_quotient_is_antitone(dividend: int, divisor: int, greater: int)
    requires
        is_normal(dividend),
        is_normal(divisor),
        is_normal(greater),
        divisor <= greater,
        quotient(dividend, divisor) is Some,
        quotient(dividend, greater) is Some,
    ensures
        quotient(dividend, divisor)->0 >= quotient(dividend, greater)->0,
{
    let a = significand(dividend);
    let b = significand(divisor);
    let c = significand(greater);
    let p = pow2(shift_of(dividend, divisor) as nat);
    let q = pow2(shift_of(dividend, greater) as nat);
    let e = quotient_exponent(dividend, divisor);
    let f = quotient_exponent(dividend, greater);
    vstd::arithmetic::power2::lemma2_to64();
    lemma_quotient_bounds(dividend, divisor);
    lemma_quotient_bounds(dividend, greater);
    assert(e >= f);
    if f < -149 {
        let places = (-149 - f) as nat;
        let wide = c * pow2(places);
        lemma_pow2_at_least(1, places);
        assert(wide > 0 && a * q <= 0x80_0000 * wide) by (nonlinear_arith)
            requires
                a * q <= 0x100_0000 * c,
                c > 0,
                wide == c * pow2(places),
                pow2(places) >= 2,
        ;
        assert(0 <= a * q) by (nonlinear_arith)
            requires
                a >= 0,
                q >= 0,
        ;
        lemma_nearest_between(a * q, wide, 0, 0x80_0000);
    } else {
        if e == f {
            assert((a * q) * b <= (a * p) * c) by {
                if p == q {
                    assert((a * q) * b <= (a * p) * c) by (nonlinear_arith)
                        requires
                            p == q,
                            b <= c,
                            a > 0,
                            q > 0,
                    ;
                } else {
                    assert(p == 2 * q);
                    assert((a * q) * b <= (a * p) * c) by (nonlinear_arith)
                        requires
                            p == 2 * q,
                            b <= 2 * c,
                            a > 0,
                            q > 0,
                    ;
                }
            }
        }
        lemma_patterns_are_monotone(f + 149, a * q, c, e + 149, a * p, b);
    }
}

/// The number that a normal pattern stands for, in units of the least
/// single-precision number.
pub open spec fn value(bits: int) -> int {
    significand(bits) * pow2((unit_exponent(bits) + 149) as nat)
}

/// Whether two numbers differ by no more than a part in `2^23` of the second.
pub open spec fn close(approximate: int, exact: int) -> bool {
    -exact <= 0x80_0000 * (approximate - exact) <= exact
}

proof fn lemma_value_of_pattern(place: int, rounded: int)
    requires
        0 <= place,
        0x80_0000 <= rounded <= 0x100_0000,
    ensures
        value(place * 0x80_0000 + rounded) == rounded * pow2(place as nat),
{
    let bits = place * 0x80_0000 + rounded;
    if rounded < 0x100_0000 {
        assert(bits / 0x80_0000 == place + 1);
        assert(significand(bits) == rounded);
    } else {
        assert(bits / 0x80_0000 == place + 2);
        assert(significand(bits) == 0x80_0000);
        vstd::arithmetic::power2::lemma_pow2_unfold((place + 1) as nat);
        let power = pow2(place as nat);
        assert(0x80_0000 * (2 * power) == 0x100_0000 * power);
    }
}

proof fn lemma_power_sum(a: nat, b: nat)
    ensures
        pow2(a) * pow2(b) == pow2(a + b),
        pow2(a) > 0,
        pow2(b) > 0,
{
    vstd::arithmetic::power2::lemma_pow2_adds(a, b);
    vstd::arithmetic::power2::lemma_pow2_pos(a);
    vstd::arithmetic::power2::lemma_pow2_pos(b);
}

/// Rounding a quotient of at least 23 bits changes it little.
proof fn lemma_rounding_is_close(num: int, den: int)
    requires
        den > 0,
        0x80_0000 * den - den <= num,
    ensures
        close(nearest(num, den) * den, num),
{
    lemma_nearest_is_nearest(num, den);
}

/// A common factor changes nothing about closeness.
pub proof fn lemma_close_scaled(approximate: int, exact: int, factor: int)
    requires
        factor > 0,
    ensures
        close(approximate * factor, exact * factor) <==> close(approximate, exact),
{
    let difference = 0x80_0000 * (approximate - exact);
    assert(0x80_0000 * (approximate * factor - exact * factor) == difference * factor)
        by (nonlinear_arith)
        requires
            difference == 0x80_0000 * (approximate - exact),
    ;
    assert(difference * factor <= exact * factor <==> difference <= exact) by (nonlinear_arith)
        requires
            factor > 0,
    ;
    assert(-(exact * factor) <= difference * factor <==> -exact <= difference)
        by (nonlinear_arith)
        requires
            factor > 0,
    ;
}

/// One more than a number is close to the exact sum.
pub proof fn lemma_sum_is_close(bits: int)
    requires
        is_normal(bits),
    ensures
        close(value(one_more(bits)), value(ONE as int) + value(bits)),
{
    let exponent = bits / 0x80_0000 - 127;
    let own = significand(bits);
    let (place, num, den) = sum_parts(bits);
    let rounded = nearest(num, den);
    let unit = pow2(place as nat);
    let exact = value(ONE as int) + value(bits);
    lemma_sum_parts(bits);
    lemma_nearest_between(num, den, 0x80_0000, 0x100_0000);
    lemma_value_of_pattern(place, rounded);
    lemma_rounding_is_close(num, den);
    vstd::arithmetic::power2::lemma2_to64();
    assert(value(ONE as int) == pow2(149)) by {
        assert(unit_exponent(ONE as int) + 149 == 126);
        lemma_power_sum(23, 126);
    }
    let power = pow2((exponent + 126) as nat);
    assert(value(bits) == own * power);
    assert(exact * den == num * unit) by {
        if exponent < 0 {
            lemma_power_sum((exponent + 126) as nat, (-exponent) as nat);
            lemma_power_sum(23, 126);
            let one = value(ONE as int);
            assert((one + own * power) * den == (0x80_0000 * den + own) * unit)
                by (nonlinear_arith)
                requires
                    one == 0x80_0000 * unit,
                    power * den == unit,
            ;
        } else if exponent > 23 {
            lemma_power_sum(149, (exponent - 23) as nat);
            let one = value(ONE as int);
            assert((one + own * power) * den == (own * den + 1) * unit) by (nonlinear_arith)
                requires
                    one * den == unit,
                    power == unit,
            ;
        } else {
            lemma_power_sum((23 - exponent) as nat, (exponent + 126) as nat);
            let one = value(ONE as int);
            let part = pow2((23 - exponent) as nat);
            let sum = own + part;
            assert(sum * power == own * power + one) by (nonlinear_arith)
                requires
                    sum == own + part,
                    part * power == one,
            ;
            if sum >= 0x100_0000 {
                vstd::arithmetic::power2::lemma_pow2_unfold((exponent + 127) as nat);
                assert(sum * (2 * power) == 2 * (sum * power)) by (nonlinear_arith);
            }
        }
    }
    lemma_power_sum(place as nat, 0);
    lemma_close_scaled(rounded * den, num, unit as int);
    assert((rounded * den) * unit == (rounded * unit) * den) by (nonlinear_arith);
    lemma_close_scaled(rounded * unit, exact, den);
}

/// A quotient times its divisor is close to the dividend.
pub proof fn lemma_quotient_is_close(dividend: int, divisor: int)
    requires
        is_normal(dividend),
        is_normal(divisor),
        quotient(dividend, divisor) is Some,
    ensures
        close(
            value(quotient(dividend, divisor)->0 as int) * value(divisor),
            value(dividend) * value(ONE as int),
        ),
{
    let above = significand(dividend);
    let below = significand(divisor);
    let shift = shift_of(dividend, divisor);
    let scaled = above * pow2(shift as nat);
    let exponent = quotient_exponent(dividend, divisor);
    let high = unit_exponent(dividend) + 149;
    let low = unit_exponent(divisor) + 149;
    let one = value(ONE as int);
    // Both products have this factor.
    let common = pow2((high - shift + 149) as nat);
    vstd::arithmetic::power2::lemma2_to64();
    lemma_quotient_bounds(dividend, divisor);
    assert(one == pow2(149)) by {
        assert(unit_exponent(ONE as int) + 149 == 126);
        lemma_power_sum(23, 126);
    }
    lemma_power_sum(high as nat, 149);
    lemma_power_sum(shift as nat, (high - shift + 149) as nat);
    assert(value(dividend) * one == scaled * common) by (nonlinear_arith)
        requires
            value(dividend) == above * pow2(high as nat),
            scaled == above * pow2(shift as nat),
            pow2(high as nat) * one == pow2((high + 149) as nat),
            pow2(shift as nat) * common == pow2((high + 149) as nat),
    ;
    if exponent >= -149 {
        let rounded = nearest(scaled, below);
        let unit = pow2((exponent + 149) as nat);
        lemma_nearest_between(scaled, below, 0x80_0000, 0x100_0000);
        lemma_value_of_pattern(exponent + 149, rounded);
        lemma_rounding_is_close(scaled, below);
        lemma_power_sum((exponent + 149) as nat, low as nat);
        assert((rounded * unit) * (below * pow2(low as nat)) == (rounded * below) * common)
            by (nonlinear_arith)
            requires
                unit * pow2(low as nat) == common,
        ;
        lemma_close_scaled(rounded * below, scaled, common as int);
    } else {
        let places = (-149 - exponent) as nat;
        let wide = below * pow2(places);
        let rounded = nearest(scaled, wide);
        lemma_power_sum(places, (high - shift + 149) as nat);
        lemma_pow2_at_least(1, places);
        assert(wide > 0 && scaled <= 0x80_0000 * wide) by (nonlinear_arith)
            requires
                scaled <= 0x100_0000 * below,
                below > 0,
                wide == below * pow2(places),
                pow2(places) >= 2,
        ;
        assert(0 <= scaled) by (nonlinear_arith)
            requires
                0x80_0000 * below <= scaled,
                below > 0,
        ;
        lemma_nearest_between(scaled, wide, 0, 0x80_0000);
        assert(rounded == 0x80_0000);
        lemma_nearest_is_nearest(scaled, wide);
        lemma_rounding_is_close(scaled, wide);
        lemma_value_of_pattern(0, rounded);
        assert(rounded * (below * pow2(low as nat)) == (rounded * wide) * common)
            by (nonlinear_arith)
            requires
                wide == below * pow2(places),
                pow2(places) * common == pow2(low as nat),
        ;
        lemma_close_scaled(rounded * wide, scaled, common as int);
    }
}

/// A power and its inverse multiply to nearly one.
pub proof fn lemma_inverse_powers_are_close(half: int)
    requires
        half_power(half) is Some,
        half_power(-half) is Some,
    ensures
        close(
            value(half_power(half)->0 as int) * value(half_power(-half)->0 as int),
            value(ONE as int) * value(ONE as int),
        ),
{
    let power = half_power(half)->0 as int;
    let inverse = half_power(-half)->0 as int;
    let one = value(ONE as int);
    let p = (half / 2 + 126) as nat;
    let q = ((-half) / 2 + 126) as nat;
    vstd::arithmetic::power2::lemma2_to64();
    assert(one == pow2(149)) by {
        assert(unit_exponent(ONE as int) + 149 == 126);
        lemma_power_sum(23, 126);
    }
    lemma_power_sum(149, 149);
    lemma_power_sum(p, q);
    lemma_power_sum(23, 23);
    lemma_power_sum(23, 24);
    assert(unit_exponent(power) + 149 == p && unit_exponent(inverse) + 149 == q);
    if half % 2 == 0 {
        assert(significand(power) == 0x80_0000 && significand(inverse) == 0x80_0000);
        assert(p + q == 252);
        lemma_power_sum(46, 252);
        assert((0x80_0000 * pow2(p)) * (0x80_0000 * pow2(q)) == 0x4000_0000_0000 * pow2(252))
            by (nonlinear_arith)
            requires
                pow2(p) * pow2(q) == pow2(252),
        ;
        assert(value(power) * value(inverse) == one * one);
    } else {
        let s = 0x80_0000 + ROOT_TWO_FRACTION;
        assert(significand(power) == s && significand(inverse) == s);
        assert(p + q == 251);
        lemma_power_sum(47, 251);
        let common = pow2(251);
        assert((s * pow2(p)) * (s * pow2(q)) == (s * s) * common) by (nonlinear_arith)
            requires
                pow2(p) * pow2(q) == common,
        ;
        assert(s * s == 140737483538089) by (nonlinear_arith)
            requires
                s == 11863283,
        ;
        lemma_close_scaled(s * s, 0x8000_0000_0000, common as int);
        assert(one * one == 0x8000_0000_0000 * common);
    }
}

/// One more than a number is at least one, and normal.
pub proof fn lemma_one_more_range(bits: int)
    requires
        is_normal(bits),
    ensures
        ONE <= one_more(bits),
        is_normal(one_more(bits)),
{
    let (place, num, den) = sum_parts(bits);
    lemma_sum_parts(bits);
    lemma_nearest_between(num, den, 0x80_0000, 0x100_0000);
    let exponent = bits / 0x80_0000 - 127;
    vstd::arithmetic::power2::lemma2_to64();
    if exponent > 23 {
        let own = significand(bits);
        lemma_pow2_at_least(1, (exponent - 23) as nat);
        if exponent > 24 {
            lemma_pow2_at_least(2, (exponent - 23) as nat);
            lemma_nearest_of_small_rest(own, 1, den);
        }
    }
}

} // verus!
