//! What the bits of a number are worth.

use crate::number::{self, Number};
use vstd::arithmetic::power2;
use vstd::prelude::*;

verus! {

/// What a leading one is worth.
proof fn lemma_lead(m: nat)
    requires
        m > 0,
    ensures
        power2::pow2(number::lead(m)) <= m < 2 * power2::pow2(number::lead(m)),
    decreases m,
{
    power2::lemma2_to64();
    if m > 1 {
        lemma_lead(m / 2);
        power2::lemma_pow2_unfold(number::lead(m));
    }
}

/// The bits of a magnitude below 2 to the 24 are worth it.
proof fn lemma_packed(neg: bool, m: nat)
    requires
        0 < m < 0x100_0000,
    ensures
        0 <= number::packed(neg, m) <= u32::MAX,
        number::units(number::packed(neg, m) as u32) == (if neg {
            -(m * power2::pow2(149))
        } else {
            (m * power2::pow2(149)) as int
        }),
{
    let k = number::lead(m);
    lemma_lead(m);
    power2::lemma2_to64();
    assert(power2::pow2(24) == 0x100_0000) by {
        power2::lemma_pow2_unfold(24);
        power2::lemma_pow2_unfold(23);
        power2::lemma_pow2_unfold(22);
        power2::lemma_pow2_unfold(21);
    }
    assert(power2::pow2(23) == 0x80_0000) by {
        power2::lemma_pow2_unfold(24);
    }
    if k >= 24 {
        if k > 24 {
            power2::lemma_pow2_strictly_increases(24, k);
        }
        assert(false);
    }
    let j = (23 - k) as nat;
    power2::lemma_pow2_adds(k, j);
    power2::lemma_pow2_pos(k);
    power2::lemma_pow2_pos(j);
    let s = m * power2::pow2(j);
    assert(m * 0x80_0000 == s * power2::pow2(k)) by (nonlinear_arith)
        requires
            s == m * power2::pow2(j),
            power2::pow2(k) * power2::pow2(j) == 0x80_0000,
    ;
    vstd::arithmetic::div_mod::lemma_div_by_multiple(s as int, power2::pow2(k) as int);
    assert((m * 0x80_0000) / power2::pow2(k) == s);
    assert(0x80_0000 <= s < 0x100_0000) by (nonlinear_arith)
        requires
            s == m * power2::pow2(j),
            power2::pow2(k) <= m < 2 * power2::pow2(k),
            power2::pow2(k) * power2::pow2(j) == 0x80_0000,
            power2::pow2(j) > 0,
    ;
    let b = number::packed(neg, m);
    let low = (127 + k) * 0x80_0000 + (s - 0x80_0000);
    assert(0 <= low < 0x8000_0000) by (nonlinear_arith)
        requires
            0 <= k <= 23,
            0x80_0000 <= s < 0x100_0000,
            low == (127 + k) * 0x80_0000 + (s - 0x80_0000),
    ;
    assert(b == (if neg {
        0x8000_0000int
    } else {
        0int
    }) + low);
    let w = b as u32;
    assert(number::negative_bits(w) == neg);
    assert(low / 0x80_0000 == 127 + k && low % 0x80_0000 == s - 0x80_0000) by (nonlinear_arith)
        requires
            low == (127 + k) * 0x80_0000 + (s - 0x80_0000),
            0x80_0000 <= s < 0x100_0000,
            0 <= k <= 23,
    ;
    if neg {
        assert(w as int / 0x80_0000 == 256 + 127 + k && w as int % 0x80_0000 == s - 0x80_0000)
            by (nonlinear_arith)
            requires
                w == 0x8000_0000 + low,
                low == (127 + k) * 0x80_0000 + (s - 0x80_0000),
                0x80_0000 <= s < 0x100_0000,
                0 <= k <= 23,
        ;
    }
    assert(number::exponent_bits(w) == 127 + k);
    assert(number::fraction_bits(w) == s - 0x80_0000);
    assert(number::significand(w) == s);
    assert(number::scale(w) == 126 + k);
    power2::lemma_pow2_adds(j, (126 + k) as nat);
    assert(s * power2::pow2((126 + k) as nat) == m * power2::pow2(149)) by (nonlinear_arith)
        requires
            s == m * power2::pow2(j),
            power2::pow2(j) * power2::pow2((126 + k) as nat) == power2::pow2(149),
    ;
}

/// Integers of up to 24 bits keep their value in single precision.
pub proof fn law_small_integers_keep_their_value(i: i64)
    requires
        -0x100_0000 < i < 0x100_0000,
    ensures
        number::units(number::single_bits(Number::Int(i))) == i * power2::pow2(149),
        number::units(number::nearest_bits(Number::Int(i))) == i * power2::pow2(149),
        number::is_finite_bits(number::single_bits(Number::Int(i))),
        number::is_finite_bits(number::nearest_bits(Number::Int(i))),
{
    let m = number::magnitude(i);
    power2::lemma2_to64();
    if m > 0 {
        lemma_lead(m);
        let k = number::lead(m);
        assert(power2::pow2(24) == 0x100_0000) by {
            power2::lemma_pow2_unfold(24);
            power2::lemma_pow2_unfold(23);
            power2::lemma_pow2_unfold(22);
            power2::lemma_pow2_unfold(21);
        }
        if k >= 24 {
            if k > 24 {
                power2::lemma_pow2_strictly_increases(24, k);
            }
            assert(false);
        }
        assert(number::rounded(m, 53) == m);
        assert(number::rounded(m, 24) == m);
        lemma_packed(i < 0, m);
        lemma_packed_finite(i < 0, m);
        let u = power2::pow2(149) as int;
        if i < 0 {
            assert(-(m * u) == i * u) by (nonlinear_arith)
                requires
                    m == -i,
            ;
        }
    } else {
        assert(number::rounded(0, 53) == 0) by {
            reveal_with_fuel(number::lead, 1);
        }
        assert(number::significand(0) == 0);
        assert(number::units(0) == 0) by {
            assert(0 * power2::pow2(number::scale(0)) == 0) by (nonlinear_arith);
        }
        let u = power2::pow2(149) as int;
        assert(i * u == 0) by (nonlinear_arith)
            requires
                i == 0,
        ;
    }
}

/// The bits of a small magnitude are finite.
proof fn lemma_packed_finite(neg: bool, m: nat)
    requires
        0 < m < 0x100_0000,
    ensures
        number::is_finite_bits(number::packed(neg, m) as u32),
{
    lemma_packed(neg, m);
    let w = number::packed(neg, m) as u32;
    if number::exponent_bits(w) == 255 {
        let u = power2::pow2(149) as int;
        let x = power2::pow2(254) as int;
        let t = number::significand(w) as int;
        power2::lemma_pow2_adds(149, 105);
        power2::lemma_pow2_adds(64, 41);
        power2::lemma_pow2_pos(149);
        power2::lemma_pow2_pos(41);
        power2::lemma2_to64();
        let h = power2::pow2(105) as int;
        assert(h >= 0x1_0000_0000_0000_0000) by (nonlinear_arith)
            requires
                h == power2::pow2(64) * power2::pow2(41),
                power2::pow2(64) == 0x1_0000_0000_0000_0000,
                power2::pow2(41) >= 1,
        ;
        assert(t >= 0x80_0000);
        assert(t * x > m * u) by (nonlinear_arith)
            requires
                x == u * h,
                u > 0,
                h >= 0x1_0000_0000_0000_0000,
                t >= 0x80_0000,
                m < 0x100_0000,
        ;
    }
}

/// The magnitude that bits without a sign are worth.
spec fn worth(b: u32) -> nat {
    number::significand(b) * power2::pow2(number::scale(b))
}

/// The next bits are worth more.
proof fn lemma_next_is_more(b: u32)
    requires
        b < 0x7FFF_FFFF,
    ensures
        worth(b) < worth((b + 1) as u32),
{
    let c = (b + 1) as u32;
    let e = number::exponent_bits(b);
    let f = number::fraction_bits(b);
    assert(b as int / 0x80_0000 < 256);
    assert(e == b as int / 0x80_0000 && f == b as int % 0x80_0000);
    power2::lemma_pow2_pos(number::scale(b));
    if f < 0x7F_FFFF {
        assert(c as int / 0x80_0000 == e && c as int % 0x80_0000 == f + 1) by (nonlinear_arith)
            requires
                c == b + 1,
                e == b as int / 0x80_0000,
                f == b as int % 0x80_0000,
                f < 0x7F_FFFF,
        ;
        assert(number::scale(c) == number::scale(b));
        let s = number::significand(b) as int;
        let u = power2::pow2(number::scale(b)) as int;
        assert((s + 1) * u > s * u) by (nonlinear_arith)
            requires
                u > 0,
        ;
    } else {
        assert(c as int / 0x80_0000 == e + 1 && c as int % 0x80_0000 == 0) by (nonlinear_arith)
            requires
                c == b + 1,
                e == b as int / 0x80_0000,
                f == b as int % 0x80_0000,
                f == 0x7F_FFFF,
        ;
        assert(e + 1 < 256);
        let s = number::significand(b) as int;
        let u = power2::pow2(number::scale(b)) as int;
        if e == 0 {
            assert(0x80_0000 * u > s * u) by (nonlinear_arith)
                requires
                    u > 0,
                    s < 0x80_0000,
            ;
        } else {
            power2::lemma_pow2_unfold(number::scale(c));
            let v = power2::pow2(number::scale(c)) as int;
            assert(0x80_0000 * v > s * u) by (nonlinear_arith)
                requires
                    u > 0,
                    v == 2 * u,
                    s < 0x100_0000,
            ;
        }
    }
}

/// More bits are worth more.
proof fn lemma_more_is_more(a: u32, b: u32)
    requires
        a < b < 0x8000_0000,
    ensures
        worth(a) < worth(b),
    decreases b - a,
{
    lemma_next_is_more((b - 1) as u32);
    if a < b - 1 {
        lemma_more_is_more(a, (b - 1) as u32);
    }
}

/// Bits with a sign are worth what those without it are, negated.
proof fn lemma_sign(b: u32)
    requires
        b >= 0x8000_0000,
    ensures
        number::units(b) == -(worth((b - 0x8000_0000) as u32) as int),
        number::units((b - 0x8000_0000) as u32) == worth((b - 0x8000_0000) as u32),
{
    let c = (b - 0x8000_0000) as u32;
    assert((b as int / 0x80_0000) % 256 == (c as int / 0x80_0000) % 256 && b as int % 0x80_0000
        == c as int % 0x80_0000) by (nonlinear_arith)
        requires
            b == c + 0x8000_0000,
    ;
    assert(number::exponent_bits(b) == number::exponent_bits(c));
    assert(number::fraction_bits(b) == number::fraction_bits(c));
}

/// Reals are ordered by what they are worth.
pub proof fn law_reals_are_ordered_by_value(a: u32, b: u32)
    ensures
        number::real_key(a) < number::real_key(b) <==> number::units(a) < number::units(b),
{
    let x = if a >= 0x8000_0000 {
        (a - 0x8000_0000) as u32
    } else {
        a
    };
    let y = if b >= 0x8000_0000 {
        (b - 0x8000_0000) as u32
    } else {
        b
    };
    if a >= 0x8000_0000 {
        lemma_sign(a);
    }
    if b >= 0x8000_0000 {
        lemma_sign(b);
    }
    assert(a < 0x8000_0000 ==> number::units(a) == worth(x));
    assert(b < 0x8000_0000 ==> number::units(b) == worth(y));
    assert(worth(0) == 0) by {
        assert(number::significand(0) == 0);
        assert(0 * power2::pow2(number::scale(0)) == 0) by (nonlinear_arith);
    }
    if x > 0 {
        lemma_more_is_more(0, x);
    }
    if y > 0 {
        lemma_more_is_more(0, y);
    }
    if x < y {
        lemma_more_is_more(x, y);
    }
    if y < x {
        lemma_more_is_more(y, x);
    }
}

/// Truncating an integer in range keeps it, and one out of range goes to the nearest
/// end.
pub proof fn law_integers_in_range_are_kept(i: i64)
    ensures
        0 <= i <= u32::MAX ==> number::truncated(Number::Int(i)) == i,
        i < 0 ==> number::truncated(Number::Int(i)) == 0,
        i > u32::MAX ==> number::truncated(Number::Int(i)) == u32::MAX,
{
}

/// Zero is zero, in every form, and nothing else is.
pub proof fn law_only_zero_is_zero(n: Number)
    ensures
        n matches Number::Int(i) ==> (number::is_zero(n) <==> i == 0),
        n matches Number::Real(b) ==> (number::is_zero(n) <==> number::units(b) == 0),
{
    if let Number::Real(b) = n {
        law_reals_are_ordered_by_value(0, b);
        law_reals_are_ordered_by_value(b, 0);
        assert(number::units(0) == 0) by {
            assert(number::significand(0) == 0);
            assert(0 * power2::pow2(number::scale(0)) == 0) by (nonlinear_arith);
        }
    }
}

} // verus!
