//! Numbers of a document. A real number is kept as the bits of its
//! single-precision value.

use vstd::arithmetic::{div_mod, power2};
use vstd::prelude::*;

verus! {

/// A number as a document writes it: an integer, or the bits of a
/// single-precision real.
#[derive(Clone, Copy, Debug, PartialEq, Eq, Structural)]
pub enum Number {
    Int(i64),
    Real(u32),
}

/// The sign bit of a real.
pub open spec fn negative_bits(b: u32) -> bool {
    b >= 0x8000_0000
}

/// The exponent bits of a real.
pub open spec fn exponent_bits(b: u32) -> nat {
    ((b / 0x80_0000) % 256) as nat
}

/// The fraction bits of a real.
pub open spec fn fraction_bits(b: u32) -> nat {
    (b % 0x80_0000) as nat
}

/// A real that is neither infinite nor not-a-number.
pub open spec fn is_finite_bits(b: u32) -> bool {
    exponent_bits(b) != 255
}

/// Whether a real is neither infinite nor not-a-number.
pub fn finite(b: u32) -> (r: bool)
    ensures
        r == is_finite_bits(b),
{
    (b / 0x80_0000) % 256 != 255
}

/// A number that orders finite reals by value; both zeros are 0.
pub open spec fn real_key(b: u32) -> int {
    if negative_bits(b) {
        0x8000_0000 - b
    } else {
        b as int
    }
}

/// Whether one finite real is less than another.
pub fn real_less(a: u32, b: u32) -> (r: bool)
    ensures
        r == (real_key(a) < real_key(b)),
{
    let ka: i64 = if a >= 0x8000_0000 {
        0x8000_0000i64 - a as i64
    } else {
        a as i64
    };
    let kb: i64 = if b >= 0x8000_0000 {
        0x8000_0000i64 - b as i64
    } else {
        b as i64
    };
    ka < kb
}

/// The smaller of two finite reals.
pub open spec fn real_min(a: u32, b: u32) -> u32 {
    if real_key(b) < real_key(a) {
        b
    } else {
        a
    }
}

/// The larger of two finite reals.
pub open spec fn real_max(a: u32, b: u32) -> u32 {
    if real_key(a) < real_key(b) {
        b
    } else {
        a
    }
}

/// The smaller of two finite reals.
pub fn least(a: u32, b: u32) -> (r: u32)
    ensures
        r == real_min(a, b),
{
    if real_less(b, a) {
        b
    } else {
        a
    }
}

/// The larger of two finite reals.
pub fn greatest(a: u32, b: u32) -> (r: u32)
    ensures
        r == real_max(a, b),
{
    if real_less(a, b) {
        b
    } else {
        a
    }
}

/// Whether a number is zero.
pub open spec fn is_zero(n: Number) -> bool {
    n == Number::Int(0) || n == Number::Real(0) || n == Number::Real(0x8000_0000)
}

/// A number cut off towards zero and clamped to the range of `u32`; 0 for what
/// is not a number.
pub open spec fn truncated(n: Number) -> u32 {
    match n {
        Number::Int(i) => if i < 0 {
            0
        } else if i > u32::MAX {
            u32::MAX
        } else {
            i as u32
        },
        Number::Real(b) => {
            let e = exponent_bits(b);
            let m = fraction_bits(b) + 0x80_0000;
            if negative_bits(b) || e < 127 || (e == 255 && fraction_bits(b) != 0) {
                0
            } else if e >= 159 {
                u32::MAX
            } else if e <= 150 {
                (m / power2::pow2((150 - e) as nat)) as u32
            } else {
                (m * power2::pow2((e - 150) as nat)) as u32
            }
        },
    }
}

/// 2 to the `n`.
fn power_of_two(n: u32) -> (r: u128)
    requires
        n <= 64,
    ensures
        r == power2::pow2(n as nat),
        r >= 1,
        r <= 0x1_0000_0000_0000_0000,
{
    proof {
        power2::lemma2_to64();
    }
    let mut p: u128 = 1;
    let mut k: u32 = 0;
    while k < n
        invariant
            k <= n <= 64,
            p == power2::pow2(k as nat),
            1 <= p,
        decreases n - k,
    {
        proof {
            power2::lemma_pow2_unfold((k + 1) as nat);
            power2::lemma_pow2_strictly_increases(k as nat, 64);
            power2::lemma2_to64();
        }
        p = p * 2;
        k += 1;
    }
    proof {
        if n < 64 {
            power2::lemma_pow2_strictly_increases(n as nat, 64);
        }
    }
    p
}

impl Number {
    /// Whether the number is zero.
    pub fn zero(&self) -> (r: bool)
        ensures
            r == is_zero(*self),
    {
        match *self {
            Number::Int(i) => i == 0,
            Number::Real(b) => b == 0 || b == 0x8000_0000,
        }
    }

    /// The number cut off towards zero and clamped to the range of `u32`.
    pub fn to_u32(&self) -> (r: u32)
        ensures
            r == truncated(*self),
    {
        match *self {
            Number::Int(i) => {
                if i < 0 {
                    0
                } else if i > 0xFFFF_FFFF {
                    0xFFFF_FFFF
                } else {
                    i as u32
                }
            },
            Number::Real(b) => {
                let e: u32 = (b / 0x80_0000) % 256;
                let f: u32 = b % 0x80_0000;
                if b >= 0x8000_0000 || e < 127 || (e == 255 && f != 0) {
                    return 0;
                }
                if e >= 159 {
                    return 0xFFFF_FFFF;
                }
                let m: u128 = f as u128 + 0x80_0000;
                if e <= 150 {
                    let p: u128 = power_of_two(150 - e);
                    proof {
                        div_mod::lemma_div_is_ordered_by_denominator(
                            m as int,
                            1,
                            p as int,
                        );
                    }
                    (m / p) as u32
                } else {
                    let p: u128 = power_of_two(e - 150);
                    proof {
                        power2::lemma2_to64();
                        if e < 158 {
                            power2::lemma_pow2_strictly_increases(
                                (e - 150) as nat,
                                8,
                            );
                        }
                        assert(m * p <= 0xFF_FFFF * 256) by (nonlinear_arith)
                            requires
                                0 <= m <= 0xFF_FFFF,
                                0 <= p <= 256,
                        ;
                    }
                    (m * p) as u32
                }
            },
        }
    }
}

/// The exponent of the highest power of two in `m`.
pub open spec fn lead(m: nat) -> nat
    decreases m,
{
    if m <= 1 {
        0
    } else {
        1 + lead(m / 2)
    }
}

/// `m` rounded to `bits` significant bits, ties to even.
pub open spec fn rounded(m: nat, bits: nat) -> nat {
    if lead(m) < bits {
        m
    } else {
        let u = power2::pow2((lead(m) + 1 - bits) as nat);
        let q = m / u;
        let r = m % u;
        if 2 * r > u || (2 * r == u && q % 2 == 1) {
            (q + 1) * u
        } else {
            q * u
        }
    }
}

/// The bits of the single-precision real with the value `m`, which has at most
/// 24 significant bits.
pub open spec fn packed(neg: bool, m: nat) -> int {
    if m == 0 {
        0
    } else {
        (if neg {
            0x8000_0000int
        } else {
            0int
        }) + (127 + lead(m)) * 0x80_0000 + (m * 0x80_0000) / power2::pow2(lead(m)) - 0x80_0000
    }
}

/// The magnitude of an integer.
pub open spec fn magnitude(i: i64) -> nat {
    if i < 0 {
        (-i) as nat
    } else {
        i as nat
    }
}

/// The bits of a number taken to double precision and then to single
/// precision.
pub open spec fn single_bits(n: Number) -> u32 {
    match n {
        Number::Real(b) => b,
        Number::Int(i) => packed(i < 0, rounded(rounded(magnitude(i), 53), 24)) as u32,
    }
}

/// `m` lies between its highest power of two and the next.
proof fn lemma_lead(m: nat)
    requires
        m > 0,
    ensures
        power2::pow2(lead(m)) <= m < 2 * power2::pow2(lead(m)),
    decreases m,
{
    power2::lemma2_to64();
    if m > 1 {
        lemma_lead(m / 2);
        power2::lemma_pow2_unfold(lead(m));
    }
}

/// A number below `2^k` leads with an exponent below `k`.
proof fn lemma_lead_bound(m: nat, k: nat)
    requires
        0 < m < power2::pow2(k),
    ensures
        lead(m) < k,
{
    lemma_lead(m);
    if lead(m) >= k {
        if lead(m) > k {
            power2::lemma_pow2_strictly_increases(k, lead(m));
        }
    }
}

/// The exponent of the highest power of two in `m`.
fn find_lead(m: u128) -> (r: u32)
    requires
        0 < m <= 0x8000_0000_0000_0000,
    ensures
        r == lead(m as nat),
        r <= 63,
{
    let mut x: u128 = m;
    let mut e: u32 = 0;
    proof {
        power2::lemma2_to64();
        assert(power2::pow2(64) > m);
        lemma_lead_bound(m as nat, 64);
    }
    while x > 1
        invariant
            0 < x,
            lead(m as nat) == e + lead(x as nat),
            lead(m as nat) <= 63,
        decreases x,
    {
        x = x / 2;
        e += 1;
    }
    e
}

/// Round to a number of significant bits, ties to even.
fn round_to(m: u128, bits: u32) -> (r: u128)
    requires
        m <= 0x8000_0000_0000_0000,
        1 <= bits <= 64,
    ensures
        r == rounded(m as nat, bits as nat),
        r <= 0x8000_0000_0000_0000,
{
    if m == 0 {
        return 0;
    }
    let e: u32 = find_lead(m);
    if e < bits {
        return m;
    }
    let u: u128 = power_of_two(e + 1 - bits);
    let q: u128 = m / u;
    let r: u128 = m % u;
    let ghost top = 0x8000_0000_0000_0000nat;
    proof {
        power2::lemma2_to64();
        // `u` divides `2^63`, so a number below `2^63` rounds to at most it.
        let k = (e + 1 - bits) as nat;
        power2::lemma_pow2_unfold(64);
        power2::lemma_pow2_adds(k, (63 - k) as nat);
        let c = power2::pow2((63 - k) as nat);
        assert(c * u == top) by {
            vstd::arithmetic::mul::lemma_mul_is_commutative(c as int, u as int);
        }
        div_mod::lemma_fundamental_div_mod(m as int, u as int);
        assert(q * u <= m) by (nonlinear_arith)
            requires
                m == u * q + r,
                r >= 0,
        ;
        assert(q < c || (q == c && r == 0)) by (nonlinear_arith)
            requires
                m == u * q + r,
                m <= top,
                c * u == top,
                u >= 1,
                0 <= r,
        ;
        assert(r > 0 ==> (q + 1) * u <= top) by (nonlinear_arith)
            requires
                q < c || (q == c && r == 0),
                c * u == top,
                u >= 1,
        ;
        assert(q * u <= top);
        assert(0 <= r < u);
    }
    if 2 * r > u || (2 * r == u && q % 2 == 1) {
        assert((q + 1) * u <= top);
        (q + 1) * u
    } else {
        q * u
    }
}

/// The bits of the single-precision real with the value `s`, which has at most 24
/// significant bits, or its negative.
fn pack(neg: bool, s: u128) -> (r: u32)
    requires
        s <= 0x8000_0000_0000_0000,
    ensures
        r == packed(neg, s as nat) as u32,
{
    if s == 0 {
        return 0;
    }
    let e: u32 = find_lead(s);
    let p: u128 = power_of_two(e);
    proof {
        lemma_lead(s as nat);
        assert(0x80_0000 <= (s * 0x80_0000) / p as int) by {
            div_mod::lemma_div_is_ordered(
                p * 0x80_0000,
                s * 0x80_0000,
                p as int,
            );
            div_mod::lemma_div_multiples_vanish(0x80_0000, p as int);
        }
        assert((s * 0x80_0000) / p as int <= 0x100_0000) by {
            div_mod::lemma_div_is_ordered(
                s * 0x80_0000,
                p * 0x100_0000,
                p as int,
            );
            div_mod::lemma_div_multiples_vanish(0x100_0000, p as int);
        }
    }
    let f: u128 = (s * 0x80_0000) / p;
    let mut r: u128 = (127 + e as u128) * 0x80_0000 + f - 0x80_0000;
    if neg {
        r = r + 0x8000_0000;
    }
    r as u32
}

/// The magnitude of an integer.
fn absolute(i: i64) -> (r: u128)
    ensures
        r == magnitude(i),
        r <= 0x8000_0000_0000_0000,
{
    if i < 0 {
        (-(i as i128)) as u128
    } else {
        i as u128
    }
}

/// The bits of a number taken to double precision and then to single precision.
pub fn to_single_bits(n: Number) -> (r: u32)
    ensures
        r == single_bits(n),
{
    match n {
        Number::Real(b) => b,
        Number::Int(i) => pack(i < 0, round_to(round_to(absolute(i), 53), 24)),
    }
}

/// The bits of a number taken to single precision at once.
pub open spec fn nearest_bits(n: Number) -> u32 {
    match n {
        Number::Real(b) => b,
        Number::Int(i) => packed(i < 0, rounded(magnitude(i), 24)) as u32,
    }
}

/// The bits of a number taken to single precision at once.
pub fn to_nearest_bits(n: Number) -> (r: u32)
    ensures
        r == nearest_bits(n),
{
    match n {
        Number::Real(b) => b,
        Number::Int(i) => pack(i < 0, round_to(absolute(i), 24)),
    }
}

/// The significant bits of a finite real.
pub open spec fn significand(b: u32) -> nat {
    if exponent_bits(b) == 0 {
        fraction_bits(b)
    } else {
        fraction_bits(b) + 0x80_0000
    }
}

/// How far the significant bits of a finite real are shifted, counted from the
/// smallest real.
pub open spec fn scale(b: u32) -> nat {
    if exponent_bits(b) == 0 {
        0
    } else {
        (exponent_bits(b) - 1) as nat
    }
}

/// The value of a finite real, in units of the smallest: `2^-149`.
pub open spec fn units(b: u32) -> int {
    let m = significand(b) * power2::pow2(scale(b));
    if negative_bits(b) {
        -m
    } else {
        m as int
    }
}

/// `a - b`, rounded to double precision, is at most 1. The difference rounds to 1
/// up to `1 + 2^-53`. An infinite difference counts by its sign, and one that is
/// not a number is not at most 1.
pub open spec fn at_most_one_above(a: u32, b: u32) -> bool {
    if is_finite_bits(a) && is_finite_bits(b) {
        units(a) - units(b) <= power2::pow2(149) + power2::pow2(96)
    } else if (!is_finite_bits(a) && fraction_bits(a) != 0) || (!is_finite_bits(b) && fraction_bits(
        b,
    ) != 0) {
        false
    } else if is_finite_bits(a) {
        !negative_bits(b)
    } else {
        negative_bits(a) && (is_finite_bits(b) || !negative_bits(b))
    }
}

/// 2 to the `n`, for larger `n`.
fn large_power(n: u32) -> (r: i128)
    requires
        n <= 103,
    ensures
        r == power2::pow2(n as nat),
        1 <= r,
{
    let mut p: i128 = 1;
    let mut k: u32 = 0;
    proof {
        power2::lemma2_to64();
    }
    while k < n
        invariant
            k <= n <= 103,
            p == power2::pow2(k as nat),
            1 <= p,
        decreases n - k,
    {
        proof {
            power2::lemma_pow2_unfold((k + 1) as nat);
            lemma_large_powers();
            power2::lemma_pow2_strictly_increases(k as nat, 103);
        }
        p = p * 2;
        k += 1;
    }
    p
}

/// Some powers of two.
proof fn lemma_large_powers()
    ensures
        power2::pow2(24) == 0x100_0000,
        power2::pow2(40) == 0x100_0000_0000,
        power2::pow2(60) == 0x1000_0000_0000_0000,
        power2::pow2(103) == 0x80_0000_0000_0000_0000_0000_0000,
        power2::pow2(100) == 0x10_0000_0000_0000_0000_0000_0000,
{
    power2::lemma2_to64();
    power2::lemma_pow2_adds(32, 4);
    power2::lemma_pow2_adds(32, 7);
    power2::lemma_pow2_adds(32, 8);
    power2::lemma_pow2_adds(32, 28);
    power2::lemma_pow2_adds(64, 39);
    power2::lemma_pow2_adds(64, 36);
}

/// The value of a real in units of `2^-60`, rounded up or down: the significant
/// bits times or over a power of two.
fn coarse(b: u32, up: bool) -> (r: i128)
    requires
        scale(b) <= 189,
    ensures
        -0x10_0000_0000_0000_0000_0000_0000 * 0x100_0000 <= r
            <= 0x10_0000_0000_0000_0000_0000_0000 * 0x100_0000,
        scale(b) >= 89 ==> units(b) == power2::pow2(89) * r,
        scale(b) < 89 ==> -0x100_0000 <= r <= 0x100_0000,
        up ==> power2::pow2(89) * (r - 1) < units(b) <= power2::pow2(89) * r,
        !up ==> power2::pow2(89) * r <= units(b) < power2::pow2(89) * (r + 1),
{
    let e: u32 = (b / 0x80_0000) % 256;
    let f: u32 = b % 0x80_0000;
    let m: i128 = if e == 0 {
        f as i128
    } else {
        f as i128 + 0x80_0000
    };
    let s: u32 = if e == 0 {
        0
    } else {
        e - 1
    };
    assert(m == significand(b) && s == scale(b) && m < 0x100_0000);
    let ghost big = power2::pow2(89) as int;
    proof {
        lemma_large_powers();
        power2::lemma_pow2_pos(89);
    }
    if s >= 89 {
        let p: i128 = large_power(s - 89);
        proof {
            power2::lemma_pow2_adds(89, (s - 89) as nat);
            if s < 189 {
                power2::lemma_pow2_strictly_increases((s - 89) as nat, 100);
            }
            assert(0 <= m * p <= 0x100_0000 * 0x10_0000_0000_0000_0000_0000_0000) by (nonlinear_arith)
                requires
                    0 <= m < 0x100_0000,
                    1 <= p <= 0x10_0000_0000_0000_0000_0000_0000,
            ;
            assert(m * (big * p) == big * (m * p)) by (nonlinear_arith);
            assert(big * (-(m * p)) == -(big * (m * p))) by (nonlinear_arith);
            assert forall|x: int| #[trigger] (big * (x - 1)) < big * x && big * x < big * (x + 1) by {
                assert(big * (x - 1) < big * x && big * x < big * (x + 1)) by (nonlinear_arith)
                    requires
                        big > 0,
                ;
            }
        }
        let q: i128 = m * p;
        let r: i128 = if b >= 0x8000_0000 {
            -q
        } else {
            q
        };
        proof {
            assert(big * (r - 1) < big * r && big * r < big * (r + 1)) by (nonlinear_arith)
                requires
                    big > 0,
            ;
        }
        r
    } else {
        let p: i128 = large_power(89 - s);
        let neg: bool = b >= 0x8000_0000;
        // The quotient below or above the significant bits.
        let above: bool = up != neg;
        proof {
            power2::lemma_pow2_adds(s as nat, (89 - s) as nat);
            power2::lemma_pow2_pos(s as nat);
            if 89 - s < 100 {
                power2::lemma_pow2_strictly_increases((89 - s) as nat, 100);
            }
        }
        let ghost u = power2::pow2(s as nat) as int;
        let q: i128 = if above {
            (m + (p - 1)) / p
        } else {
            m / p
        };
        proof {
            let n = if above {
                m + (p - 1)
            } else {
                m as int
            };
            div_mod::lemma_fundamental_div_mod(n, p as int);
            let w = n % (p as int);
            assert(0 <= w < p);
            assert(n == p * q + w);
            assert(0 <= q <= 0x100_0000) by (nonlinear_arith)
                requires
                    n == p * q + w,
                    0 <= w < p,
                    0 <= n < 0x100_0000 + p,
                    p >= 1,
            ;
            assert(big == u * p);
            if above {
                assert(p * (q - 1) < m && m <= p * q) by (nonlinear_arith)
                    requires
                        m + (p - 1) == p * q + w,
                        0 <= w < p,
                ;
                assert(u * (p * (q - 1)) < u * m && u * m <= u * (p * q)) by (nonlinear_arith)
                    requires
                        p * (q - 1) < m,
                        m <= p * q,
                        u > 0,
                ;
            } else {
                assert(p * q <= m && m < p * (q + 1)) by (nonlinear_arith)
                    requires
                        m == p * q + w,
                        0 <= w < p,
                ;
                assert(u * (p * q) <= u * m && u * m < u * (p * (q + 1))) by (nonlinear_arith)
                    requires
                        p * q <= m,
                        m < p * (q + 1),
                        u > 0,
                ;
            }
            assert(u * (p * (q - 1)) == (u * p) * (q - 1)) by (nonlinear_arith);
            assert(u * (p * q) == (u * p) * q) by (nonlinear_arith);
            assert(u * (p * (q + 1)) == (u * p) * (q + 1)) by (nonlinear_arith);
            assert(m * u == u * m) by (nonlinear_arith);
            assert(big * (-q - 1) == -(big * (q + 1))) by (nonlinear_arith);
            assert(big * (-q) == -(big * q)) by (nonlinear_arith);
            assert(big * (-q + 1) == -(big * (q - 1))) by (nonlinear_arith);
        }
        if neg {
            -q
        } else {
            q
        }
    }
}

/// The value of a large real in units of 2.
fn coarsest(b: u32) -> (r: i128)
    requires
        150 <= scale(b) <= 253,
    ensures
        units(b) == power2::pow2(150) * r,
        -0x80_0000_0000_0000_0000_0000_0000 * 0xFF_FFFF <= r
            <= 0x80_0000_0000_0000_0000_0000_0000 * 0xFF_FFFF,
{
    let e: u32 = (b / 0x80_0000) % 256;
    let m: i128 = (b % 0x80_0000) as i128 + 0x80_0000;
    let p: i128 = large_power(e - 151);
    let ghost big = power2::pow2(150) as int;
    proof {
        lemma_large_powers();
        power2::lemma_pow2_adds(150, (e - 151) as nat);
        if e - 151 < 103 {
            power2::lemma_pow2_strictly_increases((e - 151) as nat, 103);
        }
        assert(0 <= m * p <= 0xFF_FFFF * 0x80_0000_0000_0000_0000_0000_0000) by (nonlinear_arith)
            requires
                0 <= m <= 0xFF_FFFF,
                1 <= p <= 0x80_0000_0000_0000_0000_0000_0000,
        ;
        assert(m * (big * p) == big * (m * p)) by (nonlinear_arith);
        assert(big * (-(m * p)) == -(big * (m * p))) by (nonlinear_arith);
    }
    if b >= 0x8000_0000 {
        -(m * p)
    } else {
        m * p
    }
}

/// A real with a scale of at least 190 outweighs one with a scale below 150.
proof fn lemma_outweighs(a: u32, b: u32)
    requires
        scale(a) >= 190,
        scale(b) < 150,
    ensures
        negative_bits(a) ==> units(a) < units(b) - power2::pow2(150) && units(a) - units(b) < 0,
        !negative_bits(a) ==> units(a) > units(b) + power2::pow2(150),
        power2::pow2(149) + power2::pow2(96) < power2::pow2(150),
{
    let u = power2::pow2(150) as int;
    power2::lemma_pow2_pos(150);
    power2::lemma_pow2_unfold(150);
    power2::lemma_pow2_strictly_increases(96, 149);
    lemma_large_powers();
    power2::lemma_pow2_pos(scale(b));
    power2::lemma_pow2_strictly_increases(scale(b), 150);
    power2::lemma_pow2_adds(150, (scale(a) - 150) as nat);
    if scale(a) > 190 {
        power2::lemma_pow2_strictly_increases(40, (scale(a) - 150) as nat);
    }
    let k = power2::pow2((scale(a) - 150) as nat) as int;
    let ma = significand(a) as int;
    let mb = significand(b) as int;
    let pb = power2::pow2(scale(b)) as int;
    assert(k >= 0x100_0000_0000);
    assert(ma >= 0x80_0000);
    assert(0 <= mb < 0x100_0000);
    assert(u * k >= 0x100_0000_0000 * u) by (nonlinear_arith)
        requires
            k >= 0x100_0000_0000,
            u > 0,
    ;
    assert(ma * (u * k) >= u * k) by (nonlinear_arith)
        requires
            ma >= 1,
            u * k > 0,
    ;
    assert(0 <= mb * pb <= 0x100_0000 * u) by (nonlinear_arith)
        requires
            0 <= mb < 0x100_0000,
            0 < pb <= u,
    ;
    assert(power2::pow2(scale(a)) == u * k);
    assert(significand(a) * power2::pow2(scale(a)) == ma * (u * k));
    assert(significand(b) * power2::pow2(scale(b)) == mb * pb);
    assert(units(a) == if negative_bits(a) {
        -(ma * (u * k))
    } else {
        ma * (u * k)
    });
    assert(-(0x100_0000 * u) <= units(b) <= 0x100_0000 * u);
}

/// Whether `a - b`, rounded to double precision, is at most 1.
pub fn barely_above(a: u32, b: u32) -> (r: bool)
    ensures
        r == at_most_one_above(a, b),
{
    let ea: u32 = (a / 0x80_0000) % 256;
    let eb: u32 = (b / 0x80_0000) % 256;
    if ea == 255 || eb == 255 {
        if (ea == 255 && a % 0x80_0000 != 0) || (eb == 255 && b % 0x80_0000 != 0) {
            return false;
        }
        if ea != 255 {
            return b < 0x8000_0000;
        }
        return a >= 0x8000_0000 && (eb != 255 || b < 0x8000_0000);
    }
    proof {
        power2::lemma_pow2_unfold(150);
        power2::lemma_pow2_strictly_increases(96, 149);
        power2::lemma_pow2_pos(150);
    }
    if ea >= 151 && eb >= 151 {
        let x: i128 = coarsest(a);
        let y: i128 = coarsest(b);
        proof {
            let u = power2::pow2(150) as int;
            let d = x - y;
            assert(u * x - u * y == u * d) by (nonlinear_arith)
                requires
                    d == x - y,
            ;
            if d <= 0 {
                assert(u * d <= 0) by (nonlinear_arith)
                    requires
                        d <= 0,
                        u > 0,
                ;
            } else {
                assert(u * d >= u) by (nonlinear_arith)
                    requires
                        d >= 1,
                        u > 0,
                ;
            }
        }
        x <= y
    } else if ea >= 191 {
        proof {
            lemma_outweighs(a, b);
        }
        a >= 0x8000_0000
    } else if eb >= 191 {
        proof {
            lemma_outweighs(b, a);
        }
        b < 0x8000_0000
    } else {
        let x: i128 = coarse(a, true);
        let y: i128 = coarse(b, false);
        proof {
            lemma_large_powers();
            power2::lemma_pow2_pos(89);
            power2::lemma_pow2_adds(89, 60);
            power2::lemma_pow2_adds(89, 7);
            power2::lemma2_to64();
            let big = power2::pow2(89) as int;
            let t: int = 0x1000_0000_0000_0080int;
            assert(power2::pow2(149) + power2::pow2(96) == big * t) by (nonlinear_arith)
                requires
                    power2::pow2(149) == big * 0x1000_0000_0000_0000,
                    power2::pow2(96) == big * 0x80,
                    t == 0x1000_0000_0000_0080int,
            ;
            let d = x - y;
            assert(big * x - big * y == big * d) by (nonlinear_arith)
                requires
                    d == x - y,
            ;
            if d <= t {
                assert(big * d <= big * t) by (nonlinear_arith)
                    requires
                        d <= t,
                        big > 0,
                ;
            } else {
                assert(big * (d - 1) >= big * t) by (nonlinear_arith)
                    requires
                        d - 1 >= t,
                        big > 0,
                ;
                assert(big * (x - 1) - big * y == big * (d - 1)) by (nonlinear_arith)
                    requires
                        d == x - y,
                ;
                assert(big * x - big * (y + 1) == big * (d - 1)) by (nonlinear_arith)
                    requires
                        d == x - y,
                ;
                if scale(a) < 89 && scale(b) < 89 {
                    assert(d <= 0x200_0000);
                }
            }
        }
        x - y <= 0x1000_0000_0000_0000 + 0x80
    }
}

/// 750 and -250 lie apart.
pub proof fn lemma_typical_height()
    ensures
        nearest_bits(Number::Int(750)) == 0x443B_8000,
        nearest_bits(Number::Int((-250) as i64)) == 0xC37A_0000,
        !at_most_one_above(0x443B_8000, 0xC37A_0000),
{
    power2::lemma2_to64();
    assert(lead(750) == 9) by {
        reveal_with_fuel(lead, 11);
    }
    assert(lead(250) == 7) by {
        reveal_with_fuel(lead, 9);
    }
    // 750 is `0xBB_8000 * 2^-14`, and -250 is `-0xFA_0000 * 2^-16`.
    assert(significand(0x443B_8000) == 0xBB_8000 && scale(0x443B_8000) == 135);
    assert(significand(0xC37A_0000) == 0xFA_0000 && scale(0xC37A_0000) == 133);
    lemma_large_powers();
    power2::lemma_pow2_adds(133, 2);
    power2::lemma_pow2_adds(133, 16);
    power2::lemma_pow2_strictly_increases(96, 149);
    power2::lemma_pow2_pos(133);
    let u = power2::pow2(133) as int;
    assert(power2::pow2(135) == 4 * u);
    assert(power2::pow2(149) == 0x1_0000 * u);
    assert(units(0x443B_8000) == 0xBB_8000 * (4 * u));
    assert(units(0xC37A_0000) == -(0xFA_0000 * u));
}

} // verus!
