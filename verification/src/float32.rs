//! IEEE-754 single-precision values, carried as their bit patterns.
//!
//! Every finite single-precision value is a whole multiple of 2^-149. The
//! operations here compute on those multiples and round as IEEE-754 does: to 24
//! significant bits, to nearest, ties to even.
use vstd::arithmetic::power2::{lemma_pow2_adds, lemma_pow2_pos, lemma_pow2_unfold, pow2};
use vstd::prelude::*;

use crate::rounding::{power_of_two, round_parts};

verus! {

/// A single-precision value. `bits` is its IEEE-754 binary32 encoding.
#[derive(Debug, Clone, Copy, PartialEq, Eq, Structural)]
pub struct Float32 {
    pub bits: u32,
}

/// Encoding of positive infinity. Smaller encodings are finite and not negative.
pub const INFINITY_BITS: u32 = 0x7F80_0000;

/// Encoding of 1.0.
pub const ONE_BITS: u32 = 0x3F80_0000;

/// Encoding of -0.0. Larger encodings are negative, or not a number.
pub const NEG_ZERO_BITS: u32 = 0x8000_0000;

/// Encoding of the not-a-number value that operations return.
pub const NAN_BITS: u32 = 0x7FC0_0000;

/// `x` is `n / d` units rounded to single precision, infinity on overflow.
pub open spec fn rounds_to(x: Float32, n: nat, d: nat) -> bool {
    let r = crate::rounding::rounded(n, d, 24);
    if r < pow2(277) {
        x.is_plain() && x.units() == r
    } else {
        x.bits == INFINITY_BITS
    }
}

impl Float32 {
    /// Zero or positive, and finite.
    pub open spec fn is_plain(self) -> bool {
        self.bits < INFINITY_BITS
    }

    /// The value in units of 2^-149.
    pub open spec fn units(self) -> nat {
        let e = self.bits as nat / 0x80_0000;
        let f = self.bits as nat % 0x80_0000;
        if e == 0 {
            f
        } else {
            (f + 0x80_0000) * pow2((e - 1) as nat)
        }
    }

    /// Not a number.
    pub open spec fn is_nan_spec(self) -> bool {
        self.bits % 0x8000_0000 > INFINITY_BITS
    }

    /// Whether this is not a number.
    #[verifier::when_used_as_spec(is_nan_spec)]
    pub fn is_nan(self) -> (r: bool)
        ensures
            r == self.is_nan_spec(),
    {
        self.bits % 0x8000_0000 > INFINITY_BITS
    }

    /// Greater than the value that `bound` encodes, for a plain `bound`.
    pub open spec fn exceeds_spec(self, bound: u32) -> bool {
        bound < self.bits <= INFINITY_BITS
    }

    /// Whether this is greater than the plain value that `bound` encodes. What is
    /// negative or not a number is not.
    #[verifier::when_used_as_spec(exceeds_spec)]
    pub fn exceeds(self, bound: u32) -> (r: bool)
        ensures
            r == self.exceeds_spec(bound),
    {
        bound < self.bits && self.bits <= INFINITY_BITS
    }

    /// The value brought into the range from 0.0 to 1.0.
    pub open spec fn clamped_spec(self) -> Float32 {
        if self.is_nan() || self.bits == NEG_ZERO_BITS {
            self
        } else if self.bits > NEG_ZERO_BITS {
            Float32 { bits: 0 }
        } else if self.bits > ONE_BITS {
            Float32 { bits: ONE_BITS }
        } else {
            self
        }
    }

    /// The value brought into the range from 0.0 to 1.0. A value that is not a
    /// number stays as it is, and so does a negative zero.
    #[verifier::when_used_as_spec(clamped_spec)]
    pub fn clamped(self) -> (r: Float32)
        ensures
            r == self.clamped_spec(),
    {
        if self.is_nan() || self.bits == NEG_ZERO_BITS {
            self
        } else if self.bits > NEG_ZERO_BITS {
            Float32 { bits: 0 }
        } else if self.bits > ONE_BITS {
            Float32 { bits: ONE_BITS }
        } else {
            self
        }
    }

    /// Position in the total order of encodings: negative values below positive
    /// ones, negative not-a-numbers first, positive not-a-numbers last.
    pub open spec fn rank_spec(self) -> u32 {
        if self.bits >= NEG_ZERO_BITS {
            (0xFFFF_FFFF - self.bits) as u32
        } else {
            (self.bits + 0x8000_0000) as u32
        }
    }

    /// Position in the total order of encodings: negative values below positive
    /// ones, negative not-a-numbers first, positive not-a-numbers last.
    #[verifier::when_used_as_spec(rank_spec)]
    pub fn rank(self) -> (r: u32)
        ensures
            r == self.rank_spec(),
    {
        if self.bits >= NEG_ZERO_BITS {
            0xFFFF_FFFF - self.bits
        } else {
            self.bits + 0x8000_0000
        }
    }

    /// Significand and exponent: the value is their product `m * 2^e` in units.
    fn unpack(self) -> (r: (u128, u32))
        requires
            self.is_plain(),
        ensures
            r.0 < 0x100_0000,
            r.1 <= 253,
            r.1 > 0 ==> r.0 >= 0x80_0000,
            self.units() == r.0 * pow2(r.1 as nat),
    {
        let e: u32 = self.bits / 0x80_0000;
        let f: u32 = self.bits % 0x80_0000;
        proof {
            vstd::arithmetic::power2::lemma2_to64();
        }
        if e == 0 {
            proof {
                assert(f * pow2(0) == f) by (nonlinear_arith)
                    requires
                        pow2(0) == 1,
                ;
            }
            (f as u128, 0)
        } else {
            ((f + 0x80_0000) as u128, e - 1)
        }
    }

    /// The value `m * 2^e` in units; infinity if it is too large.
    fn pack(m: u128, e: u32) -> (r: Float32)
        requires
            m <= 0x100_0000,
            e <= 1000,
        ensures
            if m * pow2(e as nat) < pow2(277) {
                r.is_plain() && r.units() == m * pow2(e as nat)
            } else {
                r.bits == INFINITY_BITS
            },
    {
        proof {
            vstd::arithmetic::power2::lemma2_to64();
            lemma_pow2_pos(277);
        }
        if m == 0 {
            proof {
                assert(0 * pow2(e as nat) == 0) by (nonlinear_arith);
            }
            return Float32 { bits: 0 };
        }
        let ghost total = m * pow2(e as nat);
        let mut m: u128 = m;
        let mut e: u32 = e;
        if m == 0x100_0000 {
            proof {
                lemma_pow2_unfold((e + 1) as nat);
                assert(0x80_0000 * pow2((e + 1) as nat) == total) by (nonlinear_arith)
                    requires
                        pow2((e + 1) as nat) == 2 * pow2(e as nat),
                        total == 0x100_0000 * pow2(e as nat),
                ;
            }
            m = 0x80_0000;
            e = e + 1;
        }
        while m < 0x80_0000 && e > 0
            invariant
                0 < m < 0x100_0000,
                e <= 1001,
                total == m * pow2(e as nat),
            decreases e,
        {
            proof {
                lemma_pow2_unfold(e as nat);
                assert((m * 2) * pow2((e - 1) as nat) == total) by (nonlinear_arith)
                    requires
                        pow2(e as nat) == 2 * pow2((e - 1) as nat),
                        total == m * pow2(e as nat),
                ;
            }
            m = m * 2;
            e = e - 1;
        }
        if m < 0x80_0000 {
            proof {
                assert(total == m) by (nonlinear_arith)
                    requires
                        total == m * pow2(0),
                        pow2(0) == 1,
                ;
                crate::rounding::lemma_pow2_monotone(24, 277);
            }
            Float32 { bits: m as u32 }
        } else if e >= 254 {
            proof {
                lemma_pow2_adds(23, 254);
                crate::rounding::lemma_pow2_monotone(254, e as nat);
                assert(total >= pow2(23) * pow2(254)) by (nonlinear_arith)
                    requires
                        total == m * pow2(e as nat),
                        m >= pow2(23),
                        pow2(e as nat) >= pow2(254),
                ;
            }
            Float32 { bits: INFINITY_BITS }
        } else {
            let bits: u32 = (e + 1) * 0x80_0000 + (m as u32 - 0x80_0000);
            proof {
                lemma_pow2_adds(24, 253);
                crate::rounding::lemma_pow2_monotone(e as nat, 253);
                lemma_pow2_pos(e as nat);
                assert(total < pow2(24) * pow2(253)) by (nonlinear_arith)
                    requires
                        total == m * pow2(e as nat),
                        m < pow2(24),
                        0 < pow2(e as nat) <= pow2(253),
                ;
                assert(bits as nat / 0x80_0000 == e + 1);
                assert(bits as nat % 0x80_0000 == m - 0x80_0000);
            }
            Float32 { bits }
        }
    }

    /// `p * 2^a` units, rounded.
    fn from_scaled(p: u128, a: u32) -> (r: Float32)
        requires
            p < 0x4000_0000_0000_0000_0000_0000_0000_0000,
            a <= 800,
        ensures
            rounds_to(r, p as nat * pow2(a as nat), 1),
    {
        let (q, e) = round_parts(p, 1, 24);
        proof {
            vstd::arithmetic::power2::lemma2_to64();
            assert(p as nat / 1 == p as nat);
            crate::rounding::lemma_rounded_scale(p as nat, a as nat, 24);
            lemma_pow2_adds(e as nat, a as nat);
            assert((q * pow2(e as nat)) * pow2(a as nat) == q * pow2((e + a) as nat))
                by (nonlinear_arith)
                requires
                    pow2((e + a) as nat) == pow2(e as nat) * pow2(a as nat),
            ;
        }
        Float32::pack(q, e + a)
    }

    /// `p / 2^b` units, rounded.
    fn from_fraction(p: u128, b: u32) -> (r: Float32)
        requires
            p < 0x1_0000_0000_0000,
        ensures
            rounds_to(r, p as nat, pow2(b as nat)),
    {
        proof {
            vstd::arithmetic::power2::lemma2_to64();
            lemma_pow2_pos(b as nat);
        }
        if b > 100 {
            proof {
                let d = pow2(b as nat);
                vstd::arithmetic::power2::lemma2_to64_rest();
                crate::rounding::lemma_pow2_monotone(49, b as nat);
                assert(pow2(49) == 0x2_0000_0000_0000);
                vstd::arithmetic::div_mod::lemma_fundamental_div_mod_converse(
                    p as int,
                    d as int,
                    0,
                    p as int,
                );
                assert(crate::rounding::excess_bits(0, 24) == 0);
                assert(d * pow2(0) == d) by (nonlinear_arith)
                    requires
                        pow2(0) == 1,
                ;
                assert(crate::rounding::nearest(p as nat, d) == 0);
                assert(0 * pow2(0) == 0) by (nonlinear_arith);
                lemma_pow2_pos(277);
            }
            return Float32 { bits: 0 };
        }
        let d: u128 = power_of_two(b);
        proof {
            crate::rounding::lemma_pow2_126();
            vstd::arithmetic::power2::lemma_pow2_strictly_increases(b as nat, 126);
        }
        let (q, e) = round_parts(p, d, 24);
        Float32::pack(q, e)
    }

    /// An integer, rounded to single precision.
    pub fn from_u32(n: u32) -> (r: Float32)
        ensures
            r.is_plain(),
            r.units() == crate::rounding::rounded(n as nat * pow2(149), 1, 24),
            r.units() <= pow2(181),
    {
        let r = Float32::from_scaled(n as u128, 149);
        proof {
            vstd::arithmetic::power2::lemma2_to64();
            lemma_rounded_bounded(n as nat, 149, 32);
            lemma_pow2_adds(32, 149);
            vstd::arithmetic::power2::lemma_pow2_strictly_increases(181, 277);
        }
        r
    }

    /// The product of two plain values.
    pub fn product(self, other: Float32) -> (r: Float32)
        requires
            self.is_plain(),
            other.is_plain(),
        ensures
            rounds_to(r, self.units() * other.units(), pow2(149)),
    {
        let (ma, ea) = self.unpack();
        let (mb, eb) = other.unpack();
        proof {
            assert(ma * mb < 0x1_0000_0000_0000) by (nonlinear_arith)
                requires
                    0 <= ma < 0x100_0000,
                    0 <= mb < 0x100_0000,
            ;
        }
        let p: u128 = ma * mb;
        let e: u32 = ea + eb;
        let ghost exact = self.units() * other.units();
        proof {
            lemma_pow2_adds(ea as nat, eb as nat);
            assert(exact == p * pow2(e as nat)) by (nonlinear_arith)
                requires
                    exact == (ma * pow2(ea as nat)) * (mb * pow2(eb as nat)),
                    p == ma * mb,
                    pow2(e as nat) == pow2(ea as nat) * pow2(eb as nat),
            ;
            lemma_pow2_pos(149);
        }
        if e >= 149 {
            proof {
                let a = (e - 149) as nat;
                lemma_pow2_adds(a, 149);
                assert(exact == (p * pow2(a)) * pow2(149)) by (nonlinear_arith)
                    requires
                        exact == p * pow2(e as nat),
                        pow2(e as nat) == pow2(a) * pow2(149),
                ;
                lemma_rounded_ratio(p as nat * pow2(a), 1, pow2(149));
                assert(1 * pow2(149) == pow2(149));
            }
            Float32::from_scaled(p, e - 149)
        } else {
            proof {
                let b = (149 - e) as nat;
                lemma_pow2_adds(b, e as nat);
                lemma_pow2_pos(b);
                lemma_pow2_pos(e as nat);
                lemma_rounded_ratio(p as nat, pow2(b), pow2(e as nat));
            }
            Float32::from_fraction(p, 149 - e)
        }
    }

    /// The sum of two plain values.
    pub fn sum(self, other: Float32) -> (r: Float32)
        requires
            self.is_plain(),
            other.is_plain(),
        ensures
            rounds_to(r, self.units() + other.units(), 1),
    {
        let (ma, ea) = self.unpack();
        let (mb, eb) = other.unpack();
        if ea >= eb {
            Float32::sum_parts(ma, ea, mb, eb)
        } else {
            Float32::sum_parts(mb, eb, ma, ea)
        }
    }

    /// `m1 * 2^e1 + m2 * 2^e2` units, rounded, for `e1 >= e2`.
    fn sum_parts(m1: u128, e1: u32, m2: u128, e2: u32) -> (r: Float32)
        requires
            m1 < 0x100_0000,
            m2 < 0x100_0000,
            e2 <= e1 <= 253,
            e1 > 0 ==> m1 >= 0x80_0000,
        ensures
            rounds_to(r, (m1 * pow2(e1 as nat) + m2 * pow2(e2 as nat)) as nat, 1),
    {
        let gap: u32 = e1 - e2;
        proof {
            vstd::arithmetic::power2::lemma2_to64();
            vstd::arithmetic::power2::lemma2_to64_rest();
            lemma_pow2_adds(gap as nat, e2 as nat);
            assert(m1 * pow2(e1 as nat) + m2 * pow2(e2 as nat) == (m1 * pow2(gap as nat) + m2)
                * pow2(e2 as nat)) by (nonlinear_arith)
                requires
                    pow2(e1 as nat) == pow2(gap as nat) * pow2(e2 as nat),
            ;
        }
        if gap <= 60 {
            let scale: u128 = power_of_two(gap);
            proof {
                crate::rounding::lemma_pow2_monotone(gap as nat, 60);
                assert(m1 * scale <= 0x100_0000 * 0x1000_0000_0000_0000) by (nonlinear_arith)
                    requires
                        0 <= m1 < 0x100_0000,
                        0 <= scale <= 0x1000_0000_0000_0000,
                ;
            }
            Float32::from_scaled(m1 * scale + m2, e2)
        } else {
            // The smaller addend is far below half a unit in the last place.
            proof {
                let x = (m1 * pow2(gap as nat) + m2) as nat;
                lemma_absorbed(m1 as nat, gap as nat, m2 as nat);
                crate::rounding::lemma_rounded_scale(x, e2 as nat, 24);
                assert((m1 * pow2(gap as nat)) * pow2(e2 as nat) == m1 * pow2(e1 as nat))
                    by (nonlinear_arith)
                    requires
                        pow2(e1 as nat) == pow2(gap as nat) * pow2(e2 as nat),
                ;
            }
            Float32::pack(m1, e1)
        }
    }

    /// The integer part of the value, at most the largest `u32`.
    pub open spec fn whole_spec(self) -> int {
        let w = self.units() / pow2(149);
        if w > u32::MAX {
            u32::MAX as int
        } else {
            w as int
        }
    }

    /// The integer part of a plain value, at most the largest `u32`.
    pub fn whole(self) -> (r: u32)
        requires
            self.is_plain(),
        ensures
            r == self.whole_spec(),
    {
        let (m, e) = self.unpack();
        proof {
            vstd::arithmetic::power2::lemma2_to64();
            lemma_pow2_pos(149);
        }
        if e < 149 {
            let k: u32 = 149 - e;
            proof {
                lemma_pow2_adds(k as nat, e as nat);
                lemma_pow2_pos(e as nat);
                lemma_pow2_pos(k as nat);
                vstd::arithmetic::div_mod::lemma_div_denominator(
                    m as int * pow2(e as nat) as int,
                    pow2(e as nat) as int,
                    pow2(k as nat) as int,
                );
                vstd::arithmetic::div_mod::lemma_div_multiples_vanish(
                    m as int,
                    pow2(e as nat) as int,
                );
                assert(m * pow2(e as nat) == pow2(e as nat) * m) by (nonlinear_arith);
                assert(pow2(e as nat) * pow2(k as nat) == pow2(149)) by (nonlinear_arith)
                    requires
                        pow2(149) == pow2(k as nat) * pow2(e as nat),
                ;
                assert(self.units() / pow2(149) == m as nat / pow2(k as nat));
            }
            if k > 24 {
                proof {
                    crate::rounding::lemma_pow2_monotone(24, k as nat);
                    vstd::arithmetic::div_mod::lemma_basic_div(m as int, pow2(k as nat) as int);
                }
                0
            } else {
                let d: u128 = power_of_two(k);
                proof {
                    vstd::arithmetic::div_mod::lemma_div_nonincreasing(m as int, d as int);
                }
                (m / d) as u32
            }
        } else {
            let a: u32 = e - 149;
            proof {
                lemma_pow2_adds(a as nat, 149);
                assert(m * pow2(e as nat) == pow2(149) * (m * pow2(a as nat)))
                    by (nonlinear_arith)
                    requires
                        pow2(e as nat) == pow2(a as nat) * pow2(149),
                ;
                vstd::arithmetic::div_mod::lemma_div_multiples_vanish(
                    m as int * pow2(a as nat) as int,
                    pow2(149) as int,
                );
                assert(self.units() / pow2(149) == m * pow2(a as nat));
            }
            if a >= 9 {
                proof {
                    crate::rounding::lemma_pow2_monotone(9, a as nat);
                    assert(m * pow2(a as nat) >= 0x80_0000 * 512) by (nonlinear_arith)
                        requires
                            m >= 0x80_0000,
                            pow2(a as nat) >= 512,
                    ;
                }
                u32::MAX
            } else {
                let d: u128 = power_of_two(a);
                proof {
                    crate::rounding::lemma_pow2_monotone(a as nat, 8);
                    assert(m * d <= 0x100_0000 * 256) by (nonlinear_arith)
                        requires
                            0 <= m < 0x100_0000,
                            0 <= d <= 256,
                    ;
                }
                let w: u128 = m * d;
                if w > u32::MAX as u128 {
                    u32::MAX
                } else {
                    w as u32
                }
            }
        }
    }

    /// Whether a plain value is at least another one.
    pub fn at_least(self, other: Float32) -> (r: bool)
        requires
            self.is_plain(),
            other.is_plain(),
        ensures
            r == (self.units() >= other.units()),
    {
        proof {
            if self.bits < other.bits {
                lemma_units_increase(self, other);
            } else if self.bits > other.bits {
                lemma_units_increase(other, self);
            }
        }
        self.bits >= other.bits
    }
}

/// Scaling numerator and denominator alike does not change a rounded ratio.
proof fn lemma_rounded_ratio(n: nat, d: nat, c: nat)
    requires
        d > 0,
        c > 0,
    ensures
        crate::rounding::rounded(n * c, d * c, 24) == crate::rounding::rounded(n, d, 24),
{
    vstd::arithmetic::div_mod::lemma_div_denominator((n * c) as int, c as int, d as int);
    vstd::arithmetic::div_mod::lemma_div_multiples_vanish(n as int, c as int);
    assert(n * c == c * n) by (nonlinear_arith);
    assert(d * c == c * d) by (nonlinear_arith);
    assert((n * c) / (d * c) == n / d);
    let e = crate::rounding::excess_bits(n / d, 24);
    lemma_pow2_pos(e);
    assert(d * pow2(e) > 0) by (nonlinear_arith)
        requires
            d > 0,
            pow2(e) > 0,
    ;
    crate::rounding::lemma_nearest_scale(n, d * pow2(e), c);
    assert((d * pow2(e)) * c == (d * c) * pow2(e)) by (nonlinear_arith);
}

/// Rounding a number below `2^k`, shifted, does not lift it above `2^k`, shifted.
proof fn lemma_rounded_bounded(n: nat, a: nat, k: nat)
    requires
        n < pow2(k),
        24 <= k <= 120,
    ensures
        crate::rounding::rounded(n * pow2(a), 1, 24) <= pow2(k + a),
{
    crate::rounding::lemma_rounded_scale(n, a, 24);
    lemma_pow2_adds(k, a);
    assert(n / 1 == n);
    let e = crate::rounding::excess_bits(n, 24);
    lemma_excess_bound(n, k);
    lemma_pow2_adds((k - e) as nat, e);
    lemma_pow2_pos(e);
    assert(1 * pow2(e) == pow2(e));
    let u = pow2(e);
    let top = pow2((k - e) as nat);
    vstd::arithmetic::div_mod::lemma_fundamental_div_mod(n as int, u as int);
    assert(n / u < top) by (nonlinear_arith)
        requires
            n == u * (n / u) + n % u,
            n % u >= 0,
            n < top * u,
            u > 0,
    ;
    let r = crate::rounding::nearest(n, u);
    assert(r <= top);
    assert(r * u <= top * u) by (nonlinear_arith)
        requires
            r <= top,
            u > 0,
    ;
    lemma_pow2_pos(a);
    assert((r * u) * pow2(a) <= pow2(k) * pow2(a)) by (nonlinear_arith)
        requires
            r * u <= pow2(k),
            pow2(a) > 0,
    ;
}

/// A number below `2^k` has at most `k - 24` excess bits.
proof fn lemma_excess_bound(n: nat, k: nat)
    requires
        n < pow2(k),
        k >= 24,
    ensures
        crate::rounding::excess_bits(n, 24) <= k - 24,
    decreases n,
{
    if n >= pow2(24) && n != 0 {
        if k == 24 {
            assert(false);
        }
        lemma_pow2_unfold(k);
        lemma_excess_bound(n / 2, (k - 1) as nat);
    }
}

/// An addend far below half a unit in the last place is rounded away.
proof fn lemma_absorbed(m1: nat, gap: nat, m2: nat)
    requires
        0x80_0000 <= m1 < 0x100_0000,
        m2 < 0x100_0000,
        gap > 60,
    ensures
        crate::rounding::rounded(m1 * pow2(gap) + m2, 1, 24) == m1 * pow2(gap),
{
    vstd::arithmetic::power2::lemma2_to64();
    crate::rounding::lemma_pow2_monotone(26, gap);
    let u = pow2(gap);
    let x = m1 * u + m2;
    assert(x / 1 == x);
    lemma_excess_of(m1, gap, m2);
    assert(1 * u == u);
    vstd::arithmetic::div_mod::lemma_fundamental_div_mod_converse(
        x as int,
        u as int,
        m1 as int,
        m2 as int,
    );
}

/// A full significand, shifted by `gap`, has exactly `gap` excess bits, whatever
/// is added below its last place.
proof fn lemma_excess_of(m1: nat, gap: nat, low: nat)
    requires
        0x80_0000 <= m1 < 0x100_0000,
        low < pow2(gap),
    ensures
        crate::rounding::excess_bits(m1 * pow2(gap) + low, 24) == gap,
    decreases gap,
{
    vstd::arithmetic::power2::lemma2_to64();
    if gap == 0 {
        assert(m1 * pow2(0) + low == m1) by (nonlinear_arith)
            requires
                pow2(0) == 1,
                low == 0,
        ;
    } else {
        let g = (gap - 1) as nat;
        lemma_pow2_unfold(gap);
        lemma_pow2_pos(g);
        let x = m1 * pow2(gap) + low;
        assert(x == 2 * (m1 * pow2(g)) + low) by (nonlinear_arith)
            requires
                x == m1 * pow2(gap) + low,
                pow2(gap) == 2 * pow2(g),
        ;
        assert(m1 * pow2(g) >= 0x80_0000) by (nonlinear_arith)
            requires
                m1 >= 0x80_0000,
                pow2(g) >= 1,
        ;
        assert(x / 2 == m1 * pow2(g) + low / 2);
        lemma_excess_of(m1, g, low / 2);
    }
}

/// A larger plain encoding stands for a larger value.
pub proof fn lemma_units_increase(a: Float32, b: Float32)
    requires
        a.bits < b.bits,
        b.is_plain(),
    ensures
        a.units() < b.units(),
{
    let ea = a.bits as nat / 0x80_0000;
    let fa = a.bits as nat % 0x80_0000;
    let eb = b.bits as nat / 0x80_0000;
    let fb = b.bits as nat % 0x80_0000;
    vstd::arithmetic::power2::lemma2_to64();
    if ea == eb {
        if ea > 0 {
            let u = pow2((ea - 1) as nat);
            lemma_pow2_pos((ea - 1) as nat);
            assert((fa + 0x80_0000) * u < (fb + 0x80_0000) * u) by (nonlinear_arith)
                requires
                    fa < fb,
                    u > 0,
            ;
        }
    } else {
        let ub = pow2((eb - 1) as nat);
        lemma_pow2_pos((eb - 1) as nat);
        assert((fb + 0x80_0000) * ub >= 0x80_0000 * ub) by (nonlinear_arith)
            requires
                ub > 0,
        ;
        if ea == 0 {
            assert(0x80_0000 * ub >= 0x80_0000) by (nonlinear_arith)
                requires
                    ub >= 1,
            ;
        } else {
            let ua = pow2((ea - 1) as nat);
            lemma_pow2_pos((ea - 1) as nat);
            lemma_pow2_unfold(ea);
            crate::rounding::lemma_pow2_monotone(ea, (eb - 1) as nat);
            assert((fa + 0x80_0000) * ua < 0x80_0000 * (2 * ua)) by (nonlinear_arith)
                requires
                    fa < 0x80_0000,
                    ua > 0,
            ;
            assert(0x80_0000 * (2 * ua) <= 0x80_0000 * ub) by (nonlinear_arith)
                requires
                    2 * ua <= ub,
            ;
        }
    }
}

/// The plain value of `units`, if there is one.
pub open spec fn single_of(units: nat) -> Float32 {
    choose|f: Float32| f.is_plain() && #[trigger] f.units() == units
}

/// A plain value is the only one of its units.
pub proof fn lemma_single_of(f: Float32)
    requires
        f.is_plain(),
    ensures
        single_of(f.units()) == f,
{
    let g = single_of(f.units());
    assert(g.is_plain() && g.units() == f.units());
    if g.bits < f.bits {
        lemma_units_increase(g, f);
    } else if f.bits < g.bits {
        lemma_units_increase(f, g);
    }
}

/// The significand of a plain value.
pub open spec fn significand(f: Float32) -> nat {
    if f.bits < 0x80_0000 {
        f.bits as nat
    } else {
        f.bits as nat % 0x80_0000 + 0x80_0000
    }
}

/// The exponent of a plain value.
pub open spec fn exponent(f: Float32) -> nat {
    if f.bits < 0x80_0000 {
        0
    } else {
        (f.bits as nat / 0x80_0000 - 1) as nat
    }
}

/// Significand and exponent make up the value.
pub proof fn lemma_parts(f: Float32)
    requires
        f.is_plain(),
    ensures
        f.units() == significand(f) * pow2(exponent(f)),
        significand(f) < pow2(24),
{
    vstd::arithmetic::power2::lemma2_to64();
    if f.bits < 0x80_0000 {
        assert(significand(f) * pow2(0) == significand(f)) by (nonlinear_arith)
            requires
                pow2(0) == 1,
        ;
    }
}

/// 1.0 is `2^149` units.
pub proof fn lemma_one()
    ensures
        (Float32 { bits: ONE_BITS }).units() == pow2(149),
{
    let one = Float32 { bits: ONE_BITS };
    vstd::arithmetic::power2::lemma2_to64();
    lemma_pow2_adds(23, 126);
    assert(one.bits as nat / 0x80_0000 == 127);
    assert(one.bits as nat % 0x80_0000 == 0);
}

/// A plain value is at most 1.0 exactly if its encoding is.
pub proof fn lemma_at_most_one(f: Float32)
    requires
        f.is_plain(),
    ensures
        f.bits <= ONE_BITS <==> f.units() <= pow2(149),
{
    let one = Float32 { bits: ONE_BITS };
    lemma_one();
    if f.bits < ONE_BITS {
        lemma_units_increase(f, one);
    } else if f.bits > ONE_BITS {
        lemma_units_increase(one, f);
    }
}

/// Multiplying a plain value by at most 1.0 does not increase it.
pub proof fn lemma_shrink(f: Float32, c: nat)
    requires
        f.is_plain(),
        c <= pow2(149),
    ensures
        crate::rounding::rounded(f.units() * c, pow2(149), 24) <= f.units(),
{
    lemma_parts(f);
    lemma_pow2_pos(149);
    assert(f.units() * c <= f.units() * pow2(149)) by (nonlinear_arith)
        requires
            c <= pow2(149),
            f.units() >= 0,
    ;
    crate::rounding::lemma_rounded_at_most(
        f.units() * c,
        pow2(149),
        significand(f),
        exponent(f),
        24,
    );
}

/// Every rounded value that does not overflow is that of some plain value.
pub proof fn lemma_rounded_is_single(n: nat, d: nat)
    requires
        d > 0,
        crate::rounding::rounded(n, d, 24) < pow2(277),
    ensures
        single_of(crate::rounding::rounded(n, d, 24)).is_plain(),
        single_of(crate::rounding::rounded(n, d, 24)).units() == crate::rounding::rounded(n, d, 24),
{
    let e = crate::rounding::excess_bits(n / d, 24);
    let u = pow2(e);
    lemma_pow2_pos(e);
    assert(d * u > 0) by (nonlinear_arith)
        requires
            d > 0,
            u > 0,
    ;
    let q = crate::rounding::nearest(n, d * u);
    crate::rounding::lemma_excess_bits_below(n / d, 24);
    vstd::arithmetic::div_mod::lemma_div_denominator(n as int, d as int, u as int);
    vstd::arithmetic::power2::lemma2_to64();
    assert(q <= pow2(24));
    lemma_plain_exists(q, e);
    let f = choose|f: Float32| f.is_plain() && #[trigger] f.units() == q * u;
    lemma_single_of(f);
}

/// Every `q * 2^e` with a significand of at most 24 bits, if it does not overflow,
/// is a plain value.
proof fn lemma_plain_exists(q: nat, e: nat)
    requires
        q <= 0x100_0000,
        q * pow2(e) < pow2(277),
    ensures
        exists|f: Float32| f.is_plain() && #[trigger] f.units() == q * pow2(e),
    decreases e,
{
    vstd::arithmetic::power2::lemma2_to64();
    lemma_pow2_pos(e);
    if q == 0 {
        let f = Float32 { bits: 0 };
        assert(0 * pow2(e) == 0) by (nonlinear_arith);
        assert(f.units() == q * pow2(e));
    } else if q < 0x80_0000 {
        if e == 0 {
            let f = Float32 { bits: q as u32 };
            assert(q * pow2(0) == q) by (nonlinear_arith)
                requires
                    pow2(0) == 1,
            ;
            assert(f.units() == q * pow2(e));
        } else {
            lemma_pow2_unfold(e);
            assert((2 * q) * pow2((e - 1) as nat) == q * pow2(e)) by (nonlinear_arith)
                requires
                    pow2(e) == 2 * pow2((e - 1) as nat),
            ;
            lemma_plain_exists(2 * q, (e - 1) as nat);
        }
    } else {
        let (m, x) = if q == 0x100_0000 {
            (0x80_0000nat, e + 1)
        } else {
            (q, e)
        };
        lemma_pow2_unfold(e + 1);
        assert(m * pow2(x) == q * pow2(e)) by (nonlinear_arith)
            requires
                pow2(e + 1) == 2 * pow2(e),
                (q == 0x100_0000 && m == 0x80_0000 && x == e + 1) || (m == q && x == e),
        ;
        if x >= 254 {
            lemma_pow2_adds(23, 254);
            crate::rounding::lemma_pow2_monotone(254, x);
            assert(m * pow2(x) >= pow2(23) * pow2(254)) by (nonlinear_arith)
                requires
                    m >= pow2(23),
                    pow2(x) >= pow2(254),
            ;
            assert(false);
        }
        let f = Float32 { bits: ((x + 1) * 0x80_0000 + (m - 0x80_0000)) as u32 };
        assert(f.bits as nat / 0x80_0000 == x + 1);
        assert(f.bits as nat % 0x80_0000 == m - 0x80_0000);
        assert(f.units() == q * pow2(e));
    }
}

/// The order of encodings is the order of the values: of two that are not negative the
/// greater one has the higher rank, and what is negative ranks below both.
pub proof fn law_rank_orders_values(a: Float32, b: Float32)
    requires
        a.is_plain(),
    ensures
        b.is_plain() ==> (a.rank() < b.rank() <==> a.units() < b.units()),
        b.bits >= 0x8000_0000 ==> b.rank() < a.rank(),
{
    if b.is_plain() {
        if a.bits < b.bits {
            lemma_units_increase(a, b);
        } else if b.bits < a.bits {
            lemma_units_increase(b, a);
        }
    }
}

} // verus!
