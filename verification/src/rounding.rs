//! Rounding to a number of significant bits, to nearest with ties to even.
//!
//! Binary floating-point operations return the exact result rounded in this
//! way. Values are counted in some fixed unit that no result is finer than.
use vstd::arithmetic::div_mod::{
    lemma_div_denominator, lemma_fundamental_div_mod, lemma_fundamental_div_mod_converse,
};
use vstd::arithmetic::power2::{lemma_pow2_adds, lemma_pow2_pos, lemma_pow2_unfold, pow2};
use vstd::prelude::*;

verus! {

/// The integer nearest to `n / d`; of two equally near ones, the even one.
pub open spec fn nearest(n: nat, d: nat) -> nat {
    let q = n / d;
    let r = n % d;
    if 2 * r < d || (2 * r == d && q % 2 == 0) {
        q
    } else {
        q + 1
    }
}

/// How many low bits of `x` do not fit into `prec` significant bits.
pub open spec fn excess_bits(x: nat, prec: nat) -> nat
    decreases x,
{
    if x < pow2(prec) || x == 0 {
        0
    } else {
        1 + excess_bits(x / 2, prec)
    }
}

/// `n / d`, rounded to `prec` significant bits.
pub open spec fn rounded(n: nat, d: nat, prec: nat) -> nat {
    let e = excess_bits(n / d, prec);
    nearest(n, d * pow2(e)) * pow2(e)
}

/// `2^k`.
pub fn power_of_two(k: u32) -> (r: u128)
    requires
        k <= 126,
    ensures
        r == pow2(k as nat),
        0 < r,
        r <= 0x4000_0000_0000_0000_0000_0000_0000_0000,
{
    let mut r: u128 = 1;
    let mut i: u32 = 0;
    proof {
        vstd::arithmetic::power2::lemma2_to64();
        lemma_pow2_126();
    }
    while i < k
        invariant
            i <= k <= 126,
            r == pow2(i as nat),
            pow2(126) == 0x4000_0000_0000_0000_0000_0000_0000_0000,
        decreases k - i,
    {
        proof {
            lemma_pow2_unfold((i + 1) as nat);
            lemma_pow2_monotone((i + 1) as nat, 126);
        }
        r = r * 2;
        i = i + 1;
    }
    proof {
        lemma_pow2_monotone(k as nat, 126);
        lemma_pow2_pos(k as nat);
    }
    r
}

pub proof fn lemma_pow2_126()
    ensures
        pow2(126) == 0x4000_0000_0000_0000_0000_0000_0000_0000,
{
    vstd::arithmetic::power2::lemma2_to64();
    vstd::arithmetic::power2::lemma2_to64_rest();
    lemma_pow2_adds(63, 63);
    assert(pow2(63) == 0x8000_0000_0000_0000);
    assert(0x8000_0000_0000_0000nat * 0x8000_0000_0000_0000nat
        == 0x4000_0000_0000_0000_0000_0000_0000_0000nat) by (nonlinear_arith);
}

pub proof fn lemma_pow2_monotone(a: nat, b: nat)
    requires
        a <= b,
    ensures
        pow2(a) <= pow2(b),
{
    if a < b {
        vstd::arithmetic::power2::lemma_pow2_strictly_increases(a, b);
    }
}

/// `n / d`, rounded to `prec` significant bits, as significand and exponent.
pub fn round_parts(n: u128, d: u128, prec: u32) -> (r: (u128, u32))
    requires
        0 < d < 0x4000_0000_0000_0000_0000_0000_0000_0000,
        n < 0x4000_0000_0000_0000_0000_0000_0000_0000,
        0 < prec <= 64,
    ensures
        r.1 == excess_bits(n as nat / d as nat, prec as nat),
        r.0 == nearest(n as nat, d as nat * pow2(r.1 as nat)),
        r.0 * pow2(r.1 as nat) == rounded(n as nat, d as nat, prec as nat),
        r.0 <= pow2(prec as nat),
        r.1 > 0 ==> r.0 >= pow2((prec - 1) as nat),
        r.1 <= 126,
        r.0 * pow2(r.1 as nat) <= 2 * n + d,
{
    let limit: u128 = power_of_two(prec);
    let whole: u128 = n / d;
    let mut x: u128 = whole;
    let mut unit: u128 = 1;
    let mut e: u32 = 0;
    proof {
        vstd::arithmetic::power2::lemma2_to64();
        lemma_pow2_126();
        lemma_pow2_unfold(prec as nat);
        lemma_pow2_pos((prec - 1) as nat);
        assert(limit >= 2);
        lemma_fundamental_div_mod(n as int, d as int);
        assert(whole <= d * whole) by (nonlinear_arith)
            requires
                d >= 1,
                whole >= 0,
        ;
    }
    while x >= limit
        invariant
            limit == pow2(prec as nat),
            limit == 2 * pow2((prec - 1) as nat),
            limit >= 2,
            whole < 0x4000_0000_0000_0000_0000_0000_0000_0000,
            pow2(126) == 0x4000_0000_0000_0000_0000_0000_0000_0000,
            unit == pow2(e as nat),
            unit >= 1,
            e <= 126,
            excess_bits(whole as nat, prec as nat) == e + excess_bits(x as nat, prec as nat),
            x == whole / unit,
            e > 0 ==> x >= pow2((prec - 1) as nat),
        decreases x,
    {
        proof {
            lemma_pow2_unfold((e + 1) as nat);
            lemma_fundamental_div_mod(whole as int, unit as int);
            assert(unit * 2 <= unit * x) by (nonlinear_arith)
                requires
                    unit >= 1,
                    x >= 2,
            ;
            if e >= 126 {
                lemma_pow2_monotone(126, e as nat);
                assert(false);
            }
            lemma_div_denominator(whole as int, unit as int, 2);
        }
        x = x / 2;
        unit = unit * 2;
        e = e + 1;
    }
    proof {
        lemma_fundamental_div_mod(whole as int, unit as int);
        lemma_div_denominator(n as int, d as int, unit as int);
        assert(d * unit > 0) by (nonlinear_arith)
            requires
                d > 0,
                unit >= 1,
        ;
        if e > 0 {
            lemma_pow2_pos((prec - 1) as nat);
            assert(unit <= unit * x) by (nonlinear_arith)
                requires
                    x >= 1,
                    unit >= 1,
            ;
            assert(d * unit <= d * whole) by (nonlinear_arith)
                requires
                    unit <= whole,
                    d > 0,
            ;
        } else {
            vstd::arithmetic::power2::lemma2_to64();
            assert(d * unit == d) by (nonlinear_arith)
                requires
                    unit == 1,
            ;
        }
    }
    let den: u128 = d * unit;
    let q: u128 = n / den;
    let rem: u128 = n % den;
    proof {
        assert(q == x);
        lemma_fundamental_div_mod(n as int, den as int);
        assert(q * unit <= den * q) by (nonlinear_arith)
            requires
                den == d * unit,
                d >= 1,
                unit >= 1,
                q >= 0,
        ;
        assert((q + 1) * unit == q * unit + unit) by (nonlinear_arith);
        assert(unit <= d * unit) by (nonlinear_arith)
            requires
                d >= 1,
                unit >= 1,
        ;
        assert(den <= n + d);
    }
    if 2 * rem < den || (2 * rem == den && q % 2 == 0) {
        (q, e)
    } else {
        (q + 1, e)
    }
}

/// `n / d`, rounded to `prec` significant bits.
pub fn round_ratio(n: u128, d: u128, prec: u32) -> (r: u128)
    requires
        0 < d < 0x1000_0000_0000_0000_0000_0000_0000_0000,
        n < 0x1000_0000_0000_0000_0000_0000_0000_0000,
        0 < prec <= 64,
    ensures
        r == rounded(n as nat, d as nat, prec as nat),
{
    let (q, e) = round_parts(n, d, prec);
    q * power_of_two(e)
}

/// Numerator and denominator may be scaled alike.
pub proof fn lemma_nearest_scale(n: nat, d: nat, c: nat)
    requires
        d > 0,
        c > 0,
    ensures
        nearest(n * c, d * c) == nearest(n, d),
{
    let q = n / d;
    let r = n % d;
    lemma_fundamental_div_mod(n as int, d as int);
    assert(n * c == q * (d * c) + r * c) by (nonlinear_arith)
        requires
            n == d * q + r,
    ;
    assert(0 <= r * c < d * c) by (nonlinear_arith)
        requires
            0 <= r < d,
            c > 0,
    ;
    assert(d * c > 0) by (nonlinear_arith)
        requires
            d > 0,
            c > 0,
    ;
    lemma_fundamental_div_mod_converse(
        (n * c) as int,
        (d * c) as int,
        q as int,
        (r * c) as int,
    );
    assert((n * c) / (d * c) == q);
    assert((n * c) % (d * c) == r * c);
    assert(2 * (r * c) < d * c <==> 2 * r < d) by (nonlinear_arith)
        requires
            c > 0,
    ;
    assert(2 * (r * c) == d * c <==> 2 * r == d) by (nonlinear_arith)
        requires
            c > 0,
    ;
}

/// What is a whole number already is its own nearest integer.
pub proof fn lemma_nearest_exact(q: nat, d: nat)
    requires
        d > 0,
    ensures
        nearest(q * d, d) == q,
{
    lemma_fundamental_div_mod_converse((q * d) as int, d as int, q as int, 0);
}

/// Doubling `x` often enough adds as many excess bits.
pub proof fn lemma_excess_bits_scale(x: nat, a: nat, prec: nat)
    requires
        x >= pow2(prec),
    ensures
        excess_bits(x * pow2(a), prec) == excess_bits(x, prec) + a,
    decreases a,
{
    lemma_pow2_pos(prec);
    if a == 0 {
        vstd::arithmetic::power2::lemma2_to64();
        assert(x * pow2(0) == x) by (nonlinear_arith)
            requires
                pow2(0) == 1,
        ;
    } else {
        lemma_excess_bits_scale(x, (a - 1) as nat, prec);
        lemma_pow2_unfold(a);
        let y = x * pow2((a - 1) as nat);
        assert(x * pow2(a) == 2 * y) by (nonlinear_arith)
            requires
                pow2(a) == 2 * pow2((a - 1) as nat),
                y == x * pow2((a - 1) as nat),
        ;
        lemma_pow2_pos((a - 1) as nat);
        assert(y >= x) by (nonlinear_arith)
            requires
                y == x * pow2((a - 1) as nat),
                pow2((a - 1) as nat) >= 1,
        ;
        assert((2 * y) / 2 == y);
    }
}

/// A number with few enough bits has few enough bits after any shift: its excess
/// is at most the shift.
pub proof fn lemma_excess_bits_small(x: nat, a: nat, prec: nat)
    requires
        x < pow2(prec),
    ensures
        excess_bits(x * pow2(a), prec) <= a,
    decreases a,
{
    if a == 0 {
        vstd::arithmetic::power2::lemma2_to64();
        assert(x * pow2(0) == x) by (nonlinear_arith)
            requires
                pow2(0) == 1,
        ;
    } else {
        lemma_excess_bits_small(x, (a - 1) as nat, prec);
        lemma_pow2_unfold(a);
        let y = x * pow2((a - 1) as nat);
        assert(x * pow2(a) == 2 * y) by (nonlinear_arith)
            requires
                pow2(a) == 2 * pow2((a - 1) as nat),
                y == x * pow2((a - 1) as nat),
        ;
        assert((2 * y) / 2 == y);
    }
}

/// What has few enough significant bits is not changed by rounding.
pub proof fn lemma_rounded_exact(x: nat, a: nat, prec: nat)
    requires
        x < pow2(prec),
    ensures
        rounded(x * pow2(a), 1, prec) == x * pow2(a),
{
    let n = x * pow2(a);
    assert(n / 1 == n);
    let e = excess_bits(n, prec);
    lemma_excess_bits_small(x, a, prec);
    let k = (a - e) as nat;
    lemma_pow2_adds(k, e);
    lemma_pow2_pos(e);
    let q = x * pow2(k);
    assert(n == q * pow2(e)) by (nonlinear_arith)
        requires
            n == x * pow2(a),
            pow2(a) == pow2(k) * pow2(e),
            q == x * pow2(k),
    ;
    lemma_nearest_exact(q, pow2(e));
    assert(1 * pow2(e) == pow2(e));
}

/// Rounding commutes with multiplication by a power of two.
pub proof fn lemma_rounded_scale(x: nat, a: nat, prec: nat)
    ensures
        rounded(x * pow2(a), 1, prec) == rounded(x, 1, prec) * pow2(a),
{
    assert(x / 1 == x);
    let n = x * pow2(a);
    assert(n / 1 == n);
    if x < pow2(prec) {
        lemma_rounded_exact(x, a, prec);
        vstd::arithmetic::power2::lemma2_to64();
        lemma_rounded_exact(x, 0, prec);
        assert(x * pow2(0) == x) by (nonlinear_arith)
            requires
                pow2(0) == 1,
        ;
    } else {
        lemma_excess_bits_scale(x, a, prec);
        let e = excess_bits(x, prec);
        lemma_pow2_adds(e, a);
        lemma_pow2_pos(e);
        lemma_pow2_pos(a);
        lemma_nearest_scale(x, pow2(e), pow2(a));
        assert(1 * pow2(e + a) == pow2(e) * pow2(a));
        assert(1 * pow2(e) == pow2(e));
        assert(nearest(x, pow2(e)) * (pow2(e) * pow2(a)) == (nearest(x, pow2(e)) * pow2(e)) * pow2(
            a,
        )) by (nonlinear_arith);
    }
}

/// Excess bits fit below the number that has them.
pub proof fn lemma_excess_bits_fit(x: nat, prec: nat)
    requires
        prec > 0,
    ensures
        excess_bits(x, prec) > 0 ==> pow2(excess_bits(x, prec)) <= x,
    decreases x,
{
    if !(x < pow2(prec) || x == 0) {
        lemma_excess_bits_fit(x / 2, prec);
        let e = excess_bits(x / 2, prec);
        lemma_pow2_unfold(e + 1);
        lemma_pow2_unfold(prec);
        lemma_pow2_pos((prec - 1) as nat);
        vstd::arithmetic::power2::lemma2_to64();
    }
}

/// Rounding at most doubles, give or take one.
pub proof fn lemma_rounded_upper(n: nat, d: nat, prec: nat)
    requires
        d > 0,
        prec > 0,
    ensures
        rounded(n, d, prec) <= 2 * (n / d) + 1,
{
    let x = n / d;
    let e = excess_bits(x, prec);
    let u = pow2(e);
    lemma_pow2_pos(e);
    lemma_excess_bits_fit(x, prec);
    vstd::arithmetic::power2::lemma2_to64();
    assert(d * u > 0) by (nonlinear_arith)
        requires
            d > 0,
            u > 0,
    ;
    lemma_div_denominator(n as int, d as int, u as int);
    let q = n / (d * u);
    assert(q == x / u);
    lemma_fundamental_div_mod(x as int, u as int);
    assert((q + 1) * u == u * q + u) by (nonlinear_arith);
    let r = nearest(n, d * u);
    assert(r * u <= (q + 1) * u) by (nonlinear_arith)
        requires
            r <= q + 1,
            u > 0,
    ;
}

/// A number with `e` excess bits fills `prec` bits above them.
pub proof fn lemma_excess_bits_full(x: nat, prec: nat)
    requires
        prec > 0,
    ensures
        excess_bits(x, prec) > 0 ==> x / pow2(excess_bits(x, prec)) >= pow2((prec - 1) as nat),
        excess_bits(x, prec) > 0 ==> x >= pow2((prec - 1 + excess_bits(x, prec)) as nat),
    decreases x,
{
    if !(x < pow2(prec) || x == 0) {
        lemma_excess_bits_full(x / 2, prec);
        let e = excess_bits(x / 2, prec);
        lemma_pow2_unfold(e + 1);
        lemma_pow2_unfold(prec);
        lemma_pow2_pos(e);
        vstd::arithmetic::power2::lemma2_to64();
        lemma_div_denominator(x as int, 2, pow2(e) as int);
        assert(2 * pow2(e) == pow2(e + 1));
        if e == 0 {
            assert((x / 2) / 1 == x / 2);
        } else {
            lemma_pow2_unfold((prec - 1 + e + 1) as nat);
        }
    }
}

/// What is at most a representable number is not rounded above it.
pub proof fn lemma_rounded_at_most(n: nat, d: nat, k: nat, a: nat, prec: nat)
    requires
        d > 0,
        prec > 0,
        k < pow2(prec),
        n <= (k * pow2(a)) * d,
    ensures
        rounded(n, d, prec) <= k * pow2(a),
{
    let top = k * pow2(a);
    let x = n / d;
    let e = excess_bits(x, prec);
    let u = pow2(e);
    lemma_pow2_pos(e);
    assert(x <= top) by {
        lemma_fundamental_div_mod(n as int, d as int);
        assert(x <= top) by (nonlinear_arith)
            requires
                n == d * x + n % d,
                n % d >= 0,
                n <= top * d,
                d > 0,
        ;
    }
    if e > a {
        lemma_excess_bits_full(x, prec);
        lemma_pow2_adds(prec, a);
        lemma_pow2_monotone(prec + a, (prec - 1 + e) as nat);
        lemma_pow2_pos(a);
        assert(top < pow2(prec) * pow2(a)) by (nonlinear_arith)
            requires
                top == k * pow2(a),
                k < pow2(prec),
                pow2(a) > 0,
        ;
        assert(false);
    }
    let c = k * pow2((a - e) as nat);
    lemma_pow2_adds((a - e) as nat, e);
    assert(top == c * u) by (nonlinear_arith)
        requires
            top == k * pow2(a),
            pow2(a) == pow2((a - e) as nat) * u,
            c == k * pow2((a - e) as nat),
    ;
    let den = d * u;
    assert(den > 0) by (nonlinear_arith)
        requires
            d > 0,
            u > 0,
            den == d * u,
    ;
    assert(n <= c * den) by (nonlinear_arith)
        requires
            n <= top * d,
            top == c * u,
            den == d * u,
    ;
    lemma_fundamental_div_mod(n as int, den as int);
    let q = n / den;
    if n == c * den {
        lemma_nearest_exact(c, den);
    } else {
        assert(q < c) by (nonlinear_arith)
            requires
                n == den * q + n % den,
                n % den >= 0,
                n < c * den,
                den > 0,
        ;
    }
    let r = nearest(n, den);
    assert(r <= c);
    assert(r * u <= c * u) by (nonlinear_arith)
        requires
            r <= c,
            u > 0,
    ;
}

/// What is at least a representable number is not rounded below it.
pub proof fn lemma_rounded_at_least(n: nat, d: nat, k: nat, a: nat, prec: nat)
    requires
        d > 0,
        prec > 0,
        k < pow2(prec),
        n >= (k * pow2(a)) * d,
    ensures
        rounded(n, d, prec) >= k * pow2(a),
{
    let low = k * pow2(a);
    let x = n / d;
    let e = excess_bits(x, prec);
    let u = pow2(e);
    lemma_pow2_pos(e);
    let den = d * u;
    assert(den > 0) by (nonlinear_arith)
        requires
            d > 0,
            u > 0,
            den == d * u,
    ;
    let q = n / den;
    lemma_div_denominator(n as int, d as int, u as int);
    assert(q == x / u);
    lemma_fundamental_div_mod(n as int, den as int);
    let r = nearest(n, den);
    assert(r >= q);
    assert(r * u >= q * u) by (nonlinear_arith)
        requires
            r >= q,
            u > 0,
    ;
    if e > a {
        lemma_excess_bits_full(x, prec);
        lemma_pow2_adds((prec - 1) as nat, e);
        lemma_pow2_adds(prec, a);
        lemma_pow2_monotone(prec + a, (prec - 1 + e) as nat);
        lemma_pow2_pos(a);
        assert(low < pow2(prec) * pow2(a)) by (nonlinear_arith)
            requires
                low == k * pow2(a),
                k < pow2(prec),
                pow2(a) > 0,
        ;
        assert(q * u >= pow2((prec - 1) as nat) * u) by (nonlinear_arith)
            requires
                q >= pow2((prec - 1) as nat),
                u > 0,
        ;
    } else {
        let c = k * pow2((a - e) as nat);
        lemma_pow2_adds((a - e) as nat, e);
        assert(low == c * u) by (nonlinear_arith)
            requires
                low == k * pow2(a),
                pow2(a) == pow2((a - e) as nat) * u,
                c == k * pow2((a - e) as nat),
        ;
        assert(n >= c * den) by (nonlinear_arith)
            requires
                n >= low * d,
                low == c * u,
                den == d * u,
        ;
        assert(q >= c) by (nonlinear_arith)
            requires
                n == den * q + n % den,
                n % den < den,
                n >= c * den,
                den > 0,
        ;
        assert(q * u >= c * u) by (nonlinear_arith)
            requires
                q >= c,
                u > 0,
        ;
    }
}

/// Without its excess bits a number fits.
pub proof fn lemma_excess_bits_below(x: nat, prec: nat)
    requires
        prec > 0,
    ensures
        x / pow2(excess_bits(x, prec)) < pow2(prec),
    decreases x,
{
    vstd::arithmetic::power2::lemma2_to64();
    if x < pow2(prec) || x == 0 {
        lemma_pow2_pos(prec);
        assert(x / 1 == x);
    } else {
        lemma_excess_bits_below(x / 2, prec);
        let e = excess_bits(x / 2, prec);
        lemma_pow2_unfold(e + 1);
        lemma_pow2_pos(e);
        lemma_div_denominator(x as int, 2, pow2(e) as int);
    }
}

/// Rounding is off by at most half a unit in the last of `prec` bits, that is by the
/// part `2^-prec` of the value; below `2^(prec - 1)`, by at most one half.
pub proof fn law_rounding_is_near(n: nat, d: nat, prec: nat)
    requires
        d > 0,
        prec > 0,
    ensures
        n >= d * pow2((prec - 1) as nat) ==> {
            &&& (rounded(n, d, prec) * d - n) * pow2(prec) <= n
            &&& (n - rounded(n, d, prec) * d) * pow2(prec) <= n
        },
        n < d * pow2((prec - 1) as nat) ==> {
            &&& 2 * (rounded(n, d, prec) * d - n) <= d
            &&& 2 * (n - rounded(n, d, prec) * d) <= d
        },
{
    let x = n / d;
    let e = excess_bits(x, prec);
    let u = pow2(e);
    let h = pow2((prec - 1) as nat);
    lemma_pow2_pos(e);
    lemma_pow2_pos((prec - 1) as nat);
    lemma_pow2_unfold(prec);
    vstd::arithmetic::power2::lemma2_to64();
    let w = d * u;
    assert(w > 0) by (nonlinear_arith)
        requires
            d > 0,
            u > 0,
            w == d * u,
    ;
    let q = n / w;
    let r = n % w;
    lemma_fundamental_div_mod(n as int, w as int);
    vstd::arithmetic::div_mod::lemma_mod_bound(n as int, w as int);
    let m = nearest(n, w);
    let v = rounded(n, d, prec);
    assert(v * d == m * w) by (nonlinear_arith)
        requires
            v == m * u,
            w == d * u,
    ;
    assert(2 * (m * w - n) <= w && 2 * (n - m * w) <= w) by {
        if m == q {
            assert(m * w == w * q) by (nonlinear_arith)
                requires
                    m == q,
            ;
        } else {
            assert(m == q + 1);
            assert(m * w == w * q + w) by (nonlinear_arith)
                requires
                    m == q + 1,
            ;
        }
    }
    lemma_fundamental_div_mod(n as int, d as int);
    assert(d * x <= n);
    lemma_excess_bits_full(x, prec);
    if n < d * h {
        assert(e == 0) by {
            if e > 0 {
                assert(x >= h) by {
                    lemma_pow2_monotone((prec - 1) as nat, (prec - 1 + e) as nat);
                }
                assert(d * x >= d * h) by (nonlinear_arith)
                    requires
                        x >= h,
                ;
            }
        }
        assert(w == d) by (nonlinear_arith)
            requires
                w == d * u,
                u == 1,
        ;
    } else {
        assert(w * h <= n) by {
            if e > 0 {
                lemma_pow2_adds((prec - 1) as nat, e);
                assert(d * (h * u) <= d * x) by (nonlinear_arith)
                    requires
                        x >= h * u,
                ;
                assert(w * h == d * (h * u)) by (nonlinear_arith)
                    requires
                        w == d * u,
                ;
            } else {
                assert(w == d) by (nonlinear_arith)
                    requires
                        w == d * u,
                        u == 1,
                ;
                assert(w * h == d * h);
            }
        }
        let err = v * d - n;
        assert(err * (2 * h) <= w * h && (-err) * (2 * h) <= w * h) by (nonlinear_arith)
            requires
                2 * err <= w,
                2 * (-err) <= w,
                h > 0,
        ;
    }
}

/// The nearest integer is within one half, and of two that are equally near it is the
/// even one.
pub proof fn law_nearest_is_near_and_even(n: nat, d: nat)
    requires
        d > 0,
    ensures
        2 * (nearest(n, d) * d - n) <= d,
        2 * (n - nearest(n, d) * d) <= d,
        2 * (n % d) == d ==> nearest(n, d) % 2 == 0,
{
    let q = n / d;
    lemma_fundamental_div_mod(n as int, d as int);
    vstd::arithmetic::div_mod::lemma_mod_bound(n as int, d as int);
    if nearest(n, d) == q {
        assert(nearest(n, d) * d == d * q) by (nonlinear_arith)
            requires
                nearest(n, d) == q,
        ;
    } else {
        assert(nearest(n, d) * d == d * q + d) by (nonlinear_arith)
            requires
                nearest(n, d) == q + 1,
        ;
    }
}

/// `v` is `k` times `2^e`.
pub open spec fn is_scaled(v: nat, k: nat, e: nat) -> bool {
    v == k * pow2(e)
}

/// A rounded value has no more than `prec` significant bits: it is a number up to
/// `2^prec` times a power of two. A value that has no more is left as it is.
pub proof fn law_rounding_leaves_few_bits(n: nat, d: nat, prec: nat, x: nat, a: nat)
    requires
        d > 0,
        prec > 0,
    ensures
        exists|k: nat, e: nat|
            k <= pow2(prec) && #[trigger] is_scaled(rounded(n, d, prec), k, e),
        x < pow2(prec) ==> rounded(x * pow2(a), 1, prec) == x * pow2(a),
{
    let e = excess_bits(n / d, prec);
    let u = pow2(e);
    lemma_pow2_pos(e);
    lemma_excess_bits_below(n / d, prec);
    vstd::arithmetic::div_mod::lemma_div_denominator(n as int, d as int, u as int);
    let k = nearest(n, d * u);
    assert(k <= pow2(prec));
    assert(is_scaled(rounded(n, d, prec), k, e));
    if x < pow2(prec) {
        lemma_rounded_exact(x, a, prec);
    }
}

} // verus!
