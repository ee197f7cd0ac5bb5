//! Rounding of exact quotients to the magnitudes of a binary floating-point
//! format.
//!
//! A finite value of such a format is a whole number of its smallest positive
//! value, the *unit*. Counting in units turns every exact sum, product and
//! quotient into a quotient `n / d` of natural numbers, and rounding into one
//! rule for the whole range of exponents.
use vstd::arithmetic::div_mod::{
    lemma_div_is_ordered, lemma_fundamental_div_mod, lemma_fundamental_div_mod_converse,
    lemma_mod_pos_bound,
};
use vstd::arithmetic::mul::{
    lemma_mul_inequality, lemma_mul_is_associative, lemma_mul_is_commutative,
};
use vstd::arithmetic::power2::{
    lemma2_to64, lemma2_to64_rest, lemma_pow2_adds, lemma_pow2_pos, lemma_pow2_strictly_increases,
    lemma_pow2_unfold, pow2,
};
use vstd::prelude::*;

verus! {

/// The integer nearest to `n / d`; of two that are equally near, the even one.
pub open spec fn nearest_even(n: nat, d: nat) -> nat {
    let f = n / d;
    let r = n % d;
    if 2 * r < d {
        f
    } else if 2 * r > d {
        f + 1
    } else {
        f + f % 2
    }
}

/// The position of the leading one bit of `q`.
pub open spec fn floor_log2(q: nat) -> nat
    decreases q,
{
    if q <= 1 {
        0
    } else {
        1 + floor_log2(q / 2)
    }
}

/// How many binary places of `q` lie below a significand of `p` bits.
pub open spec fn dropped_places(p: nat, q: nat) -> nat {
    if q < pow2(p) {
        0
    } else {
        (floor_log2(q) + 1 - p) as nat
    }
}

/// The bit pattern, without the sign bit, of the value nearest to `n / d`
/// units in a format with `p` bits of significand and no largest exponent.
///
/// The pattern packs the number of places dropped above the significand. A
/// significand that rounds up to `2^p` carries into the places, and the pattern
/// is that of the next binade.
pub open spec fn round_magnitude(p: nat, n: nat, d: nat) -> nat {
    let s = dropped_places(p, n / d);
    s * pow2((p - 1) as nat) + nearest_even(n, d * pow2(s))
}

pub(crate) proof fn lemma_floor_log2(q: nat, k: nat)
    requires
        pow2(k) <= q < pow2(k + 1),
    ensures
        floor_log2(q) == k,
    decreases k,
{
    lemma2_to64();
    lemma_pow2_unfold(k + 1);
    if k > 0 {
        lemma_pow2_unfold(k);
        lemma_pow2_pos((k - 1) as nat);
        lemma_floor_log2(q / 2, (k - 1) as nat);
    }
}

proof fn lemma_leading_zeros(i: u64)
    requires
        i > 0,
    ensures
        0 <= vstd::std_specs::bits::u64_leading_zeros(i) <= 63,
        pow2((63 - vstd::std_specs::bits::u64_leading_zeros(i)) as nat) <= i,
        i < pow2((64 - vstd::std_specs::bits::u64_leading_zeros(i)) as nat),
    decreases i,
{
    reveal(vstd::std_specs::bits::u64_leading_zeros);
    lemma2_to64();
    vstd::std_specs::bits::axiom_u64_leading_zeros(i);
    if i >= 2 {
        lemma_leading_zeros(i / 2);
        let z = vstd::std_specs::bits::u64_leading_zeros(i / 2);
        assert(z >= 1) by {
            if z == 0 {
                lemma2_to64_rest();
                assert(i / 2 >= pow2(63));
            }
        }
        lemma_pow2_unfold((64 - z) as nat);
        lemma_pow2_unfold((65 - z) as nat);
    } else {
        assert(vstd::std_specs::bits::u64_leading_zeros(0) == 64);
        assert(i / 2 == 0);
        assert(vstd::std_specs::bits::u64_leading_zeros(i) == 63);
    }
}

/// `n` and `d` after both were scaled so that `n / d` units read as a number of
/// `2^t` units.
spec fn scaled_numerator(n: nat, t: int) -> nat {
    if t < 0 {
        n * pow2((-t) as nat)
    } else {
        n
    }
}

spec fn scaled_denominator(d: nat, t: int) -> nat {
    if t < 0 {
        d
    } else {
        d * pow2(t as nat)
    }
}

proof fn lemma_scaled_denominator_pos(d: nat, t: int)
    requires
        d > 0,
    ensures
        scaled_denominator(d, t) > 0,
{
    if t >= 0 {
        lemma_pow2_pos(t as nat);
        assert(d * pow2(t as nat) > 0) by (nonlinear_arith)
            requires
                d > 0,
                pow2(t as nat) > 0,
        ;
    }
}

/// `a` is the whole part of `n / d` counted in steps of `2^t` units, and
/// `sticky` tells whether something is left over.
pub(crate) closed spec fn encloses(a: nat, t: int, sticky: bool, n: nat, d: nat) -> bool {
    let nn = scaled_numerator(n, t);
    let dd = scaled_denominator(d, t);
    &&& a * dd <= nn < (a + 1) * dd
    &&& sticky <==> nn != a * dd
}

/// The whole part of a quotient of two significands encloses the quotient of
/// the values they stand for.
pub(crate) proof fn lemma_encloses_quotient(
    ma: nat,
    mb: nat,
    g: nat,
    h: nat,
    y: nat,
    a: nat,
    sticky: bool,
)
    requires
        mb > 0,
        a == (ma * pow2(y)) / mb,
        sticky == ((ma * pow2(y)) % mb != 0),
    ensures
        mb * pow2(h) > 0,
        encloses(a, g - h - y, sticky, ma * pow2(g), mb * pow2(h)),
{
    let t = g - h - y;
    let top = ma * pow2(y);
    let n = ma * pow2(g);
    let d = mb * pow2(h);
    let nn = scaled_numerator(n, t);
    let dd = scaled_denominator(d, t);
    lemma_pow2_pos(h);
    assert(mb * pow2(h) > 0) by (nonlinear_arith)
        requires
            mb > 0,
            pow2(h) > 0,
    ;
    lemma_fundamental_div_mod(top as int, mb as int);
    lemma_mod_pos_bound(top as int, mb as int);
    let c = if t >= 0 {
        pow2((g - y) as nat)
    } else {
        pow2(h)
    };
    if t >= 0 {
        lemma_pow2_adds(y, (g - y) as nat);
        lemma_pow2_adds(h, t as nat);
        lemma_pow2_pos((g - y) as nat);
        assert(nn == top * c) by (nonlinear_arith)
            requires
                nn == ma * pow2(g),
                top == ma * pow2(y),
                pow2(g) == pow2(y) * c,
        ;
        assert(dd == mb * c) by (nonlinear_arith)
            requires
                dd == (mb * pow2(h)) * pow2(t as nat),
                c == pow2(h) * pow2(t as nat),
        ;
    } else {
        let j = (-t) as nat;
        lemma_pow2_adds(g, j);
        lemma_pow2_adds(y, h);
        assert(nn == top * c) by (nonlinear_arith)
            requires
                nn == (ma * pow2(g)) * pow2(j),
                top == ma * pow2(y),
                pow2(g) * pow2(j) == pow2(y) * c,
        ;
        assert(dd == mb * c);
    }
    let r = top % mb;
    assert(nn == a * dd + r * c) by (nonlinear_arith)
        requires
            nn == top * c,
            dd == mb * c,
            top == mb * a + r,
    ;
    assert(0 <= r * c < dd) by (nonlinear_arith)
        requires
            0 <= r < mb,
            c > 0,
            dd == mb * c,
    ;
    assert((r * c == 0) == (r == 0)) by (nonlinear_arith)
        requires
            c > 0,
    ;
    assert((a + 1) * dd == a * dd + dd) by (nonlinear_arith);
}

/// A significand with an exponent encloses the value that it stands for.
pub(crate) proof fn lemma_encloses_exact(a: nat, g: nat, h: nat)
    ensures
        pow2(h) > 0,
        encloses(a, g - h, false, a * pow2(g), pow2(h)),
{
    lemma2_to64();
    lemma_encloses_quotient(a, 1, g, h, 0, a, false);
}

/// `a` steps of `2^t` units with less than a step more or less.
pub(crate) proof fn lemma_encloses_step(a: nat, t: nat, n: nat)
    requires
        a * pow2(t) < n < (a + 1) * pow2(t),
    ensures
        encloses(a, t as int, true, n, 1),
{
}

/// What is left of `a`, with `sticky` below it, when `k` places are rounded off.
spec fn rounded(a: nat, k: int, sticky: bool) -> nat {
    if k <= 0 {
        a * pow2((-k) as nat)
    } else {
        let f = a / pow2(k as nat);
        let r = a % pow2(k as nat);
        let half = pow2((k - 1) as nat);
        if r < half {
            f
        } else if r > half || sticky {
            f + 1
        } else {
            f + f % 2
        }
    }
}

proof fn lemma_quotient_bounds(n: nat, d: nat, low: nat, high: nat)
    requires
        d > 0,
        low * d <= n < high * d,
    ensures
        low <= n / d < high,
{
    lemma_fundamental_div_mod(n as int, d as int);
    lemma_mod_pos_bound(n as int, d as int);
    let q = n / d;
    assert(low <= q) by (nonlinear_arith)
        requires
            low * d <= n,
            n == d * q + n % d,
            n % d < d,
            d > 0,
    ;
    assert(q < high) by (nonlinear_arith)
        requires
            n < high * d,
            n == d * q + n % d,
            n % d >= 0,
            d > 0,
    ;
}

proof fn lemma_nearest_even_scales(n: nat, d: nat, c: nat)
    requires
        d > 0,
        c > 0,
    ensures
        c * d > 0,
        nearest_even(c * n, c * d) == nearest_even(n, d),
{
    let f = n / d;
    let r = n % d;
    lemma_fundamental_div_mod(n as int, d as int);
    lemma_mod_pos_bound(n as int, d as int);
    assert(c * n == (c * d) * f + c * r) by (nonlinear_arith)
        requires
            n == d * f + r,
    ;
    assert(0 <= c * r < c * d) by (nonlinear_arith)
        requires
            0 <= r < d,
            c > 0,
    ;
    lemma_mul_is_commutative((c * d) as int, f as int);
    lemma_fundamental_div_mod_converse((c * n) as int, (c * d) as int, f as int, (c * r) as int);
    assert((2 * (c * r) < c * d) == (2 * r < d)) by (nonlinear_arith)
        requires
            c > 0,
    ;
    assert((2 * (c * r) > c * d) == (2 * r > d)) by (nonlinear_arith)
        requires
            c > 0,
    ;
}

/// How many places are dropped follows from the length of the whole part.
proof fn lemma_dropped_places(p: nat, a: nat, t: int, sticky: bool, n: nat, d: nat, len: nat)
    requires
        p >= 1,
        d > 0,
        len >= 1,
        pow2((len - 1) as nat) <= a < pow2(len),
        encloses(a, t, sticky, n, d),
    ensures
        dropped_places(p, n / d) == if len + t <= p {
            0
        } else {
            len + t - p
        },
{
    let q = n / d;
    lemma_pow2_pos(p);
    let lo = pow2((len - 1) as nat);
    let hi = pow2(len);
    if len + t <= 0 {
        let j = (-t) as nat;
        if len < j {
            lemma_pow2_strictly_increases(len, j);
        }
        let c = pow2(j);
        lemma_pow2_pos(j);
        assert(n < 1 * d) by (nonlinear_arith)
            requires
                n * c < (a + 1) * d,
                a + 1 <= c,
                c > 0,
                d > 0,
        ;
        lemma_quotient_bounds(n, d, 0, 1);
        assert(q == 0);
    } else {
        let e = (len + t) as nat;
        let below = pow2((e - 1) as nat);
        let above = pow2(e);
        if t >= 0 {
            let c = pow2(t as nat);
            lemma_pow2_pos(t as nat);
            lemma_pow2_adds((len - 1) as nat, t as nat);
            lemma_pow2_adds(len, t as nat);
            assert(below * d <= n) by (nonlinear_arith)
                requires
                    below == lo * c,
                    lo <= a,
                    a * (d * c) <= n,
            ;
            assert(n < above * d) by (nonlinear_arith)
                requires
                    above == hi * c,
                    a + 1 <= hi,
                    n < (a + 1) * (d * c),
            ;
        } else {
            let j = (-t) as nat;
            let c = pow2(j);
            lemma_pow2_pos(j);
            lemma_pow2_adds((e - 1) as nat, j);
            lemma_pow2_adds(e, j);
            assert(below * d <= n) by (nonlinear_arith)
                requires
                    lo == below * c,
                    lo <= a,
                    a * d <= n * c,
                    c > 0,
            ;
            assert(n < above * d) by (nonlinear_arith)
                requires
                    hi == above * c,
                    a + 1 <= hi,
                    n * c < (a + 1) * d,
                    c > 0,
            ;
        }
        lemma_quotient_bounds(n, d, below, above);
        if e <= p {
            if e < p {
                lemma_pow2_strictly_increases(e, p);
            }
        } else {
            if p < e - 1 {
                lemma_pow2_strictly_increases(p, (e - 1) as nat);
            }
            lemma_floor_log2(q, (e - 1) as nat);
        }
    }
}

/// Rounding `n / d` to steps of `2^s` units is rounding off the low places of
/// its whole part.
proof fn lemma_rounded(a: nat, t: int, sticky: bool, n: nat, d: nat, s: nat)
    requires
        d > 0,
        encloses(a, t, sticky, n, d),
        sticky ==> s - t > 0,
    ensures
        nearest_even(n, d * pow2(s)) == rounded(a, s - t, sticky),
{
    let k = s - t;
    let nn = scaled_numerator(n, t);
    let dd = scaled_denominator(d, t);
    lemma_pow2_pos(s);
    assert(d * pow2(s) > 0) by (nonlinear_arith)
        requires
            d > 0,
            pow2(s) > 0,
    ;
    if k <= 0 {
        // Nothing is rounded off: t >= s >= 0.
        let c = pow2((-k) as nat);
        lemma_pow2_adds((-k) as nat, s);
        let ds = d * pow2(s);
        assert(n == (a * c) * ds + 0) by (nonlinear_arith)
            requires
                n == a * (d * pow2(t as nat)),
                pow2(t as nat) == c * pow2(s),
                ds == d * pow2(s),
        ;
        lemma_fundamental_div_mod_converse(n as int, ds as int, (a * c) as int, 0);
    } else {
        let b = pow2(k as nat);
        lemma_pow2_pos(k as nat);
        lemma_pow2_unfold(k as nat);
        let half = pow2((k - 1) as nat);
        lemma_scaled_denominator_pos(d, t);
        let big = dd * b;
        // The rounding step in the scaled quotient.
        if t < 0 {
            let j = (-t) as nat;
            lemma_pow2_pos(j);
            lemma_pow2_adds(s, j);
            lemma_nearest_even_scales(n, d * pow2(s), pow2(j));
            assert(pow2(j) * n == nn) by (nonlinear_arith)
                requires
                    nn == n * pow2(j),
            ;
            assert(pow2(j) * (d * pow2(s)) == big) by (nonlinear_arith)
                requires
                    big == d * b,
                    b == pow2(s) * pow2(j),
            ;
        } else {
            lemma_pow2_adds(t as nat, k as nat);
            assert(d * pow2(s) == big) by (nonlinear_arith)
                requires
                    pow2(s) == pow2(t as nat) * b,
                    big == (d * pow2(t as nat)) * b,
            ;
        }
        assert(nearest_even(n, d * pow2(s)) == nearest_even(nn, big));
        let f = a / b;
        let r = a % b;
        lemma_fundamental_div_mod(a as int, b as int);
        lemma_mod_pos_bound(a as int, b as int);
        let rest = (nn - a * dd) as nat;
        let rem = r * dd + rest;
        assert(rest < dd) by (nonlinear_arith)
            requires
                nn < (a + 1) * dd,
                rest == nn - a * dd,
        ;
        assert(nn == f * big + rem) by (nonlinear_arith)
            requires
                nn == a * dd + rest,
                a == b * f + r,
                big == dd * b,
                rem == r * dd + rest,
        ;
        assert(0 <= rem < big) by (nonlinear_arith)
            requires
                rem == r * dd + rest,
                0 <= rest < dd,
                0 <= r,
                r + 1 <= b,
                big == dd * b,
        ;
        lemma_fundamental_div_mod_converse(nn as int, big as int, f as int, rem as int);
        assert(big == 2 * (half * dd)) by (nonlinear_arith)
            requires
                big == dd * b,
                b == 2 * half,
        ;
        if r < half {
            assert(rem < half * dd) by (nonlinear_arith)
                requires
                    rem == r * dd + rest,
                    rest < dd,
                    r + 1 <= half,
            ;
        } else if r > half {
            assert(rem > half * dd) by (nonlinear_arith)
                requires
                    rem == r * dd + rest,
                    rest >= 0,
                    r >= half + 1,
                    dd > 0,
            ;
        } else {
            assert(rem == half * dd + rest);
        }
    }
}

/// What is kept of `a` fits in `p` bits, or is the next power of two.
proof fn lemma_significand_bound(a: nat, k: int, sticky: bool, len: nat, p: nat)
    requires
        len >= 1,
        p >= 1,
        pow2((len - 1) as nat) <= a < pow2(len),
        len - k <= p,
    ensures
        rounded(a, k, sticky) <= pow2(p),
{
    lemma_pow2_pos(p);
    if k <= 0 {
        let c = pow2((-k) as nat);
        lemma_pow2_pos((-k) as nat);
        lemma_pow2_adds(len, (-k) as nat);
        if len - k < p {
            lemma_pow2_strictly_increases((len - k) as nat, p);
        }
        assert(a * c <= pow2(len) * c) by (nonlinear_arith)
            requires
                a < pow2(len),
        ;
    } else {
        let b = pow2(k as nat);
        lemma_pow2_pos(k as nat);
        lemma_pow2_adds(p, k as nat);
        if len < p + k {
            lemma_pow2_strictly_increases(len, (p + k) as nat);
        }
        lemma_quotient_bounds(a, b, 0, pow2(p));
    }
}

/// When places are dropped, all `p` bits of the significand are in use.
proof fn lemma_full_significand(a: nat, k: int, sticky: bool, len: nat, p: nat)
    requires
        len >= 1,
        p >= 1,
        pow2((len - 1) as nat) <= a < pow2(len),
        len - k == p,
    ensures
        rounded(a, k, sticky) >= pow2((p - 1) as nat),
{
    if k <= 0 {
        let c = pow2((-k) as nat);
        lemma_pow2_adds((len - 1) as nat, (-k) as nat);
        assert(a * c >= pow2((len - 1) as nat) * c) by (nonlinear_arith)
            requires
                a >= pow2((len - 1) as nat),
        ;
    } else {
        let b = pow2(k as nat);
        lemma_pow2_pos(k as nat);
        lemma_pow2_adds((p - 1) as nat, k as nat);
        lemma_pow2_adds(p, k as nat);
        lemma_quotient_bounds(a, b, pow2((p - 1) as nat), pow2(p));
    }
}

/// The number of bits that `a` occupies.
pub(crate) fn bit_length(a: u128) -> (len: u32)
    requires
        a > 0,
    ensures
        1 <= len <= 128,
        pow2((len - 1) as nat) <= a < pow2(len as nat),
{
    let high: u64 = (a >> 64u128) as u64;
    let low: u64 = a as u64;
    proof {
        assert((a >> 64u128) <= 0xffff_ffff_ffff_ffff) by (bit_vector);
        assert(a == (a >> 64u128) * 0x1_0000_0000_0000_0000 + (a as u64)) by (bit_vector);
        lemma2_to64();
        lemma2_to64_rest();
    }
    if high > 0 {
        let z: u32 = high.leading_zeros();
        proof {
            lemma_leading_zeros(high);
            lemma_pow2_adds((63 - z) as nat, 64);
            lemma_pow2_adds((64 - z) as nat, 64);
        }
        128 - z
    } else {
        let z: u32 = low.leading_zeros();
        proof {
            lemma_leading_zeros(low);
        }
        64 - z
    }
}

proof fn lemma_one_shifted(k: u128)
    requires
        k < 128,
    ensures
        1u128 << k == pow2(k as nat),
    decreases k,
{
    lemma2_to64();
    if k == 0 {
        assert(1u128 << 0u128 == 1) by (bit_vector);
    } else {
        let j: u128 = (k - 1) as u128;
        lemma_one_shifted(j);
        lemma_pow2_unfold(k as nat);
        assert(1u128 << k == 2 * (1u128 << j)) by (bit_vector)
            requires
                0 < k < 128,
                j == k - 1,
        ;
    }
}

/// `2^k`.
pub(crate) fn power_of_two(k: u32) -> (r: u128)
    requires
        k < 128,
    ensures
        r == pow2(k as nat),
        r > 0,
{
    proof {
        lemma_one_shifted(k as u128);
        lemma_pow2_pos(k as nat);
    }
    1u128 << (k as u128)
}

/// Rounds off the low `k` places of `a`.
fn round_off(a: u128, k: i32, sticky: bool) -> (m: u128)
    requires
        a < pow2(126),
        -127 <= k,
        k <= 0 ==> a * pow2((-k) as nat) <= u128::MAX,
    ensures
        m == rounded(a as nat, k as int, sticky),
{
    if k <= 0 {
        let c = power_of_two((-k) as u32);
        proof {
            assert(c == pow2((-k) as nat));
        }
        return a * c;
    }
    if k >= 127 {
        proof {
            if k > 127 {
                lemma_pow2_strictly_increases(127, k as nat);
            }
            lemma_pow2_strictly_increases(126, k as nat);
            if k > 127 {
                lemma_pow2_strictly_increases(126, (k - 1) as nat);
            }
            lemma_fundamental_div_mod_converse(a as int, pow2(k as nat) as int, 0, a as int);
        }
        return 0;
    }
    let one = power_of_two(k as u32);
    let half = power_of_two((k - 1) as u32);
    let f: u128 = a >> (k as u128);
    proof {
        vstd::bits::lemma_u128_shr_is_div(a, k as u128);
        lemma_fundamental_div_mod(a as int, one as int);
        lemma_mod_pos_bound(a as int, one as int);
        lemma_mul_is_commutative(one as int, f as int);
        assert(f * one <= a);
        lemma_mul_inequality(1, one as int, f as int);
        lemma_mul_is_commutative(one as int, f as int);
        assert(f <= a) by (nonlinear_arith)
            requires
                f * one <= a,
                one >= 1,
                f >= 0,
        ;
        lemma2_to64();
        lemma2_to64_rest();
        lemma_pow2_adds(64, 62);
    }
    let r: u128 = a - f * one;
    if r < half {
        f
    } else if r > half || sticky {
        f + 1
    } else {
        f + f % 2
    }
}

/// The magnitude at which a format with `p` bits of significand holds infinity.
pub open spec fn infinity_magnitude(p: nat) -> nat {
    if p == 53 {
        0x7ff0_0000_0000_0000
    } else {
        0x7f80_0000
    }
}

/// [`round_magnitude`] with infinity in place of what is too large for the
/// format.
pub open spec fn round_finite(p: nat, n: nat, d: nat) -> nat {
    let m = round_magnitude(p, n, d);
    if m < infinity_magnitude(p) {
        m
    } else {
        infinity_magnitude(p)
    }
}

/// Rounds a quotient of which the whole part is `a`, in steps of `2^t` units.
pub(crate) fn round_scaled(
    p: u32,
    a: u128,
    t: i32,
    sticky: bool,
    Ghost(n): Ghost<nat>,
    Ghost(d): Ghost<nat>,
) -> (m: u64)
    requires
        p == 53 || p == 24,
        0 < a < pow2(126),
        -4000 <= t <= 4000,
        sticky ==> a >= pow2(p as nat),
        d > 0,
        encloses(a as nat, t as int, sticky, n, d),
    ensures
        m == round_finite(p as nat, n, d),
{
    let len = bit_length(a);
    let whole: i32 = len as i32 + t - p as i32;
    let s: i32 = if whole <= 0 { 0 } else { whole };
    let k: i32 = s - t;
    let top: i32 = if p == 53 { 2047 } else { 255 };
    let base: u64 = if p == 53 { 0x10_0000_0000_0000 } else { 0x80_0000 };
    proof {
        lemma2_to64();
        lemma2_to64_rest();
        assert(base == pow2((p - 1) as nat));
        assert(infinity_magnitude(p as nat) == top * base);
        lemma_dropped_places(p as nat, a as nat, t as int, sticky, n, d, len as nat);
        assert(len > p || !sticky) by {
            if sticky && len <= p {
                if len < p {
                    lemma_pow2_strictly_increases(len as nat, p as nat);
                }
            }
        }
        lemma_rounded(a as nat, t as int, sticky, n, d, s as nat);
        assert(dropped_places(p as nat, n / d) == s);
    }
    if s >= top - 1 {
        proof {
            lemma_full_significand(a as nat, k as int, sticky, len as nat, p as nat);
            let r = rounded(a as nat, k as int, sticky);
            assert(s * base + r >= top * base) by (nonlinear_arith)
                requires
                    s >= top - 1,
                    r >= base,
            ;
        }
        return top as u64 * base;
    }
    proof {
        lemma_significand_bound(a as nat, k as int, sticky, len as nat, p as nat);
        lemma_pow2_pos((-k) as nat);
    }
    let r = round_off(a, k, sticky);
    assert(s * base <= 2046 * base) by (nonlinear_arith)
        requires
            0 <= s <= 2046,
            base >= 0,
    ;
    let m: u64 = s as u64 * base + r as u64;
    if m < top as u64 * base {
        m
    } else {
        top as u64 * base
    }
}

/// The value that a magnitude of a format with `p` bits of significand stands
/// for, in units.
pub open spec fn units_of(p: nat, m: nat) -> nat {
    let base = pow2((p - 1) as nat);
    if m < base {
        m
    } else {
        (base + m % base) * pow2((m / base - 1) as nat)
    }
}

/// A value of the format rounds to itself.
pub proof fn law_rounding_keeps_values(p: nat, m: nat)
    requires
        p >= 2,
    ensures
        round_magnitude(p, units_of(p, m), 1) == m,
{
    let base = pow2((p - 1) as nat);
    lemma_pow2_pos((p - 1) as nat);
    lemma_pow2_unfold(p);
    let n = units_of(p, m);
    lemma2_to64();
    if m < base {
        assert(n / 1 == n);
        assert(pow2(0) == 1);
        assert(nearest_even(n, 1) == n);
        assert(0 * base == 0);
    } else {
        let f = m % base;
        let e = m / base;
        lemma_fundamental_div_mod(m as int, base as int);
        lemma_mod_pos_bound(m as int, base as int);
        assert(e >= 1) by (nonlinear_arith)
            requires
                m == base * e + f,
                m >= base,
                f < base,
                e >= 0,
        ;
        let a = base + f;
        let s = (e - 1) as nat;
        lemma_encloses_exact(a, s, 0);
        lemma_dropped_places(p, a, s as int, false, n, 1, p);
        lemma_rounded(a, s as int, false, n, 1, s);
        assert(a * pow2(0) == a) by (nonlinear_arith)
            requires
                pow2(0) == 1,
        ;
        assert(s * base + a == m) by (nonlinear_arith)
            requires
                s == e - 1,
                a == base + f,
                m == base * e + f,
        ;
    }
}

/// A number of units that needs no more than `p` bits, and zeros behind them, is
/// kept as it is.
pub proof fn law_short_numbers_are_exact(p: nat, a: nat, e: nat)
    requires
        p >= 2,
        a < pow2(p),
    ensures
        units_of(p, round_magnitude(p, a * pow2(e), 1)) == a * pow2(e),
        round_magnitude(p, a * pow2(e), 1) <= (e + 2) * pow2((p - 1) as nat),
{
    lemma2_to64();
    let base = pow2((p - 1) as nat);
    lemma_pow2_pos((p - 1) as nat);
    lemma_pow2_unfold(p);
    let n = a * pow2(e);
    let m = round_magnitude(p, n, 1);
    if a == 0 {
        assert(n == 0);
        assert(nearest_even(0, 1) == 0);
        assert(0 * base == 0);
        assert(m == 0);
        assert((e + 2) * base >= 0) by (nonlinear_arith)
            requires
                base >= 0,
        ;
    } else {
        let len = floor_log2(a) + 1;
        lemma_floor_log2_bounds(a);
        assert(len <= p) by {
            if len > p {
                if p < len - 1 {
                    lemma_pow2_strictly_increases(p, (len - 1) as nat);
                }
            }
        }
        let s: nat = if len + e <= p {
            0
        } else {
            (len + e - p) as nat
        };
        lemma_encloses_exact(a, e, 0);
        lemma_dropped_places(p, a, e as int, false, n, 1, len);
        lemma_rounded(a, e as int, false, n, 1, s);
        let c = pow2((e - s) as nat);
        let kept = a * c;
        lemma_pow2_adds(s, (e - s) as nat);
        lemma_pow2_adds(len, (e - s) as nat);
        lemma_pow2_adds((len - 1) as nat, (e - s) as nat);
        lemma_pow2_pos((e - s) as nat);
        assert(m == s * base + kept);
        assert(n == kept * pow2(s)) by (nonlinear_arith)
            requires
                n == a * pow2(e),
                kept == a * c,
                pow2(e) == pow2(s) * c,
        ;
        assert(kept < pow2(len) * c) by (nonlinear_arith)
            requires
                kept == a * c,
                a < pow2(len),
                c > 0,
        ;
        assert(kept >= pow2((len - 1) as nat) * c) by (nonlinear_arith)
            requires
                kept == a * c,
                a >= pow2((len - 1) as nat),
        ;
        if len + e - s < p {
            lemma_pow2_strictly_increases((len + e - s) as nat, p);
        }
        assert(m <= (e + 2) * base) by (nonlinear_arith)
            requires
                m == s * base + kept,
                s <= e,
                kept <= 2 * base,
        ;
        if s == 0 {
            assert(0 * base == 0);
            if kept >= base {
                assert(1 * base == base);
                lemma_fundamental_div_mod_converse(m as int, base as int, 1, kept - base);
            }
            assert(kept * pow2(0) == kept) by (nonlinear_arith)
                requires
                    pow2(0) == 1,
            ;
        } else {
            assert((s + 1) * base == s * base + base) by (nonlinear_arith);
            lemma_fundamental_div_mod_converse(m as int, base as int, s as int + 1, kept - base);
            assert(m >= base) by (nonlinear_arith)
                requires
                    m == s * base + kept,
                    kept >= base,
                    s >= 0,
            ;
        }
    }
}

proof fn lemma_floor_log2_bounds(q: nat)
    requires
        q >= 1,
    ensures
        pow2(floor_log2(q)) <= q < pow2(floor_log2(q) + 1),
    decreases q,
{
    lemma2_to64();
    if q >= 2 {
        lemma_floor_log2_bounds(q / 2);
        let k = floor_log2(q / 2);
        lemma_pow2_unfold(k + 1);
        lemma_pow2_unfold(k + 2);
    }
}

/// Only the quotient counts.
pub(crate) proof fn lemma_round_scales(p: nat, n: nat, d: nat, c: nat)
    requires
        d > 0,
        c > 0,
    ensures
        round_magnitude(p, c * n, c * d) == round_magnitude(p, n, d),
{
    let f = n / d;
    let r = n % d;
    lemma_fundamental_div_mod(n as int, d as int);
    lemma_mod_pos_bound(n as int, d as int);
    assert(c * n == f * (c * d) + c * r) by (nonlinear_arith)
        requires
            n == d * f + r,
    ;
    assert(0 <= c * r < c * d) by (nonlinear_arith)
        requires
            0 <= r < d,
            c > 0,
    ;
    lemma_fundamental_div_mod_converse((c * n) as int, (c * d) as int, f as int, (c * r) as int);
    let s = dropped_places(p, f);
    lemma_pow2_pos(s);
    assert(d * pow2(s) > 0) by (nonlinear_arith)
        requires
            d > 0,
            pow2(s) > 0,
    ;
    lemma_nearest_even_scales(n, d * pow2(s), c);
    lemma_mul_is_associative(c as int, d as int, pow2(s) as int);
}

/// How far `u` units are from `n / d`, in parts of `1 / d`.
pub open spec fn distance(n: nat, d: nat, u: nat) -> nat {
    if n >= u * d {
        (n - u * d) as nat
    } else {
        (u * d - n) as nat
    }
}

/// What a significand packed with its dropped places stands for.
proof fn lemma_units_of_packed(p: nat, s: nat, kept: nat)
    requires
        p >= 2,
        kept <= pow2(p),
        s > 0 ==> kept >= pow2((p - 1) as nat),
    ensures
        units_of(p, s * pow2((p - 1) as nat) + kept) == kept * pow2(s),
{
    lemma2_to64();
    let base = pow2((p - 1) as nat);
    lemma_pow2_pos((p - 1) as nat);
    lemma_pow2_unfold(p);
    let m = s * base + kept;
    assert(m >= kept) by (nonlinear_arith)
        requires
            m == s * base + kept,
            s >= 0,
            base >= 0,
    ;
    if kept < base {
        assert(0 * base == 0);
        assert(kept * pow2(0) == kept) by (nonlinear_arith)
            requires
                pow2(0) == 1,
        ;
    } else if kept < 2 * base {
        assert((s + 1) * base == s * base + base) by (nonlinear_arith);
        lemma_fundamental_div_mod_converse(m as int, base as int, s as int + 1, kept - base);
    } else {
        assert((s + 2) * base == s * base + 2 * base) by (nonlinear_arith);
        lemma_fundamental_div_mod_converse(m as int, base as int, s as int + 2, 0);
        lemma_pow2_unfold(s + 1);
        assert(base * pow2(s + 1) == kept * pow2(s)) by (nonlinear_arith)
            requires
                kept == 2 * base,
                pow2(s + 1) == 2 * pow2(s),
        ;
    }
}

proof fn lemma_nearest_even_is_nearest(n: nat, d: nat, k: nat)
    requires
        d > 0,
    ensures
        distance(n, d, nearest_even(n, d)) <= distance(n, d, k),
{
    let f = n / d;
    let r = n % d;
    lemma_fundamental_div_mod(n as int, d as int);
    lemma_mod_pos_bound(n as int, d as int);
    lemma_mul_is_commutative(d as int, f as int);
    assert((f + 1) * d == f * d + d) by (nonlinear_arith);
    if k <= f {
        assert(k * d <= f * d) by (nonlinear_arith)
            requires
                k <= f,
        ;
    } else {
        assert(k * d >= (f + 1) * d) by (nonlinear_arith)
            requires
                k >= f + 1,
        ;
    }
}

/// No value of the format is nearer to `n / d` units than the one that it rounds
/// to.
pub proof fn law_rounding_is_nearest(p: nat, n: nat, d: nat, other: nat)
    requires
        p >= 2,
        d > 0,
    ensures
        distance(n, d, units_of(p, round_magnitude(p, n, d))) <= distance(
            n,
            d,
            units_of(p, other),
        ),
{
    lemma2_to64();
    let base = pow2((p - 1) as nat);
    lemma_pow2_pos((p - 1) as nat);
    lemma_pow2_unfold(p);
    let q = n / d;
    let s = dropped_places(p, q);
    let step = d * pow2(s);
    lemma_pow2_pos(s);
    assert(step > 0) by (nonlinear_arith)
        requires
            step == d * pow2(s),
            d > 0,
            pow2(s) > 0,
    ;
    let kept = nearest_even(n, step);
    // The quotient lies between base and 2 * base steps, or below them all.
    lemma_fundamental_div_mod(n as int, d as int);
    lemma_mod_pos_bound(n as int, d as int);
    let low: nat = if q < pow2(p) {
        0
    } else {
        base
    };
    assert(low * step <= n < (2 * base) * step) by {
        if q < pow2(p) {
            assert(n < (2 * base) * (d * 1)) by (nonlinear_arith)
                requires
                    n == d * q + n % d,
                    n % d < d,
                    q + 1 <= 2 * base,
                    d > 0,
            ;
            assert(d * pow2(0) == d * 1);
            assert(0 * step == 0);
        } else {
            lemma_pow2_pos(p);
            lemma_floor_log2_bounds(q);
            let k = floor_log2(q);
            assert(k >= p) by {
                if k < p {
                    if k + 1 < p {
                        lemma_pow2_strictly_increases(k + 1, p);
                    }
                }
            }
            assert(s == k + 1 - p);
            assert(s > 0);
            lemma_pow2_adds((p - 1) as nat, s);
            lemma_pow2_adds(p, s);
            assert(base * (d * pow2(s)) <= n) by (nonlinear_arith)
                requires
                    base * pow2(s) <= q,
                    n == d * q + n % d,
                    n % d >= 0,
                    d > 0,
            ;
            assert(n < (2 * base) * (d * pow2(s))) by (nonlinear_arith)
                requires
                    q + 1 <= (2 * base) * pow2(s),
                    n == d * q + n % d,
                    n % d < d,
                    d > 0,
            ;
        }
    }
    lemma_quotient_bounds(n, step, low, 2 * base);
    assert(s > 0 ==> low == base);
    lemma_units_of_packed(p, s, kept);
    lemma_mul_is_associative(kept as int, pow2(s) as int, d as int);
    lemma_mul_is_commutative(pow2(s) as int, d as int);
    assert(distance(n, d, kept * pow2(s)) == distance(n, step, kept));
    let e: nat = if other < base {
        0
    } else {
        (other / base - 1) as nat
    };
    let a: nat = if other < base {
        other
    } else {
        base + other % base
    };
    lemma_mod_pos_bound(other as int, base as int);
    assert(units_of(p, other) == a * pow2(e)) by {
        if other < base {
            assert(other * pow2(0) == other) by (nonlinear_arith)
                requires
                    pow2(0) == 1,
            ;
        }
    }
    if e >= s {
        let c = pow2((e - s) as nat);
        lemma_pow2_adds((e - s) as nat, s);
        let k = a * c;
        assert((a * pow2(e)) * d == k * step) by (nonlinear_arith)
            requires
                k == a * c,
                pow2(e) == c * pow2(s),
                step == d * pow2(s),
        ;
        lemma_nearest_even_is_nearest(n, step, k);
    } else {
        lemma_nearest_even_is_nearest(n, step, base);
        lemma_pow2_adds((s - 1 - e) as nat, e);
        lemma_pow2_pos((s - 1 - e) as nat);
        lemma_pow2_unfold(s);
        let c = pow2((s - 1 - e) as nat);
        assert((a * pow2(e)) * d <= base * step) by (nonlinear_arith)
            requires
                a <= 2 * base,
                pow2((s - 1) as nat) == c * pow2(e),
                c >= 1,
                pow2(s) == 2 * pow2((s - 1) as nat),
                step == d * pow2(s),
        ;
    }
}

/// A greater magnitude stands for a greater value.
pub(crate) proof fn lemma_units_in_order(p: nat, m1: nat, m2: nat)
    requires
        p >= 2,
        m1 < m2,
    ensures
        units_of(p, m1) < units_of(p, m2),
{
    let base = pow2((p - 1) as nat);
    lemma_pow2_pos((p - 1) as nat);
    lemma2_to64();
    if m2 >= base {
        let e2 = (m2 / base - 1) as nat;
        let f2 = m2 % base;
        lemma_fundamental_div_mod(m2 as int, base as int);
        lemma_mod_pos_bound(m2 as int, base as int);
        assert(m2 / base >= 1) by (nonlinear_arith)
            requires
                m2 == base * (m2 / base) + f2,
                m2 >= base,
                f2 < base,
        ;
        lemma_pow2_pos(e2);
        let c2 = pow2(e2);
        let u2 = units_of(p, m2);
        assert(u2 == (base + f2) * c2);
        if m1 < base {
            assert(u2 >= base) by (nonlinear_arith)
                requires
                    u2 == (base + f2) * c2,
                    c2 >= 1,
                    f2 >= 0,
            ;
        } else {
            let e1 = (m1 / base - 1) as nat;
            let f1 = m1 % base;
            lemma_fundamental_div_mod(m1 as int, base as int);
            lemma_mod_pos_bound(m1 as int, base as int);
            lemma_div_is_ordered(m1 as int, m2 as int, base as int);
            assert(m1 / base >= 1) by (nonlinear_arith)
                requires
                    m1 == base * (m1 / base) + f1,
                    m1 >= base,
                    f1 < base,
            ;
            let c1 = pow2(e1);
            let u1 = units_of(p, m1);
            assert(u1 == (base + f1) * c1);
            lemma_pow2_pos(e1);
            if e1 == e2 {
                assert(f1 < f2);
                assert(u1 < u2) by (nonlinear_arith)
                    requires
                        u1 == (base + f1) * c1,
                        u2 == (base + f2) * c1,
                        f1 < f2,
                        c1 >= 1,
                ;
            } else {
                lemma_pow2_unfold(e1 + 1);
                if e1 + 1 < e2 {
                    lemma_pow2_strictly_increases(e1 + 1, e2);
                }
                assert(u1 < u2) by (nonlinear_arith)
                    requires
                        u1 == (base + f1) * c1,
                        f1 < base,
                        u2 == (base + f2) * c2,
                        f2 >= 0,
                        c2 >= 2 * c1,
                        c1 >= 1,
                ;
            }
        }
    }
}

/// A greater value does not round to a smaller one.
pub proof fn law_rounding_keeps_order(p: nat, n1: nat, n2: nat, d: nat)
    requires
        p >= 2,
        d > 0,
        n1 <= n2,
    ensures
        round_magnitude(p, n1, d) <= round_magnitude(p, n2, d),
        round_finite(p, n1, d) <= round_finite(p, n2, d),
{
    let m1 = round_magnitude(p, n1, d);
    let m2 = round_magnitude(p, n2, d);
    if m1 > m2 {
        let u1 = units_of(p, m1);
        let u2 = units_of(p, m2);
        lemma_units_in_order(p, m2, m1);
        law_rounding_is_nearest(p, n1, d, m2);
        law_rounding_is_nearest(p, n2, d, m1);
        assert(u1 * d > u2 * d) by (nonlinear_arith)
            requires
                u1 > u2,
                d > 0,
        ;
        assert(n1 == n2);
    }
}

/// Two values differ by one part in `2^p` of the greater, at the least.
pub(crate) proof fn lemma_spacing(p: nat, m1: nat, m2: nat)
    requires
        p >= 2,
        m1 < m2,
    ensures
        (units_of(p, m2) - units_of(p, m1)) * pow2(p) >= units_of(p, m2),
{
    lemma2_to64();
    let base = pow2((p - 1) as nat);
    lemma_pow2_pos((p - 1) as nat);
    lemma_pow2_unfold(p);
    let m = (m2 - 1) as nat;
    if m1 < m {
        lemma_units_in_order(p, m1, m);
    }
    let u1 = units_of(p, m1);
    let u = units_of(p, m);
    let u2 = units_of(p, m2);
    assert((u2 - u) * (2 * base) >= u2) by {
        if m2 < base {
            assert(1 * (2 * base) == 2 * base);
        } else {
            let e = (m2 / base - 1) as nat;
            let f = m2 % base;
            let c = pow2(e);
            lemma_fundamental_div_mod(m2 as int, base as int);
            lemma_mod_pos_bound(m2 as int, base as int);
            assert(m2 / base >= 1) by (nonlinear_arith)
                requires
                    m2 == base * (m2 / base) + f,
                    m2 >= base,
                    f < base,
            ;
            lemma_pow2_pos(e);
            assert(m2 == (e + 1) * base + f) by (nonlinear_arith)
                requires
                    m2 == base * (e + 1) + f,
            ;
            if f > 0 {
                lemma_fundamental_div_mod_converse(m as int, base as int, e as int + 1, f - 1);
                assert(m >= base) by (nonlinear_arith)
                    requires
                        m == (e + 1) * base + f - 1,
                        f >= 1,
                        e >= 0,
                        base >= 0,
                ;
                assert((u2 - u) * (2 * base) >= u2) by (nonlinear_arith)
                    requires
                        u2 == (base + f) * c,
                        u == (base + (f - 1)) * c,
                        f < base,
                        c >= 0,
                ;
            } else if e == 0 {
                assert(m2 == base) by (nonlinear_arith)
                    requires
                        m2 == (e + 1) * base + f,
                        e == 0,
                        f == 0,
                ;
                assert(u2 == base * 1 && u == base - 1);
                assert((u2 - u) * (2 * base) >= u2) by (nonlinear_arith)
                    requires
                        u2 == base,
                        u == base - 1,
                        base >= 0,
                ;
            } else {
                assert(m == e * base + (base - 1)) by (nonlinear_arith)
                    requires
                        m == (e + 1) * base - 1,
                ;
                lemma_fundamental_div_mod_converse(m as int, base as int, e as int, base - 1);
                assert(m >= base) by (nonlinear_arith)
                    requires
                        m == e * base + (base - 1),
                        e >= 1,
                        base >= 1,
                ;
                lemma_pow2_unfold(e);
                let half = pow2((e - 1) as nat);
                assert((u2 - u) * (2 * base) >= u2) by (nonlinear_arith)
                    requires
                        u2 == (base + 0) * c,
                        u == (base + (base - 1)) * half,
                        c == 2 * half,
                ;
            }
        }
    }
    assert((u2 - u1) * (2 * base) >= (u2 - u) * (2 * base)) by (nonlinear_arith)
        requires
            u1 <= u,
            base >= 0,
    ;
}

/// Rounding changes a value, unless it is too small for the precision, by no more
/// than one part in `2^p`.
pub proof fn law_rounding_error(p: nat, n: nat, d: nat)
    requires
        p >= 2,
        d > 0,
        n >= pow2((p - 1) as nat) * d,
    ensures
        distance(n, d, units_of(p, round_magnitude(p, n, d))) * pow2(p) <= n,
{
    lemma2_to64();
    let base = pow2((p - 1) as nat);
    lemma_pow2_pos((p - 1) as nat);
    lemma_pow2_unfold(p);
    let q = n / d;
    let s = dropped_places(p, q);
    let step = d * pow2(s);
    lemma_pow2_pos(s);
    assert(step > 0) by (nonlinear_arith)
        requires
            step == d * pow2(s),
            d > 0,
            pow2(s) > 0,
    ;
    lemma_binade(p, n, d);
    let kept = nearest_even(n, step);
    lemma_quotient_bounds(n, step, base, 2 * base);
    lemma_units_of_packed(p, s, kept);
    lemma_mul_is_associative(kept as int, pow2(s) as int, d as int);
    lemma_mul_is_commutative(pow2(s) as int, d as int);
    assert(distance(n, d, kept * pow2(s)) == distance(n, step, kept));
    let f = n / step;
    let r = n % step;
    lemma_fundamental_div_mod(n as int, step as int);
    lemma_mod_pos_bound(n as int, step as int);
    lemma_mul_is_commutative(step as int, f as int);
    assert((f + 1) * step == f * step + step) by (nonlinear_arith);
    let gap = distance(n, step, kept);
    assert(2 * gap <= step);
    assert(gap * (2 * base) <= base * step) by (nonlinear_arith)
        requires
            2 * gap <= step,
            base >= 0,
    ;
}

/// A value that is not too small fills the significand.
proof fn lemma_binade(p: nat, n: nat, d: nat)
    requires
        p >= 2,
        d > 0,
        n >= pow2((p - 1) as nat) * d,
    ensures
        ({
            let base = pow2((p - 1) as nat);
            let step = d * pow2(dropped_places(p, n / d));
            base * step <= n < (2 * base) * step
        }),
{
    lemma2_to64();
    let base = pow2((p - 1) as nat);
    lemma_pow2_pos((p - 1) as nat);
    lemma_pow2_unfold(p);
    let q = n / d;
    let s = dropped_places(p, q);
    lemma_fundamental_div_mod(n as int, d as int);
    lemma_mod_pos_bound(n as int, d as int);
    if q < pow2(p) {
        assert(d * pow2(0) == d) by (nonlinear_arith)
            requires
                pow2(0) == 1,
        ;
        assert(n < (2 * base) * d) by (nonlinear_arith)
            requires
                n == d * q + n % d,
                n % d < d,
                q + 1 <= 2 * base,
                d > 0,
        ;
    } else {
        lemma_pow2_pos(p);
        lemma_floor_log2_bounds(q);
        let k = floor_log2(q);
        assert(k >= p) by {
            if k < p {
                if k + 1 < p {
                    lemma_pow2_strictly_increases(k + 1, p);
                }
            }
        }
        assert(s == k + 1 - p);
        lemma_pow2_adds((p - 1) as nat, s);
        lemma_pow2_adds(p, s);
        assert(base * (d * pow2(s)) <= n) by (nonlinear_arith)
            requires
                base * pow2(s) <= q,
                n == d * q + n % d,
                n % d >= 0,
                d > 0,
        ;
        assert(n < (2 * base) * (d * pow2(s))) by (nonlinear_arith)
            requires
                q + 1 <= (2 * base) * pow2(s),
                n == d * q + n % d,
                n % d < d,
                d > 0,
        ;
    }
}

/// Of two values that are equally near, the one with the even bit pattern is taken: half way
/// between the values of `m` and of `m + 1`, the even one of the two comes out.
pub proof fn law_ties_go_to_even(p: nat, m: nat, n: nat, d: nat)
    requires
        p >= 2,
        d > 0,
        2 * n == (units_of(p, m) + units_of(p, m + 1)) * d,
    ensures
        round_magnitude(p, n, d) == if m % 2 == 0 {
            m
        } else {
            m + 1
        },
{
    lemma2_to64();
    let base = pow2((p - 1) as nat);
    lemma_pow2_pos((p - 1) as nat);
    lemma_pow2_unfold((p - 1) as nat);
    lemma_pow2_unfold(p);
    // The significand and the places of the lower one of the two.
    let (a, t): (nat, nat) = if m < base {
        (m, 0)
    } else {
        (base + m % base, (m / base - 1) as nat)
    };
    if m >= base {
        lemma_fundamental_div_mod(m as int, base as int);
        lemma_mod_pos_bound(m as int, base as int);
        let (e, f) = ((m / base) as int, (m % base) as int);
        assert(e >= 1) by (nonlinear_arith)
            requires
                m == base * e + f,
                m >= base,
                f < base,
                e >= 0,
        ;
        assert(m == t * base + a) by (nonlinear_arith)
            requires
                m == base * e + f,
                t == e - 1,
                a == base + f,
        ;
    } else {
        assert(0 * base == 0);
    }
    lemma_units_of_packed(p, t, a);
    if a + 1 <= 2 * base {
        lemma_units_of_packed(p, t, a + 1);
    }
    let c = pow2(t);
    lemma_pow2_pos(t);
    assert(units_of(p, m) == a * c);
    assert(units_of(p, m + 1) == (a + 1) * c);
    let step = d * c;
    assert(2 * n == (2 * a + 1) * step) by (nonlinear_arith)
        requires
            2 * n == (a * c + (a + 1) * c) * d,
            step == d * c,
    ;
    assert(step > 0) by (nonlinear_arith)
        requires
            step == d * c,
            d > 0,
            c > 0,
    ;
    // Half a step is a whole number of parts.
    let half = n - a * step;
    assert((2 * a + 1) * step == 2 * (a * step) + step) by (nonlinear_arith);
    assert(2 * half == step);
    assert(a * step == step * a && (a + 1) * step == a * step + step) by (nonlinear_arith);
    lemma_fundamental_div_mod_converse(n as int, step as int, a as int, half);
    assert(dropped_places(p, n / d) == t) by {
        let q = n / d;
        lemma_fundamental_div_mod(n as int, d as int);
        lemma_mod_pos_bound(n as int, d as int);
        assert(a * c <= q) by (nonlinear_arith)
            requires
                n == d * q + n % d,
                n % d < d,
                n >= a * (d * c),
                d > 0,
        ;
        assert(q < (a + 1) * c) by (nonlinear_arith)
            requires
                n == d * q + n % d,
                n % d >= 0,
                n < (a + 1) * (d * c),
                d > 0,
        ;
        if t == 0 {
            assert(c == 1);
            assert(q == a) by (nonlinear_arith)
                requires
                    a * c <= q < (a + 1) * c,
                    c == 1,
            ;
        } else {
            lemma_pow2_adds((p - 1) as nat, t);
            lemma_pow2_adds(p, t);
            lemma_pow2_unfold((p + t) as nat);
            assert(base * c <= q < (2 * base) * c) by (nonlinear_arith)
                requires
                    a * c <= q < (a + 1) * c,
                    base <= a < 2 * base,
                    c > 0,
            ;
            lemma_pow2_unfold(t);
            assert(pow2(p) <= base * c) by (nonlinear_arith)
                requires
                    pow2(p) == 2 * base,
                    c >= 2,
                    base >= 0,
            ;
            lemma_floor_log2(q, (p - 1 + t) as nat);
        }
    }
    // The significand is even exactly where the pattern is.
    let h = pow2((p - 2) as nat);
    assert(t * base == 2 * (t * h)) by (nonlinear_arith)
        requires
            base == 2 * h,
    ;
}

} // verus!
