//! Binary floating-point numbers as bit patterns, with correctly rounded
//! arithmetic on them.
//!
//! [`Double`] and [`Single`] hold the bits of an IEEE 754 `binary64` and
//! `binary32` number. Every operation gives the value nearest to the exact
//! result, the one with the even significand of two that are equally near, as
//! the standard prescribes. A result that is not a number always has the same
//! bits.
use vstd::arithmetic::div_mod::{
    lemma_fundamental_div_mod, lemma_fundamental_div_mod_converse, lemma_mod_pos_bound,
};
use vstd::arithmetic::mul::lemma_mul_is_commutative;
use vstd::arithmetic::power2::{
    lemma2_to64, lemma2_to64_rest, lemma_pow2_adds, lemma_pow2_pos, lemma_pow2_strictly_increases,
    lemma_pow2_unfold, pow2,
};
use vstd::math::abs;
use vstd::prelude::*;

use crate::rounding::{
    bit_length, infinity_magnitude, law_rounding_error, law_rounding_keeps_order,
    law_rounding_keeps_values, law_short_numbers_are_exact,
    lemma_encloses_exact, lemma_encloses_quotient, lemma_encloses_step, lemma_round_scales,
    lemma_units_in_order, power_of_two, round_finite, round_magnitude, round_scaled, units_of,
};

verus! {

/// The bits of a `binary64` number.
///
/// Two values are equal when their bits are: zero differs from negative zero,
/// and a number that is not a number may equal itself.
#[derive(Debug, Clone, Copy, PartialEq, Eq, Structural)]
pub struct Double {
    pub bits: u64,
}

/// The bits of a `binary32` number.
///
/// Two values are equal when their bits are.
#[derive(Debug, Clone, Copy, PartialEq, Eq, Structural)]
pub struct Single {
    pub bits: u32,
}

/// `2^63`, the sign bit of a [`Double`].
pub const SIGN: u64 = 0x8000_0000_0000_0000;

/// The bits of infinity.
pub const INFINITY: u64 = 0x7ff0_0000_0000_0000;

/// The bits of a result that is not a number.
pub const NOT_A_NUMBER: u64 = 0x7ff8_0000_0000_0000;

/// `2^31`, the sign bit of a [`Single`].
pub const SINGLE_SIGN: u32 = 0x8000_0000;

/// The bits of infinity in single precision.
pub const SINGLE_INFINITY: u32 = 0x7f80_0000;

/// The bits of a single-precision result that is not a number.
pub const SINGLE_NOT_A_NUMBER: u32 = 0x7fc0_0000;

/// The bits of one.
pub const ONE: u64 = 0x3ff0_0000_0000_0000;

/// The bits of one half.
pub const HALF: u64 = 0x3fe0_0000_0000_0000;

/// The bits of two.
pub const TWO: u64 = 0x4000_0000_0000_0000;

/// The bits of half the largest finite number.
pub const HALF_OF_LARGEST: u64 = 0x7fdf_ffff_ffff_ffff;

/// A [`Double`] with the sign and the magnitude given.
pub open spec fn signed(negative: bool, magnitude: nat) -> Double {
    Double {
        bits: (if negative {
            SIGN + magnitude
        } else {
            magnitude as int
        }) as u64,
    }
}

/// The [`Double`] nearest to `n / d` times `2^-1074`, with the sign given.
pub open spec fn rounded_double(negative: bool, n: nat, d: nat) -> Double {
    signed(negative, round_finite(53, n, d))
}

/// Not a number.
pub open spec fn nan_double() -> Double {
    Double { bits: NOT_A_NUMBER }
}

impl Double {
    /// Whether the sign bit is set.
    pub open spec fn negative(self) -> bool {
        self.bits >= SIGN
    }

    /// The bits without the sign.
    pub open spec fn magnitude(self) -> nat {
        if self.bits >= SIGN {
            (self.bits - SIGN) as nat
        } else {
            self.bits as nat
        }
    }

    pub open spec fn nan(self) -> bool {
        self.magnitude() > INFINITY
    }

    pub open spec fn infinite(self) -> bool {
        self.magnitude() == INFINITY
    }

    pub open spec fn finite(self) -> bool {
        self.magnitude() < INFINITY
    }

    pub open spec fn zero(self) -> bool {
        self.magnitude() == 0
    }

    /// The absolute value of a finite number, in units of `2^-1074`.
    pub open spec fn units(self) -> nat {
        units_of(53, self.magnitude())
    }

    /// A finite number, in units of `2^-1074`.
    pub open spec fn signed_units(self) -> int {
        if self.negative() {
            -(self.units() as int)
        } else {
            self.units() as int
        }
    }

    /// The magnitude with the sign in front: numbers are in order as these are.
    pub open spec fn rank(self) -> int {
        if self.negative() {
            -(self.magnitude() as int)
        } else {
            self.magnitude() as int
        }
    }

    pub open spec fn spec_neg(self) -> Double {
        signed(!self.negative(), self.magnitude())
    }

    /// The sum, rounded.
    pub open spec fn spec_add(self, other: Double) -> Double {
        let sum = self.signed_units() + other.signed_units();
        if self.nan() || other.nan() {
            nan_double()
        } else if self.infinite() {
            if other.infinite() && self.negative() != other.negative() {
                nan_double()
            } else {
                self
            }
        } else if other.infinite() {
            other
        } else if sum == 0 {
            signed(self.negative() && other.negative(), 0)
        } else if sum < 0 {
            rounded_double(true, (-sum) as nat, 1)
        } else {
            rounded_double(false, sum as nat, 1)
        }
    }

    /// The difference, rounded.
    pub open spec fn spec_sub(self, other: Double) -> Double {
        self.spec_add(other.spec_neg())
    }

    /// The product, rounded.
    pub open spec fn spec_mul(self, other: Double) -> Double {
        let negative = self.negative() != other.negative();
        if self.nan() || other.nan() {
            nan_double()
        } else if self.infinite() || other.infinite() {
            if self.zero() || other.zero() {
                nan_double()
            } else {
                signed(negative, INFINITY as nat)
            }
        } else {
            rounded_double(negative, self.units() * other.units(), pow2(1074))
        }
    }

    /// The quotient, rounded.
    pub open spec fn spec_div(self, other: Double) -> Double {
        let negative = self.negative() != other.negative();
        if self.nan() || other.nan() {
            nan_double()
        } else if self.infinite() {
            if other.infinite() {
                nan_double()
            } else {
                signed(negative, INFINITY as nat)
            }
        } else if other.infinite() {
            signed(negative, 0)
        } else if other.zero() {
            if self.zero() {
                nan_double()
            } else {
                signed(negative, INFINITY as nat)
            }
        } else {
            rounded_double(negative, self.units() * pow2(1074), other.units())
        }
    }

    /// Whether this number is less than `other`; nothing is less than, or
    /// greater than, what is not a number.
    pub open spec fn spec_less(self, other: Double) -> bool {
        !self.nan() && !other.nan() && self.rank() < other.rank()
    }
}

proof fn lemma_double_constants()
    ensures
        pow2(52) == 0x10_0000_0000_0000,
        pow2(53) == 0x20_0000_0000_0000,
        pow2(23) == 0x80_0000,
        pow2(24) == 0x100_0000,
        pow2(0) == 1,
        pow2(63) == SIGN,
        infinity_magnitude(53) == INFINITY,
        infinity_magnitude(24) == SINGLE_INFINITY,
{
    lemma2_to64();
    lemma2_to64_rest();
}

/// The significand and the exponent of a finite magnitude.
fn unpack(m: u64) -> (r: (u64, u32))
    requires
        m < INFINITY,
    ensures
        units_of(53, m as nat) == r.0 * pow2(r.1 as nat),
        r.0 < pow2(53),
        r.1 <= 2045,
        r.1 > 0 ==> r.0 >= pow2(52),
        r.0 == 0 <==> m == 0,
{
    proof {
        lemma_double_constants();
    }
    if m < 0x10_0000_0000_0000 {
        assert(m * pow2(0) == m) by (nonlinear_arith)
            requires
                pow2(0) == 1,
        ;
        (m, 0)
    } else {
        (0x10_0000_0000_0000 + m % 0x10_0000_0000_0000, (m / 0x10_0000_0000_0000 - 1) as u32)
    }
}

pub(crate) proof fn lemma_zero_units(m: nat)
    requires
        m < INFINITY,
    ensures
        (units_of(53, m) == 0) == (m == 0),
{
    lemma_double_constants();
    if m >= pow2(52) {
        let e = (m / pow2(52) - 1) as nat;
        lemma_pow2_pos(e);
        let f = pow2(52) + m % pow2(52);
        assert(f * pow2(e) > 0) by (nonlinear_arith)
            requires
                f > 0,
                pow2(e) > 0,
        ;
    }
}

impl Double {
    /// The bits without the sign.
    fn strip(self) -> (m: u64)
        ensures
            m == self.magnitude(),
            m < SIGN,
    {
        if self.bits >= SIGN {
            self.bits - SIGN
        } else {
            self.bits
        }
    }

    fn with_sign(negative: bool, m: u64) -> (r: Double)
        requires
            m < SIGN,
        ensures
            r == signed(negative, m as nat),
    {
        if negative {
            Double { bits: SIGN + m }
        } else {
            Double { bits: m }
        }
    }

    /// Whether this is neither infinite nor not a number.
    pub fn is_finite(self) -> (r: bool)
        ensures
            r == self.finite(),
    {
        self.strip() < INFINITY
    }

    /// Whether this is not a number.
    pub fn is_nan(self) -> (r: bool)
        ensures
            r == self.nan(),
    {
        self.strip() > INFINITY
    }

    /// The number with the other sign.
    pub fn neg(self) -> (r: Double)
        ensures
            r == self.spec_neg(),
    {
        let m = self.strip();
        Double::with_sign(self.bits < SIGN, m)
    }

    /// The product.
    pub fn mul(self, other: Double) -> (r: Double)
        ensures
            r == self.spec_mul(other),
    {
        let negative = (self.bits >= SIGN) != (other.bits >= SIGN);
        let a = self.strip();
        let b = other.strip();
        if a > INFINITY || b > INFINITY {
            return Double { bits: NOT_A_NUMBER };
        }
        if a == INFINITY || b == INFINITY {
            if a == 0 || b == 0 {
                return Double { bits: NOT_A_NUMBER };
            }
            return Double::with_sign(negative, INFINITY);
        }
        let (ma, sa) = unpack(a);
        let (mb, sb) = unpack(b);
        let ghost n = self.units() * other.units();
        proof {
            lemma_double_constants();
            assert(ma * mb < 0x20_0000_0000_0000 * 0x20_0000_0000_0000) by (nonlinear_arith)
                requires
                    0 <= ma < 0x20_0000_0000_0000,
                    0 <= mb < 0x20_0000_0000_0000,
            ;
            lemma_pow2_adds(53, 53);
            lemma_pow2_strictly_increases(106, 126);
            lemma_pow2_adds(sa as nat, sb as nat);
            assert(n == (ma * mb) * pow2((sa + sb) as nat)) by (nonlinear_arith)
                requires
                    n == (ma * pow2(sa as nat)) * (mb * pow2(sb as nat)),
                    pow2((sa + sb) as nat) == pow2(sa as nat) * pow2(sb as nat),
            ;
            lemma_encloses_exact((ma * mb) as nat, (sa + sb) as nat, 1074);
        }
        let product: u128 = ma as u128 * mb as u128;
        if product == 0 {
            proof {
                assert(n == 0) by (nonlinear_arith)
                    requires
                        n == product * pow2((sa + sb) as nat),
                        product == 0,
                ;
                lemma_round_zero(pow2(1074));
            }
            return Double::with_sign(negative, 0);
        }
        let t: i32 = sa as i32 + sb as i32 - 1074;
        let m = round_scaled(53, product, t, false, Ghost(n), Ghost(pow2(1074)));
        Double::with_sign(negative, m)
    }
}

pub(crate) proof fn lemma_round_zero(d: nat)
    requires
        d > 0,
    ensures
        round_finite(53, 0, d) == 0,
        round_finite(24, 0, d) == 0,
{
    lemma_double_constants();
    lemma_pow2_pos(53);
    lemma_fundamental_div_mod_converse(0, d as int, 0, 0);
    assert(d * 1 == d);
    assert(0 * pow2(52) == 0);
    assert(0 * pow2(23) == 0);
}

impl Double {
    /// The quotient.
    pub fn div(self, other: Double) -> (r: Double)
        ensures
            r == self.spec_div(other),
    {
        let negative = (self.bits >= SIGN) != (other.bits >= SIGN);
        let a = self.strip();
        let b = other.strip();
        if a > INFINITY || b > INFINITY {
            return Double { bits: NOT_A_NUMBER };
        }
        if a == INFINITY {
            if b == INFINITY {
                return Double { bits: NOT_A_NUMBER };
            }
            return Double::with_sign(negative, INFINITY);
        }
        if b == INFINITY {
            return Double::with_sign(negative, 0);
        }
        if b == 0 {
            if a == 0 {
                return Double { bits: NOT_A_NUMBER };
            }
            return Double::with_sign(negative, INFINITY);
        }
        let (ma, sa) = unpack(a);
        let (mb, sb) = unpack(b);
        let ghost n = self.units() * pow2(1074);
        let ghost d = other.units();
        proof {
            lemma_double_constants();
            lemma_zero_units(b as nat);
        }
        if ma == 0 {
            proof {
                assert(n == 0) by (nonlinear_arith)
                    requires
                        n == (ma * pow2(sa as nat)) * pow2(1074),
                        ma == 0,
                ;
                lemma_round_zero(d);
            }
            return Double::with_sign(negative, 0);
        }
        let len = bit_length(ma as u128);
        proof {
            if len > 53 {
                if len > 54 {
                    lemma_pow2_strictly_increases(53, (len - 1) as nat);
                }
                assert(false);
            }
        }
        let y: u32 = 125 - len;
        let c = power_of_two(y);
        proof {
            lemma_pow2_adds((len - 1) as nat, y as nat);
            lemma_pow2_adds(len as nat, y as nat);
            assert(pow2(124) <= ma * c < pow2(125)) by (nonlinear_arith)
                requires
                    pow2((len - 1) as nat) <= ma < pow2(len as nat),
                    pow2(124) == pow2((len - 1) as nat) * c,
                    pow2(125) == pow2(len as nat) * c,
                    c > 0,
            ;
            lemma_pow2_strictly_increases(125, 126);
            lemma_pow2_strictly_increases(126, 128);
            lemma2_to64_rest();
            lemma_pow2_adds(64, 64);
        }
        let top: u128 = ma as u128 * c;
        let whole: u128 = top / mb as u128;
        let sticky = top % mb as u128 != 0;
        proof {
            let g = (sa + 1074) as nat;
            lemma_pow2_adds(sa as nat, 1074);
            assert(n == ma * pow2(g)) by (nonlinear_arith)
                requires
                    n == (ma * pow2(sa as nat)) * pow2(1074),
                    pow2(g) == pow2(sa as nat) * pow2(1074),
            ;
            lemma_encloses_quotient(
                ma as nat,
                mb as nat,
                g,
                sb as nat,
                y as nat,
                whole as nat,
                sticky,
            );
            lemma_fundamental_div_mod(top as int, mb as int);
            lemma_mod_pos_bound(top as int, mb as int);
            lemma_pow2_adds(71, 53);
            assert(whole >= pow2(71)) by (nonlinear_arith)
                requires
                    top == mb * whole + top % (mb as u128),
                    top % (mb as u128) < mb,
                    pow2(124) == pow2(71) * pow2(53),
                    top >= pow2(124),
                    0 < mb < pow2(53),
            ;
            lemma_pow2_strictly_increases(53, 71);
            assert(whole <= top) by (nonlinear_arith)
                requires
                    top == mb * whole + top % (mb as u128),
                    top % (mb as u128) >= 0,
                    mb >= 1,
                    whole >= 0,
            ;
        }
        let t: i32 = sa as i32 + 1074 - sb as i32 - y as i32;
        let m = round_scaled(53, whole, t, sticky, Ghost(n), Ghost(d));
        Double::with_sign(negative, m)
    }
}

/// Rounds the sum, or the difference, of two finite magnitudes of which the
/// first has the larger exponent.
fn combine(
    mx: u64,
    sx: u32,
    my: u64,
    sy: u32,
    negative: bool,
    opposite: bool,
) -> (r: Double)
    requires
        mx < pow2(53),
        my < pow2(53),
        sy <= sx <= 2045,
        sx > 0 ==> mx >= pow2(52),
    ensures
        ({
            let ux = mx * pow2(sx as nat);
            let uy = my * pow2(sy as nat);
            r == if !opposite {
                rounded_double(negative, (ux + uy) as nat, 1)
            } else if ux > uy {
                rounded_double(negative, (ux - uy) as nat, 1)
            } else if ux < uy {
                rounded_double(!negative, (uy - ux) as nat, 1)
            } else {
                signed(false, 0)
            }
        }),
{
    let ghost ux = (mx * pow2(sx as nat)) as nat;
    let ghost uy = (my * pow2(sy as nat)) as nat;
    let diff: u32 = sx - sy;
    proof {
        lemma_double_constants();
        lemma_pow2_strictly_increases(114, 126);
        lemma_pow2_strictly_increases(61, 126);
    }
    if diff <= 60 {
        let c = power_of_two(diff);
        proof {
            lemma_pow2_adds(sy as nat, diff as nat);
            lemma_pow2_adds(53, 60);
            lemma_pow2_adds(113, 1);
            lemma2_to64();
            if diff < 60 {
                lemma_pow2_strictly_increases(diff as nat, 60);
            }
            assert(mx * c < pow2(113)) by (nonlinear_arith)
                requires
                    0 <= mx < pow2(53),
                    0 < c <= pow2(60),
                    pow2(113) == pow2(53) * pow2(60),
            ;
            lemma_pow2_strictly_increases(53, 113);
            lemma_pow2_strictly_increases(126, 128);
            lemma2_to64_rest();
            lemma_pow2_adds(64, 64);
        }
        let x: u128 = mx as u128 * c;
        let y: u128 = my as u128;
        let ghost w = pow2(sy as nat);
        proof {
            lemma_pow2_pos(sy as nat);
            assert(ux == x * w) by (nonlinear_arith)
                requires
                    ux == mx * pow2(sx as nat),
                    pow2(sx as nat) == w * c,
                    x == mx * c,
            ;
            assert((x < y) == (ux < uy)) by (nonlinear_arith)
                requires
                    ux == x * w,
                    uy == y * w,
                    w > 0,
            ;
            assert((x > y) == (ux > uy)) by (nonlinear_arith)
                requires
                    ux == x * w,
                    uy == y * w,
                    w > 0,
            ;
        }
        let (sum, flip): (u128, bool) = if !opposite {
            (x + y, false)
        } else if x > y {
            (x - y, false)
        } else {
            (y - x, true)
        };
        let ghost n: nat = if !opposite {
            ux + uy
        } else if ux > uy {
            (ux - uy) as nat
        } else {
            (uy - ux) as nat
        };
        proof {
            assert(n == sum * w) by (nonlinear_arith)
                requires
                    ux == x * w,
                    uy == y * w,
                    (n == ux + uy && sum == x + y) || (n == ux - uy && sum == x - y) || (n == uy
                        - ux && sum == y - x),
            ;
        }
        if sum == 0 {
            proof {
                assert(n == 0) by (nonlinear_arith)
                    requires
                        n == sum * w,
                        sum == 0,
                ;
                lemma_round_zero(1);
            }
            if opposite {
                return Double { bits: 0 };
            }
            return Double::with_sign(negative, 0);
        }
        proof {
            lemma_encloses_exact(sum as nat, sy as nat, 0);
        }
        let m = round_scaled(53, sum, sy as i32, false, Ghost(n), Ghost(1));
        Double::with_sign(negative != flip, m)
    } else {
        let ghost t = (sx - 8) as nat;
        let ghost w = pow2(t);
        proof {
            lemma2_to64();
            lemma_pow2_pos(t);
            lemma_pow2_adds(t, 8);
            lemma_pow2_adds(53, 8);
            lemma_pow2_adds(53, sy as nat);
            if 53 + sy < t {
                lemma_pow2_strictly_increases((53 + sy) as nat, t);
            }
            lemma_pow2_pos(sy as nat);
            assert(ux == (mx * 256) * w) by (nonlinear_arith)
                requires
                    ux == mx * pow2(sx as nat),
                    pow2(sx as nat) == w * 256,
            ;
            assert(uy < w) by (nonlinear_arith)
                requires
                    uy == my * pow2(sy as nat),
                    my < pow2(53),
                    pow2(sy as nat) > 0,
                    pow2(53) * pow2(sy as nat) <= w,
            ;
            assert((uy == 0) == (my == 0)) by (nonlinear_arith)
                requires
                    uy == my * pow2(sy as nat),
                    pow2(sy as nat) > 0,
                    my >= 0,
            ;
            assert(ux >= w) by (nonlinear_arith)
                requires
                    ux == (mx * 256) * w,
                    mx >= 1,
                    w > 0,
            ;
        }
        let wide: u128 = mx as u128 * 256;
        let sticky = my > 0;
        let whole: u128 = if opposite && sticky {
            wide - 1
        } else {
            wide
        };
        let ghost n: nat = if opposite {
            (ux - uy) as nat
        } else {
            ux + uy
        };
        proof {
            if sticky {
                assert(whole * w < n < (whole + 1) * w) by (nonlinear_arith)
                    requires
                        ux == wide * w,
                        0 < uy < w,
                        (n == ux - uy && whole == wide - 1) || (n == ux + uy && whole == wide),
                ;
                lemma_encloses_step(whole as nat, t, n);
            } else {
                lemma_encloses_exact(whole as nat, t, 0);
            }
        }
        let m = round_scaled(53, whole, sx as i32 - 8, sticky, Ghost(n), Ghost(1));
        Double::with_sign(negative, m)
    }
}

impl Double {
    /// The sum.
    pub fn add(self, other: Double) -> (r: Double)
        ensures
            r == self.spec_add(other),
    {
        let na = self.bits >= SIGN;
        let nb = other.bits >= SIGN;
        let a = self.strip();
        let b = other.strip();
        if a > INFINITY || b > INFINITY {
            return Double { bits: NOT_A_NUMBER };
        }
        if a == INFINITY {
            if b == INFINITY && na != nb {
                return Double { bits: NOT_A_NUMBER };
            }
            return self;
        }
        if b == INFINITY {
            return other;
        }
        let (ma, sa) = unpack(a);
        let (mb, sb) = unpack(b);
        proof {
            lemma_round_zero(1);
        }
        if sa >= sb {
            combine(ma, sa, mb, sb, na, na != nb)
        } else {
            combine(mb, sb, ma, sa, nb, na != nb)
        }
    }

    /// The difference.
    pub fn sub(self, other: Double) -> (r: Double)
        ensures
            r == self.spec_sub(other),
    {
        self.add(other.neg())
    }
}

impl Double {
    /// The whole part, no less than zero and no more than `limit`; zero for what
    /// is not a number.
    pub open spec fn spec_clamped_index(self, limit: nat) -> nat {
        let whole = self.units() / pow2(1074);
        if self.nan() || self.negative() {
            0
        } else if self.infinite() || whole > limit {
            limit
        } else {
            whole
        }
    }

    /// The lesser of two numbers; the other one where one is not a number.
    pub open spec fn spec_min(self, other: Double) -> Double {
        if self.nan() || other.spec_less(self) {
            other
        } else {
            self
        }
    }

    /// The greater of two numbers; the other one where one is not a number.
    pub open spec fn spec_max(self, other: Double) -> Double {
        if self.nan() || self.spec_less(other) {
            other
        } else {
            self
        }
    }

    /// Half the sum of two numbers. Large numbers are halved first, so that their
    /// sum is in range.
    pub open spec fn spec_midpoint(self, other: Double) -> Double {
        let two = Double { bits: TWO };
        if self.magnitude() <= HALF_OF_LARGEST && other.magnitude() <= HALF_OF_LARGEST {
            self.spec_add(other).spec_div(two)
        } else {
            self.spec_div(two).spec_add(other.spec_div(two))
        }
    }

    /// The number `x`.
    pub open spec fn spec_from_count(x: nat) -> Double {
        rounded_double(false, x * pow2(1074), 1)
    }
}

impl Single {
    pub open spec fn negative(self) -> bool {
        self.bits >= SINGLE_SIGN
    }

    /// The bits without the sign.
    pub open spec fn magnitude(self) -> nat {
        if self.bits >= SINGLE_SIGN {
            (self.bits - SINGLE_SIGN) as nat
        } else {
            self.bits as nat
        }
    }

    pub open spec fn nan(self) -> bool {
        self.magnitude() > SINGLE_INFINITY
    }

    pub open spec fn infinite(self) -> bool {
        self.magnitude() == SINGLE_INFINITY
    }

    pub open spec fn finite(self) -> bool {
        self.magnitude() < SINGLE_INFINITY
    }

    /// The absolute value of a finite number, in units of `2^-149`.
    pub open spec fn units(self) -> nat {
        units_of(24, self.magnitude())
    }

    /// The magnitude with the sign in front: numbers are in order as these are.
    pub open spec fn rank(self) -> int {
        if self.negative() {
            -(self.magnitude() as int)
        } else {
            self.magnitude() as int
        }
    }

    /// Whether this is a finite number greater than zero.
    pub open spec fn spec_is_positive(self) -> bool {
        self.finite() && !self.negative() && self.magnitude() > 0
    }

    /// The same number in double precision.
    pub open spec fn spec_widen(self) -> Double {
        if self.nan() {
            nan_double()
        } else if self.infinite() {
            signed(self.negative(), INFINITY as nat)
        } else {
            rounded_double(self.negative(), self.units() * pow2(925), 1)
        }
    }

    /// A [`Single`] with the sign and the magnitude given.
    pub open spec fn spec_signed(negative: bool, magnitude: nat) -> Single {
        Single {
            bits: (if negative {
                SINGLE_SIGN + magnitude
            } else {
                magnitude as int
            }) as u32,
        }
    }

    /// The [`Single`] nearest to a [`Double`].
    pub open spec fn spec_narrow(x: Double) -> Single {
        if x.nan() {
            Single { bits: SINGLE_NOT_A_NUMBER }
        } else if x.infinite() {
            Single::spec_signed(x.negative(), SINGLE_INFINITY as nat)
        } else {
            Single::spec_signed(x.negative(), round_finite(24, x.units(), pow2(925)))
        }
    }
}

impl Double {
    /// Whether this number is less than `other`.
    pub fn less(self, other: Double) -> (r: bool)
        ensures
            r == self.spec_less(other),
    {
        let a = self.strip();
        let b = other.strip();
        if a > INFINITY || b > INFINITY {
            return false;
        }
        if self.bits >= SIGN {
            if other.bits >= SIGN {
                a > b
            } else {
                a > 0 || b > 0
            }
        } else {
            other.bits < SIGN && a < b
        }
    }

    /// The lesser of two numbers; the other one where one is not a number.
    pub fn min(self, other: Double) -> (r: Double)
        ensures
            r == self.spec_min(other),
    {
        if self.is_nan() || other.less(self) {
            other
        } else {
            self
        }
    }

    /// The greater of two numbers; the other one where one is not a number.
    pub fn max(self, other: Double) -> (r: Double)
        ensures
            r == self.spec_max(other),
    {
        if self.is_nan() || self.less(other) {
            other
        } else {
            self
        }
    }

    /// Half the sum of two numbers.
    pub fn midpoint(self, other: Double) -> (r: Double)
        ensures
            r == self.spec_midpoint(other),
    {
        let two = Double { bits: TWO };
        if self.strip() <= HALF_OF_LARGEST && other.strip() <= HALF_OF_LARGEST {
            self.add(other).div(two)
        } else {
            self.div(two).add(other.div(two))
        }
    }

    /// The number `x`.
    pub fn from_count(x: u32) -> (r: Double)
        ensures
            r == Double::spec_from_count(x as nat),
    {
        proof {
            lemma_double_constants();
        }
        if x == 0 {
            proof {
                lemma_round_zero(1);
            }
            return Double { bits: 0 };
        }
        proof {
            lemma_encloses_exact(x as nat, 1074, 0);
            lemma_pow2_strictly_increases(53, 126);
        }
        let ghost n = x as nat * pow2(1074);
        let m = round_scaled(53, x as u128, 1074, false, Ghost(n), Ghost(1));
        Double::with_sign(false, m)
    }

    /// The whole part, no less than zero and no more than `limit`; zero for what
    /// is not a number.
    pub fn clamped_index(self, limit: u32) -> (r: u32)
        ensures
            r == self.spec_clamped_index(limit as nat),
    {
        let a = self.strip();
        if a > INFINITY || self.bits >= SIGN {
            return 0;
        }
        if a == INFINITY {
            return limit;
        }
        let (m, s) = unpack(a);
        proof {
            lemma_double_constants();
            lemma2_to64();
            lemma_pow2_pos(1074);
        }
        if s >= 1074 {
            let e: u32 = s - 1074;
            proof {
                lemma_pow2_adds(e as nat, 1074);
                assert(self.units() == (m * pow2(e as nat)) * pow2(1074) + 0) by (nonlinear_arith)
                    requires
                        self.units() == m * pow2(s as nat),
                        pow2(s as nat) == pow2(e as nat) * pow2(1074),
                ;
                lemma_fundamental_div_mod_converse(
                    self.units() as int,
                    pow2(1074) as int,
                    (m * pow2(e as nat)) as int,
                    0,
                );
                lemma_pow2_pos(e as nat);
                assert(m * pow2(e as nat) >= m) by (nonlinear_arith)
                    requires
                        pow2(e as nat) >= 1,
                ;
            }
            limit
        } else {
            let e: u32 = 1074 - s;
            let whole: u64 = if e >= 64 {
                0
            } else {
                m >> (e as u64)
            };
            proof {
                let c = pow2(s as nat);
                lemma_pow2_pos(s as nat);
                lemma_pow2_adds(s as nat, e as nat);
                lemma_pow2_pos(e as nat);
                assert(pow2(1074) == c * pow2(e as nat));
                if e >= 64 {
                    lemma_pow2_strictly_increases(53, e as nat);
                    lemma_fundamental_div_mod_converse(m as int, pow2(e as nat) as int, 0, m as int);
                } else {
                    vstd::bits::lemma_u64_shr_is_div(m, e as u64);
                }
                assert(whole == m as nat / pow2(e as nat));
                let q = whole as int;
                let b = pow2(e as nat) as int;
                let r = m as int % b;
                lemma_fundamental_div_mod(m as int, b);
                lemma_mod_pos_bound(m as int, b);
                assert(self.units() == q * pow2(1074) + r * c) by (nonlinear_arith)
                    requires
                        self.units() == m * c,
                        m == b * q + r,
                        pow2(1074) == c * b,
                ;
                assert(0 <= r * c < pow2(1074)) by (nonlinear_arith)
                    requires
                        0 <= r < b,
                        c > 0,
                        pow2(1074) == c * b,
                ;
                lemma_fundamental_div_mod_converse(self.units() as int, pow2(1074) as int, q, r * c);
            }
            if whole > limit as u64 {
                limit
            } else {
                whole as u32
            }
        }
    }
}

impl Single {
    fn strip(self) -> (m: u32)
        ensures
            m == self.magnitude(),
            m < SINGLE_SIGN,
    {
        if self.bits >= SINGLE_SIGN {
            self.bits - SINGLE_SIGN
        } else {
            self.bits
        }
    }

    /// Whether this is neither infinite nor not a number.
    pub fn is_finite(self) -> (r: bool)
        ensures
            r == self.finite(),
    {
        self.strip() < SINGLE_INFINITY
    }

    /// Whether this is a finite number greater than zero.
    pub fn is_positive(self) -> (r: bool)
        ensures
            r == self.spec_is_positive(),
    {
        0 < self.bits && self.bits < SINGLE_INFINITY
    }

    /// The same number in double precision.
    pub fn widen(self) -> (r: Double)
        ensures
            r == self.spec_widen(),
    {
        let negative = self.bits >= SINGLE_SIGN;
        let a = self.strip();
        if a > SINGLE_INFINITY {
            return Double { bits: NOT_A_NUMBER };
        }
        if a == SINGLE_INFINITY {
            return Double::with_sign(negative, INFINITY);
        }
        proof {
            lemma_double_constants();
            lemma_pow2_strictly_increases(24, 126);
        }
        let (m, s): (u32, u32) = if a < 0x80_0000 {
            (a, 0)
        } else {
            (0x80_0000 + a % 0x80_0000, a / 0x80_0000 - 1)
        };
        let ghost n = self.units() * pow2(925);
        proof {
            if a < 0x80_0000 {
                assert(m * pow2(0) == m) by (nonlinear_arith)
                    requires
                        pow2(0) == 1,
                ;
            }
            assert(self.units() == m * pow2(s as nat));
            lemma_pow2_adds(s as nat, 925);
            assert(n == m * pow2((s + 925) as nat)) by (nonlinear_arith)
                requires
                    n == (m * pow2(s as nat)) * pow2(925),
                    pow2((s + 925) as nat) == pow2(s as nat) * pow2(925),
            ;
        }
        if m == 0 {
            proof {
                assert(n == 0) by (nonlinear_arith)
                    requires
                        n == m * pow2((s + 925) as nat),
                        m == 0,
                ;
                lemma_round_zero(1);
            }
            return Double::with_sign(negative, 0);
        }
        proof {
            lemma_encloses_exact(m as nat, (s + 925) as nat, 0);
        }
        let r = round_scaled(53, m as u128, (s + 925) as i32, false, Ghost(n), Ghost(1));
        Double::with_sign(negative, r)
    }

    fn with_sign(negative: bool, m: u32) -> (r: Single)
        requires
            m < SINGLE_SIGN,
        ensures
            r == Single::spec_signed(negative, m as nat),
    {
        if negative {
            Single { bits: SINGLE_SIGN + m }
        } else {
            Single { bits: m }
        }
    }

    /// The [`Single`] nearest to a [`Double`].
    pub fn narrow(x: Double) -> (r: Single)
        ensures
            r == Single::spec_narrow(x),
    {
        let negative = x.bits >= SIGN;
        let a = x.strip();
        if a > INFINITY {
            return Single { bits: SINGLE_NOT_A_NUMBER };
        }
        if a == INFINITY {
            return Single::with_sign(negative, SINGLE_INFINITY);
        }
        let (m, s) = unpack(a);
        proof {
            lemma_double_constants();
            lemma_pow2_strictly_increases(53, 126);
        }
        if m == 0 {
            proof {
                lemma_pow2_pos(925);
                lemma_zero_units(a as nat);
                lemma_round_zero(pow2(925));
            }
            return Single::with_sign(negative, 0);
        }
        proof {
            lemma_encloses_exact(m as nat, s as nat, 925);
        }
        let ghost n = x.units();
        let r = round_scaled(24, m as u128, s as i32 - 925, false, Ghost(n), Ghost(pow2(925)));
        Single::with_sign(negative, r as u32)
    }
}

/// Finite numbers compare as their values do.
pub proof fn law_less_compares_values(a: Double, b: Double)
    requires
        a.finite(),
        b.finite(),
    ensures
        a.spec_less(b) == (a.signed_units() < b.signed_units()),
{
    let ma = a.magnitude();
    let mb = b.magnitude();
    if ma < mb {
        lemma_units_in_order(53, ma, mb);
    } else if mb < ma {
        lemma_units_in_order(53, mb, ma);
    }
    lemma_zero_units(ma);
    lemma_zero_units(mb);
}

pub(crate) proof fn lemma_one_units()
    ensures
        units_of(53, ONE as nat) == pow2(1074),
        units_of(53, HALF as nat) == pow2(1073),
        pow2(1074) == 2 * pow2(1073),
{
    lemma_double_constants();
    lemma_pow2_adds(52, 1022);
    lemma_pow2_adds(52, 1021);
    lemma_pow2_unfold(1074);
}

/// A number is one times itself.
pub proof fn law_times_one(x: Double)
    requires
        !x.nan(),
    ensures
        x.spec_mul(Double { bits: ONE }) == x,
{
    lemma_one_units();
    lemma_double_constants();
    if x.finite() {
        lemma_pow2_pos(1074);
        lemma_round_scales(53, x.units(), 1, pow2(1074));
        law_rounding_keeps_values(53, x.magnitude());
        lemma_mul_is_commutative(x.units() as int, pow2(1074) as int);
        assert(pow2(1074) * 1 == pow2(1074));
    }
}

/// A number goes into itself once.
pub proof fn law_divided_by_itself(x: Double)
    requires
        x.finite(),
        !x.zero(),
    ensures
        x.spec_div(x) == (Double { bits: ONE }),
{
    lemma_one_units();
    lemma_double_constants();
    lemma_zero_units(x.magnitude());
    lemma_round_scales(53, pow2(1074), 1, x.units());
    law_rounding_keeps_values(53, ONE as nat);
    assert(x.units() * 1 == x.units());
}

/// Counts are exact.
pub proof fn law_counts_are_exact(x: nat)
    requires
        x < 0x20_0000_0000_0000,
    ensures
        Double::spec_from_count(x).finite(),
        !Double::spec_from_count(x).negative(),
        Double::spec_from_count(x).units() == x * pow2(1074),
        Double::spec_from_count(x).zero() == (x == 0),
{
    lemma_double_constants();
    law_short_numbers_are_exact(53, x, 1074);
    let r = Double::spec_from_count(x);
    assert((1074 + 2) * pow2(52) < INFINITY);
    assert(r.magnitude() == round_magnitude(53, x * pow2(1074), 1));
    lemma_zero_units(r.magnitude());
    lemma_pow2_pos(1074);
    assert((x * pow2(1074) == 0) == (x == 0)) by (nonlinear_arith)
        requires
            pow2(1074) > 0,
            x >= 0,
    ;
}

/// Half a step past a count is exact.
pub(crate) proof fn lemma_halfway_is_exact(x: nat)
    requires
        2 * x + 1 < 0x20_0000_0000_0000,
    ensures
        ({
            let r = Double::spec_from_count(x).spec_add(Double { bits: HALF });
            &&& r.finite()
            &&& !r.negative()
            &&& r.units() == (2 * x + 1) * pow2(1073)
        }),
{
    lemma_double_constants();
    lemma_one_units();
    law_counts_are_exact(x);
    lemma_pow2_pos(1073);
    let sum = x * pow2(1074) + pow2(1073);
    assert(sum == (2 * x + 1) * pow2(1073)) by (nonlinear_arith)
        requires
            sum == x * pow2(1074) + pow2(1073),
            pow2(1074) == 2 * pow2(1073),
    ;
    law_short_numbers_are_exact(53, (2 * x + 1) as nat, 1073);
    assert((1073 + 2) * pow2(52) < INFINITY);
    assert(sum > 0) by (nonlinear_arith)
        requires
            sum == (2 * x + 1) * pow2(1073),
            pow2(1073) > 0,
    ;
}

/// The whole part of half a step past a count is the count.
pub(crate) proof fn lemma_halfway_whole_part(x: nat)
    ensures
        ((2 * x + 1) * pow2(1073)) / pow2(1074) == x,
{
    lemma_one_units();
    lemma_pow2_pos(1073);
    let u = (2 * x + 1) * pow2(1073);
    assert(u == x * pow2(1074) + pow2(1073)) by (nonlinear_arith)
        requires
            u == (2 * x + 1) * pow2(1073),
            pow2(1074) == 2 * pow2(1073),
    ;
    lemma_fundamental_div_mod_converse(u as int, pow2(1074) as int, x as int, pow2(1073) as int);
}

/// The rank of the [`Double`] nearest to `s / d` units.
pub(crate) open spec fn rounded_rank(s: int, d: nat) -> int {
    if s < 0 {
        -(round_finite(53, (-s) as nat, d) as int)
    } else {
        round_finite(53, s as nat, d) as int
    }
}

pub(crate) proof fn lemma_rounded_rank_in_order(s1: int, s2: int, d: nat)
    requires
        d > 0,
        s1 <= s2,
    ensures
        rounded_rank(s1, d) <= rounded_rank(s2, d),
{
    if s1 >= 0 {
        law_rounding_keeps_order(53, s1 as nat, s2 as nat, d);
    } else if s2 < 0 {
        law_rounding_keeps_order(53, (-s2) as nat, (-s1) as nat, d);
    }
}

/// A finite number is in order as its value is, and rounds to itself.
pub(crate) proof fn lemma_rank_of_value(x: Double)
    requires
        x.finite(),
    ensures
        rounded_rank(x.signed_units(), 1) == x.rank(),
{
    lemma_double_constants();
    lemma_zero_units(x.magnitude());
    law_rounding_keeps_values(53, x.magnitude());
}

pub(crate) proof fn lemma_values_in_order(a: Double, b: Double)
    requires
        a.finite(),
        b.finite(),
    ensures
        a.rank() <= b.rank() <==> a.signed_units() <= b.signed_units(),
{
    law_less_compares_values(b, a);
}

pub(crate) proof fn lemma_rank_of_sum(a: Double, b: Double)
    requires
        a.finite(),
        b.finite(),
    ensures
        !a.spec_add(b).nan(),
        a.spec_add(b).rank() == rounded_rank(a.signed_units() + b.signed_units(), 1),
{
    lemma_double_constants();
    lemma_round_zero(1);
}

/// What is rounded turns round with its sign.
pub(crate) proof fn lemma_rounded_rank_turned(s: int, d: nat)
    requires
        d > 0,
    ensures
        rounded_rank(-s, d) == -rounded_rank(s, d),
{
    lemma_round_zero(d);
}

pub(crate) proof fn lemma_values_turned(a: Double, b: Double)
    requires
        a.finite(),
        b.finite(),
        a.rank() == -b.rank(),
    ensures
        a.signed_units() == -b.signed_units(),
{
    lemma_zero_units(a.magnitude());
}

pub(crate) proof fn lemma_rank_of_product(w: Double, x: Double)
    requires
        w.finite() && !w.negative(),
        x.finite(),
    ensures
        !w.spec_mul(x).nan(),
        w.spec_mul(x).rank() == rounded_rank(w.units() * x.signed_units(), pow2(1074)),
{
    lemma_double_constants();
    lemma_pow2_pos(1074);
    lemma_round_zero(pow2(1074));
    let (u, v) = (w.units() as int, x.units() as int);
    assert(u * v >= 0 && u * (-v) == -(u * v)) by (nonlinear_arith)
        requires
            u >= 0,
            v >= 0,
    ;
}

pub(crate) proof fn lemma_rank_of_quotient(x: Double, t: Double)
    requires
        x.finite(),
        t.finite() && !t.negative() && !t.zero(),
    ensures
        !x.spec_div(t).nan(),
        t.units() > 0,
        x.spec_div(t).rank() == rounded_rank(x.signed_units() * pow2(1074), t.units()),
{
    lemma_double_constants();
    lemma_pow2_pos(1074);
    lemma_zero_units(t.magnitude());
    lemma_round_zero(t.units());
    let (u, v) = (x.units() as int, pow2(1074) as int);
    assert(u * v >= 0 && (-u) * v == -(u * v)) by (nonlinear_arith)
        requires
            u >= 0,
            v >= 0,
    ;
}

/// Numbers stay in order in single precision.
pub(crate) proof fn lemma_narrow_in_order(x: Double, y: Double)
    requires
        x.finite(),
        y.finite(),
        x.rank() <= y.rank(),
    ensures
        Single::spec_narrow(x).rank() <= Single::spec_narrow(y).rank(),
{
    lemma_double_constants();
    lemma_pow2_pos(925);
    lemma_round_zero(pow2(925));
    lemma_zero_units(x.magnitude());
    lemma_zero_units(y.magnitude());
    if !x.negative() && !y.negative() {
        lemma_units_follow(x, y);
        law_rounding_keeps_order(24, x.units(), y.units(), pow2(925));
    } else if x.negative() && y.negative() {
        lemma_units_follow(y, x);
        law_rounding_keeps_order(24, y.units(), x.units(), pow2(925));
    }
}

/// Numbers turn round with their signs in single precision too.
pub(crate) proof fn lemma_narrow_turned(x: Double, y: Double)
    requires
        x.finite(),
        y.finite(),
        x.rank() == -y.rank(),
    ensures
        Single::spec_narrow(x).rank() == -Single::spec_narrow(y).rank(),
{
    lemma_double_constants();
    lemma_pow2_pos(925);
    lemma_round_zero(pow2(925));
    lemma_zero_units(x.magnitude());
}

pub(crate) proof fn lemma_two_units()
    ensures
        (Double { bits: TWO }).units() == 2 * pow2(1074),
        (Double { bits: TWO }).finite(),
        !(Double { bits: TWO }).zero(),
        !(Double { bits: TWO }).negative(),
{
    lemma_double_constants();
    lemma_pow2_adds(52, 1023);
    lemma_pow2_unfold(1075);
}

/// Half of a finite number.
pub(crate) proof fn lemma_half(x: Double)
    requires
        x.finite(),
    ensures
        ({
            let half = x.spec_div(Double { bits: TWO });
            &&& half.finite()
            &&& half.negative() == x.negative()
            &&& half.magnitude() <= x.magnitude()
            &&& half.rank() == rounded_rank(x.signed_units(), 2)
        }),
{
    lemma_double_constants();
    lemma_two_units();
    lemma_pow2_pos(1074);
    let u = x.units();
    let c = pow2(1074);
    assert(u * c == c * u && 2 * c == c * 2) by (nonlinear_arith);
    lemma_round_scales(53, u, 2, c);
    lemma_round_scales(53, u, 1, 2);
    law_rounding_keeps_values(53, x.magnitude());
    law_rounding_keeps_order(53, u, 2 * u, 2);
    lemma_zero_units(x.magnitude());
    lemma_round_zero(2);
}

/// The significand and the exponent that the units of a finite magnitude are made
/// of.
pub(crate) proof fn lemma_significand(m: nat) -> (r: (nat, nat))
    requires
        m < INFINITY,
    ensures
        units_of(53, m) == r.0 * pow2(r.1),
        r.0 < pow2(53),
        m >= pow2(53) ==> r.1 >= 1,
        m <= HALF_OF_LARGEST ==> r.1 <= 2044,
        r.1 <= 2045,
{
    lemma_double_constants();
    if m < pow2(52) {
        assert(m * pow2(0) == m) by (nonlinear_arith)
            requires
                pow2(0) == 1,
        ;
        (m, 0)
    } else {
        (pow2(52) + m % pow2(52), (m / pow2(52) - 1) as nat)
    }
}

/// Twice a number that is not too large is exact.
pub(crate) proof fn lemma_twice(x: Double)
    requires
        x.magnitude() <= HALF_OF_LARGEST,
    ensures
        x.spec_add(x).finite(),
        x.spec_add(x).signed_units() == 2 * x.signed_units(),
{
    lemma_double_constants();
    let u = x.units();
    let (f, e) = lemma_significand(x.magnitude());
    lemma_pow2_unfold(e + 1);
    assert(2 * u == f * pow2(e + 1)) by (nonlinear_arith)
        requires
            u == f * pow2(e),
            pow2(e + 1) == 2 * pow2(e),
    ;
    law_short_numbers_are_exact(53, f, e + 1);
    let m = round_magnitude(53, 2 * u, 1);
    assert(m < INFINITY) by {
        if m >= INFINITY {
            if m > INFINITY {
                lemma_units_in_order(53, INFINITY as nat, m);
            }
            assert(units_of(53, INFINITY as nat) == pow2(52) * pow2(2046)) by {
                assert(INFINITY as nat % pow2(52) == 0);
                assert(INFINITY as nat / pow2(52) == 2047);
            }
            lemma_pow2_adds(52, 2046);
            lemma_pow2_adds(53, e + 1);
            if e + 1 < 2045 {
                lemma_pow2_strictly_increases(53 + e + 1, 53 + 2045);
            }
            lemma_pow2_pos(e + 1);
            assert(f * pow2(e + 1) < pow2(53) * pow2(e + 1)) by (nonlinear_arith)
                requires
                    f < pow2(53),
                    pow2(e + 1) > 0,
            ;
        }
    }
    lemma_round_zero(1);
    lemma_zero_units(x.magnitude());
    lemma_zero_units(m);
}

/// Half of a number that is not too small is exact.
proof fn lemma_half_is_exact(x: Double)
    requires
        x.finite(),
        x.magnitude() >= pow2(53),
    ensures
        2 * x.spec_div(Double { bits: TWO }).signed_units() == x.signed_units(),
{
    lemma_double_constants();
    lemma_half(x);
    let u = x.units();
    let (f, e) = lemma_significand(x.magnitude());
    lemma_pow2_unfold(e);
    let h = f * pow2((e - 1) as nat);
    assert(u == 2 * h) by (nonlinear_arith)
        requires
            u == f * pow2(e),
            pow2(e) == 2 * pow2((e - 1) as nat),
            h == f * pow2((e - 1) as nat),
    ;
    lemma_round_scales(53, h, 1, 2);
    law_short_numbers_are_exact(53, f, (e - 1) as nat);
    lemma_zero_units(x.magnitude());
}

/// Half of twice a number is the number.
proof fn lemma_half_of_twice(x: Double)
    requires
        x.finite(),
    ensures
        rounded_rank(2 * x.signed_units(), 2) == x.rank(),
{
    let u = x.units();
    lemma_rank_of_value(x);
    lemma_round_scales(53, u, 1, 2);
    lemma_zero_units(x.magnitude());
    lemma_round_zero(2);
}

/// Where neither number is large, half of the sum lies between them.
proof fn lemma_half_of_sum_lies_between(a: Double, b: Double)
    requires
        a.magnitude() <= HALF_OF_LARGEST,
        b.magnitude() <= HALF_OF_LARGEST,
        a.signed_units() <= b.signed_units(),
    ensures
        ({
            let r = a.spec_add(b).spec_div(Double { bits: TWO });
            r.finite() && a.rank() <= r.rank() <= b.rank()
        }),
{
    let (aa, ab, bb) = (a.spec_add(a), a.spec_add(b), b.spec_add(b));
    assert(aa.finite() && aa.signed_units() == 2 * a.signed_units()) by {
        lemma_twice(a);
    }
    assert(bb.finite() && bb.signed_units() == 2 * b.signed_units()) by {
        lemma_twice(b);
    }
    lemma_rank_of_sum(a, a);
    lemma_rank_of_sum(a, b);
    lemma_rank_of_sum(b, b);
    lemma_rounded_rank_in_order(2 * a.signed_units(), a.signed_units() + b.signed_units(), 1);
    lemma_rounded_rank_in_order(a.signed_units() + b.signed_units(), 2 * b.signed_units(), 1);
    assert(ab.finite());
    lemma_values_in_order(aa, ab);
    lemma_values_in_order(ab, bb);
    lemma_half(ab);
    lemma_rounded_rank_in_order(aa.signed_units(), ab.signed_units(), 2);
    lemma_rounded_rank_in_order(ab.signed_units(), bb.signed_units(), 2);
    lemma_half_of_twice(a);
    lemma_half_of_twice(b);
}

/// Where one of two numbers is large, the sum of their halves lies between them.
proof fn lemma_halves_lie_between(a: Double, b: Double)
    requires
        a.finite(),
        b.finite(),
        a.signed_units() <= b.signed_units(),
        a.magnitude() > HALF_OF_LARGEST || b.magnitude() > HALF_OF_LARGEST,
    ensures
        ({
            let two = Double { bits: TWO };
            let sum = a.spec_div(two).signed_units() + b.spec_div(two).signed_units();
            a.signed_units() <= sum <= b.signed_units()
        }),
{
    let two = Double { bits: TWO };
    let (ha, hb) = (a.spec_div(two), b.spec_div(two));
    lemma_double_constants();
    lemma_half(a);
    lemma_half(b);
    lemma_rounded_rank_in_order(a.signed_units(), b.signed_units(), 2);
    lemma_values_in_order(ha, hb);
    if a.magnitude() >= pow2(53) {
        lemma_half_is_exact(a);
    } else {
        lemma_small_and_large(a, b);
    }
    if b.magnitude() >= pow2(53) {
        lemma_half_is_exact(b);
    } else {
        lemma_small_and_large(b, a);
    }
}

/// A small number is nothing to half of a large one.
proof fn lemma_small_and_large(small: Double, large: Double)
    requires
        small.finite(),
        large.finite(),
        small.magnitude() < pow2(53),
        large.magnitude() > HALF_OF_LARGEST,
    ensures
        small.spec_div(Double { bits: TWO }).units() <= small.units(),
        2 * small.units() <= large.spec_div(Double { bits: TWO }).units(),
{
    let two = Double { bits: TWO };
    lemma_double_constants();
    lemma_half(small);
    let half = small.spec_div(two);
    if half.magnitude() < small.magnitude() {
        lemma_units_in_order(53, half.magnitude(), small.magnitude());
    }
    lemma_half(large);
    lemma_half_is_exact(large);
    lemma_units_in_order(53, small.magnitude(), pow2(53));
    lemma_units_in_order(53, HALF_OF_LARGEST as nat, large.magnitude());
    let limit = units_of(53, pow2(53));
    assert(pow2(53) % pow2(52) == 0 && pow2(53) / pow2(52) == 2);
    assert(limit == pow2(52) * pow2(1));
    lemma2_to64();
    assert(limit == pow2(53));
    let top = units_of(53, HALF_OF_LARGEST as nat);
    assert(HALF_OF_LARGEST as nat / pow2(52) == 2045);
    let f = pow2(52) + HALF_OF_LARGEST as nat % pow2(52);
    assert(top == f * pow2(2044));
    lemma_pow2_strictly_increases(10, 2044);
    assert(top >= f * 1024) by (nonlinear_arith)
        requires
            top == f * pow2(2044),
            pow2(2044) >= 1024,
            f >= 0,
    ;
}

/// The midpoint of two numbers lies between them.
pub proof fn law_midpoint_lies_between(a: Double, b: Double)
    requires
        a.finite(),
        b.finite(),
        !b.spec_less(a),
    ensures
        a.spec_midpoint(b).finite(),
        !a.spec_midpoint(b).spec_less(a),
        !b.spec_less(a.spec_midpoint(b)),
{
    lemma_values_in_order(a, b);
    if a.magnitude() <= HALF_OF_LARGEST && b.magnitude() <= HALF_OF_LARGEST {
        lemma_half_of_sum_lies_between(a, b);
    } else {
        let two = Double { bits: TWO };
        let (ha, hb) = (a.spec_div(two), b.spec_div(two));
        assert(ha.finite() && hb.finite()) by {
            lemma_half(a);
            lemma_half(b);
        }
        let sum = ha.signed_units() + hb.signed_units();
        lemma_halves_lie_between(a, b);
        lemma_rank_of_sum(ha, hb);
        lemma_rounded_rank_in_order(a.signed_units(), sum, 1);
        lemma_rounded_rank_in_order(sum, b.signed_units(), 1);
        lemma_rank_of_value(a);
        lemma_rank_of_value(b);
    }
}

pub(crate) proof fn lemma_units_follow(a: Double, b: Double)
    requires
        a.magnitude() <= b.magnitude(),
    ensures
        a.units() <= b.units(),
{
    if a.magnitude() < b.magnitude() {
        lemma_units_in_order(53, a.magnitude(), b.magnitude());
    }
}

/// Squares are in order as the numbers are, without their signs.
pub(crate) proof fn lemma_squares_in_order(a: Double, b: Double)
    requires
        !b.nan(),
        a.magnitude() <= b.magnitude(),
    ensures
        !b.spec_mul(b).nan(),
        !a.spec_mul(a).negative(),
        !b.spec_mul(b).negative(),
        a.spec_mul(a).magnitude() <= b.spec_mul(b).magnitude(),
{
    lemma_double_constants();
    lemma_pow2_pos(1074);
    if !b.infinite() {
        lemma_units_follow(a, b);
        let (u, v) = (a.units(), b.units());
        assert(u * u <= v * v) by (nonlinear_arith)
            requires
                0 <= u <= v,
        ;
        law_rounding_keeps_order(53, u * u, v * v, pow2(1074));
    }
}

/// Sums of numbers from zero on are in order as their terms are.
pub(crate) proof fn lemma_sums_in_order(a1: Double, a2: Double, b1: Double, b2: Double)
    requires
        !a2.nan() && !b2.nan(),
        !a1.negative() && !a2.negative() && !b1.negative() && !b2.negative(),
        a1.magnitude() <= a2.magnitude(),
        b1.magnitude() <= b2.magnitude(),
    ensures
        !a2.spec_add(b2).nan(),
        !a1.spec_add(b1).negative(),
        !a2.spec_add(b2).negative(),
        a1.spec_add(b1).magnitude() <= a2.spec_add(b2).magnitude(),
{
    lemma_double_constants();
    if !a2.infinite() && !b2.infinite() {
        lemma_units_follow(a1, a2);
        lemma_units_follow(b1, b2);
        lemma_rank_of_sum(a1, b1);
        lemma_rank_of_sum(a2, b2);
        lemma_rounded_rank_in_order(
            a1.signed_units() + b1.signed_units(),
            a2.signed_units() + b2.signed_units(),
            1,
        );
    }
}

/// Quotients by a divisor above zero turn round with the sign of the dividend.
pub(crate) proof fn lemma_negated_quotients_in_order(a: Double, b: Double, divisor: Double)
    requires
        !b.nan(),
        !a.negative() && !b.negative(),
        a.magnitude() <= b.magnitude(),
        divisor.finite() && !divisor.zero() && !divisor.negative(),
    ensures
        !a.spec_neg().spec_div(divisor).nan(),
        !b.spec_neg().spec_div(divisor).nan(),
        b.spec_neg().spec_div(divisor).rank() <= a.spec_neg().spec_div(divisor).rank(),
{
    lemma_double_constants();
    lemma_zero_units(divisor.magnitude());
    if !b.infinite() {
        lemma_units_follow(a, b);
        let (u, v, one) = (a.units(), b.units(), pow2(1074));
        assert(u * one <= v * one) by (nonlinear_arith)
            requires
                u <= v,
                one >= 0,
        ;
        law_rounding_keeps_order(53, u * one, v * one, divisor.units());
    }
}

/// A quotient of a number from zero on by a count is no greater than the number.
pub(crate) proof fn lemma_divided_by_count(x: Double, count: nat)
    requires
        x.finite() && !x.negative(),
        1 <= count < 0x20_0000_0000_0000,
    ensures
        x.spec_div(Double::spec_from_count(count)).finite(),
        !x.spec_div(Double::spec_from_count(count)).negative(),
{
    lemma_double_constants();
    law_counts_are_exact(count);
    lemma_pow2_pos(1074);
    let (u, one) = (x.units(), pow2(1074));
    let c = count * one;
    assert(0 < c && u * one <= c * u) by (nonlinear_arith)
        requires
            c == count * one,
            count >= 1,
            one > 0,
            u >= 0,
    ;
    law_rounding_keeps_order(53, u * one, c * u, c);
    lemma_round_scales(53, u, 1, c);
    law_rounding_keeps_values(53, x.magnitude());
    assert(c * 1 == c);
}

/// A number from zero on stays finite when a half is taken from it.
pub(crate) proof fn lemma_minus_half(x: Double)
    requires
        x.finite() && !x.negative(),
    ensures
        x.spec_sub(Double { bits: HALF }).finite(),
{
    lemma_double_constants();
    let half = Double { bits: HALF };
    let other = half.spec_neg();
    assert(other.finite() && other.magnitude() == HALF && other.negative());
    lemma_rank_of_sum(x, other);
    lemma_rank_of_value(x);
    lemma_rank_of_value(other);
    lemma_rounded_rank_in_order(other.signed_units(), x.signed_units() + other.signed_units(), 1);
    lemma_rounded_rank_in_order(x.signed_units() + other.signed_units(), x.signed_units(), 1);
}

/// A number in single precision is the same number in double precision, and comes
/// back from it unchanged.
pub proof fn law_widening_loses_nothing(s: Single)
    requires
        s.finite(),
    ensures
        s.spec_widen().finite(),
        s.spec_widen().negative() == s.negative(),
        s.spec_widen().units() == s.units() * pow2(925),
        Single::spec_narrow(s.spec_widen()) == s,
{
    lemma_double_constants();
    let m = s.magnitude();
    let base = pow2(23);
    let (f, e): (nat, nat) = if m < base {
        (m, 0)
    } else {
        (base + m % base, (m / base - 1) as nat)
    };
    if m < base {
        assert(m * pow2(0) == m) by (nonlinear_arith)
            requires
                pow2(0) == 1,
        ;
    }
    let u = s.units();
    let c = pow2(925);
    lemma_pow2_pos(925);
    lemma_pow2_adds(e, 925);
    assert(u * c == f * pow2(e + 925)) by (nonlinear_arith)
        requires
            u == f * pow2(e),
            pow2(e + 925) == pow2(e) * c,
    ;
    lemma_pow2_strictly_increases(24, 53);
    law_short_numbers_are_exact(53, f, e + 925);
    assert((e + 925 + 2) * pow2(52) < INFINITY) by {
        assert(e <= 253);
    }
    assert(c * u == u * c && c * 1 == c) by (nonlinear_arith);
    lemma_round_scales(24, u, 1, c);
    law_rounding_keeps_values(24, m);
}

impl Double {
    /// The integer nearest to a finite number; of two that are equally near, the
    /// one away from zero.
    pub open spec fn spec_round(self) -> int {
        let whole = (2 * self.units() + pow2(1074)) / (2 * pow2(1074));
        if self.negative() {
            -(whole as int)
        } else {
            whole as int
        }
    }
}

/// The number `n / 2^e`, for an `n` of no more than 53 bits.
proof fn lemma_binary_fraction(n: int, e: nat) -> (r: Double)
    requires
        -0x20_0000_0000_0000 < n < 0x20_0000_0000_0000,
        1 <= e <= 60,
    ensures
        r.finite(),
        r.signed_units() == n * pow2((1074 - e) as nat),
        rounded_rank(n * pow2((1074 - e) as nat), 1) == r.rank(),
{
    let p = pow2((1074 - e) as nat);
    let size: nat = if n < 0 {
        (-n) as nat
    } else {
        n as nat
    };
    lemma_double_constants();
    lemma_pow2_pos((1074 - e) as nat);
    law_short_numbers_are_exact(53, size, (1074 - e) as nat);
    let m = round_magnitude(53, size * p, 1);
    assert((1074 - e + 2) * pow2(52) <= 1076 * pow2(52)) by (nonlinear_arith)
        requires
            1074 - e + 2 <= 1076,
            pow2(52) >= 0,
    ;
    assert(n * p == size * p || n * p == -(size * p)) by (nonlinear_arith)
        requires
            size == n || size == -n,
    ;
    assert(n < 0 ==> n * p < 0) by (nonlinear_arith)
        requires
            p > 0,
    ;
    assert(n >= 0 ==> n * p >= 0) by (nonlinear_arith)
        requires
            p > 0,
    ;
    assert(size * p >= 0) by (nonlinear_arith)
        requires
            size >= 0,
            p >= 0,
    ;
    let r = signed(n < 0, m);
    lemma_zero_units(m);
    lemma_round_zero(1);
    lemma_rank_of_value(r);
    r
}

/// A power of two from `x` to `2 * x`.
proof fn lemma_next_power(x: nat) -> (e: nat)
    requires
        1 <= x < 0x20_0000_0000_0000,
    ensures
        x <= pow2(e) <= 2 * x,
        e <= 54,
    decreases x,
{
    lemma2_to64();
    lemma2_to64_rest();
    let e = if x == 1 {
        0
    } else {
        let half = lemma_next_power(((x + 1) / 2) as nat);
        lemma_pow2_unfold(half + 1);
        if x <= pow2(half) {
            half
        } else {
            half + 1
        }
    };
    if e > 54 {
        lemma_pow2_strictly_increases(54, e);
    }
    e
}

/// Where the centre of a pixel falls, along an axis that is cut into `n` as many
/// parts: the integer nearest to the quotient less a half, taken in double
/// precision, is the whole part of the exact quotient.
pub(crate) proof fn lemma_centre_rounds_to_whole_part(top: Double, a: nat, n: nat)
    requires
        top.finite() && !top.negative(),
        top.units() == a * pow2(1073),
        a >= 1,
        n >= 1,
        (a / (2 * n) + 1) * (4 * n) < 0x20_0000_0000_0000,
    ensures
        ({
            let r = top.spec_div(Double::spec_from_count(n)).spec_sub(Double { bits: HALF });
            r.finite() && r.spec_round() == a / (2 * n)
        }),
{
    let k = a / (2 * n);
    assert(2 * n < 0x20_0000_0000_0000) by (nonlinear_arith)
        requires
            (k + 1) * (4 * n) < 0x20_0000_0000_0000,
            k >= 0,
            n >= 1,
    ;
    let e = lemma_next_power(2 * n);
    let two_e = pow2(e);
    let p = pow2((1074 - e) as nat);
    lemma_double_constants();
    lemma_one_units();
    lemma2_to64();
    assert(e >= 1) by {
        if e == 0 {
            assert(pow2(0) == 1);
        }
    }
    lemma_pow2_unfold(e);
    lemma_pow2_pos((1074 - e) as nat);
    lemma_pow2_adds(e, (1074 - e) as nat);
    lemma_pow2_adds((e - 1) as nat, (1074 - e) as nat);
    let half_e = pow2((e - 1) as nat);
    assert(two_e == 2 * half_e && pow2(1073) == half_e * p && pow2(1074) == two_e * p);
    lemma_fundamental_div_mod(a as int, (2 * n) as int);
    lemma_mod_pos_bound(a as int, (2 * n) as int);
    // The quotient lies between two numbers of double precision.
    let low: int = if k == 0 {
        1
    } else {
        (k * two_e) as int
    };
    let high: int = (k + 1) * two_e - 1;
    assert(2 * n * (k + 1) == (2 * n) * k + 2 * n) by (nonlinear_arith);
    lemma_quotient_enclosed(a, n, k, half_e, low, high);
    let l = lemma_binary_fraction(low, e);
    let h = lemma_binary_fraction(high, e);
    let q = top.spec_div(Double::spec_from_count(n));
    assert(q.finite() && l.units() <= q.units() <= h.units() && !q.negative()) by {
        lemma_quotient_between(top, a, n, e, low, high, l, h, q);
    }
    // So does the difference.
    let half = Double { bits: HALF };
    let other = half.spec_neg();
    assert(other.finite() && other.signed_units() == -pow2(1073));
    let r = q.spec_sub(half);
    lemma_rank_of_sum(q, other);
    let l2 = lemma_binary_fraction(low - half_e, e);
    let h2 = lemma_binary_fraction(high - half_e, e);
    assert((low - half_e) * p == low * p - half_e * p && (high - half_e) * p == high * p - half_e
        * p) by (nonlinear_arith);
    let sum = q.signed_units() + other.signed_units();
    lemma_rounded_rank_in_order((low - half_e) * p, sum, 1);
    lemma_rounded_rank_in_order(sum, (high - half_e) * p, 1);
    assert(r.finite());
    lemma_values_in_order(l2, r);
    lemma_values_in_order(r, h2);
    lemma_round_between(r, k, e, low, high);
}

proof fn lemma_quotient_enclosed(a: nat, n: nat, k: nat, half_e: nat, low: int, high: int)
    requires
        a >= 1,
        n >= 1,
        n <= half_e <= 2 * n,
        2 * n * k <= a < 2 * n * (k + 1),
        (k + 1) * (4 * n) < 0x20_0000_0000_0000,
        low == if k == 0 {
            1int
        } else {
            (k * (2 * half_e)) as int
        },
        high == (k + 1) * (2 * half_e) - 1,
    ensures
        1 <= low,
        low * n <= a * half_e <= high * n,
        low <= high < 0x20_0000_0000_0000,
        -0x20_0000_0000_0000 < low - half_e,
{
    assert(low * n <= a * half_e) by (nonlinear_arith)
        requires
            (k == 0 && low == 1) || low == k * (2 * half_e),
            2 * n * k <= a,
            a >= 1,
            n <= half_e,
            half_e >= 0,
    ;
    assert(a * half_e <= high * n) by (nonlinear_arith)
        requires
            high == (k + 1) * (2 * half_e) - 1,
            a + 1 <= 2 * n * (k + 1),
            n <= half_e,
            half_e >= 0,
    ;
    assert(high < 0x20_0000_0000_0000) by (nonlinear_arith)
        requires
            high == (k + 1) * (2 * half_e) - 1,
            half_e <= 2 * n,
            (k + 1) * (4 * n) < 0x20_0000_0000_0000,
            k >= 0,
    ;
    assert(low <= high && low >= 1) by (nonlinear_arith)
        requires
            (k == 0 && low == 1) || (k >= 1 && low == k * (2 * half_e)),
            high == (k + 1) * (2 * half_e) - 1,
            half_e >= 1,
            k >= 0,
    ;
    assert(half_e < 0x20_0000_0000_0000) by (nonlinear_arith)
        requires
            half_e <= 2 * n,
            (k + 1) * (4 * n) < 0x20_0000_0000_0000,
            k >= 0,
            n >= 1,
    ;
}

proof fn lemma_quotient_between(
    top: Double,
    a: nat,
    n: nat,
    e: nat,
    low: int,
    high: int,
    l: Double,
    h: Double,
    q: Double,
)
    requires
        top.finite() && !top.negative(),
        top.units() == a * pow2(1073),
        1 <= n < 0x20_0000_0000_0000,
        1 <= e <= 60,
        0 <= low <= high,
        low * n <= a * pow2((e - 1) as nat) <= high * n,
        l.finite() && h.finite(),
        l.signed_units() == low * pow2((1074 - e) as nat),
        h.signed_units() == high * pow2((1074 - e) as nat),
        q == top.spec_div(Double::spec_from_count(n)),
    ensures
        q.finite() && !q.negative(),
        l.units() <= q.units() <= h.units(),
{
    lemma_double_constants();
    law_counts_are_exact(n);
    let p = pow2((1074 - e) as nat);
    let one = pow2(1074);
    let half_e = pow2((e - 1) as nat);
    lemma_pow2_pos((1074 - e) as nat);
    lemma_pow2_pos(1074);
    lemma_pow2_adds((e - 1) as nat, (1074 - e) as nat);
    let u = top.units();
    // Without the common factor, the quotient is `u / n`.
    assert(u * one == one * u && n * one == one * n) by (nonlinear_arith);
    lemma_round_scales(53, u, n, one);
    assert(q.magnitude() == round_finite(53, u, n));
    let lu = (low * p) as nat;
    let hu = (high * p) as nat;
    assert(low * p >= 0 && high * p >= 0) by (nonlinear_arith)
        requires
            0 <= low <= high,
            p >= 0,
    ;
    assert(n * lu <= u <= n * hu) by (nonlinear_arith)
        requires
            lu == low * p,
            hu == high * p,
            u == a * (half_e * p),
            low * n <= a * half_e <= high * n,
            p >= 0,
    ;
    law_rounding_keeps_order(53, n * lu, u, n);
    law_rounding_keeps_order(53, u, n * hu, n);
    lemma_round_scales(53, lu, 1, n);
    lemma_round_scales(53, hu, 1, n);
    assert(n * 1 == n);
    lemma_rank_of_value(l);
    lemma_rank_of_value(h);
    lemma_zero_units(l.magnitude());
    lemma_zero_units(h.magnitude());
    assert(l.magnitude() <= q.magnitude() <= h.magnitude());
    lemma_units_follow(l, q);
    lemma_units_follow(q, h);
}

proof fn lemma_round_between(r: Double, k: nat, e: nat, low: int, high: int)
    requires
        r.finite(),
        1 <= e <= 60,
        low == if k == 0 {
            1int
        } else {
            (k * pow2(e)) as int
        },
        high == (k + 1) * pow2(e) - 1,
        (low - pow2((e - 1) as nat)) * pow2((1074 - e) as nat) <= r.signed_units() <= (high - pow2(
            (e - 1) as nat,
        )) * pow2((1074 - e) as nat),
    ensures
        r.spec_round() == k,
{
    let p = pow2((1074 - e) as nat);
    let half_e = pow2((e - 1) as nat);
    let one = pow2(1074);
    lemma_pow2_pos((1074 - e) as nat);
    lemma_pow2_pos((e - 1) as nat);
    lemma_pow2_unfold(e);
    lemma_pow2_adds(e, (1074 - e) as nat);
    let s = r.signed_units();
    assert(one == 2 * (half_e * p)) by (nonlinear_arith)
        requires
            one == (2 * half_e) * p,
    ;
    let h = half_e * p;
    assert(k * one == (k * (2 * half_e)) * p) by (nonlinear_arith)
        requires
            one == (2 * half_e) * p,
    ;
    assert((high - half_e) * p == k * one + h - p) by (nonlinear_arith)
        requires
            high == (k + 1) * (2 * half_e) - 1,
            k * one == (k * (2 * half_e)) * p,
            h == half_e * p,
    ;
    assert(s < k * one + h);
    if k == 0 {
        assert((1 - half_e) * p == p - h) by (nonlinear_arith)
            requires
                h == half_e * p,
        ;
        assert(0 * one == 0);
        assert(-h < s < h);
        lemma_fundamental_div_mod_converse(
            (2 * r.units() + one) as int,
            2 * one as int,
            0,
            (2 * r.units() + one) as int,
        );
    } else {
        assert((low - half_e) * p == k * one - h) by (nonlinear_arith)
            requires
                low == k * (2 * half_e),
                k * one == (k * (2 * half_e)) * p,
                h == half_e * p,
        ;
        assert(k * one >= one) by (nonlinear_arith)
            requires
                k >= 1,
                one >= 0,
        ;
        assert(s > 0);
        let rest = 2 * s + one - k * (2 * one);
        assert(k * (2 * one) == 2 * (k * one)) by (nonlinear_arith);
        lemma_fundamental_div_mod_converse(
            (2 * r.units() + one) as int,
            2 * one as int,
            k as int,
            rest,
        );
    }
}

/// A number of halves times a count is exact as long as it is short.
pub(crate) proof fn lemma_times_count(x: Double, halves: nat, count: nat)
    requires
        x.finite() && !x.negative(),
        x.units() == halves * pow2(1073),
        count < 0x20_0000_0000_0000,
        halves * count < 0x20_0000_0000_0000,
    ensures
        x.spec_mul(Double::spec_from_count(count)).finite(),
        !x.spec_mul(Double::spec_from_count(count)).negative(),
        x.spec_mul(Double::spec_from_count(count)).units() == (halves * count) * pow2(1073),
{
    lemma_double_constants();
    law_counts_are_exact(count);
    let one = pow2(1074);
    lemma_pow2_pos(1074);
    let n = (halves * count) * pow2(1073);
    assert(x.units() * (count * one) == one * n) by (nonlinear_arith)
        requires
            x.units() == halves * pow2(1073),
            n == (halves * count) * pow2(1073),
    ;
    assert(one * 1 == one);
    lemma_round_scales(53, n, 1, one);
    law_short_numbers_are_exact(53, halves * count, 1073);
    assert((1073 + 2) * pow2(52) < INFINITY);
}

/// A quotient that is neither too small nor too large is off by one part in
/// `2^53` at most.
pub(crate) proof fn lemma_rounded_error(n: nat, d: nat)
    requires
        d > 0,
        pow2(52) * d <= n <= pow2(2000) * d,
    ensures
        ({
            let r = rounded_double(false, n, d);
            let b = pow2(53);
            &&& r.finite()
            &&& !r.negative()
            &&& n * (b - 1) <= (r.units() * d) * b <= n * (b + 1)
        }),
{
    lemma2_to64();
    lemma2_to64_rest();
    let big = pow2(2000);
    law_rounding_keeps_order(53, n, big * d, d);
    assert(big * d == d * big && d * 1 == d) by (nonlinear_arith);
    lemma_round_scales(53, big, 1, d);
    law_short_numbers_are_exact(53, 1, 2000);
    assert(1 * big == big);
    assert((2000 + 2) * pow2(52) < INFINITY);
    let m = round_magnitude(53, n, d);
    assert(m < INFINITY);
    law_rounding_error(53, n, d);
    let b = pow2(53) as int;
    let x = (units_of(53, m) * d) as int;
    assert(n * (b - 1) <= x * b <= n * (b + 1)) by (nonlinear_arith)
        requires
            (x - n) * b <= n,
            (n - x) * b <= n,
            b >= 0,
    ;
}

pub(crate) proof fn lemma_times(a: int, b: int, c: int)
    by (nonlinear_arith)
    requires
        a <= b,
        c >= 0,
    ensures
        a * c <= b * c,
{
}

pub(crate) proof fn lemma_cancel(a: int, b: int, c: int)
    by (nonlinear_arith)
    requires
        a * c <= b * c,
        c > 0,
    ensures
        a <= b,
{
}

/// Two roundings, of a ratio and of a product with it, are off by three parts in
/// `2^53` at most.
proof fn lemma_two_roundings(a: int, c: int, one: int, b: int, s: int, k: int, r: int)
    requires
        0 < one,
        1 <= b,
        0 <= a && 0 <= c && 0 <= k && 0 <= r && 0 <= s,
        (c * one) * (b - 1) <= (s * a) * b <= (c * one) * (b + 1),
        (k * s) * (b - 1) <= (r * one) * b <= (k * s) * (b + 1),
    ensures
        (c * k) * (b - 3) <= (a * r) * b <= (c * k) * (b + 3),
{
    let up = b + 1;
    let down = b - 1;
    let x = c * k;
    let y = a * r;
    assert(a * b >= 0 && k * up >= 0 && k * down >= 0 && x >= 0) by (nonlinear_arith)
        requires
            a >= 0,
            b >= 1,
            k >= 0,
            c >= 0,
            up == b + 1,
            down == b - 1,
            x == c * k,
    ;
    assert(((r * one) * b) * (a * b) == ((y * b) * b) * one) by (nonlinear_arith)
        requires
            y == a * r,
    ;
    // From above.
    lemma_times((r * one) * b, (k * s) * up, a * b);
    lemma_times((s * a) * b, (c * one) * up, k * up);
    assert(((k * s) * up) * (a * b) == ((s * a) * b) * (k * up)) by (nonlinear_arith);
    assert(((c * one) * up) * (k * up) == (x * (up * up)) * one) by (nonlinear_arith)
        requires
            x == c * k,
    ;
    lemma_cancel((y * b) * b, x * (up * up), one);
    assert(up * up <= (b + 3) * b) by (nonlinear_arith)
        requires
            up == b + 1,
            b >= 1,
    ;
    lemma_times(up * up, (b + 3) * b, x);
    assert((up * up) * x == x * (up * up) && ((b + 3) * b) * x == (x * (b + 3)) * b)
        by (nonlinear_arith);
    lemma_cancel(y * b, x * (b + 3), b);
    // From below.
    lemma_times((k * s) * down, (r * one) * b, a * b);
    lemma_times((c * one) * down, (s * a) * b, k * down);
    assert(((k * s) * down) * (a * b) == ((s * a) * b) * (k * down)) by (nonlinear_arith);
    assert(((c * one) * down) * (k * down) == (x * (down * down)) * one) by (nonlinear_arith)
        requires
            x == c * k,
    ;
    lemma_cancel(x * (down * down), (y * b) * b, one);
    assert((b - 3) * b <= down * down) by (nonlinear_arith)
        requires
            down == b - 1,
            b >= 1,
    ;
    lemma_times((b - 3) * b, down * down, x);
    assert((down * down) * x == x * (down * down) && ((b - 3) * b) * x == (x * (b - 3)) * b)
        by (nonlinear_arith);
    lemma_cancel(x * (b - 3), y * b, b);
}

/// Whether a product of `k` has the full precision: nothing of it was lost because
/// it is too small or too large.
pub open spec fn is_precise(k: Double, product: Double) -> bool {
    k.finite() && (k.zero() || pow2(52) < product.magnitude() < INFINITY)
}

/// A number times the ratio of two counts is off by three parts in `2^53` at most.
pub(crate) proof fn lemma_ratio_error(k: Double, from: u32, to: u32)
    requires
        from > 0,
        to > 0,
        ({
            let ratio = Double::spec_from_count(to as nat).spec_div(
                Double::spec_from_count(from as nat),
            );
            is_precise(k, k.spec_mul(ratio))
        }),
    ensures
        ({
            let ratio = Double::spec_from_count(to as nat).spec_div(
                Double::spec_from_count(from as nat),
            );
            let r = k.spec_mul(ratio);
            let (x, y) = (to * k.signed_units(), from * r.signed_units());
            &&& r.finite()
            &&& abs(y - x) * pow2(53) <= 3 * abs(x)
        }),
{
    lemma_double_constants();
    let (a, c) = (from as nat, to as nat);
    law_counts_are_exact(a);
    law_counts_are_exact(c);
    let one = pow2(1074);
    let b = pow2(53);
    lemma_pow2_pos(1074);
    let s = Double::spec_from_count(c).spec_div(Double::spec_from_count(a));
    // The ratio.
    lemma_pow2_adds(52, 32);
    lemma_pow2_adds(32, 1968);
    lemma_pow2_strictly_increases(84, 1074);
    lemma_pow2_strictly_increases(1106, 2000);
    lemma_pow2_adds(32, 1074);
    lemma2_to64();
    assert(pow2(52) * a <= c * one) by (nonlinear_arith)
        requires
            a <= pow2(32),
            pow2(52) * pow2(32) <= one,
            c >= 1,
            pow2(52) >= 0,
    ;
    assert(c * one <= pow2(2000) * a) by (nonlinear_arith)
        requires
            c <= pow2(32),
            pow2(32) * one <= pow2(2000),
            a >= 1,
            one >= 0,
    ;
    lemma_rounded_error(c * one, a);
    lemma_round_scales(53, c * one, a, one);
    assert(one * (c * one) == (c * one) * one && one * a == a * one) by (nonlinear_arith);
    assert(s == rounded_double(false, c * one, a));
    let su = s.units();
    // The product.
    let ku = k.units();
    let r = k.spec_mul(s);
    let n = ku * su;
    lemma_zero_units(k.magnitude());
    if k.zero() {
        assert(n == 0) by (nonlinear_arith)
            requires
                n == ku * su,
                ku == 0,
        ;
        lemma_round_zero(one);
        assert(r.magnitude() == 0);
        assert(r.units() == 0);
        assert(from * 0 == 0 && to * 0 == 0);
    } else {
        assert(n >= pow2(52) * one) by {
            if n < pow2(52) * one {
                law_rounding_keeps_order(53, n, pow2(52) * one, one);
                assert(pow2(52) * one == one * pow2(52) && one * 1 == one) by (nonlinear_arith);
                lemma_round_scales(53, pow2(52), 1, one);
                assert(units_of(53, pow2(52)) == pow2(52)) by {
                    assert(pow2(52) % pow2(52) == 0 && pow2(52) / pow2(52) == 1);
                    assert((pow2(52) + 0) * pow2(0) == pow2(52)) by (nonlinear_arith)
                        requires
                            pow2(0) == 1,
                    ;
                }
                law_rounding_keeps_values(53, pow2(52));
            }
        }
        law_rounding_error(53, n, one);
        let ru = r.units();
        let x = (ru * one) as int;
        assert(n * (b - 1) <= x * b <= n * (b + 1)) by (nonlinear_arith)
            requires
                (x - n) * b <= n,
                (n - x) * b <= n,
                b >= 0,
        ;
        lemma_two_roundings(
            a as int,
            c as int,
            one as int,
            b as int,
            su as int,
            ku as int,
            ru as int,
        );
        let (p, q) = ((c * ku) as int, (a * ru) as int);
        assert((q - p) * b <= 3 * p && (p - q) * b <= 3 * p) by (nonlinear_arith)
            requires
                p * (b - 3) <= q * b <= p * (b + 3),
        ;
        assert(p >= 0) by (nonlinear_arith)
            requires
                p == c * ku,
                c >= 0,
                ku >= 0,
        ;
        assert(r.negative() == k.negative());
        assert(to * (-(ku as int)) == -p && from * (-(ru as int)) == -q) by (nonlinear_arith)
            requires
                p == to * ku,
                q == from * ru,
        ;
    }
}

/// What is not a number stays so through every operation, and infinity follows the rules of
/// the standard.
pub proof fn law_special_values(a: Double, b: Double)
    ensures
        a.nan() || b.nan() ==> {
            &&& a.spec_add(b).nan() && a.spec_sub(b).nan()
            &&& a.spec_mul(b).nan() && a.spec_div(b).nan()
            &&& !a.spec_less(b)
        },
        a.infinite() && b.finite() ==> {
            &&& a.spec_add(b) == a && b.spec_add(a) == a && a.spec_sub(b) == a
            &&& b.spec_div(a).magnitude() == 0
            &&& a.spec_div(b).infinite()
            &&& b.magnitude() == 0 ==> a.spec_mul(b).nan() && b.spec_mul(a).nan()
            &&& b.magnitude() > 0 ==> a.spec_mul(b).infinite() && b.spec_mul(a).infinite()
        },
        a.infinite() && b.infinite() ==> {
            &&& a.spec_div(b).nan()
            &&& a.spec_mul(b).infinite()
            &&& a.negative() == b.negative() ==> a.spec_add(b) == a && a.spec_sub(b).nan()
            &&& a.negative() != b.negative() ==> a.spec_add(b).nan() && a.spec_sub(b) == a
        },
        a.finite() && b.magnitude() == 0 ==> {
            &&& a.magnitude() == 0 ==> a.spec_div(b).nan()
            &&& a.magnitude() > 0 ==> a.spec_div(b).infinite()
        },
{
}

/// The bits of a number: the exponent stands above 52 bits of the significand, of which the
/// leading one is left out. A number in single precision has 23 bits.
pub proof fn law_bits_follow_the_format(e: nat, f: nat)
    ensures
        1 <= e <= 2046 && f < pow2(52) ==> {
            let x = Double { bits: (e * pow2(52) + f) as u64 };
            x.finite() && !x.negative() && x.units() == (pow2(52) + f) * pow2((e - 1) as nat)
        },
        1 <= e <= 254 && f < pow2(23) ==> {
            let s = Single { bits: (e * pow2(23) + f) as u32 };
            s.finite() && !s.negative() && s.units() == (pow2(23) + f) * pow2((e - 1) as nat)
        },
{
    lemma_double_constants();
    lemma2_to64();
    if 1 <= e <= 2046 && f < pow2(52) {
        let m = (e * pow2(52) + f) as int;
        lemma_fundamental_div_mod_converse(m, pow2(52) as int, e as int, f as int);
    }
    if 1 <= e <= 254 && f < pow2(23) {
        let m = (e * pow2(23) + f) as int;
        lemma_fundamental_div_mod_converse(m, pow2(23) as int, e as int, f as int);
    }
}

/// Which bits are those of a finite number in single precision.
pub proof fn law_finite_singles(s: Single)
    ensures
        s.finite() <==> s.bits < 0x7f80_0000 || 0x8000_0000 <= s.bits < 0xff80_0000,
        s.spec_is_positive() <==> 0 < s.bits < 0x7f80_0000,
        s.nan() <==> 0x7f80_0000 < s.bits < 0x8000_0000 || s.bits > 0xff80_0000,
{
}

/// The whole part of a number, held between zero and a limit.
pub proof fn law_clamped_index(x: Double, limit: nat)
    ensures
        ({
            let i = x.spec_clamped_index(limit);
            &&& i <= limit
            &&& x.nan() || x.negative() ==> i == 0
            &&& x.infinite() && !x.negative() ==> i == limit
            &&& x.finite() && !x.negative() ==> {
                &&& i * pow2(1074) <= x.units()
                &&& i < limit ==> x.units() < (i + 1) * pow2(1074)
            }
        }),
{
    let one = pow2(1074) as int;
    lemma_pow2_pos(1074);
    let (u, q) = (x.units() as int, x.units() as int / one);
    lemma_fundamental_div_mod(u, one);
    lemma_mod_pos_bound(u, one);
    let i = x.spec_clamped_index(limit) as int;
    assert((q + 1) * one == one * q + one && q * one == one * q) by (nonlinear_arith);
    if x.finite() && !x.negative() {
        assert(i <= q);
        assert(i * one <= q * one) by (nonlinear_arith)
            requires
                i <= q,
                one >= 0,
        ;
    }
}

/// The lesser and the greater of two numbers are those two, in order. One that is not a number
/// gives way.
pub proof fn law_lesser_and_greater(a: Double, b: Double)
    ensures
        a.nan() ==> a.spec_min(b) == b && a.spec_max(b) == b,
        b.nan() && !a.nan() ==> a.spec_min(b) == a && a.spec_max(b) == a,
        !a.nan() && !b.nan() ==> {
            let (l, g) = (a.spec_min(b), a.spec_max(b));
            &&& (l == a || l == b) && (g == a || g == b)
            &&& l.rank() <= a.rank() <= g.rank() && l.rank() <= b.rank() <= g.rank()
        },
{
}

} // verus!
