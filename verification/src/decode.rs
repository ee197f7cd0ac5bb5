//! Decoding of the binary columns of a capture.
//!
//! Three shapes of blob occur:
//! - depth: row-major little-endian single-precision numbers, in metres;
//! - confidence: row-major bytes, one ARKit confidence level each (0 is low, 1 is
//!   medium, 2 is high);
//! - intrinsics: nine little-endian double-precision numbers, the row-major
//!   matrix `fx, 0, cx, 0, fy, cy, 0, 0, 1`.
use vstd::arithmetic::power2::{lemma2_to64, lemma2_to64_rest, pow2};
use vstd::math::abs;
use vstd::prelude::*;

use crate::double::{
    is_precise, law_counts_are_exact, law_divided_by_itself, law_times_one, lemma_cancel,
    lemma_ratio_error, lemma_times, Double, Single, ONE,
};
use crate::text::{decimal, push_decimal};

verus! {

/// Why a blob cannot be decoded.
#[derive(Debug, Clone, Copy, PartialEq, Eq, Structural)]
pub enum DecodeError {
    DepthSizeMismatch { len: usize, width: usize, height: usize },
    ConfidenceSizeMismatch { len: usize, width: usize, height: usize },
    IntrinsicsSize(usize),
}

impl DecodeError {
    /// The error in words.
    pub open spec fn spec_message(self) -> Seq<char> {
        match self {
            DecodeError::DepthSizeMismatch { len, width, height } => "depth blob length "@
                + decimal(len as nat) + " does not match "@ + decimal(width as nat) + "x"@
                + decimal(height as nat) + "*4"@,
            DecodeError::ConfidenceSizeMismatch { len, width, height } => "confidence blob length "@
                + decimal(len as nat) + " does not match "@ + decimal(width as nat) + "x"@
                + decimal(height as nat),
            DecodeError::IntrinsicsSize(len) => "intrinsics blob length "@ + decimal(len as nat)
                + " != 72 (9 × f64)"@,
        }
    }

    /// The error in words.
    pub fn message(&self) -> (r: String)
        ensures
            r@ == self.spec_message(),
    {
        let mut out = String::new();
        match self {
            DecodeError::DepthSizeMismatch { len, width, height } => {
                out.append("depth blob length ");
                push_decimal(&mut out, *len as u64);
                out.append(" does not match ");
                push_decimal(&mut out, *width as u64);
                out.append("x");
                push_decimal(&mut out, *height as u64);
                out.append("*4");
            },
            DecodeError::ConfidenceSizeMismatch { len, width, height } => {
                out.append("confidence blob length ");
                push_decimal(&mut out, *len as u64);
                out.append(" does not match ");
                push_decimal(&mut out, *width as u64);
                out.append("x");
                push_decimal(&mut out, *height as u64);
            },
            DecodeError::IntrinsicsSize(len) => {
                out.append("intrinsics blob length ");
                push_decimal(&mut out, *len as u64);
                out.append(" != 72 (9 × f64)");
            },
        }
        assert(out@ =~= self.spec_message());
        out
    }
}

/// How far ARKit trusts a depth sample.
#[derive(Debug, Clone, Copy, PartialEq, Eq, Structural)]
pub enum Confidence {
    Low,
    Medium,
    High,
}

impl Confidence {
    /// The level as ARKit numbers it.
    pub open spec fn level(self) -> nat {
        match self {
            Confidence::Low => 0,
            Confidence::Medium => 1,
            Confidence::High => 2,
        }
    }

    /// The level that a byte stands for. A byte that stands for none counts as
    /// low, so that a malformed one is not taken for a good sample.
    pub open spec fn spec_from_byte(b: u8) -> Confidence {
        if b == 2 {
            Confidence::High
        } else if b == 1 {
            Confidence::Medium
        } else {
            Confidence::Low
        }
    }

    fn from_byte(b: u8) -> (r: Self)
        ensures
            r == Confidence::spec_from_byte(b),
    {
        match b {
            2 => Confidence::High,
            1 => Confidence::Medium,
            _ => Confidence::Low,
        }
    }

    fn rank(self) -> (r: u8)
        ensures
            r == self.level(),
    {
        match self {
            Confidence::Low => 0,
            Confidence::Medium => 1,
            Confidence::High => 2,
        }
    }

    /// Whether this level is `threshold` or above.
    #[must_use]
    pub fn at_least(self, threshold: Self) -> (r: bool)
        ensures
            r == (self.level() >= threshold.level()),
    {
        self.rank() >= threshold.rank()
    }
}

/// The entries of a camera matrix that are not fixed, at the resolution of the
/// **RGB image**.
#[derive(Debug, Clone, Copy, PartialEq, Eq, Structural)]
pub struct Intrinsics {
    pub fx: Double,
    pub fy: Double,
    pub cx: Double,
    pub cy: Double,
}

impl Intrinsics {
    /// The matrix at another resolution: each entry is multiplied by the ratio of
    /// the widths, or of the heights.
    pub open spec fn spec_scaled(self, from_w: u32, from_h: u32, to_w: u32, to_h: u32) -> Intrinsics {
        let sx = Double::spec_from_count(to_w as nat).spec_div(
            Double::spec_from_count(from_w as nat),
        );
        let sy = Double::spec_from_count(to_h as nat).spec_div(
            Double::spec_from_count(from_h as nat),
        );
        Intrinsics {
            fx: self.fx.spec_mul(sx),
            fy: self.fy.spec_mul(sy),
            cx: self.cx.spec_mul(sx),
            cy: self.cy.spec_mul(sy),
        }
    }

    /// Scales to a different image resolution (e.g. depth resolution).
    #[must_use]
    pub fn scaled(&self, from_w: u32, from_h: u32, to_w: u32, to_h: u32) -> (r: Self)
        ensures
            r == self.spec_scaled(from_w, from_h, to_w, to_h),
    {
        let sx = Double::from_count(to_w).div(Double::from_count(from_w));
        let sy = Double::from_count(to_h).div(Double::from_count(from_h));
        Intrinsics {
            fx: self.fx.mul(sx),
            fy: self.fy.mul(sy),
            cx: self.cx.mul(sx),
            cy: self.cy.mul(sy),
        }
    }
}

/// The number that bytes stand for, the least significant first.
pub open spec fn little_endian(s: Seq<u8>) -> nat
    decreases s.len(),
{
    if s.len() == 0 {
        0
    } else {
        s[0] as nat + 256 * little_endian(s.drop_first())
    }
}

/// The depth samples that a blob holds.
pub open spec fn depth_samples(bytes: Seq<u8>) -> Seq<Single> {
    Seq::new(
        bytes.len() / 4,
        |i: int| Single { bits: little_endian(bytes.subrange(4 * i, 4 * i + 4)) as u32 },
    )
}

/// The entry at place `i` of a blob of doubles.
pub open spec fn double_entry(bytes: Seq<u8>, i: int) -> Double {
    Double { bits: little_endian(bytes.subrange(8 * i, 8 * i + 8)) as u64 }
}

proof fn lemma_four_bytes(s: Seq<u8>)
    requires
        s.len() == 4,
    ensures
        little_endian(s) == s[0] + 0x100 * s[1] + 0x1_0000 * s[2] + 0x100_0000 * s[3],
{
    reveal_with_fuel(little_endian, 5);
    let a = s.drop_first();
    let b = a.drop_first();
    let c = b.drop_first();
    assert(a[0] == s[1] && b[0] == s[2] && c[0] == s[3]);
    assert(c.drop_first().len() == 0);
}

fn read_u32(bytes: &[u8], at: usize) -> (r: u32)
    requires
        at + 4 <= bytes@.len(),
    ensures
        r == little_endian(bytes@.subrange(at as int, at + 4)),
{
    proof {
        lemma_four_bytes(bytes@.subrange(at as int, at + 4));
    }
    bytes[at] as u32 + 0x100 * (bytes[at + 1] as u32) + 0x1_0000 * (bytes[at + 2] as u32)
        + 0x100_0000 * (bytes[at + 3] as u32)
}

proof fn lemma_eight_bytes(s: Seq<u8>)
    requires
        s.len() == 8,
    ensures
        little_endian(s) == little_endian(s.subrange(0, 4)) + 0x1_0000_0000 * little_endian(
            s.subrange(4, 8),
        ),
{
    lemma_four_bytes(s.subrange(0, 4));
    let a = s.drop_first();
    let b = a.drop_first();
    let c = b.drop_first();
    let d = c.drop_first();
    assert(a[0] == s[1] && b[0] == s[2] && c[0] == s[3]);
    assert(d =~= s.subrange(4, 8));
    reveal_with_fuel(little_endian, 5);
}

fn read_double(bytes: &[u8], i: usize) -> (r: Double)
    requires
        i < 9,
        bytes@.len() == 72,
    ensures
        r == double_entry(bytes@, i as int),
{
    let low = read_u32(bytes, 8 * i);
    let high = read_u32(bytes, 8 * i + 4);
    proof {
        let s = bytes@.subrange(8 * i, 8 * i + 8);
        lemma_eight_bytes(s);
        assert(s.subrange(0, 4) =~= bytes@.subrange(8 * i, 8 * i + 4));
        assert(s.subrange(4, 8) =~= bytes@.subrange(8 * i + 4, 8 * i + 8));
    }
    Double { bits: low as u64 + 0x1_0000_0000 * (high as u64) }
}

/// Decodes a depth blob.
pub fn decode_depth(bytes: &[u8], width: u32, height: u32) -> (r: Result<Vec<Single>, DecodeError>)
    ensures
        match r {
            Ok(depth) => bytes@.len() == width * height * 4 && depth@ == depth_samples(bytes@),
            Err(e) => bytes@.len() != width * height * 4 && e == DecodeError::DepthSizeMismatch {
                len: bytes@.len() as usize,
                width: width as usize,
                height: height as usize,
            },
        },
{
    assert(0 <= width * height <= 0xffff_ffff * 0xffff_ffff) by (nonlinear_arith)
        requires
            0 <= width <= 0xffff_ffff,
            0 <= height <= 0xffff_ffff,
    ;
    let expected: u128 = (width as u128) * (height as u128) * 4;
    if bytes.len() as u128 != expected {
        return Err(
            DecodeError::DepthSizeMismatch {
                len: bytes.len(),
                width: width as usize,
                height: height as usize,
            },
        );
    }
    let count: usize = bytes.len() / 4;
    let mut out: Vec<Single> = Vec::with_capacity(count);
    let mut i: usize = 0;
    while i < count
        invariant
            i <= count,
            count == bytes@.len() / 4,
            bytes@.len() <= usize::MAX,
            out@ == depth_samples(bytes@).take(i as int),
        decreases count - i,
    {
        let bits = read_u32(bytes, 4 * i);
        out.push(Single { bits });
        assert(out@ =~= depth_samples(bytes@).take(i + 1));
        i = i + 1;
    }
    assert(out@ =~= depth_samples(bytes@));
    Ok(out)
}

/// The confidence levels that a blob holds.
pub open spec fn blob_levels(bytes: Seq<u8>) -> Seq<Confidence> {
    bytes.map_values(|b: u8| Confidence::spec_from_byte(b))
}

/// Decodes a confidence blob.
pub fn decode_confidence(bytes: &[u8], width: u32, height: u32) -> (r: Result<
    Vec<Confidence>,
    DecodeError,
>)
    ensures
        match r {
            Ok(levels) => bytes@.len() == width * height && levels@ == blob_levels(bytes@),
            Err(e) => bytes@.len() != width * height && e == DecodeError::ConfidenceSizeMismatch {
                len: bytes@.len() as usize,
                width: width as usize,
                height: height as usize,
            },
        },
{
    assert(0 <= width * height <= 0xffff_ffff * 0xffff_ffff) by (nonlinear_arith)
        requires
            0 <= width <= 0xffff_ffff,
            0 <= height <= 0xffff_ffff,
    ;
    let expected: u128 = (width as u128) * (height as u128);
    if bytes.len() as u128 != expected {
        return Err(
            DecodeError::ConfidenceSizeMismatch {
                len: bytes.len(),
                width: width as usize,
                height: height as usize,
            },
        );
    }
    let ghost all = blob_levels(bytes@);
    let mut out: Vec<Confidence> = Vec::with_capacity(bytes.len());
    let mut i: usize = 0;
    while i < bytes.len()
        invariant
            i <= bytes@.len(),
            all == blob_levels(bytes@),
            out@ == all.take(i as int),
        decreases bytes@.len() - i,
    {
        out.push(Confidence::from_byte(bytes[i]));
        assert(out@ =~= all.take(i + 1));
        i = i + 1;
    }
    assert(out@ =~= all);
    Ok(out)
}

/// The camera matrix that a blob holds.
pub open spec fn blob_intrinsics(bytes: Seq<u8>) -> Intrinsics {
    Intrinsics {
        fx: double_entry(bytes, 0),
        fy: double_entry(bytes, 4),
        cx: double_entry(bytes, 2),
        cy: double_entry(bytes, 5),
    }
}

/// Decodes an intrinsics blob.
pub fn decode_intrinsics(bytes: &[u8]) -> (r: Result<Intrinsics, DecodeError>)
    ensures
        r == if bytes@.len() == 72 {
            Ok(blob_intrinsics(bytes@))
        } else {
            Err(DecodeError::IntrinsicsSize(bytes@.len() as usize))
        },
{
    if bytes.len() != 72 {
        return Err(DecodeError::IntrinsicsSize(bytes.len()));
    }
    Ok(
        Intrinsics {
            fx: read_double(bytes, 0),
            cx: read_double(bytes, 2),
            fy: read_double(bytes, 4),
            cy: read_double(bytes, 5),
        },
    )
}

/// `x` in `count` bytes, the least significant first.
pub open spec fn to_little_endian(x: nat, count: nat) -> Seq<u8>
    decreases count,
{
    if count == 0 {
        seq![]
    } else {
        seq![(x % 256) as u8] + to_little_endian(x / 256, (count - 1) as nat)
    }
}

/// The blob that holds the depth samples.
pub open spec fn depth_blob(samples: Seq<Single>) -> Seq<u8>
    decreases samples.len(),
{
    if samples.len() == 0 {
        seq![]
    } else {
        depth_blob(samples.drop_last()) + to_little_endian(samples.last().bits as nat, 4)
    }
}

/// The blob that holds the doubles.
pub open spec fn double_blob(entries: Seq<Double>) -> Seq<u8>
    decreases entries.len(),
{
    if entries.len() == 0 {
        seq![]
    } else {
        double_blob(entries.drop_last()) + to_little_endian(entries.last().bits as nat, 8)
    }
}

/// The nine entries of a camera matrix.
pub open spec fn matrix(k: Intrinsics) -> Seq<Double> {
    let zero = Double { bits: 0 };
    let one = Double { bits: ONE };
    seq![k.fx, zero, k.cx, zero, k.fy, k.cy, zero, zero, one]
}

proof fn lemma_little_endian_round_trip(x: nat, count: nat)
    requires
        x < vstd::arithmetic::power::pow(256, count),
    ensures
        to_little_endian(x, count).len() == count,
        little_endian(to_little_endian(x, count)) == x,
    decreases count,
{
    reveal(vstd::arithmetic::power::pow);
    if count > 0 {
        let rest = to_little_endian(x / 256, (count - 1) as nat);
        lemma_little_endian_round_trip(x / 256, (count - 1) as nat);
        assert(to_little_endian(x, count).drop_first() =~= rest);
    }
}

proof fn lemma_byte_powers()
    ensures
        vstd::arithmetic::power::pow(256, 4) == 0x1_0000_0000,
        vstd::arithmetic::power::pow(256, 8) == 0x1_0000_0000_0000_0000,
{
    reveal_with_fuel(vstd::arithmetic::power::pow, 9);
}

/// A depth blob decodes to the samples that it was made of.
pub proof fn law_depth_round_trip(samples: Seq<Single>)
    ensures
        depth_blob(samples).len() == 4 * samples.len(),
        depth_samples(depth_blob(samples)) == samples,
    decreases samples.len(),
{
    if samples.len() > 0 {
        let front = depth_blob(samples.drop_last());
        let word = to_little_endian(samples.last().bits as nat, 4);
        law_depth_round_trip(samples.drop_last());
        lemma_byte_powers();
        lemma_little_endian_round_trip(samples.last().bits as nat, 4);
        let blob = depth_blob(samples);
        let last = samples.len() - 1;
        assert forall|i: int| 0 <= i < samples.len() implies depth_samples(blob)[i] == samples[i] by {
            if i < last {
                assert(blob.subrange(4 * i, 4 * i + 4) =~= front.subrange(4 * i, 4 * i + 4));
                assert(depth_samples(front)[i] == samples.drop_last()[i]);
            } else {
                assert(blob.subrange(4 * i, 4 * i + 4) =~= word);
            }
        }
        assert(depth_samples(blob) =~= samples);
    } else {
        assert(depth_samples(depth_blob(samples)) =~= samples);
    }
}

proof fn lemma_double_round_trip(entries: Seq<Double>)
    ensures
        double_blob(entries).len() == 8 * entries.len(),
        forall|i: int|
            0 <= i < entries.len() ==> #[trigger] double_entry(double_blob(entries), i)
                == entries[i],
    decreases entries.len(),
{
    if entries.len() > 0 {
        let front = double_blob(entries.drop_last());
        let word = to_little_endian(entries.last().bits as nat, 8);
        lemma_double_round_trip(entries.drop_last());
        lemma_byte_powers();
        lemma_little_endian_round_trip(entries.last().bits as nat, 8);
        let blob = double_blob(entries);
        let last = entries.len() - 1;
        assert forall|i: int| 0 <= i < entries.len() implies #[trigger] double_entry(blob, i)
            == entries[i] by {
            if i < last {
                assert(blob.subrange(8 * i, 8 * i + 8) =~= front.subrange(8 * i, 8 * i + 8));
                assert(double_entry(front, i) == entries.drop_last()[i]);
            } else {
                assert(blob.subrange(8 * i, 8 * i + 8) =~= word);
            }
        }
    }
}

/// The blob of a camera matrix has the length that is asked of it, and decodes
/// to the entries of the matrix.
pub proof fn law_intrinsics_round_trip(k: Intrinsics)
    ensures
        double_blob(matrix(k)).len() == 72,
        blob_intrinsics(double_blob(matrix(k))) == k,
{
    lemma_double_round_trip(matrix(k));
}

/// Scaling to the resolution that the matrix is at leaves it as it is.
pub proof fn law_scaling_to_same_size(k: Intrinsics, width: u32, height: u32)
    requires
        width > 0,
        height > 0,
        !k.fx.nan() && !k.fy.nan() && !k.cx.nan() && !k.cy.nan(),
    ensures
        k.spec_scaled(width, height, width, height) == k,
{
    law_counts_are_exact(width as nat);
    law_counts_are_exact(height as nat);
    law_divided_by_itself(Double::spec_from_count(width as nat));
    law_divided_by_itself(Double::spec_from_count(height as nat));
    law_times_one(k.fx);
    law_times_one(k.fy);
    law_times_one(k.cx);
    law_times_one(k.cy);
}

/// Whether scaling keeps the full precision of every entry.
pub open spec fn scales_precisely(
    k: Intrinsics,
    from_w: u32,
    from_h: u32,
    to_w: u32,
    to_h: u32,
) -> bool {
    let s = k.spec_scaled(from_w, from_h, to_w, to_h);
    is_precise(k.fx, s.fx) && is_precise(k.fy, s.fy) && is_precise(k.cx, s.cx) && is_precise(
        k.cy,
        s.cy,
    )
}

/// Whether `b` is off from `a` by seven parts in `2^53` at most.
pub open spec fn almost(a: Double, b: Double) -> bool {
    b.finite() && abs(b.signed_units() - a.signed_units()) * pow2(53) <= 7 * abs(a.signed_units())
}

proof fn lemma_abs_times(a: int, b: int)
    ensures
        abs(a * b) == abs(a) * abs(b),
{
    assert(a >= 0 && b >= 0 ==> a * b >= 0) by (nonlinear_arith);
    assert(a >= 0 && b < 0 ==> a * b <= 0 && -(a * b) == a * (-b)) by (nonlinear_arith);
    assert(a < 0 && b >= 0 ==> a * b <= 0 && -(a * b) == (-a) * b) by (nonlinear_arith);
    assert(a < 0 && b < 0 ==> a * b >= 0 && a * b == (-a) * (-b)) by (nonlinear_arith);
}

proof fn lemma_there_and_back(k: Double, a: u32, b: u32)
    requires
        a > 0,
        b > 0,
        ({
            let there = k.spec_mul(
                Double::spec_from_count(b as nat).spec_div(Double::spec_from_count(a as nat)),
            );
            let back = there.spec_mul(
                Double::spec_from_count(a as nat).spec_div(Double::spec_from_count(b as nat)),
            );
            is_precise(k, there) && is_precise(there, back)
        }),
    ensures
        almost(
            k,
            k.spec_mul(
                Double::spec_from_count(b as nat).spec_div(Double::spec_from_count(a as nat)),
            ).spec_mul(
                Double::spec_from_count(a as nat).spec_div(Double::spec_from_count(b as nat)),
            ),
        ),
{
    let there = k.spec_mul(
        Double::spec_from_count(b as nat).spec_div(Double::spec_from_count(a as nat)),
    );
    let back = there.spec_mul(
        Double::spec_from_count(a as nat).spec_div(Double::spec_from_count(b as nat)),
    );
    lemma_ratio_error(k, a, b);
    lemma_ratio_error(there, b, a);
    lemma2_to64();
    lemma2_to64_rest();
    let p = pow2(53) as int;
    let (x, y, z) = (b * k.signed_units(), a * there.signed_units(), b * back.signed_units());
    let (u, v, w) = (abs(x) as int, abs(y) as int, abs(z - x) as int);
    let (d, e) = (abs(y - x) as int, abs(z - y) as int);
    // The second error is taken of a number that is itself a little larger.
    lemma_times(v, u + d, p);
    lemma_times(w, d + e, p);
    assert((u + d) * p == u * p + d * p && (d + e) * p == d * p + e * p) by (nonlinear_arith);
    assert(w * p <= 3 * u + 3 * v);
    assert(v * p <= u * p + 3 * u);
    lemma_times(w * p, 3 * u + 3 * v, p);
    assert((3 * u + 3 * v) * p == 3 * (u * p) + 3 * (v * p)) by (nonlinear_arith);
    lemma_times(9, p, u);
    assert(p * u == u * p && (7 * u) * p == 7 * (u * p)) by (nonlinear_arith);
    lemma_cancel(w * p, 7 * u, p);
    // The common factor goes.
    let off = back.signed_units() - k.signed_units();
    assert(z - x == b * off) by (nonlinear_arith)
        requires
            z == b * back.signed_units(),
            x == b * k.signed_units(),
            off == back.signed_units() - k.signed_units(),
    ;
    lemma_abs_times(b as int, off);
    lemma_abs_times(b as int, k.signed_units());
    let (f, g) = (abs(off) as int, abs(k.signed_units()) as int);
    assert((b * f) * p == (f * p) * b && 7 * (b * g) == (7 * g) * b) by (nonlinear_arith);
    lemma_cancel(f * p, 7 * g, b as int);
}

/// Scaling to another resolution and back gives every entry back up to rounding:
/// it is off by seven parts in `2^53` at most.
pub proof fn law_scaling_back_restores(
    k: Intrinsics,
    from_w: u32,
    from_h: u32,
    to_w: u32,
    to_h: u32,
)
    requires
        from_w > 0 && from_h > 0 && to_w > 0 && to_h > 0,
        scales_precisely(k, from_w, from_h, to_w, to_h),
        scales_precisely(
            k.spec_scaled(from_w, from_h, to_w, to_h),
            to_w,
            to_h,
            from_w,
            from_h,
        ),
    ensures
        ({
            let back = k.spec_scaled(from_w, from_h, to_w, to_h).spec_scaled(
                to_w,
                to_h,
                from_w,
                from_h,
            );
            almost(k.fx, back.fx) && almost(k.fy, back.fy) && almost(k.cx, back.cx) && almost(
                k.cy,
                back.cy,
            )
        }),
{
    lemma_there_and_back(k.fx, from_w, to_w);
    lemma_there_and_back(k.cx, from_w, to_w);
    lemma_there_and_back(k.fy, from_h, to_h);
    lemma_there_and_back(k.cy, from_h, to_h);
}

/// Whether the position `u` of an image, in units, lies on the same line of sight
/// as the position that it is scaled to, up to three parts in `2^53`.
///
/// The line of sight through `u` has the slope `(u - c) / f`. That of the scaled
/// position has the slope `(u * to / from - sc) / sf`. The two are held against
/// each other across their denominators.
pub open spec fn same_sight(
    f: Double,
    c: Double,
    sf: Double,
    sc: Double,
    from: u32,
    to: u32,
    u: int,
) -> bool {
    let before = (u - c.signed_units()) * (from * sf.signed_units());
    let after = (u * to - from * sc.signed_units()) * f.signed_units();
    abs(after - before) * pow2(53) <= 3 * ((to * abs(f.signed_units())) * (abs(c.signed_units())
        + abs(u - c.signed_units())))
}

proof fn lemma_sight(f: Double, c: Double, from: u32, to: u32, u: int)
    requires
        from > 0,
        to > 0,
        ({
            let ratio = Double::spec_from_count(to as nat).spec_div(
                Double::spec_from_count(from as nat),
            );
            is_precise(f, f.spec_mul(ratio)) && is_precise(c, c.spec_mul(ratio))
        }),
    ensures
        ({
            let ratio = Double::spec_from_count(to as nat).spec_div(
                Double::spec_from_count(from as nat),
            );
            same_sight(f, c, f.spec_mul(ratio), c.spec_mul(ratio), from, to, u)
        }),
{
    let ratio = Double::spec_from_count(to as nat).spec_div(Double::spec_from_count(from as nat));
    lemma_ratio_error(f, from, to);
    lemma_ratio_error(c, from, to);
    let p = pow2(53) as int;
    let (fu, cu) = (f.signed_units(), c.signed_units());
    let (sf, sc) = (f.spec_mul(ratio).signed_units(), c.spec_mul(ratio).signed_units());
    let x = from * sc - to * cu;
    let y = from * sf - to * fu;
    let before = (u - cu) * (from * sf);
    let after = (u * to - from * sc) * fu;
    assert(after - before == -(x * fu) - (u - cu) * y) by (nonlinear_arith)
        requires
            x == from * sc - to * cu,
            y == from * sf - to * fu,
            before == (u - cu) * (from * sf),
            after == (u * to - from * sc) * fu,
    ;
    lemma_abs_times(x, fu);
    lemma_abs_times(u - cu, y);
    lemma_abs_times(to as int, cu);
    lemma_abs_times(to as int, fu);
    let (ax, ay, af, ac, ad) = (
        abs(x) as int,
        abs(y) as int,
        abs(fu) as int,
        abs(cu) as int,
        abs(u - cu) as int,
    );
    lemma_times(abs(after - before) as int, ax * af + ad * ay, p);
    assert((ax * af + ad * ay) * p == (ax * p) * af + (ay * p) * ad) by (nonlinear_arith);
    lemma_times(ax * p, 3 * (to * ac), af);
    lemma_times(ay * p, 3 * (to * af), ad);
    assert((3 * (to * ac)) * af + (3 * (to * af)) * ad == 3 * ((to * af) * (ac + ad)))
        by (nonlinear_arith);
}

/// A pixel keeps its line of sight when the image and its matrix are scaled
/// together, up to rounding.
pub proof fn law_scaling_keeps_sight(
    k: Intrinsics,
    from_w: u32,
    from_h: u32,
    to_w: u32,
    to_h: u32,
    u: int,
    v: int,
)
    requires
        from_w > 0 && from_h > 0 && to_w > 0 && to_h > 0,
        scales_precisely(k, from_w, from_h, to_w, to_h),
    ensures
        ({
            let s = k.spec_scaled(from_w, from_h, to_w, to_h);
            &&& same_sight(k.fx, k.cx, s.fx, s.cx, from_w, to_w, u)
            &&& same_sight(k.fy, k.cy, s.fy, s.cy, from_h, to_h, v)
        }),
{
    lemma_sight(k.fx, k.cx, from_w, to_w, u);
    lemma_sight(k.fy, k.cy, from_h, to_h, v);
}

/// The order of the levels is total: of two levels, one is at least the other,
/// and both are only if they are the same.
pub proof fn law_levels_are_ordered(a: Confidence, b: Confidence)
    ensures
        a.level() >= b.level() || b.level() >= a.level(),
        a.level() >= b.level() && b.level() >= a.level() ==> a == b,
        Confidence::High.level() >= a.level(),
        a.level() >= Confidence::Low.level(),
{
}

/// The blob of confidence levels: a byte for each, 0 for low, 1 for medium and 2
/// for high.
pub open spec fn confidence_blob(levels: Seq<Confidence>) -> Seq<u8> {
    Seq::new(
        levels.len(),
        |i: int|
            match levels[i] {
                Confidence::Low => 0u8,
                Confidence::Medium => 1u8,
                Confidence::High => 2u8,
            },
    )
}

/// A confidence blob decodes to the levels that it was made of, however many there
/// are.
pub proof fn law_confidence_round_trip(levels: Seq<Confidence>)
    ensures
        confidence_blob(levels).len() == levels.len(),
        blob_levels(confidence_blob(levels)) == levels,
{
    assert(blob_levels(confidence_blob(levels)) =~= levels);
}

/// At every place of a confidence blob of any length, the byte 2 is high, the byte
/// 1 is medium, and every other byte is low.
pub proof fn law_other_bytes_are_low(bytes: Seq<u8>, i: int)
    requires
        0 <= i < bytes.len(),
    ensures
        blob_levels(bytes).len() == bytes.len(),
        blob_levels(bytes)[i] == Confidence::High <==> bytes[i] == 2,
        blob_levels(bytes)[i] == Confidence::Medium <==> bytes[i] == 1,
        blob_levels(bytes)[i] == Confidence::Low <==> bytes[i] != 1 && bytes[i] != 2,
{
}

/// A depth blob holds a sample in every four bytes, the least significant byte
/// first.
pub proof fn law_samples_take_four_bytes(bytes: Seq<u8>, i: int)
    requires
        0 <= i,
        4 * i + 4 <= bytes.len(),
    ensures
        depth_samples(bytes).len() == bytes.len() / 4,
        depth_samples(bytes)[i].bits == bytes[4 * i] + 0x100 * bytes[4 * i + 1] + 0x1_0000
            * bytes[4 * i + 2] + 0x100_0000 * bytes[4 * i + 3],
{
    lemma_four_bytes(bytes.subrange(4 * i, 4 * i + 4));
}

/// The number in the eight bytes from place `at` on, the least significant first.
pub open spec fn eight_bytes(bytes: Seq<u8>, at: int) -> int {
    bytes[at] + 0x100 * bytes[at + 1] + 0x1_0000 * bytes[at + 2] + 0x100_0000 * bytes[at + 3]
        + 0x1_0000_0000 * bytes[at + 4] + 0x100_0000_0000 * bytes[at + 5] + 0x1_0000_0000_0000
        * bytes[at + 6] + 0x100_0000_0000_0000 * bytes[at + 7]
}

proof fn lemma_entry(bytes: Seq<u8>, i: int)
    requires
        0 <= i,
        8 * i + 8 <= bytes.len(),
    ensures
        double_entry(bytes, i).bits == eight_bytes(bytes, 8 * i),
{
    let s = bytes.subrange(8 * i, 8 * i + 8);
    lemma_eight_bytes(s);
    lemma_four_bytes(s.subrange(0, 4));
    lemma_four_bytes(s.subrange(4, 8));
}

/// The entries of a camera matrix are in their places of its nine numbers: the
/// focal lengths in the first and the fifth, the principal point in the third and
/// the sixth.
pub proof fn law_matrix_entries_in_their_places(bytes: Seq<u8>)
    requires
        bytes.len() == 72,
    ensures
        blob_intrinsics(bytes).fx.bits == eight_bytes(bytes, 0),
        blob_intrinsics(bytes).cx.bits == eight_bytes(bytes, 16),
        blob_intrinsics(bytes).fy.bits == eight_bytes(bytes, 32),
        blob_intrinsics(bytes).cy.bits == eight_bytes(bytes, 40),
{
    lemma_entry(bytes, 0);
    lemma_entry(bytes, 2);
    lemma_entry(bytes, 4);
    lemma_entry(bytes, 5);
}

/// What is said of a blob of the wrong length: the length, and the sizes that it was held
/// against.
pub proof fn law_words_name_the_sizes(len: usize, width: usize, height: usize)
    ensures
        (DecodeError::DepthSizeMismatch { len, width, height }).spec_message()
            == "depth blob length "@ + decimal(len as nat) + " does not match "@ + decimal(
            width as nat,
        ) + "x"@ + decimal(height as nat) + "*4"@,
        (DecodeError::ConfidenceSizeMismatch { len, width, height }).spec_message()
            == "confidence blob length "@ + decimal(len as nat) + " does not match "@ + decimal(
            width as nat,
        ) + "x"@ + decimal(height as nat),
        DecodeError::IntrinsicsSize(len).spec_message() == "intrinsics blob length "@ + decimal(
            len as nat,
        ) + " != 72 (9 × f64)"@,
{
}

} // verus!
