//! What goes into a LAZ file: the point records in LAS point format 2 (position
//! and colour), and the offset that their quantised positions are taken from.
use vstd::arithmetic::power2::{lemma2_to64, lemma2_to64_rest, lemma_pow2_adds, pow2};
use vstd::math::abs;
use vstd::prelude::*;

use crate::accuracy::{is_half_way, law_midpoint_is_half_way};
use crate::double::{law_midpoint_lies_between, Double, INFINITY, SIGN};
use crate::unproject::ColoredPoint;

verus! {

/// The major number of the LAS version.
pub const LAS_VERSION_MAJOR: u8 = 1;

/// The minor number of the LAS version.
pub const LAS_VERSION_MINOR: u8 = 2;

/// The LAS point format.
pub const POINT_FORMAT: u8 = 2;

/// The step that positions are quantised in, 1 mm, which is well below the noise
/// of ARKit depth: the bits of 0.001.
pub const SCALE_M: u64 = 0x3f50_624d_d2f1_a9fc;

/// Why a cloud is not written.
#[derive(Debug, Clone, Copy, PartialEq, Eq, Structural)]
pub enum WriteError {
    /// There is no point in it.
    Empty,
}

impl WriteError {
    /// The error in words.
    pub fn message(&self) -> (r: String)
        ensures
            r@ == "no points to write — every depth pixel was skipped"@,
    {
        "no points to write — every depth pixel was skipped".to_owned()
    }
}

/// A position.
#[derive(Debug, Clone, Copy, PartialEq, Eq, Structural)]
pub struct Position {
    pub x: Double,
    pub y: Double,
    pub z: Double,
}

/// A point record: the channels of its colour have 16 bits.
#[derive(Debug, Clone, Copy, PartialEq, Eq, Structural)]
pub struct LasRecord {
    pub x: Double,
    pub y: Double,
    pub z: Double,
    pub red: u16,
    pub green: u16,
    pub blue: u16,
}

/// A cloud that is ready to be written.
#[derive(Debug, Clone)]
pub struct LazCloud {
    pub offset: Position,
    pub records: Vec<LasRecord>,
}

/// A coordinate of a point.
#[derive(Debug, Clone, Copy, PartialEq, Eq, Structural)]
pub enum Axis {
    X,
    Y,
    Z,
}

impl Axis {
    pub open spec fn of(self, p: ColoredPoint) -> Double {
        match self {
            Axis::X => p.x,
            Axis::Y => p.y,
            Axis::Z => p.z,
        }
    }

    fn pick(self, p: &ColoredPoint) -> (r: Double)
        ensures
            r == self.of(*p),
    {
        match self {
            Axis::X => p.x,
            Axis::Y => p.y,
            Axis::Z => p.z,
        }
    }
}

/// The least coordinate of the points.
pub open spec fn least(points: Seq<ColoredPoint>, axis: Axis) -> Double
    decreases points.len(),
{
    if points.len() == 0 {
        Double { bits: INFINITY }
    } else {
        least(points.drop_last(), axis).spec_min(axis.of(points.last()))
    }
}

/// The greatest coordinate of the points.
pub open spec fn greatest(points: Seq<ColoredPoint>, axis: Axis) -> Double
    decreases points.len(),
{
    if points.len() == 0 {
        Double { bits: (SIGN + INFINITY) as u64 }
    } else {
        greatest(points.drop_last(), axis).spec_max(axis.of(points.last()))
    }
}

/// The middle of the points along an axis.
pub open spec fn middle(points: Seq<ColoredPoint>, axis: Axis) -> Double {
    least(points, axis).spec_midpoint(greatest(points, axis))
}

/// A channel of 8 bits stretched to 16, so that full intensity stays full.
pub open spec fn stretched(channel: u8) -> u16 {
    (channel * 0x101) as u16
}

/// The record of a point.
pub open spec fn record(p: ColoredPoint) -> LasRecord {
    LasRecord {
        x: p.x,
        y: p.y,
        z: p.z,
        red: stretched(p.r),
        green: stretched(p.g),
        blue: stretched(p.b),
    }
}

impl LazCloud {
    /// Whether this is the cloud of the points: a record for each, and their
    /// middle as the offset.
    pub open spec fn holds(self, points: Seq<ColoredPoint>) -> bool {
        &&& self.offset == (Position {
            x: middle(points, Axis::X),
            y: middle(points, Axis::Y),
            z: middle(points, Axis::Z),
        })
        &&& self.records@ == points.map_values(|p: ColoredPoint| record(p))
    }
}

fn stretch(channel: u8) -> (r: u16)
    ensures
        r == stretched(channel),
{
    channel as u16 * 0x101
}

fn middle_of(points: &[ColoredPoint], axis: Axis) -> (r: Double)
    ensures
        r == middle(points@, axis),
{
    let mut low = Double { bits: INFINITY };
    let mut high = Double { bits: SIGN + INFINITY };
    let mut i: usize = 0;
    while i < points.len()
        invariant
            i <= points@.len(),
            low == least(points@.take(i as int), axis),
            high == greatest(points@.take(i as int), axis),
        decreases points@.len() - i,
    {
        let c = axis.pick(&points[i]);
        proof {
            assert(points@.take(i + 1).drop_last() =~= points@.take(i as int));
        }
        low = low.min(c);
        high = high.max(c);
        i = i + 1;
    }
    assert(points@.take(i as int) =~= points@);
    low.midpoint(high)
}

/// Prepares a cloud for writing.
///
/// The offset is the middle of the cloud, so that the quantised positions stay
/// well inside the range of their integers.
pub fn laz_cloud(points: &[ColoredPoint]) -> (r: Result<LazCloud, WriteError>)
    ensures
        match r {
            Ok(cloud) => points@.len() > 0 && cloud.holds(points@),
            Err(e) => points@.len() == 0 && e == WriteError::Empty,
        },
{
    if points.len() == 0 {
        return Err(WriteError::Empty);
    }
    let offset = Position {
        x: middle_of(points, Axis::X),
        y: middle_of(points, Axis::Y),
        z: middle_of(points, Axis::Z),
    };
    let ghost all = points@.map_values(|p: ColoredPoint| record(p));
    let mut records: Vec<LasRecord> = Vec::with_capacity(points.len());
    let mut i: usize = 0;
    while i < points.len()
        invariant
            i <= points@.len(),
            all == points@.map_values(|p: ColoredPoint| record(p)),
            records@ == all.take(i as int),
        decreases points@.len() - i,
    {
        let p = &points[i];
        records.push(
            LasRecord {
                x: p.x,
                y: p.y,
                z: p.z,
                red: stretch(p.r),
                green: stretch(p.g),
                blue: stretch(p.b),
            },
        );
        assert(records@ =~= all.take(i + 1));
        i = i + 1;
    }
    assert(records@ =~= all);
    Ok(LazCloud { offset, records })
}

/// Both bytes of a stretched channel are the channel: nothing is lost, and the
/// ends of the range stay the ends.
pub proof fn law_stretch_keeps_channel(channel: u8)
    ensures
        stretched(channel) / 0x100 == channel,
        stretched(channel) % 0x100 == channel,
        stretched(0) == 0,
        stretched(255) == 0xffff,
{
}

/// The bounds hold: no coordinate is below the least or above the greatest.
pub proof fn law_bounds_hold(points: Seq<ColoredPoint>, axis: Axis, i: int)
    requires
        0 <= i < points.len(),
    ensures
        !axis.of(points[i]).spec_less(least(points, axis)),
        !greatest(points, axis).spec_less(axis.of(points[i])),
        !least(points, axis).nan(),
        !greatest(points, axis).nan(),
    decreases points.len(),
{
    let front = points.drop_last();
    if i < points.len() - 1 {
        law_bounds_hold(front, axis, i);
    } else if front.len() > 0 {
        law_bounds_hold(front, axis, 0);
    }
}

proof fn lemma_bounds_are_finite(points: Seq<ColoredPoint>, axis: Axis)
    requires
        forall|i: int| 0 <= i < points.len() ==> axis.of(#[trigger] points[i]).finite(),
    ensures
        points.len() > 0 ==> least(points, axis).finite() && greatest(points, axis).finite(),
    decreases points.len(),
{
    reveal_with_fuel(least, 2);
    reveal_with_fuel(greatest, 2);
    if points.len() > 0 {
        let front = points.drop_last();
        assert(axis.of(points[points.len() - 1]).finite());
        assert forall|i: int| 0 <= i < front.len() implies axis.of(
            #[trigger] front[i],
        ).finite() by {
            assert(axis.of(points[i]).finite());
        }
        lemma_bounds_are_finite(front, axis);
    }
}

/// The offset of a cloud lies in the cloud: along each axis it is no less than the
/// least coordinate and no more than the greatest.
pub proof fn law_offset_lies_in_the_cloud(points: Seq<ColoredPoint>, axis: Axis)
    requires
        points.len() > 0,
        forall|i: int| 0 <= i < points.len() ==> axis.of(#[trigger] points[i]).finite(),
    ensures
        middle(points, axis).finite(),
        !middle(points, axis).spec_less(least(points, axis)),
        !greatest(points, axis).spec_less(middle(points, axis)),
{
    lemma_bounds_are_finite(points, axis);
    assert(axis.of(points[0]).finite());
    law_bounds_hold(points, axis, 0);
    law_midpoint_lies_between(least(points, axis), greatest(points, axis));
}

/// The cloud of points has a record for each point, at the same place: the position is
/// that of the point, and each channel is 257 times that of the point, which takes 0 to 0
/// and 255 to 65535.
pub proof fn law_records_are_the_points(cloud: LazCloud, points: Seq<ColoredPoint>, i: int)
    requires
        cloud.holds(points),
        0 <= i < points.len(),
    ensures
        cloud.records@.len() == points.len(),
        ({
            let (r, p) = (cloud.records@[i], points[i]);
            &&& r.x == p.x && r.y == p.y && r.z == p.z
            &&& r.red == 257 * p.r && r.green == 257 * p.g && r.blue == 257 * p.b
        }),
{
    assert(cloud.records@[i] == record(points[i]));
}

/// Whether one of the points has this coordinate.
pub open spec fn is_coordinate(points: Seq<ColoredPoint>, axis: Axis, c: Double) -> bool {
    exists|i: int| 0 <= i < points.len() && axis.of(#[trigger] points[i]) == c
}

/// The bounds are reached: one of the points has the least coordinate, and one has the
/// greatest.
pub proof fn law_bounds_are_reached(points: Seq<ColoredPoint>, axis: Axis)
    requires
        points.len() > 0,
        forall|i: int| 0 <= i < points.len() ==> axis.of(#[trigger] points[i]).finite(),
    ensures
        is_coordinate(points, axis, least(points, axis)),
        is_coordinate(points, axis, greatest(points, axis)),
    decreases points.len(),
{
    reveal_with_fuel(least, 2);
    reveal_with_fuel(greatest, 2);
    let front = points.drop_last();
    let last = points[points.len() - 1];
    assert(axis.of(last).finite());
    assert(axis.of(points[points.len() - 1]) == axis.of(last));
    if front.len() > 0 {
        assert forall|i: int| 0 <= i < front.len() implies axis.of(
            #[trigger] front[i],
        ).finite() by {
            assert(axis.of(points[i]).finite());
        }
        law_bounds_are_reached(front, axis);
        let i = choose|i: int|
            0 <= i < front.len() && axis.of(#[trigger] front[i]) == least(front, axis);
        let j = choose|j: int|
            0 <= j < front.len() && axis.of(#[trigger] front[j]) == greatest(front, axis);
        assert(axis.of(points[i]) == least(front, axis));
        assert(axis.of(points[j]) == greatest(front, axis));
    }
}

/// The offset of a cloud is half way between the least and the greatest coordinate along
/// each axis, up to rounding.
pub proof fn law_offset_is_half_way(points: Seq<ColoredPoint>, cloud: LazCloud)
    requires
        points.len() > 0,
        cloud.holds(points),
        forall|i: int|
            0 <= i < points.len() ==> (#[trigger] points[i]).x.finite() && points[i].y.finite()
                && points[i].z.finite(),
    ensures
        is_half_way(cloud.offset.x, least(points, Axis::X), greatest(points, Axis::X)),
        is_half_way(cloud.offset.y, least(points, Axis::Y), greatest(points, Axis::Y)),
        is_half_way(cloud.offset.z, least(points, Axis::Z), greatest(points, Axis::Z)),
{
    lemma_bounds_are_finite(points, Axis::X);
    lemma_bounds_are_finite(points, Axis::Y);
    lemma_bounds_are_finite(points, Axis::Z);
    assert(Axis::X.of(points[0]).finite());
    law_bounds_hold(points, Axis::X, 0);
    law_bounds_hold(points, Axis::Y, 0);
    law_bounds_hold(points, Axis::Z, 0);
    law_midpoint_is_half_way(least(points, Axis::X), greatest(points, Axis::X));
    law_midpoint_is_half_way(least(points, Axis::Y), greatest(points, Axis::Y));
    law_midpoint_is_half_way(least(points, Axis::Z), greatest(points, Axis::Z));
}

/// The file is in version 1.2 with point format 2, and positions go in steps of a thousandth of a
/// metre, up to rounding.
pub proof fn law_steps_are_millimetres()
    ensures
        LAS_VERSION_MAJOR == 1 && LAS_VERSION_MINOR == 2 && POINT_FORMAT == 2,
        ({
            let step = Double { bits: SCALE_M };
            &&& step.finite() && !step.negative()
            &&& abs(1000 * step.units() - pow2(1074)) * 0x20_0000_0000_0000 <= pow2(1074)
        }),
{
    lemma2_to64();
    lemma2_to64_rest();
    let m = SCALE_M as nat;
    assert(m % pow2(52) == 0x624d_d2f1_a9fc && m / pow2(52) == 0x3f5);
    lemma_pow2_adds(62, 1012);
    let tick = pow2(1012) as int;
    assert(1000 * (0x10_624d_d2f1_a9fc * tick) - 0x4000_0000_0000_0000 * tick == 96 * tick)
        by (nonlinear_arith);
}

/// The three axes take their coordinates.
pub proof fn law_axes_take_their_coordinates(p: ColoredPoint)
    ensures
        Axis::X.of(p) == p.x,
        Axis::Y.of(p) == p.y,
        Axis::Z.of(p) == p.z,
{
}

} // verus!
