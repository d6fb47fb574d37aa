//! Sampling-based auto-calibration: until an index has seen its sample
//! threshold of inputs, values only feed tally counters over a ladder of
//! thresholds; at the threshold the first rung whose tail mass stays
//! within the clamp margin picks the working range, and the buffered
//! batch is flushed through the normal insert path.
//!
//! Percent comparisons are exact: `count / total * 100 <= margin` is
//! decided as `count * 100 * FX_ONE <= margin * total` on the
//! fixed-point grid, with no rounding.

use crate::fixed::FX_ONE;
use vstd::prelude::*;

verus! {

/// Tail-mass tallies for the sparse value ladder (1.0 through 9.0).
#[derive(Clone, Copy, PartialEq, Eq, Structural, Debug)]
pub struct SparseSamplingData {
    pub above_1: u64,
    pub above_2: u64,
    pub above_3: u64,
    pub above_4: u64,
    pub above_5: u64,
    pub above_6: u64,
    pub above_7: u64,
    pub above_8: u64,
    pub above_9: u64,
    pub values_collected: u64,
}

impl SparseSamplingData {
    /// The all-zero tallies a fresh index starts from.
    pub open spec fn spec_zeroed() -> SparseSamplingData {
        SparseSamplingData {
            above_1: 0,
            above_2: 0,
            above_3: 0,
            above_4: 0,
            above_5: 0,
            above_6: 0,
            above_7: 0,
            above_8: 0,
            above_9: 0,
            values_collected: 0,
        }
    }

    pub fn new() -> (r: Self)
        ensures
            r == (SparseSamplingData {
                above_1: 0,
                above_2: 0,
                above_3: 0,
                above_4: 0,
                above_5: 0,
                above_6: 0,
                above_7: 0,
                above_8: 0,
                above_9: 0,
                values_collected: 0,
            }),
    {
        SparseSamplingData {
            above_1: 0,
            above_2: 0,
            above_3: 0,
            above_4: 0,
            above_5: 0,
            above_6: 0,
            above_7: 0,
            above_8: 0,
            above_9: 0,
            values_collected: 0,
        }
    }

    /// Whether every counter still has room for one more value.
    pub open spec fn counters_free(self) -> bool {
        &&& self.above_1 < u64::MAX
        &&& self.above_2 < u64::MAX
        &&& self.above_3 < u64::MAX
        &&& self.above_4 < u64::MAX
        &&& self.above_5 < u64::MAX
        &&& self.above_6 < u64::MAX
        &&& self.above_7 < u64::MAX
        &&& self.above_8 < u64::MAX
        &&& self.above_9 < u64::MAX
        &&& self.values_collected < u64::MAX
    }

    /// The tallies after one more fixed-point value.
    pub open spec fn spec_tallied(self, value: u64) -> SparseSamplingData {
        SparseSamplingData {
            above_1: (self.above_1 + (if value > 1 * FX_ONE { 1int } else { 0int })) as u64,
            above_2: (self.above_2 + (if value > 2 * FX_ONE { 1int } else { 0int })) as u64,
            above_3: (self.above_3 + (if value > 3 * FX_ONE { 1int } else { 0int })) as u64,
            above_4: (self.above_4 + (if value > 4 * FX_ONE { 1int } else { 0int })) as u64,
            above_5: (self.above_5 + (if value > 5 * FX_ONE { 1int } else { 0int })) as u64,
            above_6: (self.above_6 + (if value > 6 * FX_ONE { 1int } else { 0int })) as u64,
            above_7: (self.above_7 + (if value > 7 * FX_ONE { 1int } else { 0int })) as u64,
            above_8: (self.above_8 + (if value > 8 * FX_ONE { 1int } else { 0int })) as u64,
            above_9: (self.above_9 + (if value > 9 * FX_ONE { 1int } else { 0int })) as u64,
            values_collected: (self.values_collected + 1) as u64,
        }
    }

    /// One sampling step as the upload performs it: the value is
    /// tallied when every counter has room, else dropped.
    pub open spec fn spec_step(self, value: u64) -> SparseSamplingData {
        if self.counters_free() {
            self.spec_tallied(value)
        } else {
            self
        }
    }

    /// The tallies after a whole vector's values, left to right.
    pub open spec fn spec_steps(self, values: Seq<u64>) -> SparseSamplingData
        decreases values.len(),
    {
        if values.len() == 0 {
            self
        } else {
            self.spec_step(values[0]).spec_steps(values.skip(1))
        }
    }

    /// The tallies after a whole batch of vectors.
    pub open spec fn spec_steps_points(self, points: Seq<Seq<u64>>) -> SparseSamplingData
        decreases points.len(),
    {
        if points.len() == 0 {
            self
        } else {
            self.spec_steps(points[0]).spec_steps_points(points.skip(1))
        }
    }

    /// Tallies one fixed-point value against every rung of the ladder.
    pub fn tally(&mut self, value: u64)
        requires
            old(self).counters_free(),
        ensures
            *final(self) == old(self).spec_tallied(value),
    {
        if value > 1 * FX_ONE {
            self.above_1 = self.above_1 + 1;
        }
        if value > 2 * FX_ONE {
            self.above_2 = self.above_2 + 1;
        }
        if value > 3 * FX_ONE {
            self.above_3 = self.above_3 + 1;
        }
        if value > 4 * FX_ONE {
            self.above_4 = self.above_4 + 1;
        }
        if value > 5 * FX_ONE {
            self.above_5 = self.above_5 + 1;
        }
        if value > 6 * FX_ONE {
            self.above_6 = self.above_6 + 1;
        }
        if value > 7 * FX_ONE {
            self.above_7 = self.above_7 + 1;
        }
        if value > 8 * FX_ONE {
            self.above_8 = self.above_8 + 1;
        }
        if value > 9 * FX_ONE {
            self.above_9 = self.above_9 + 1;
        }
        self.values_collected = self.values_collected + 1;
    }
}

/// Peeling one value off the end of a sparse sampling run.
pub proof fn lemma_sparse_steps_snoc(sd: SparseSamplingData, values: Seq<u64>, j: int)
    requires
        0 <= j < values.len(),
    ensures
        sd.spec_steps(values.take(j + 1)) == sd.spec_steps(values.take(j)).spec_step(values[j]),
    decreases j,
{
    reveal_with_fuel(SparseSamplingData::spec_steps, 3);
    if j == 0 {
        assert(values.take(1)[0] == values[0]);
        assert(values.take(1).skip(1) =~= Seq::<u64>::empty());
        assert(values.take(0) =~= Seq::<u64>::empty());
    } else {
        assert(values.take(j + 1)[0] == values[0]);
        assert(values.take(j + 1).skip(1) =~= values.skip(1).take(j));
        assert(values.take(j)[0] == values[0]);
        assert(values.take(j).skip(1) =~= values.skip(1).take(j - 1));
        lemma_sparse_steps_snoc(sd.spec_step(values[0]), values.skip(1), j - 1);
        assert(values.skip(1)[j - 1] == values[j]);
    }
}

/// Peeling one vector off the end of a sparse sampling batch.
pub proof fn lemma_sparse_points_snoc(sd: SparseSamplingData, points: Seq<Seq<u64>>, i: int)
    requires
        0 <= i < points.len(),
    ensures
        sd.spec_steps_points(points.take(i + 1)) == sd.spec_steps_points(
            points.take(i),
        ).spec_steps(points[i]),
    decreases i,
{
    reveal_with_fuel(SparseSamplingData::spec_steps_points, 3);
    if i == 0 {
        assert(points.take(1)[0] == points[0]);
        assert(points.take(1).skip(1) =~= Seq::<Seq<u64>>::empty());
        assert(points.take(0) =~= Seq::<Seq<u64>>::empty());
    } else {
        assert(points.take(i + 1)[0] == points[0]);
        assert(points.take(i + 1).skip(1) =~= points.skip(1).take(i));
        assert(points.take(i)[0] == points[0]);
        assert(points.take(i).skip(1) =~= points.skip(1).take(i - 1));
        lemma_sparse_points_snoc(sd.spec_steps(points[0]), points.skip(1), i - 1);
        assert(points.skip(1)[i - 1] == points[i]);
    }
}

/// Peeling one component off the end of a dense sampling run.
pub proof fn lemma_dense_steps_snoc(sd: DenseSamplingData, values: Seq<i64>, j: int)
    requires
        0 <= j < values.len(),
    ensures
        sd.spec_steps(values.take(j + 1)) == sd.spec_steps(values.take(j)).spec_step(values[j]),
    decreases j,
{
    reveal_with_fuel(DenseSamplingData::spec_steps, 3);
    if j == 0 {
        assert(values.take(1)[0] == values[0]);
        assert(values.take(1).skip(1) =~= Seq::<i64>::empty());
        assert(values.take(0) =~= Seq::<i64>::empty());
    } else {
        assert(values.take(j + 1)[0] == values[0]);
        assert(values.take(j + 1).skip(1) =~= values.skip(1).take(j));
        assert(values.take(j)[0] == values[0]);
        assert(values.take(j).skip(1) =~= values.skip(1).take(j - 1));
        lemma_dense_steps_snoc(sd.spec_step(values[0]), values.skip(1), j - 1);
        assert(values.skip(1)[j - 1] == values[j]);
    }
}

/// Peeling one vector off the end of a dense sampling batch.
pub proof fn lemma_dense_points_snoc(sd: DenseSamplingData, points: Seq<Seq<i64>>, i: int)
    requires
        0 <= i < points.len(),
    ensures
        sd.spec_steps_points(points.take(i + 1)) == sd.spec_steps_points(
            points.take(i),
        ).spec_steps(points[i]),
    decreases i,
{
    reveal_with_fuel(DenseSamplingData::spec_steps_points, 3);
    if i == 0 {
        assert(points.take(1)[0] == points[0]);
        assert(points.take(1).skip(1) =~= Seq::<Seq<i64>>::empty());
        assert(points.take(0) =~= Seq::<Seq<i64>>::empty());
    } else {
        assert(points.take(i + 1)[0] == points[0]);
        assert(points.take(i + 1).skip(1) =~= points.skip(1).take(i));
        assert(points.take(i)[0] == points[0]);
        assert(points.take(i).skip(1) =~= points.skip(1).take(i - 1));
        lemma_dense_points_snoc(sd.spec_steps(points[0]), points.skip(1), i - 1);
        assert(points.skip(1)[i - 1] == points[i]);
    }
}

/// Exact percent test: is `count` at most `margin` percent of `total`?
/// `margin` carries percent on the fixed-point grid.
pub open spec fn spec_within_margin(count: int, total: int, margin: int) -> bool {
    count * 100 * (FX_ONE as int) <= margin * total
}

pub fn within_margin(count: u64, total: u64, margin: u64) -> (r: bool)
    requires
        margin <= 100 * FX_ONE,
    ensures
        r == spec_within_margin(count as int, total as int, margin as int),
{
    proof {
        let c = count as int;
        let t = total as int;
        let mg = margin as int;
        assert(c * 100 < 0x1_0000_0000_0000_0000_0000) by (nonlinear_arith)
            requires
                0 <= c < 0x1_0000_0000_0000_0000,
        ;
        let c100 = c * 100;
        assert(c100 * 65536 < 0x1_0000_0000_0000_0000_0000_0000_0000) by (nonlinear_arith)
            requires
                0 <= c100 < 0x1_0000_0000_0000_0000_0000,
        ;
        assert(c * 100 * (FX_ONE as int) == c100 * 65536);
        assert(mg * t < 0x1_0000_0000_0000_0000_0000_0000) by (nonlinear_arith)
            requires
                0 <= mg <= 6553600,
                0 <= t < 0x1_0000_0000_0000_0000,
        ;
    }
    let lhs: u128 = (count as u128) * 100 * (FX_ONE as u128);
    let rhs: u128 = (margin as u128) * (total as u128);
    lhs <= rhs
}

/// The calibrated sparse upper bound: the first rung of the ladder
/// whose tail mass stays within the margin; the overflow bucket is
/// 10.0 when every rung overflows. Fixed-point units.
pub open spec fn spec_values_upper_bound(s: SparseSamplingData, margin: int) -> int {
    let total = s.values_collected as int;
    if spec_within_margin(s.above_1 as int, total, margin) {
        1 * FX_ONE as int
    } else if spec_within_margin(s.above_2 as int, total, margin) {
        2 * FX_ONE as int
    } else if spec_within_margin(s.above_3 as int, total, margin) {
        3 * FX_ONE as int
    } else if spec_within_margin(s.above_4 as int, total, margin) {
        4 * FX_ONE as int
    } else if spec_within_margin(s.above_5 as int, total, margin) {
        5 * FX_ONE as int
    } else if spec_within_margin(s.above_6 as int, total, margin) {
        6 * FX_ONE as int
    } else if spec_within_margin(s.above_7 as int, total, margin) {
        7 * FX_ONE as int
    } else if spec_within_margin(s.above_8 as int, total, margin) {
        8 * FX_ONE as int
    } else if spec_within_margin(s.above_9 as int, total, margin) {
        9 * FX_ONE as int
    } else {
        10 * FX_ONE as int
    }
}

pub fn compute_values_upper_bound(s: &SparseSamplingData, clamp_margin_percent: u64) -> (r: u64)
    requires
        clamp_margin_percent <= 100 * FX_ONE,
    ensures
        r as int == spec_values_upper_bound(*s, clamp_margin_percent as int),
        FX_ONE <= r <= 10 * FX_ONE,
{
    let total = s.values_collected;
    if within_margin(s.above_1, total, clamp_margin_percent) {
        1 * FX_ONE
    } else if within_margin(s.above_2, total, clamp_margin_percent) {
        2 * FX_ONE
    } else if within_margin(s.above_3, total, clamp_margin_percent) {
        3 * FX_ONE
    } else if within_margin(s.above_4, total, clamp_margin_percent) {
        4 * FX_ONE
    } else if within_margin(s.above_5, total, clamp_margin_percent) {
        5 * FX_ONE
    } else if within_margin(s.above_6, total, clamp_margin_percent) {
        6 * FX_ONE
    } else if within_margin(s.above_7, total, clamp_margin_percent) {
        7 * FX_ONE
    } else if within_margin(s.above_8, total, clamp_margin_percent) {
        8 * FX_ONE
    } else if within_margin(s.above_9, total, clamp_margin_percent) {
        9 * FX_ONE
    } else {
        10 * FX_ONE
    }
}

/// When every sampled value overflows the whole ladder (all tallies at
/// the total) and the margin lies below one hundred percent of a
/// non-empty sample, calibration lands in the overflow bucket: the
/// upper bound is 10.0. A sample that merely exceeds 1.0 does not
/// force the overflow bucket: values of, say, one and a half land at
/// the 2.0 rung instead.
pub proof fn lemma_calibration_overflow_bucket(s: SparseSamplingData, margin: int)
    requires
        s.values_collected > 0,
        0 <= margin < 100 * FX_ONE,
        s.above_1 == s.values_collected,
        s.above_2 == s.values_collected,
        s.above_3 == s.values_collected,
        s.above_4 == s.values_collected,
        s.above_5 == s.values_collected,
        s.above_6 == s.values_collected,
        s.above_7 == s.values_collected,
        s.above_8 == s.values_collected,
        s.above_9 == s.values_collected,
    ensures
        spec_values_upper_bound(s, margin) == 10 * FX_ONE,
{
    let total = s.values_collected as int;
    assert(!spec_within_margin(total, total, margin)) by (nonlinear_arith)
        requires
            total > 0,
            0 <= margin < 100 * (FX_ONE as int),
    ;
}

/// Tail-mass tallies for the dense value ladder (plus and minus 0.1
/// through 0.5).
#[derive(Clone, Copy, PartialEq, Eq, Structural, Debug)]
pub struct DenseSamplingData {
    pub above_01: u64,
    pub above_02: u64,
    pub above_03: u64,
    pub above_04: u64,
    pub above_05: u64,
    pub below_01: u64,
    pub below_02: u64,
    pub below_03: u64,
    pub below_04: u64,
    pub below_05: u64,
    pub values_collected: u64,
}

impl DenseSamplingData {
    /// The tallies of an index that has sampled nothing.
    pub open spec fn spec_zeroed() -> DenseSamplingData {
        DenseSamplingData {
            above_01: 0,
            above_02: 0,
            above_03: 0,
            above_04: 0,
            above_05: 0,
            below_01: 0,
            below_02: 0,
            below_03: 0,
            below_04: 0,
            below_05: 0,
            values_collected: 0,
        }
    }

    pub fn new() -> (r: Self)
        ensures
            r == (DenseSamplingData {
                above_01: 0,
                above_02: 0,
                above_03: 0,
                above_04: 0,
                above_05: 0,
                below_01: 0,
                below_02: 0,
                below_03: 0,
                below_04: 0,
                below_05: 0,
                values_collected: 0,
            }),
    {
        DenseSamplingData {
            above_01: 0,
            above_02: 0,
            above_03: 0,
            above_04: 0,
            above_05: 0,
            below_01: 0,
            below_02: 0,
            below_03: 0,
            below_04: 0,
            below_05: 0,
            values_collected: 0,
        }
    }

    /// Whether every counter still has room for one more value.
    pub open spec fn counters_free(self) -> bool {
        &&& self.above_01 < u64::MAX
        &&& self.above_02 < u64::MAX
        &&& self.above_03 < u64::MAX
        &&& self.above_04 < u64::MAX
        &&& self.above_05 < u64::MAX
        &&& self.below_01 < u64::MAX
        &&& self.below_02 < u64::MAX
        &&& self.below_03 < u64::MAX
        &&& self.below_04 < u64::MAX
        &&& self.below_05 < u64::MAX
        &&& self.values_collected < u64::MAX
    }

    /// The tallies after one more signed fixed-point component.
    pub open spec fn spec_tallied(self, value: i64) -> DenseSamplingData {
        DenseSamplingData {
            above_01: (self.above_01 + (if value > tenth_fx(1) { 1int } else { 0int })) as u64,
            above_02: (self.above_02 + (if value > tenth_fx(2) { 1int } else { 0int })) as u64,
            above_03: (self.above_03 + (if value > tenth_fx(3) { 1int } else { 0int })) as u64,
            above_04: (self.above_04 + (if value > tenth_fx(4) { 1int } else { 0int })) as u64,
            above_05: (self.above_05 + (if value > tenth_fx(5) { 1int } else { 0int })) as u64,
            below_01: (self.below_01 + (if value < -tenth_fx(1) { 1int } else { 0int })) as u64,
            below_02: (self.below_02 + (if value < -tenth_fx(2) { 1int } else { 0int })) as u64,
            below_03: (self.below_03 + (if value < -tenth_fx(3) { 1int } else { 0int })) as u64,
            below_04: (self.below_04 + (if value < -tenth_fx(4) { 1int } else { 0int })) as u64,
            below_05: (self.below_05 + (if value < -tenth_fx(5) { 1int } else { 0int })) as u64,
            values_collected: (self.values_collected + 1) as u64,
        }
    }

    /// One sampling step as the upload performs it: the component is
    /// tallied when every counter has room, else dropped.
    pub open spec fn spec_step(self, value: i64) -> DenseSamplingData {
        if self.counters_free() {
            self.spec_tallied(value)
        } else {
            self
        }
    }

    /// The tallies after a whole vector's components, left to right.
    pub open spec fn spec_steps(self, values: Seq<i64>) -> DenseSamplingData
        decreases values.len(),
    {
        if values.len() == 0 {
            self
        } else {
            self.spec_step(values[0]).spec_steps(values.skip(1))
        }
    }

    /// The tallies after a whole batch of vectors.
    pub open spec fn spec_steps_points(self, points: Seq<Seq<i64>>) -> DenseSamplingData
        decreases points.len(),
    {
        if points.len() == 0 {
            self
        } else {
            self.spec_steps(points[0]).spec_steps_points(points.skip(1))
        }
    }

    /// Tallies one signed fixed-point component. The rungs sit at
    /// tenths of a unit; the tenth is the floor of `FX_ONE / 10`.
    pub fn tally(&mut self, value: i64)
        requires
            old(self).counters_free(),
        ensures
            *final(self) == old(self).spec_tallied(value),
    {
        let tenth = (FX_ONE / 10) as i64;
        if value > 1 * tenth {
            self.above_01 = self.above_01 + 1;
        }
        if value > 2 * tenth {
            self.above_02 = self.above_02 + 1;
        }
        if value > 3 * tenth {
            self.above_03 = self.above_03 + 1;
        }
        if value > 4 * tenth {
            self.above_04 = self.above_04 + 1;
        }
        if value > 5 * tenth {
            self.above_05 = self.above_05 + 1;
        }
        if value < -(1 * tenth) {
            self.below_01 = self.below_01 + 1;
        }
        if value < -(2 * tenth) {
            self.below_02 = self.below_02 + 1;
        }
        if value < -(3 * tenth) {
            self.below_03 = self.below_03 + 1;
        }
        if value < -(4 * tenth) {
            self.below_04 = self.below_04 + 1;
        }
        if value < -(5 * tenth) {
            self.below_05 = self.below_05 + 1;
        }
        self.values_collected = self.values_collected + 1;
    }
}

/// One tenth of a unit on the fixed-point grid, times `k`.
pub open spec fn tenth_fx(k: int) -> int {
    k * ((FX_ONE / 10) as int)
}

/// The calibrated dense range ends, in signed fixed-point units: the
/// first rung on each side whose tail mass stays within the margin,
/// else a full unit.
pub open spec fn spec_range_end(
    a1: int,
    a2: int,
    a3: int,
    a4: int,
    a5: int,
    total: int,
    margin: int,
) -> int {
    if spec_within_margin(a1, total, margin) {
        tenth_fx(1)
    } else if spec_within_margin(a2, total, margin) {
        tenth_fx(2)
    } else if spec_within_margin(a3, total, margin) {
        tenth_fx(3)
    } else if spec_within_margin(a4, total, margin) {
        tenth_fx(4)
    } else if spec_within_margin(a5, total, margin) {
        tenth_fx(5)
    } else {
        FX_ONE as int
    }
}

/// Picks the working dense value range from the tallies.
pub fn compute_values_range(
    s: &DenseSamplingData,
    values_count: u64,
    clamp_margin_percent: u64,
) -> (r: (i64, i64))
    requires
        clamp_margin_percent <= 100 * FX_ONE,
    ensures
        r.1 as int == spec_range_end(
            s.above_01 as int,
            s.above_02 as int,
            s.above_03 as int,
            s.above_04 as int,
            s.above_05 as int,
            values_count as int,
            clamp_margin_percent as int,
        ),
        r.0 as int == -spec_range_end(
            s.below_01 as int,
            s.below_02 as int,
            s.below_03 as int,
            s.below_04 as int,
            s.below_05 as int,
            values_count as int,
            clamp_margin_percent as int,
        ),
{
    let tenth = (FX_ONE / 10) as i64;
    let range_end: i64 = if within_margin(s.above_01, values_count, clamp_margin_percent) {
        1 * tenth
    } else if within_margin(s.above_02, values_count, clamp_margin_percent) {
        2 * tenth
    } else if within_margin(s.above_03, values_count, clamp_margin_percent) {
        3 * tenth
    } else if within_margin(s.above_04, values_count, clamp_margin_percent) {
        4 * tenth
    } else if within_margin(s.above_05, values_count, clamp_margin_percent) {
        5 * tenth
    } else {
        FX_ONE as i64
    };
    let range_start: i64 = if within_margin(s.below_01, values_count, clamp_margin_percent) {
        -(1 * tenth)
    } else if within_margin(s.below_02, values_count, clamp_margin_percent) {
        -(2 * tenth)
    } else if within_margin(s.below_03, values_count, clamp_margin_percent) {
        -(3 * tenth)
    } else if within_margin(s.below_04, values_count, clamp_margin_percent) {
        -(4 * tenth)
    } else {
        -(FX_ONE as i64)
    };
    let r = if within_margin(s.below_05, values_count, clamp_margin_percent)
        && !within_margin(s.below_04, values_count, clamp_margin_percent) && !within_margin(
        s.below_03,
        values_count,
        clamp_margin_percent,
    ) && !within_margin(s.below_02, values_count, clamp_margin_percent) && !within_margin(
        s.below_01,
        values_count,
        clamp_margin_percent,
    ) {
        (-(5 * tenth), range_end)
    } else {
        (range_start, range_end)
    };
    r
}

} // verus!
