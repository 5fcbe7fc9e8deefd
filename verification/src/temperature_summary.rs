//! The per-key aggregate cell: running min, max, sum and count.

use vstd::prelude::*;
use crate::aggregation::AggregateModel;

verus! {

/// Running statistics for one key. All temperatures are tenths-scaled
/// integers, so `-3.2` is carried as `-32`. The cell is seeded from the
/// first reading of a key and updated in place for every later reading.
#[derive(Clone, Copy, PartialEq, Eq, Structural, Debug)]
pub struct TemperatureSummary {
    pub min: i32,
    pub max: i32,
    pub total: i64,
    pub count: i32,
}

impl TemperatureSummary {
    /// The mathematical content of the cell.
    pub open spec fn model(self) -> AggregateModel {
        AggregateModel {
            min: self.min as int,
            max: self.max as int,
            total: self.total as int,
            count: self.count as int,
        }
    }

    pub fn min(&self) -> (r: i32)
        ensures
            r == self.min,
    {
        self.min
    }

    pub fn max(&self) -> (r: i32)
        ensures
            r == self.max,
    {
        self.max
    }

    /// Folds one reading into the cell.
    pub fn add_reading(&mut self, temp: i32)
        requires
            -999 <= temp <= 999,
            old(self).count < i32::MAX,
            i64::MIN + 999 <= old(self).total <= i64::MAX - 999,
        ensures
            final(self).model() == old(self).model().update(temp as int),
    {
        if temp < self.min {
            self.min = temp;
        }
        if temp > self.max {
            self.max = temp;
        }
        self.total = self.total + temp as i64;
        self.count = self.count + 1;
    }

    /// A cell seeded with the first reading of a key.
    pub fn of(temp: i32) -> (r: TemperatureSummary)
        ensures
            r.model() == AggregateModel::seed(temp as int),
    {
        TemperatureSummary { min: temp, max: temp, total: temp as i64, count: 1 }
    }

    /// The rounded average of the readings, as a tenths-scaled integer.
    ///
    /// The result is `(total + count / 2)` divided by `count`, rounding the
    /// quotient toward negative infinity; together this rounds the true
    /// average to the nearest tenth, halves away from the smaller value.
    pub fn avg_tenths(&self) -> (r: i64)
        requires
            1 <= self.count,
            -999 * self.count <= self.total <= 999 * self.count,
        ensures
            r == (self.total + self.count / 2) / (self.count as int),
    {
        proof {
            assert(self.total <= 999 * 0x7fff_ffff && -999 * 0x7fff_ffff <= self.total)
                by (nonlinear_arith)
                requires
                    1 <= self.count <= 0x7fff_ffff,
                    -999 * self.count <= self.total <= 999 * self.count,
            ;
        }
        let half: i64 = (self.count as u64 / 2) as i64;
        let t: i64 = self.total + half;
        proof {
            assert(i64::MIN <= t as int / (self.count as int) <= i64::MAX) by (nonlinear_arith)
                requires
                    1 <= self.count as int,
                    i64::MIN <= t as int <= i64::MAX,
            ;
        }
        match t.checked_div_euclid(self.count as i64) {
            Some(q) => q,
            None => {
                proof {
                    assert(false);
                }
                0
            },
        }
    }
}

impl Default for TemperatureSummary {
    /// The neutral cell: folding any reading into it behaves like seeding.
    fn default() -> (r: TemperatureSummary)
        ensures
            r.min == i32::MAX,
            r.max == i32::MIN,
            r.total == 0,
            r.count == 0,
    {
        TemperatureSummary { min: i32::MAX, max: i32::MIN, total: 0, count: 0 }
    }
}

} // verus!
