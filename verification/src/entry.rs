//! The per-key aggregate: running minimum, maximum, sum and count of the
//! values seen for one key, in fixed-point hundredths.

use vstd::prelude::*;

verus! {

/// Largest magnitude a parsed value may have, in hundredths.
pub const VAL_LIMIT: i64 = 999_999_999_999_999;

/// Mathematical model of one aggregate entry.
pub ghost struct EntryModel {
    pub min: int,
    pub max: int,
    pub sum: int,
    pub count: int,
}

pub open spec fn min_int(a: int, b: int) -> int {
    if a <= b {
        a
    } else {
        b
    }
}

pub open spec fn max_int(a: int, b: int) -> int {
    if a >= b {
        a
    } else {
        b
    }
}

/// The entry recording a single value.
pub open spec fn entry_of(v: int) -> EntryModel {
    EntryModel { min: v, max: v, sum: v, count: 1 }
}

/// Pointwise combination of two entries for the same key.
pub open spec fn combine_entries(a: EntryModel, b: EntryModel) -> EntryModel {
    EntryModel {
        min: min_int(a.min, b.min),
        max: max_int(a.max, b.max),
        sum: a.sum + b.sum,
        count: a.count + b.count,
    }
}

/// Folding one more observed value into an entry.
pub open spec fn entry_add(e: EntryModel, v: int) -> EntryModel {
    combine_entries(e, entry_of(v))
}

/// Well-formedness: counts start at one, extrema are bounded by the value
/// range, and the sum is bounded by `count` values of largest magnitude.
pub open spec fn entry_wf(e: EntryModel) -> bool {
    &&& 1 <= e.count <= u64::MAX
    &&& -VAL_LIMIT <= e.min <= e.max <= VAL_LIMIT
    &&& -(VAL_LIMIT * e.count) <= e.sum <= VAL_LIMIT * e.count
}

/// Running aggregate for one key. `min`, `max` and `sum` are fixed-point
/// values in hundredths.
#[derive(Clone, Copy, Debug, PartialEq, Eq, Structural)]
pub struct AggregateEntry {
    pub min: i64,
    pub max: i64,
    pub sum: i128,
    pub count: u64,
}

impl View for AggregateEntry {
    type V = EntryModel;

    open spec fn view(&self) -> EntryModel {
        EntryModel {
            min: self.min as int,
            max: self.max as int,
            sum: self.sum as int,
            count: self.count as int,
        }
    }
}

/// The mean in hundredths, truncated toward zero.
pub open spec fn spec_mean(e: EntryModel) -> int
    recommends
        e.count >= 1,
{
    if e.sum >= 0 {
        e.sum / e.count
    } else {
        -((-e.sum) / e.count)
    }
}

impl AggregateEntry {
    /// The mean value of this entry, in hundredths, truncated toward zero.
    pub fn mean_scaled(&self) -> (r: i64)
        requires
            entry_wf(self@),
        ensures
            r as int == spec_mean(self@),
    {
        proof {
            assert(self.sum <= VAL_LIMIT * self.count && -(VAL_LIMIT * self.count) <= self.sum);
        }
        if self.sum >= 0 {
            let mag: u128 = self.sum as u128;
            let q: u128 = mag / (self.count as u128);
            proof {
                lemma_div_bound(mag as int, self.count as int, VAL_LIMIT as int);
            }
            q as i64
        } else {
            let mag: u128 = ((-1i128 - self.sum) as u128) + 1;
            let q: u128 = mag / (self.count as u128);
            proof {
                assert(mag == -(self.sum as int));
                lemma_div_bound(mag as int, self.count as int, VAL_LIMIT as int);
            }
            -(q as i64)
        }
    }
}

/// Division by a positive count keeps a bounded magnitude bounded.
proof fn lemma_div_bound(mag: int, count: int, limit: int)
    requires
        0 <= mag,
        1 <= count,
        0 <= limit,
        mag <= limit * count,
    ensures
        0 <= mag / count <= limit,
{
    assert(0 <= mag / count <= limit) by (nonlinear_arith)
        requires
            0 <= mag,
            1 <= count,
            0 <= limit,
            mag <= limit * count,
    ;
}

} // verus!
