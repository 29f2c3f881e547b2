//! Reduction of long log series to a drawable number of chart points.

use vstd::prelude::*;

verus! {

/// Charts draw at most about this many points per series.
pub const MAX_CHART_POINTS: usize = 10_000;

/// The sampling stride for a series of `len` points: one point in every
/// `len / MAX_CHART_POINTS`, and every point for short series.
pub open spec fn chart_step(len: int) -> int {
    if len / (MAX_CHART_POINTS as int) > 1 {
        len / (MAX_CHART_POINTS as int)
    } else {
        1
    }
}

/// The number of points drawn from a series of `len` points.
pub open spec fn chart_point_count(len: int) -> int {
    (len + chart_step(len) - 1) / chart_step(len)
}

/// The chart points of a series: every `chart_step`-th pair of timestamp and
/// value, starting with the first, over the length of the shorter slice.
pub fn decimated_points<T: Copy>(timestamps: &[T], values: &[T]) -> (points: Vec<[T; 2]>)
    ensures
        ({
            let len = if timestamps@.len() < values@.len() {
                timestamps@.len() as int
            } else {
                values@.len() as int
            };
            &&& points@.len() == chart_point_count(len)
            &&& forall|k: int|
                0 <= k < points@.len() ==> (#[trigger] points@[k])@ == seq![
                    timestamps@[k * chart_step(len)],
                    values@[k * chart_step(len)],
                ]
        }),
{
    let len = if timestamps.len() < values.len() {
        timestamps.len()
    } else {
        values.len()
    };
    let mut points: Vec<[T; 2]> = Vec::new();
    if len == 0 {
        return points;
    }
    let step = if len / MAX_CHART_POINTS > 1 {
        len / MAX_CHART_POINTS
    } else {
        1
    };
    let mut i: usize = 0;
    let ghost mut k: int = 0;
    while i < len
        invariant
            len <= timestamps@.len(),
            len <= values@.len(),
            step == chart_step(len as int),
            step >= 1,
            k == points@.len(),
            i == (if k * step < len { k * step } else { len as int }),
            k > 0 ==> (k - 1) * step < len,
            forall|j: int|
                0 <= j < points@.len() ==> (#[trigger] points@[j])@ == seq![
                    timestamps@[j * step],
                    values@[j * step],
                ],
        decreases len - i,
    {
        points.push([timestamps[i], values[i]]);
        proof {
            assert((k + 1) * step == k * step + step) by (nonlinear_arith);
            k = k + 1;
        }
        if len - i <= step {
            i = len;
        } else {
            i = i + step;
        }
    }
    proof {
        let s = step as int;
        let l = len as int;
        assert((l + s - 1) / s == k) by (nonlinear_arith)
            requires
                (k - 1) * s < l,
                l <= k * s,
                s >= 1,
        ;
    }
    points
}

} // verus!
