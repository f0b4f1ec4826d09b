//! Chart data: histograms and scatter data, with their axes.
//!
//! A chart's numeric values are mantissas at one decimal scale chosen by
//! the caller (a mantissa `m` at scale `s` stands for `m / 10^s`).  The
//! axes are built one decimal digit finer than the data, which reproduces
//! the sub-unit tick steps a floating-point implementation would pick.

use vstd::prelude::*;

verus! {

use crate::axis::{Axis, COORD_LIMIT, spec_calculate_ticks, DEFAULT_MAX_TICKS};

/// Largest data mantissa magnitude a chart accepts (one decimal digit of
/// headroom is kept below the axis limit for the finer axis scale).
pub const DATA_LIMIT: i64 = 100_000_000_000_000;

/// Largest number of histogram bins a chart accepts.
pub const MAX_BINS: usize = 1000;

/// Largest number of scatter points a chart accepts.
pub const MAX_POINTS: usize = 100_000;

/// Largest decimal scale a chart accepts.
pub const MAX_SCALE: u32 = 12;

/// Why chart data was rejected.
#[derive(Debug, PartialEq, Eq, Structural, Clone, Copy)]
pub enum PlotError {
    /// There is nothing to render: no bins, or no points.
    NoData,
    /// The bounds do not line up with the counts: there must be one more
    /// bound than there are bins.
    MismatchedBounds,
    /// A magnitude, count or scale is beyond what the renderer accepts.
    OutOfRange,
    /// The bin bounds are not strictly increasing.
    UnsortedBounds,
    /// All data points share one x or one y value, so no axis range exists.
    DegenerateRange,
}

pub open spec fn strictly_increasing(s: Seq<i64>) -> bool {
    forall|i: int, j: int| 0 <= i < j < s.len() ==> s[i] < s[j]
}

/// The largest count in a sequence (zero when empty).
pub open spec fn max_count_of(s: Seq<u32>) -> int
    decreases s.len(),
{
    if s.len() == 0 {
        0
    } else {
        let m = max_count_of(s.drop_last());
        if s.last() > m {
            s.last() as int
        } else {
            m
        }
    }
}

/// The top of a histogram's y axis in count units: the largest count, or
/// one when every count is zero (the reduced-fidelity fallback that keeps
/// the axis range nonempty).
pub open spec fn spec_y_top(counts: Seq<u32>) -> int {
    if max_count_of(counts) == 0 {
        1
    } else {
        max_count_of(counts)
    }
}

/// A histogram ready to render: bounds and counts at the caller's decimal
/// scale, plus the two axes at ten times that scale.
#[derive(Debug)]
pub struct Histogram {
    pub bin_bounds: Vec<i64>,
    pub bin_counts: Vec<u32>,
    pub scale: u32,
    pub x_axis: Axis,
    pub y_axis: Axis,
}

impl Histogram {
    pub open spec fn wf(&self) -> bool {
        &&& 1 <= self.bin_counts@.len() <= MAX_BINS as int
        &&& self.bin_bounds@.len() == self.bin_counts@.len() + 1
        &&& strictly_increasing(self.bin_bounds@)
        &&& forall|i: int|
            0 <= i < self.bin_bounds@.len() ==> -DATA_LIMIT <= #[trigger] self.bin_bounds@[i]
                <= DATA_LIMIT
        &&& self.scale <= MAX_SCALE
        &&& self.x_axis.wf()
        &&& self.y_axis.wf()
        &&& self.x_axis.spec_min() == 10 * self.bin_bounds@[0]
        &&& self.x_axis.spec_max() == 10 * self.bin_bounds@[self.bin_bounds@.len() - 1]
        &&& self.y_axis.spec_min() == 0
        &&& self.y_axis.spec_max() == 10 * spec_y_top(self.bin_counts@)
    }

    /// Whether bounds, counts and scale make a renderable histogram.
    pub open spec fn spec_valid_input(bounds: Seq<i64>, counts: Seq<u32>, scale: u32) -> bool {
        &&& counts.len() >= 1
        &&& bounds.len() == counts.len() + 1
        &&& counts.len() <= MAX_BINS as int
        &&& scale <= MAX_SCALE
        &&& forall|i: int| 0 <= i < bounds.len() ==> -DATA_LIMIT <= #[trigger] bounds[i] <= DATA_LIMIT
        &&& strictly_increasing(bounds)
    }

    /// Validate the data and build the histogram with its axes.  Each
    /// error comes exactly on the inputs its doc comment names, checked in
    /// the order of the clauses below.
    #[verifier::loop_isolation(false)]
    pub fn new(bin_bounds: Vec<i64>, bin_counts: Vec<u32>, scale: u32) -> (r: Result<
        Histogram,
        PlotError,
    >)
        ensures
            r is Ok <==> Self::spec_valid_input(bin_bounds@, bin_counts@, scale),
            r == Result::<Histogram, PlotError>::Err(PlotError::NoData) <==> bin_counts@.len()
                == 0,
            r == Result::<Histogram, PlotError>::Err(PlotError::MismatchedBounds) <==> (
            bin_counts@.len() >= 1 && bin_bounds@.len() != bin_counts@.len() + 1),
            r == Result::<Histogram, PlotError>::Err(PlotError::OutOfRange) <==> (
            bin_counts@.len() >= 1 && bin_bounds@.len() == bin_counts@.len() + 1 && (
            bin_counts@.len() > MAX_BINS as int || scale > MAX_SCALE || exists|i: int|
                0 <= i < bin_bounds@.len() && !(-DATA_LIMIT <= #[trigger] bin_bounds@[i]
                    <= DATA_LIMIT))),
            r == Result::<Histogram, PlotError>::Err(PlotError::UnsortedBounds) <==> (1
                <= bin_counts@.len() <= MAX_BINS as int && bin_bounds@.len() == bin_counts@.len()
                + 1 && scale <= MAX_SCALE && (forall|i: int|
                0 <= i < bin_bounds@.len() ==> -DATA_LIMIT <= #[trigger] bin_bounds@[i]
                    <= DATA_LIMIT) && !strictly_increasing(bin_bounds@)),
            r matches Ok(h) ==> h.wf() && h.bin_bounds@ == bin_bounds@ && h.bin_counts@
                == bin_counts@ && h.scale == scale,
    {
        if bin_counts.len() == 0 {
            return Err(PlotError::NoData);
        }
        if bin_bounds.len() == 0 || bin_bounds.len() - 1 != bin_counts.len() {
            return Err(PlotError::MismatchedBounds);
        }
        if bin_counts.len() > MAX_BINS || scale > MAX_SCALE {
            return Err(PlotError::OutOfRange);
        }
        let mut i: usize = 0;
        while i < bin_bounds.len()
            invariant
                i <= bin_bounds@.len(),
                forall|k: int|
                    0 <= k < i as int ==> -DATA_LIMIT <= #[trigger] bin_bounds@[k] <= DATA_LIMIT,
            decreases bin_bounds@.len() - i,
        {
            let b = bin_bounds[i];
            if b < -DATA_LIMIT || b > DATA_LIMIT {
                return Err(PlotError::OutOfRange);
            }
            i = i + 1;
        }
        let mut j: usize = 0;
        while j < bin_bounds.len() - 1
            invariant
                j <= bin_bounds@.len() - 1,
                forall|k: int| 0 <= k < j as int ==> #[trigger] bin_bounds@[k] < bin_bounds@[k + 1],
            decreases bin_bounds@.len() - j,
        {
            if bin_bounds[j] >= bin_bounds[j + 1] {
                proof {
                    assert(!strictly_increasing(bin_bounds@));
                }
                return Err(PlotError::UnsortedBounds);
            }
            j = j + 1;
        }
        proof {
            lemma_adjacent_increasing(bin_bounds@);
        }

        let first = bin_bounds[0];
        let last = bin_bounds[bin_bounds.len() - 1];
        proof {
            assert(bin_bounds@[0] < bin_bounds@[bin_bounds@.len() - 1]);
        }
        let x_axis = Axis::new(first * 10, last * 10);

        let mut top: u32 = 0;
        let mut k: usize = 0;
        while k < bin_counts.len()
            invariant
                k <= bin_counts@.len(),
                top as int == max_count_of(bin_counts@.take(k as int)),
            decreases bin_counts@.len() - k,
        {
            let c = bin_counts[k];
            proof {
                assert(bin_counts@.take(k as int + 1).drop_last() =~= bin_counts@.take(k as int));
            }
            if c > top {
                top = c;
            }
            k = k + 1;
        }
        proof {
            assert(bin_counts@.take(bin_counts@.len() as int) =~= bin_counts@);
        }
        let y_top: i64 = if top == 0 {
            1
        } else {
            top as i64
        };
        let y_axis = Axis::new(0, y_top * 10);

        Ok(
            Histogram {
                bin_bounds,
                bin_counts,
                scale,
                x_axis,
                y_axis,
            },
        )
    }

    pub fn num_bins(&self) -> (n: usize)
        ensures
            n == self.bin_counts@.len(),
    {
        self.bin_counts.len()
    }
}

/// Adjacent order on every neighbour pair gives the full strict order.
proof fn lemma_adjacent_increasing(s: Seq<i64>)
    requires
        forall|k: int| 0 <= k < s.len() - 1 ==> #[trigger] s[k] < s[k + 1],
    ensures
        strictly_increasing(s),
{
    assert forall|i: int, j: int| 0 <= i < j < s.len() implies s[i] < s[j] by {
        lemma_adjacent_increasing_pair(s, i, j);
    }
}

proof fn lemma_adjacent_increasing_pair(s: Seq<i64>, i: int, j: int)
    requires
        forall|k: int| 0 <= k < s.len() - 1 ==> #[trigger] s[k] < s[k + 1],
        0 <= i < j < s.len(),
    ensures
        s[i] < s[j],
    decreases j - i,
{
    if i + 1 < j {
        lemma_adjacent_increasing_pair(s, i + 1, j);
    }
}

/// The smallest and largest x and y mantissas of a point sequence.
pub open spec fn min_x_of(s: Seq<(i64, i64)>) -> int
    decreases s.len(),
{
    if s.len() <= 1 {
        if s.len() == 0 {
            0
        } else {
            s[0].0 as int
        }
    } else {
        let m = min_x_of(s.drop_last());
        if (s.last().0 as int) < m {
            s.last().0 as int
        } else {
            m
        }
    }
}

pub open spec fn max_x_of(s: Seq<(i64, i64)>) -> int
    decreases s.len(),
{
    if s.len() <= 1 {
        if s.len() == 0 {
            0
        } else {
            s[0].0 as int
        }
    } else {
        let m = max_x_of(s.drop_last());
        if (s.last().0 as int) > m {
            s.last().0 as int
        } else {
            m
        }
    }
}

pub open spec fn min_y_of(s: Seq<(i64, i64)>) -> int
    decreases s.len(),
{
    if s.len() <= 1 {
        if s.len() == 0 {
            0
        } else {
            s[0].1 as int
        }
    } else {
        let m = min_y_of(s.drop_last());
        if (s.last().1 as int) < m {
            s.last().1 as int
        } else {
            m
        }
    }
}

pub open spec fn max_y_of(s: Seq<(i64, i64)>) -> int
    decreases s.len(),
{
    if s.len() <= 1 {
        if s.len() == 0 {
            0
        } else {
            s[0].1 as int
        }
    } else {
        let m = max_y_of(s.drop_last());
        if (s.last().1 as int) > m {
            s.last().1 as int
        } else {
            m
        }
    }
}

/// Scatter data ready to render: the points at the caller's decimal scale,
/// plus the two axes at ten times that scale.
#[derive(Debug)]
pub struct Scatter {
    pub data: Vec<(i64, i64)>,
    pub scale: u32,
    pub x_axis: Axis,
    pub y_axis: Axis,
}

impl Scatter {
    pub open spec fn wf(&self) -> bool {
        &&& 1 <= self.data@.len() <= MAX_POINTS as int
        &&& forall|i: int|
            0 <= i < self.data@.len() ==> -DATA_LIMIT <= (#[trigger] self.data@[i]).0 <= DATA_LIMIT
                && -DATA_LIMIT <= self.data@[i].1 <= DATA_LIMIT
        &&& self.scale <= MAX_SCALE
        &&& self.x_axis.wf()
        &&& self.y_axis.wf()
        &&& self.x_axis.spec_min() == 10 * min_x_of(self.data@)
        &&& self.x_axis.spec_max() == 10 * max_x_of(self.data@)
        &&& self.y_axis.spec_min() == 10 * min_y_of(self.data@)
        &&& self.y_axis.spec_max() == 10 * max_y_of(self.data@)
    }

    /// Whether points and scale make a renderable scatter plot.
    pub open spec fn spec_valid_input(data: Seq<(i64, i64)>, scale: u32) -> bool {
        &&& 1 <= data.len() <= MAX_POINTS as int
        &&& scale <= MAX_SCALE
        &&& forall|i: int|
            0 <= i < data.len() ==> -DATA_LIMIT <= (#[trigger] data[i]).0 <= DATA_LIMIT
                && -DATA_LIMIT <= data[i].1 <= DATA_LIMIT
        &&& min_x_of(data) < max_x_of(data)
        &&& min_y_of(data) < max_y_of(data)
    }

    /// Validate the data and build the scatter plot with its axes.  Each
    /// error comes exactly on the inputs its doc comment names, checked in
    /// the order of the clauses below.
    #[verifier::loop_isolation(false)]
    pub fn new(data: Vec<(i64, i64)>, scale: u32) -> (r: Result<Scatter, PlotError>)
        ensures
            r is Ok <==> Self::spec_valid_input(data@, scale),
            r == Result::<Scatter, PlotError>::Err(PlotError::NoData) <==> data@.len() == 0,
            r == Result::<Scatter, PlotError>::Err(PlotError::OutOfRange) <==> (data@.len() >= 1
                && (data@.len() > MAX_POINTS as int || scale > MAX_SCALE || exists|i: int|
                0 <= i < data@.len() && !(-DATA_LIMIT <= (#[trigger] data@[i]).0 <= DATA_LIMIT
                    && -DATA_LIMIT <= data@[i].1 <= DATA_LIMIT))),
            r == Result::<Scatter, PlotError>::Err(PlotError::DegenerateRange) <==> (data@.len()
                >= 1 && data@.len() <= MAX_POINTS as int && scale <= MAX_SCALE && (forall|i: int|
                0 <= i < data@.len() ==> -DATA_LIMIT <= (#[trigger] data@[i]).0 <= DATA_LIMIT
                    && -DATA_LIMIT <= data@[i].1 <= DATA_LIMIT) && (min_x_of(data@) == max_x_of(
                data@,
            ) || min_y_of(data@) == max_y_of(data@))),
            r matches Ok(s) ==> s.wf() && s.data@ == data@ && s.scale == scale,
    {
        if data.len() == 0 {
            return Err(PlotError::NoData);
        }
        if data.len() > MAX_POINTS || scale > MAX_SCALE {
            return Err(PlotError::OutOfRange);
        }
        let (x0, y0) = data[0];
        let mut lo_x: i64 = x0;
        let mut hi_x: i64 = x0;
        let mut lo_y: i64 = y0;
        let mut hi_y: i64 = y0;
        let mut i: usize = 1;
        if x0 < -DATA_LIMIT || x0 > DATA_LIMIT || y0 < -DATA_LIMIT || y0 > DATA_LIMIT {
            return Err(PlotError::OutOfRange);
        }
        while i < data.len()
            invariant
                1 <= i <= data@.len(),
                -DATA_LIMIT <= lo_x <= hi_x <= DATA_LIMIT,
                -DATA_LIMIT <= lo_y <= hi_y <= DATA_LIMIT,
                lo_x as int == min_x_of(data@.take(i as int)),
                hi_x as int == max_x_of(data@.take(i as int)),
                lo_y as int == min_y_of(data@.take(i as int)),
                hi_y as int == max_y_of(data@.take(i as int)),
                forall|k: int|
                    0 <= k < i as int ==> -DATA_LIMIT <= (#[trigger] data@[k]).0 <= DATA_LIMIT
                        && -DATA_LIMIT <= data@[k].1 <= DATA_LIMIT,
            decreases data@.len() - i,
        {
            let (x, y) = data[i];
            if x < -DATA_LIMIT || x > DATA_LIMIT || y < -DATA_LIMIT || y > DATA_LIMIT {
                return Err(PlotError::OutOfRange);
            }
            proof {
                assert(data@.take(i as int + 1).drop_last() =~= data@.take(i as int));
            }
            if x < lo_x {
                lo_x = x;
            }
            if x > hi_x {
                hi_x = x;
            }
            if y < lo_y {
                lo_y = y;
            }
            if y > hi_y {
                hi_y = y;
            }
            i = i + 1;
        }
        proof {
            assert(data@.take(data@.len() as int) =~= data@);
        }
        if lo_x == hi_x || lo_y == hi_y {
            return Err(PlotError::DegenerateRange);
        }
        let x_axis = Axis::new(lo_x * 10, hi_x * 10);
        let y_axis = Axis::new(lo_y * 10, hi_y * 10);
        Ok(Scatter { data, scale, x_axis, y_axis })
    }
}

/// Every count is at most the largest count.
pub proof fn lemma_max_count_ge(s: Seq<u32>, i: int)
    requires
        0 <= i < s.len(),
    ensures
        s[i] as int <= max_count_of(s),
    decreases s.len(),
{
    if i < s.len() - 1 {
        lemma_max_count_ge(s.drop_last(), i);
        assert(s.drop_last()[i] == s[i]);
    }
}

/// Every point lies between the extremes of its coordinates.
pub proof fn lemma_point_bounds(s: Seq<(i64, i64)>, i: int)
    requires
        0 <= i < s.len(),
    ensures
        min_x_of(s) <= s[i].0 <= max_x_of(s),
        min_y_of(s) <= s[i].1 <= max_y_of(s),
    decreases s.len(),
{
    if s.len() > 1 && i < s.len() - 1 {
        lemma_point_bounds(s.drop_last(), i);
        assert(s.drop_last()[i] == s[i]);
    }
}

} // verus!
