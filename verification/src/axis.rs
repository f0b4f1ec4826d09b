//! Axis tick selection.
//!
//! Given a numeric range and a maximum tick count, choose "nice" round tick
//! positions: candidate step sizes are `{1, 2, 4, 5} * 10^k`, the smallest
//! admissible step determines the achievable tick density, and among the
//! steps achieving that density the largest is used.
//!
//! All values are integer mantissas at the caller's decimal scale (a value
//! `v` stands for `v / 10^scale`); the candidate lattice is closed under
//! powers of ten, so the algorithm is exact at any scale.

use vstd::prelude::*;

verus! {

use crate::decimal::{pow10, lemma_pow10_pos, lemma_pow10_mono, div_floor};
use vstd::arithmetic::div_mod::{
    lemma_div_is_ordered,
    lemma_div_pos_is_pos,
    lemma_fundamental_div_mod,
    lemma_fundamental_div_mod_converse,
    lemma_mod_bound,
};

/// Largest mantissa magnitude the axis computations accept.
pub const COORD_LIMIT: i64 = 1_000_000_000_000_000;

/// Largest maximum-tick-count the axis computations accept.
pub const MAX_TICKS_LIMIT: u32 = 1000;

/// The default tick budget of an axis.
pub const DEFAULT_MAX_TICKS: u32 = 6;

/// Whether `c` is an admissible tick step: `{1, 2, 4, 5}` times a power of ten.
pub open spec fn is_tick_step(c: int) -> bool {
    exists|k: nat|
        c == #[trigger] pow10(k) || c == 2 * pow10(k) || c == 4 * pow10(k) || c == 5 * pow10(k)
}

/// The exponent of the largest power of ten at most `x` (for `x >= 1`).
pub open spec fn log10_floor(x: nat) -> nat
    decreases x,
{
    if x < 10 {
        0
    } else {
        1 + log10_floor(x / 10)
    }
}

proof fn lemma_log10_floor_bounds(x: nat)
    requires
        x >= 1,
    ensures
        pow10(log10_floor(x)) <= x < 10 * pow10(log10_floor(x)),
    decreases x,
{
    if x >= 10 {
        lemma_div_pos_is_pos(x as int, 10);
        lemma_fundamental_div_mod(x as int, 10);
        lemma_mod_bound(x as int, 10);
        lemma_log10_floor_bounds(x / 10);
    }
}

proof fn lemma_log10_floor_unique(x: nat, k: nat)
    requires
        pow10(k) <= x < 10 * pow10(k),
    ensures
        log10_floor(x) == k,
    decreases k,
{
    lemma_pow10_pos(k);
    if k == 0 {
    } else {
        lemma_pow10_pos((k - 1) as nat);
        assert(pow10(k) == 10 * pow10((k - 1) as nat));
        lemma_div_is_ordered(pow10(k), x as int, 10);
        lemma_fundamental_div_mod_converse(10 * pow10((k - 1) as nat), 10, pow10((k - 1) as nat), 0);
        // x / 10 < 10 * pow10(k - 1) because x <= 10 * pow10(k) - 1
        lemma_div_is_ordered(x as int, 100 * pow10((k - 1) as nat) - 1, 10);
        lemma_fundamental_div_mod_converse(
            100 * pow10((k - 1) as nat) - 1,
            10,
            10 * pow10((k - 1) as nat) - 1,
            9,
        );
        lemma_log10_floor_unique(x / 10, (k - 1) as nat);
    }
}

/// The smallest admissible tick step at least `x` (for `x >= 1`).
pub open spec fn min_step_at_least(x: int) -> int
    recommends
        x >= 1,
{
    let t = pow10(log10_floor(x as nat));
    if x <= t {
        t
    } else if x <= 2 * t {
        2 * t
    } else if x <= 4 * t {
        4 * t
    } else if x <= 5 * t {
        5 * t
    } else {
        10 * t
    }
}

pub proof fn lemma_min_step_at_least_is_step(x: int)
    requires
        x >= 1,
    ensures
        is_tick_step(min_step_at_least(x)),
        min_step_at_least(x) >= x,
        min_step_at_least(x) >= 1,
        min_step_at_least(x) <= 10 * x,
{
    let p = log10_floor(x as nat);
    let t = pow10(p);
    lemma_log10_floor_bounds(x as nat);
    lemma_pow10_pos(p);
    if x <= t {
        assert(t == pow10(p));
    } else if x <= 2 * t {
        assert(2 * t == 2 * pow10(p));
    } else if x <= 4 * t {
        assert(4 * t == 4 * pow10(p));
    } else if x <= 5 * t {
        assert(5 * t == 5 * pow10(p));
    } else {
        assert(10 * t == pow10((p + 1) as nat));
    }
}

/// Minimality: no admissible step at least `x` is smaller than
/// `min_step_at_least(x)`.
pub proof fn lemma_min_step_at_least_minimal(x: int, d: int)
    requires
        x >= 1,
        is_tick_step(d),
        d >= x,
    ensures
        d >= min_step_at_least(x),
{
    let p = log10_floor(x as nat);
    let t = pow10(p);
    lemma_log10_floor_bounds(x as nat);
    lemma_pow10_pos(p);
    let k = choose|k: nat|
        d == #[trigger] pow10(k) || d == 2 * pow10(k) || d == 4 * pow10(k) || d == 5 * pow10(k);
    lemma_pow10_pos(k);
    if k < p {
        lemma_pow10_mono((k + 1) as nat, p);
        assert(pow10((k + 1) as nat) == 10 * pow10(k));
        // d <= 5 * pow10(k) < 10 * pow10(k) <= pow10(p) = t <= x
        assert(false);
    } else if k == p {
    } else {
        lemma_pow10_mono((p + 1) as nat, k);
        assert(pow10((p + 1) as nat) == 10 * pow10(p));
        // d >= pow10(k) >= 10 * t, and the result is at most 10 * t
    }
}

/// Density: the smallest admissible step at least `x` is below `2 * x`.
pub proof fn lemma_min_step_at_least_close(x: int)
    requires
        x >= 2,
    ensures
        min_step_at_least(x) <= 2 * (x - 1),
{
    let p = log10_floor(x as nat);
    let t = pow10(p);
    lemma_log10_floor_bounds(x as nat);
    lemma_pow10_pos(p);
}

/// The lazily generated, strictly increasing sequence of admissible tick
/// steps, holding the next step to hand out.
#[derive(Debug)]
pub struct TickSteps {
    next: i64,
}

impl TickSteps {
    /// The step that the next call to `next` will return.
    pub closed spec fn current(&self) -> int {
        self.next as int
    }

    pub open spec fn wf(&self) -> bool {
        &&& is_tick_step(self.current())
        &&& 1 <= self.current() <= 100 * COORD_LIMIT
    }

    /// The generator positioned at the smallest admissible step `>= start`.
    pub fn start_at(start: i64) -> (t: TickSteps)
        requires
            1 <= start <= 10 * COORD_LIMIT,
        ensures
            t.wf(),
            t.current() == min_step_at_least(start as int),
    {
        TickSteps { next: smallest_step_at_least(start) }
    }

    /// Hand out the current step and advance to the next larger one.
    pub fn next(&mut self) -> (r: i64)
        requires
            old(self).wf(),
            old(self).current() <= 10 * COORD_LIMIT,
        ensures
            r as int == old(self).current(),
            final(self).wf(),
            final(self).current() == min_step_at_least(old(self).current() + 1),
            final(self).current() > old(self).current(),
    {
        let curr = self.next;
        self.next = smallest_step_at_least(curr + 1);
        proof {
            lemma_min_step_at_least_is_step(curr as int + 1);
            lemma_min_step_at_least_close(curr as int + 1);
        }
        curr
    }
}

/// Index of the smallest multiple of `step` at least `min`.
pub open spec fn tick_lo(min: int, step: int) -> int
    recommends
        step >= 1,
{
    (min + step - 1) / step
}

/// Index of the largest multiple of `step` at most `max`.
pub open spec fn tick_hi(max: int, step: int) -> int
    recommends
        step >= 1,
{
    max / step
}

/// How many multiples of `step` lie within `[min, max]`.
pub open spec fn tick_count(min: int, max: int, step: int) -> nat
    recommends
        step >= 1,
{
    if tick_hi(max, step) >= tick_lo(min, step) {
        (tick_hi(max, step) - tick_lo(min, step) + 1) as nat
    } else {
        0
    }
}

/// The ascending multiples of `step` within `[min, max]`.
pub open spec fn spec_ticks(min: int, max: int, step: int) -> Seq<int>
    recommends
        step >= 1,
{
    Seq::new(tick_count(min, max, step), |i: int| (tick_lo(min, step) + i) * step)
}

/// The defining bracket of `tick_lo`: the smallest index whose multiple
/// reaches `min`.
pub proof fn lemma_tick_lo_bracket(min: int, step: int)
    requires
        step >= 1,
    ensures
        tick_lo(min, step) * step >= min,
        tick_lo(min, step) * step <= min + step - 1,
{
    let q = (min + step - 1) / step;
    lemma_fundamental_div_mod(min + step - 1, step);
    lemma_mod_bound(min + step - 1, step);
    assert(q * step == step * q) by (nonlinear_arith);
}

/// The defining bracket of `tick_hi`: the largest index whose multiple
/// stays at most `max`.
pub proof fn lemma_tick_hi_bracket(max: int, step: int)
    requires
        step >= 1,
    ensures
        tick_hi(max, step) * step <= max,
        tick_hi(max, step) * step >= max - step + 1,
{
    let q = max / step;
    lemma_fundamental_div_mod(max, step);
    lemma_mod_bound(max, step);
    assert(q * step == step * q) by (nonlinear_arith);
}

/// A multiple of `step` inside `[min, max]` has its index inside
/// `[tick_lo, tick_hi]`.
pub proof fn lemma_multiple_index_in_range(min: int, max: int, step: int, q: int)
    requires
        step >= 1,
        min <= q * step <= max,
    ensures
        tick_lo(min, step) <= q <= tick_hi(max, step),
{
    lemma_tick_lo_bracket(min, step);
    lemma_tick_hi_bracket(max, step);
    let lo = tick_lo(min, step);
    let hi = tick_hi(max, step);
    assert(q >= lo) by (nonlinear_arith)
        requires
            step >= 1,
            q * step >= min,
            lo * step <= min + step - 1,
    ;
    assert(q <= hi) by (nonlinear_arith)
        requires
            step >= 1,
            q * step <= max,
            hi * step >= max - step + 1,
    ;
}

/// The tick sequence is strictly ascending and confined to `[min, max]`.
pub proof fn lemma_spec_ticks_sorted_in_range(min: int, max: int, step: int)
    requires
        step >= 1,
    ensures
        forall|i: int, j: int|
            0 <= i < j < spec_ticks(min, max, step).len() ==> spec_ticks(min, max, step)[i]
                < spec_ticks(min, max, step)[j],
        forall|i: int|
            0 <= i < spec_ticks(min, max, step).len() ==> min <= #[trigger] spec_ticks(
                min,
                max,
                step,
            )[i] <= max,
{
    let lo = tick_lo(min, step);
    let hi = tick_hi(max, step);
    lemma_tick_lo_bracket(min, step);
    lemma_tick_hi_bracket(max, step);
    assert forall|i: int, j: int|
        0 <= i < j < spec_ticks(min, max, step).len() implies spec_ticks(min, max, step)[i]
        < spec_ticks(min, max, step)[j] by {
        assert((lo + i) * step < (lo + j) * step) by (nonlinear_arith)
            requires
                step >= 1,
                i < j,
        ;
    }
    assert forall|i: int|
        0 <= i < spec_ticks(min, max, step).len() implies min <= #[trigger] spec_ticks(
        min,
        max,
        step,
    )[i] <= max by {
        assert(lo * step <= (lo + i) * step <= hi * step) by (nonlinear_arith)
            requires
                step >= 1,
                0 <= i,
                lo + i <= hi,
        ;
    }
}

/// Every tick is a multiple of the step, and every multiple of the step
/// within the range is a tick.
pub proof fn lemma_spec_ticks_complete(min: int, max: int, step: int, v: int)
    requires
        step >= 1,
        min <= v <= max,
        v % step == 0,
    ensures
        exists|i: int| 0 <= i < spec_ticks(min, max, step).len() && spec_ticks(min, max, step)[i] == v,
{
    let q = v / step;
    lemma_fundamental_div_mod(v, step);
    assert(v == q * step) by (nonlinear_arith)
        requires
            v == step * q,
    ;
    lemma_multiple_index_in_range(min, max, step, q);
    let lo = tick_lo(min, step);
    assert(spec_ticks(min, max, step)[q - lo] == (lo + (q - lo)) * step);
    assert(0 <= q - lo < spec_ticks(min, max, step).len());
}

/// When the range spans zero, zero itself is among the ticks.
pub proof fn lemma_spec_ticks_zero(min: int, max: int, step: int)
    requires
        step >= 1,
        min <= 0 <= max,
    ensures
        exists|i: int| 0 <= i < spec_ticks(min, max, step).len() && spec_ticks(min, max, step)[i] == 0,
{
    assert(0int % step == 0) by {
        lemma_fundamental_div_mod_converse(0, step, 0, 0);
    }
    lemma_spec_ticks_complete(min, max, step, 0);
}

/// A step whose `max_ticks`-fold multiple exceeds the range keeps the tick
/// count within `max_ticks`.
pub proof fn lemma_tick_count_within_budget(min: int, max: int, step: int, max_ticks: int)
    requires
        step >= 1,
        max_ticks >= 1,
        min <= max,
        step * max_ticks > max - min,
    ensures
        tick_count(min, max, step) <= max_ticks,
{
    let lo = tick_lo(min, step);
    let hi = tick_hi(max, step);
    if hi >= lo {
        lemma_tick_lo_bracket(min, step);
        lemma_tick_hi_bracket(max, step);
        assert((hi - lo) * step <= max - min) by (nonlinear_arith)
            requires
                lo * step >= min,
                hi * step <= max,
        ;
        assert(hi - lo < max_ticks) by (nonlinear_arith)
            requires
                (hi - lo) * step <= max - min,
                step * max_ticks > max - min,
                step >= 1,
                max_ticks >= 1,
                hi >= lo,
        ;
    }
}

/// A step at most the range always yields at least one tick.
pub proof fn lemma_tick_count_positive(min: int, max: int, step: int)
    requires
        1 <= step <= max - min,
    ensures
        tick_count(min, max, step) >= 1,
{
    lemma_tick_lo_bracket(min, step);
    lemma_tick_hi_bracket(max, step);
    let lo = tick_lo(min, step);
    let hi = tick_hi(max, step);
    assert(hi >= lo) by (nonlinear_arith)
        requires
            step >= 1,
            step <= max - min,
            lo * step <= min + step - 1,
            hi * step >= max - step + 1,
    ;
}

/// Generate the ascending multiples of `step_size` lying within
/// `[min, max]` (zero inclusive when the range spans it, since zero is a
/// multiple of every step).
pub fn generate_ticks(min: i64, max: i64, step_size: i64) -> (ticks: Vec<i64>)
    requires
        -COORD_LIMIT <= min <= max <= COORD_LIMIT,
        1 <= step_size <= 100 * COORD_LIMIT,
    ensures
        ticks@.len() == tick_count(min as int, max as int, step_size as int),
        forall|i: int|
            0 <= i < ticks@.len() ==> ticks@[i] as int == spec_ticks(
                min as int,
                max as int,
                step_size as int,
            )[i],
{
    let k_lo = div_floor(min + step_size - 1, step_size);
    let k_hi = div_floor(max, step_size);
    let mut ticks: Vec<i64> = Vec::new();
    proof {
        lemma_tick_lo_bracket(min as int, step_size as int);
        lemma_tick_hi_bracket(max as int, step_size as int);
    }
    if k_lo <= k_hi {
        proof {
            assert(-COORD_LIMIT <= k_lo && k_hi <= COORD_LIMIT) by (nonlinear_arith)
                requires
                    step_size >= 1,
                    k_lo <= k_hi,
                    k_lo * step_size >= min,
                    k_hi * step_size <= max,
                    -COORD_LIMIT <= min <= max <= COORD_LIMIT,
            ;
        }
        let mut k = k_lo;
        let mut v: i64 = {
            proof {
                assert(k_lo * step_size == tick_lo(min as int, step_size as int) * (
                step_size as int));
            }
            k_lo * step_size
        };
        while k <= k_hi
            invariant
                tick_lo(min as int, step_size as int) == k_lo as int,
                tick_hi(max as int, step_size as int) == k_hi as int,
                k_lo * step_size >= min,
                k_hi * step_size <= max,
                -COORD_LIMIT <= k_lo <= k_hi <= COORD_LIMIT,
                k_lo <= k <= k_hi + 1,
                v as int == k * step_size,
                min - step_size <= v <= max + step_size,
                -COORD_LIMIT <= min <= max <= COORD_LIMIT,
                1 <= step_size <= 100 * COORD_LIMIT,
                ticks@.len() == k - k_lo,
                forall|i: int|
                    0 <= i < ticks@.len() ==> ticks@[i] as int == (k_lo + i) * step_size,
            decreases k_hi + 1 - k,
        {
            proof {
                assert(k * step_size >= k_lo * step_size && k * step_size <= k_hi * step_size)
                    by (nonlinear_arith)
                    requires
                        k_lo <= k <= k_hi,
                        step_size >= 1,
                ;
            }
            ticks.push(v);
            proof {
                assert((k + 1) * step_size == k * step_size + step_size) by (nonlinear_arith);
                if k < k_hi {
                    assert((k + 1) * step_size <= k_hi * step_size) by (nonlinear_arith)
                        requires
                            k + 1 <= k_hi,
                            step_size >= 1,
                    ;
                }
            }
            v = v + step_size;
            k = k + 1;
        }
    }
    ticks
}

/// Given a range and a step size, how many ticks will be displayed.
pub fn number_of_ticks(min: i64, max: i64, step_size: i64) -> (n: usize)
    requires
        -COORD_LIMIT <= min <= max <= COORD_LIMIT,
        1 <= step_size <= 100 * COORD_LIMIT,
    ensures
        n == tick_count(min as int, max as int, step_size as int),
{
    generate_ticks(min, max, step_size).len()
}

pub open spec fn clamp0(x: int) -> nat {
    if x >= 0 {
        x as nat
    } else {
        0
    }
}

/// The magnitude of the farther range end: candidates past it cannot add
/// ticks, so the step scan stops there (the defensive termination cap).
pub open spec fn scan_cap(min: int, max: int) -> int {
    if -min > max {
        -min
    } else {
        max
    }
}

/// The first admissible step for a range and tick budget: the smallest
/// candidate strictly greater than `range / max_ticks` (the tiny epsilon a
/// floating implementation would add serves exactly to push past an exact
/// division; the strict comparison says it exactly).
pub open spec fn first_tick_step(min: int, max: int, max_ticks: int) -> int
    recommends
        min < max,
        max_ticks >= 1,
{
    min_step_at_least((max - min) / max_ticks + 1)
}

/// Scan the candidates upward from `c`, keeping every one that still
/// yields `actual` ticks; `best` is the largest accepted so far.  The scan
/// ends when the count changes or the candidate passes the cap.
pub open spec fn scan_steps(min: int, max: int, actual: nat, c: int, best: int) -> int
    decreases clamp0(scan_cap(min, max) + 1 - c),
        when c >= 1
        via scan_steps_decreases
{
    if c > scan_cap(min, max) || tick_count(min, max, c) != actual {
        best
    } else {
        scan_steps(min, max, actual, min_step_at_least(c + 1), c)
    }
}

#[via_fn]
proof fn scan_steps_decreases(min: int, max: int, actual: nat, c: int, best: int) {
    lemma_min_step_at_least_is_step(c + 1);
}

/// The chosen tick step: the largest candidate that still achieves the
/// tick count of the first admissible step.
pub open spec fn spec_tick_step(min: int, max: int, max_ticks: int) -> int
    recommends
        min < max,
        max_ticks >= 1,
{
    let first = first_tick_step(min, max, max_ticks);
    scan_steps(
        min,
        max,
        tick_count(min, max, first),
        min_step_at_least(first + 1),
        first,
    )
}

/// The chosen ticks for a range and a tick budget.
pub open spec fn spec_calculate_ticks(min: int, max: int, max_ticks: int) -> Seq<int>
    recommends
        min < max,
        max_ticks >= 1,
{
    spec_ticks(min, max, spec_tick_step(min, max, max_ticks))
}

/// The first admissible step, multiplied by the budget, exceeds the range.
pub proof fn lemma_first_step_exceeds(min: int, max: int, max_ticks: int)
    requires
        min < max,
        max_ticks >= 1,
    ensures
        first_tick_step(min, max, max_ticks) * max_ticks > max - min,
        first_tick_step(min, max, max_ticks) >= 1,
        is_tick_step(first_tick_step(min, max, max_ticks)),
{
    let range = max - min;
    let x = range / max_ticks + 1;
    lemma_div_pos_is_pos(range, max_ticks);
    lemma_min_step_at_least_is_step(x);
    let first = first_tick_step(min, max, max_ticks);
    lemma_fundamental_div_mod(range, max_ticks);
    lemma_mod_bound(range, max_ticks);
    assert(first * max_ticks > range) by (nonlinear_arith)
        requires
            first >= x,
            x == range / max_ticks + 1,
            range == max_ticks * (range / max_ticks) + range % max_ticks,
            0 <= range % max_ticks < max_ticks,
            max_ticks >= 1,
    ;
}

/// For a budget of at least two, the first admissible step fits inside the
/// range, so at least one tick is always produced.
pub proof fn lemma_first_step_fits(min: int, max: int, max_ticks: int)
    requires
        min < max,
        max_ticks >= 2,
    ensures
        first_tick_step(min, max, max_ticks) <= max - min,
{
    let range = max - min;
    let x = range / max_ticks + 1;
    lemma_div_pos_is_pos(range, max_ticks);
    vstd::arithmetic::div_mod::lemma_div_is_ordered_by_denominator(range, 2, max_ticks);
    lemma_fundamental_div_mod(range, 2);
    lemma_mod_bound(range, 2);
    if x >= 2 {
        lemma_min_step_at_least_close(x);
    } else {
        lemma_min_step_at_least_is_step(x);
    }
}

/// Given a range of values and a maximum number of ticks, calculate the
/// step between the ticks: the largest admissible step that still achieves
/// the densest feasible tick count.
pub fn calculate_tick_step_for_range(min: i64, max: i64, max_ticks: u32) -> (step: i64)
    requires
        -COORD_LIMIT <= min < max <= COORD_LIMIT,
        1 <= max_ticks <= MAX_TICKS_LIMIT,
    ensures
        step as int == spec_tick_step(min as int, max as int, max_ticks as int),
        is_tick_step(step as int),
        1 <= step as int <= 10 * COORD_LIMIT,
        step as int >= first_tick_step(min as int, max as int, max_ticks as int),
        tick_count(min as int, max as int, step as int) == tick_count(
            min as int,
            max as int,
            first_tick_step(min as int, max as int, max_ticks as int),
        ),
{
    let range = max - min;
    let x = div_floor(range, max_ticks as i64) + 1;
    proof {
        lemma_div_pos_is_pos(range as int, max_ticks as int);
        vstd::arithmetic::div_mod::lemma_div_nonincreasing(range as int, max_ticks as int);
        if x >= 2 {
            lemma_min_step_at_least_close(x as int);
        }
        lemma_min_step_at_least_is_step(x as int);
    }
    let mut steps = TickSteps::start_at(x);
    let first = steps.next();
    let actual = number_of_ticks(min, max, first);
    let cap = if -min > max {
        -min
    } else {
        max
    };
    let mut best = first;
    proof {
        lemma_min_step_at_least_is_step(first as int + 1);
        lemma_min_step_at_least_close(first as int + 1);
    }
    let mut cand = steps.next();
    while cand <= cap && number_of_ticks(min, max, cand) == actual
        invariant
            -COORD_LIMIT <= min < max <= COORD_LIMIT,
            1 <= max_ticks <= MAX_TICKS_LIMIT,
            cap as int == scan_cap(min as int, max as int),
            1 <= cap <= COORD_LIMIT,
            steps.wf(),
            steps.current() == min_step_at_least(cand as int + 1),
            is_tick_step(cand as int),
            1 <= cand as int <= 100 * COORD_LIMIT,
            cand as int > best as int,
            is_tick_step(best as int),
            1 <= best as int <= 10 * COORD_LIMIT,
            best as int >= first_tick_step(min as int, max as int, max_ticks as int),
            tick_count(min as int, max as int, best as int) == actual,
            actual == tick_count(
                min as int,
                max as int,
                first_tick_step(min as int, max as int, max_ticks as int),
            ),
            spec_tick_step(min as int, max as int, max_ticks as int) == scan_steps(
                min as int,
                max as int,
                actual as nat,
                cand as int,
                best as int,
            ),
        decreases clamp0(cap as int + 1 - cand as int),
    {
        best = cand;
        proof {
            lemma_min_step_at_least_is_step(cand as int + 1);
            lemma_min_step_at_least_close(cand as int + 1);
        }
        cand = steps.next();
    }
    best
}

/// Given an axis range, calculate the sensible places to put the ticks.
pub fn calculate_ticks(min: i64, max: i64, max_ticks: u32) -> (ticks: Vec<i64>)
    requires
        -COORD_LIMIT <= min < max <= COORD_LIMIT,
        1 <= max_ticks <= MAX_TICKS_LIMIT,
    ensures
        ticks@.len() == spec_calculate_ticks(min as int, max as int, max_ticks as int).len(),
        forall|i: int|
            0 <= i < ticks@.len() ==> ticks@[i] as int == spec_calculate_ticks(
                min as int,
                max as int,
                max_ticks as int,
            )[i],
        forall|i: int, j: int| 0 <= i < j < ticks@.len() ==> ticks@[i] < ticks@[j],
        forall|i: int| 0 <= i < ticks@.len() ==> min <= #[trigger] ticks@[i] <= max,
        forall|i: int|
            0 <= i < ticks@.len() - 1 ==> #[trigger] ticks@[i + 1] - ticks@[i] == spec_tick_step(
                min as int,
                max as int,
                max_ticks as int,
            ),
        ticks@.len() <= max_ticks,
        max_ticks >= 2 ==> ticks@.len() >= 1,
        min <= 0 <= max ==> exists|i: int| 0 <= i < ticks@.len() && ticks@[i] == 0,
{
    let step = calculate_tick_step_for_range(min, max, max_ticks);
    let ticks = generate_ticks(min, max, step);
    proof {
        let mi = min as int;
        let ma = max as int;
        let mt = max_ticks as int;
        let st = step as int;
        let first = first_tick_step(mi, ma, mt);
        lemma_spec_ticks_sorted_in_range(mi, ma, st);
        assert forall|i: int, j: int| 0 <= i < j < ticks@.len() implies ticks@[i] < ticks@[j] by {
            assert(spec_ticks(mi, ma, st)[i] < spec_ticks(mi, ma, st)[j]);
        }
        assert forall|i: int| 0 <= i < ticks@.len() implies min <= #[trigger] ticks@[i]
            <= max by {
            assert(min <= spec_ticks(mi, ma, st)[i] <= max);
        }
        assert forall|i: int|
            0 <= i < ticks@.len() - 1 implies #[trigger] ticks@[i + 1] - ticks@[i]
            == spec_tick_step(mi, ma, mt) by {
            let lo = tick_lo(mi, st);
            assert(ticks@[i] as int == (lo + i) * st);
            assert(ticks@[i + 1] as int == (lo + i + 1) * st);
            assert((lo + i + 1) * st - (lo + i) * st == st) by (nonlinear_arith);
        }
        // The tick budget is honored: the chosen step keeps the count of the
        // first admissible step, which the budget bounds.
        lemma_first_step_exceeds(mi, ma, mt);
        lemma_tick_count_within_budget(mi, ma, first, mt);
        assert(first * mt == mt * first) by (nonlinear_arith);
        // With a budget of two or more, the first step fits in the range.
        if max_ticks >= 2 {
            lemma_first_step_fits(mi, ma, mt);
            lemma_tick_count_positive(mi, ma, first);
        }
        if min <= 0 <= max {
            lemma_spec_ticks_zero(mi, ma, st);
            let z = choose|i: int|
                0 <= i < spec_ticks(mi, ma, st).len() && spec_ticks(mi, ma, st)[i] == 0;
            assert(ticks@[z] as int == spec_ticks(mi, ma, st)[z]);
            assert(ticks@[z] == 0);
        }
    }
    ticks
}

/// An axis over a numeric range, with its chosen tick positions.  All
/// three fields are mantissas at one and the same decimal scale.
#[derive(Debug)]
pub struct Axis {
    lower: i64,
    upper: i64,
    ticks: Vec<i64>,
}

impl Axis {
    pub closed spec fn spec_min(&self) -> int {
        self.lower as int
    }

    pub closed spec fn spec_max(&self) -> int {
        self.upper as int
    }

    pub closed spec fn spec_ticks(&self) -> Seq<i64> {
        self.ticks@
    }

    pub open spec fn wf(&self) -> bool {
        &&& -COORD_LIMIT <= self.spec_min() < self.spec_max() <= COORD_LIMIT as int
        &&& 1 <= self.spec_ticks().len() <= 1000
        &&& forall|i: int, j: int|
            0 <= i < j < self.spec_ticks().len() ==> self.spec_ticks()[i] < self.spec_ticks()[j]
        &&& forall|i: int|
            0 <= i < self.spec_ticks().len() ==> self.spec_min() <= #[trigger] self.spec_ticks()[i]
                <= self.spec_max()
    }

    /// Build an axis over `[lower, upper]` with the default tick budget.
    pub fn new(lower: i64, upper: i64) -> (axis: Axis)
        requires
            -COORD_LIMIT <= lower < upper <= COORD_LIMIT,
        ensures
            axis.wf(),
            axis.spec_min() == lower as int,
            axis.spec_max() == upper as int,
            axis.spec_ticks().len() == spec_calculate_ticks(
                lower as int,
                upper as int,
                DEFAULT_MAX_TICKS as int,
            ).len(),
            forall|i: int|
                0 <= i < axis.spec_ticks().len() ==> axis.spec_ticks()[i] as int
                    == spec_calculate_ticks(lower as int, upper as int, DEFAULT_MAX_TICKS as int)[i],
            axis.spec_ticks().len() <= DEFAULT_MAX_TICKS,
            lower <= 0 <= upper ==> exists|i: int|
                0 <= i < axis.spec_ticks().len() && axis.spec_ticks()[i] == 0,
    {
        let ticks = calculate_ticks(lower, upper, DEFAULT_MAX_TICKS);
        let axis = Axis { lower, upper, ticks };
        proof {
            if lower <= 0 <= upper {
                let z = choose|i: int| 0 <= i < axis.ticks@.len() && axis.ticks@[i] == 0;
                assert(0 <= z < axis.spec_ticks().len() && axis.spec_ticks()[z] == 0);
            }
        }
        axis
    }

    pub fn max(&self) -> (r: i64)
        ensures
            r as int == self.spec_max(),
    {
        self.upper
    }

    pub fn min(&self) -> (r: i64)
        ensures
            r as int == self.spec_min(),
    {
        self.lower
    }

    pub fn ticks(&self) -> (r: &Vec<i64>)
        ensures
            r@ == self.spec_ticks(),
    {
        &self.ticks
    }
}

// ---------------------------------------------------------------------
// Scale invariance: the candidate lattice is closed under powers of ten,
// so computing ticks at a ten-fold finer scale gives exactly the ten-fold
// ticks, as long as the budget does not push the step below one unit.
// ---------------------------------------------------------------------

/// An admissible step of six or more is ten times an admissible step.
proof fn lemma_tick_step_div10(d: int)
    requires
        is_tick_step(d),
        d >= 6,
    ensures
        exists|c: int| is_tick_step(c) && d == 10 * c,
{
    let k = choose|k: nat|
        d == #[trigger] pow10(k) || d == 2 * pow10(k) || d == 4 * pow10(k) || d == 5 * pow10(k);
    lemma_pow10_pos(k);
    if k == 0 {
        assert(false);
    } else {
        lemma_pow10_pos((k - 1) as nat);
        assert(pow10(k) == 10 * pow10((k - 1) as nat));
        if d == pow10(k) {
            assert(is_tick_step(pow10((k - 1) as nat)));
            assert(d == 10 * pow10((k - 1) as nat));
        } else if d == 2 * pow10(k) {
            assert(is_tick_step(2 * pow10((k - 1) as nat)));
            assert(d == 10 * (2 * pow10((k - 1) as nat)));
        } else if d == 4 * pow10(k) {
            assert(is_tick_step(4 * pow10((k - 1) as nat)));
            assert(d == 10 * (4 * pow10((k - 1) as nat)));
        } else {
            assert(is_tick_step(5 * pow10((k - 1) as nat)));
            assert(d == 10 * (5 * pow10((k - 1) as nat)));
        }
    }
}

/// An admissible step scaled by ten is admissible.
proof fn lemma_tick_step_times10(c: int)
    requires
        is_tick_step(c),
    ensures
        is_tick_step(10 * c),
{
    let k = choose|k: nat|
        c == #[trigger] pow10(k) || c == 2 * pow10(k) || c == 4 * pow10(k) || c == 5 * pow10(k);
    assert(pow10((k + 1) as nat) == 10 * pow10(k));
}

/// The smallest step past `10 * c` is ten times the smallest step past `c`.
proof fn lemma_min_step_next_scale(c: int)
    requires
        c >= 1,
    ensures
        min_step_at_least(10 * c + 1) == 10 * min_step_at_least(c + 1),
{
    let e = min_step_at_least(c + 1);
    let d = min_step_at_least(10 * c + 1);
    lemma_min_step_at_least_is_step(c + 1);
    lemma_min_step_at_least_is_step(10 * c + 1);
    // d >= 10c + 1 >= 6, so d is ten times some admissible c0 with c0 >= c + 1
    lemma_tick_step_div10(d);
    let c0 = choose|c0: int| is_tick_step(c0) && d == 10 * c0;
    lemma_min_step_at_least_minimal(c + 1, c0);
    // conversely 10 * e is admissible and at least 10c + 1
    lemma_tick_step_times10(e);
    lemma_min_step_at_least_minimal(10 * c + 1, 10 * e);
}

/// The first admissible step scales by ten along with the range, as long
/// as twice the range covers the budget.
proof fn lemma_first_step_scale(min: int, max: int, max_ticks: int)
    requires
        min < max,
        max_ticks >= 1,
        2 * (max - min) >= max_ticks,
    ensures
        first_tick_step(10 * min, 10 * max, max_ticks) == 10 * first_tick_step(
            min,
            max,
            max_ticks,
        ),
{
    let range = max - min;
    let first = first_tick_step(min, max, max_ticks);
    let x = range / max_ticks + 1;
    let xs = (10 * range) / max_ticks + 1;
    let firsts = first_tick_step(10 * min, 10 * max, max_ticks);
    lemma_div_pos_is_pos(range, max_ticks);
    lemma_div_pos_is_pos(10 * range, max_ticks);
    lemma_min_step_at_least_is_step(x);
    lemma_min_step_at_least_is_step(xs);
    lemma_first_step_exceeds(min, max, max_ticks);
    lemma_first_step_exceeds(10 * min, 10 * max, max_ticks);
    // xs >= 6: ten times the range is at least five budgets
    assert((10 * range) / max_ticks >= 5) by {
        lemma_div_is_ordered(5 * max_ticks, 10 * range, max_ticks);
        vstd::arithmetic::div_mod::lemma_div_multiples_vanish(5, max_ticks);
    }
    // firsts is ten times an admissible step c0, and c0 * max_ticks > range
    lemma_tick_step_div10(firsts);
    let c0 = choose|c0: int| is_tick_step(c0) && firsts == 10 * c0;
    assert(c0 * max_ticks > range) by (nonlinear_arith)
        requires
            firsts == 10 * c0,
            firsts * max_ticks > 10 * max - 10 * min,
            range == max - min,
    ;
    // so c0 is at least x, hence at least first
    assert(range < max_ticks * c0) by (nonlinear_arith)
        requires
            c0 * max_ticks > range,
    ;
    vstd::arithmetic::div_mod::lemma_multiply_divide_lt(range, max_ticks, c0);
    lemma_min_step_at_least_minimal(x, c0);
    // conversely, 10 * first is admissible and reaches xs
    lemma_tick_step_times10(first);
    assert((10 * first) * max_ticks > 10 * range) by (nonlinear_arith)
        requires
            first * max_ticks > range,
    ;
    assert(10 * range < max_ticks * (10 * first)) by (nonlinear_arith)
        requires
            (10 * first) * max_ticks > 10 * range,
    ;
    vstd::arithmetic::div_mod::lemma_multiply_divide_lt(10 * range, max_ticks, 10 * first);
    lemma_min_step_at_least_minimal(xs, 10 * first);
}

/// Tick indices are scale free: the bracket of multiples is unchanged when
/// both the range and the step grow ten-fold.
proof fn lemma_tick_bounds_scale(min: int, max: int, step: int)
    requires
        step >= 1,
    ensures
        tick_lo(10 * min, 10 * step) == tick_lo(min, step),
        tick_hi(10 * max, 10 * step) == tick_hi(max, step),
        tick_count(10 * min, 10 * max, 10 * step) == tick_count(min, max, step),
{
    let lo = tick_lo(min, step);
    let hi = tick_hi(max, step);
    lemma_tick_lo_bracket(min, step);
    lemma_tick_hi_bracket(max, step);
    assert(lo * (10 * step) >= 10 * min && lo * (10 * step) <= 10 * min + 10 * step - 10)
        by (nonlinear_arith)
        requires
            lo * step >= min,
            lo * step <= min + step - 1,
    ;
    lemma_fundamental_div_mod_converse(
        10 * min + 10 * step - 1,
        10 * step,
        lo,
        10 * min + 10 * step - 1 - lo * (10 * step),
    );
    assert(hi * (10 * step) <= 10 * max && hi * (10 * step) >= 10 * max - 10 * step + 10)
        by (nonlinear_arith)
        requires
            hi * step <= max,
            hi * step >= max - step + 1,
    ;
    lemma_fundamental_div_mod_converse(10 * max, 10 * step, hi, 10 * max - hi * (10 * step));
}

/// The candidate scan commutes with the ten-fold scale.
proof fn lemma_scan_steps_scale(min: int, max: int, actual: nat, c: int, best: int)
    requires
        c >= 1,
    ensures
        scan_steps(10 * min, 10 * max, actual, 10 * c, 10 * best) == 10 * scan_steps(
            min,
            max,
            actual,
            c,
            best,
        ),
    decreases clamp0(scan_cap(min, max) + 1 - c),
{
    lemma_min_step_at_least_is_step(c + 1);
    lemma_tick_bounds_scale(min, max, c);
    if c > scan_cap(min, max) || tick_count(min, max, c) != actual {
    } else {
        lemma_min_step_next_scale(c);
        lemma_scan_steps_scale(min, max, actual, min_step_at_least(c + 1), c);
    }
}

/// Scale invariance of the whole tick computation: computing the ticks of
/// the ten-fold range gives exactly the ten-fold ticks, whenever twice the
/// range covers the tick budget (for smaller ranges the integer lattice has
/// no sub-unit steps to offer, and the shapes may differ).
pub proof fn lemma_calculate_ticks_scale(min: int, max: int, max_ticks: int)
    requires
        min < max,
        max_ticks >= 1,
        2 * (max - min) >= max_ticks,
    ensures
        spec_tick_step(10 * min, 10 * max, max_ticks) == 10 * spec_tick_step(
            min,
            max,
            max_ticks,
        ),
        spec_calculate_ticks(10 * min, 10 * max, max_ticks).len() == spec_calculate_ticks(
            min,
            max,
            max_ticks,
        ).len(),
        forall|i: int|
            0 <= i < spec_calculate_ticks(min, max, max_ticks).len()
                ==> spec_calculate_ticks(10 * min, 10 * max, max_ticks)[i] == 10
                * spec_calculate_ticks(min, max, max_ticks)[i],
{
    let first = first_tick_step(min, max, max_ticks);
    lemma_first_step_scale(min, max, max_ticks);
    lemma_first_step_exceeds(min, max, max_ticks);
    lemma_tick_bounds_scale(min, max, first);
    lemma_min_step_next_scale(first);
    lemma_min_step_at_least_is_step(first + 1);
    lemma_scan_steps_scale(
        min,
        max,
        tick_count(min, max, first),
        min_step_at_least(first + 1),
        first,
    );
    let step = spec_tick_step(min, max, max_ticks);
    assert(spec_tick_step(10 * min, 10 * max, max_ticks) == 10 * step);
    // the step scan only ever returns a positive step
    lemma_scan_steps_pos(
        min,
        max,
        tick_count(min, max, first),
        min_step_at_least(first + 1),
        first,
    );
    lemma_tick_bounds_scale(min, max, step);
    let lo = tick_lo(min, step);
    assert forall|i: int|
        0 <= i < spec_calculate_ticks(min, max, max_ticks).len()
            implies spec_calculate_ticks(10 * min, 10 * max, max_ticks)[i] == 10
            * spec_calculate_ticks(min, max, max_ticks)[i] by {
        assert((lo + i) * (10 * step) == 10 * ((lo + i) * step)) by (nonlinear_arith);
    }
}

/// Scale invariance for any power of ten, by iterating the ten-fold law.
pub proof fn lemma_calculate_ticks_scale_pow(min: int, max: int, max_ticks: int, k: nat)
    requires
        min < max,
        max_ticks >= 1,
        2 * (max - min) >= max_ticks,
    ensures
        spec_calculate_ticks(pow10(k) * min, pow10(k) * max, max_ticks).len()
            == spec_calculate_ticks(min, max, max_ticks).len(),
        forall|i: int|
            0 <= i < spec_calculate_ticks(min, max, max_ticks).len()
                ==> spec_calculate_ticks(pow10(k) * min, pow10(k) * max, max_ticks)[i] == pow10(k)
                * spec_calculate_ticks(min, max, max_ticks)[i],
    decreases k,
{
    if k == 0 {
        assert(pow10(k) == 1);
        assert(pow10(k) * min == min && pow10(k) * max == max);
        assert forall|i: int|
            0 <= i < spec_calculate_ticks(min, max, max_ticks).len()
                implies spec_calculate_ticks(pow10(k) * min, pow10(k) * max, max_ticks)[i]
                == pow10(k) * spec_calculate_ticks(min, max, max_ticks)[i] by {
            assert(pow10(k) * spec_calculate_ticks(min, max, max_ticks)[i]
                == spec_calculate_ticks(min, max, max_ticks)[i]);
        }
    } else {
        let p = pow10((k - 1) as nat);
        lemma_pow10_pos((k - 1) as nat);
        lemma_calculate_ticks_scale_pow(min, max, max_ticks, (k - 1) as nat);
        assert(p * min < p * max && 2 * (p * max - p * min) >= max_ticks) by (nonlinear_arith)
            requires
                p >= 1,
                min < max,
                2 * (max - min) >= max_ticks,
        ;
        lemma_calculate_ticks_scale(p * min, p * max, max_ticks);
        assert(pow10(k) == 10 * p);
        assert(pow10(k) * min == 10 * (p * min) && pow10(k) * max == 10 * (p * max))
            by (nonlinear_arith)
            requires
                pow10(k) == 10 * p,
        ;
        assert(spec_calculate_ticks(pow10(k) * min, pow10(k) * max, max_ticks).len()
            == spec_calculate_ticks(min, max, max_ticks).len());
        assert forall|i: int|
            0 <= i < spec_calculate_ticks(min, max, max_ticks).len()
                implies spec_calculate_ticks(pow10(k) * min, pow10(k) * max, max_ticks)[i]
                == pow10(k) * spec_calculate_ticks(min, max, max_ticks)[i] by {
            assert(spec_calculate_ticks(10 * (p * min), 10 * (p * max), max_ticks)[i] == 10
                * spec_calculate_ticks(p * min, p * max, max_ticks)[i]);
            assert(spec_calculate_ticks(p * min, p * max, max_ticks)[i] == p
                * spec_calculate_ticks(min, max, max_ticks)[i]);
            assert(10 * (p * spec_calculate_ticks(min, max, max_ticks)[i]) == pow10(k)
                * spec_calculate_ticks(min, max, max_ticks)[i]) by (nonlinear_arith)
                requires
                    pow10(k) == 10 * p,
            ;
        }
    }
}

/// The scan result is positive whenever its inputs are.
proof fn lemma_scan_steps_pos(min: int, max: int, actual: nat, c: int, best: int)
    requires
        c >= 1,
        best >= 1,
    ensures
        scan_steps(min, max, actual, c, best) >= 1,
    decreases clamp0(scan_cap(min, max) + 1 - c),
{
    lemma_min_step_at_least_is_step(c + 1);
    if c > scan_cap(min, max) || tick_count(min, max, c) != actual {
    } else {
        lemma_scan_steps_pos(min, max, actual, min_step_at_least(c + 1), c);
    }
}

/// The smallest admissible step at least `x`, executably.
fn smallest_step_at_least(x: i64) -> (r: i64)
    requires
        1 <= x <= 10 * COORD_LIMIT + 1,
    ensures
        r as int == min_step_at_least(x as int),
        is_tick_step(r as int),
        x <= r,
        r as int <= 10 * x,
{
    let mut base: i64 = 1;
    let ghost mut gk: nat = 0nat;
    while base * 10 <= x
        invariant
            1 <= base <= x <= 10 * COORD_LIMIT + 1,
            base as int == pow10(gk),
        decreases x - base,
    {
        base = base * 10;
        proof {
            gk = gk + 1nat;
        }
    }
    proof {
        lemma_log10_floor_unique(x as nat, gk);
        lemma_min_step_at_least_is_step(x as int);
    }
    if x <= base {
        base
    } else if x <= 2 * base {
        2 * base
    } else if x <= 4 * base {
        4 * base
    } else {
        let five = 5 * base;
        if x <= five {
            five
        } else {
            10 * base
        }
    }
}

} // verus!
