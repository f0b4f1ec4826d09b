//! Text-grid chart rendering.
//!
//! Continuous values are projected onto discrete face cells, bin bounds
//! are mapped to the columns they own, axis labels are laid out without
//! collisions, and the face is drawn with bar or point glyphs.  Everything
//! here returns in-memory strings; writing them out is the caller's side.

use vstd::prelude::*;

verus! {

use crate::axis::{Axis, COORD_LIMIT, clamp0};
use crate::utils::pairwise;
use crate::histogram::{Histogram, Scatter};
use crate::decimal::{
    round_half_away,
    round_div,
    lemma_round_half_away_mono,
    lemma_round_half_away_bounds,
};

/// Largest face extent (width or height, in cells) the renderer accepts.
pub const FACE_LIMIT: u32 = 100_000;

/// Given a value like a tick label or a bin count, how far from the axis
/// origin it sits, in cells: the value's position in the axis range,
/// scaled to the face and rounded to the nearest cell.
pub open spec fn spec_cell_offset(value: int, amin: int, amax: int, face_cells: int) -> int
    recommends
        amin < amax,
{
    round_half_away((value - amin) * face_cells, amax - amin)
}

/// A value inside the axis range projects inside the face.
pub proof fn lemma_cell_offset_in_face(value: int, amin: int, amax: int, face: int)
    requires
        amin <= value <= amax,
        amin < amax,
        face >= 0,
    ensures
        0 <= spec_cell_offset(value, amin, amax, face) <= face,
{
    let d = amax - amin;
    assert(0 * d <= (value - amin) * face && (value - amin) * face <= face * d)
        by (nonlinear_arith)
        requires
            0 <= value - amin <= d,
            face >= 0,
    ;
    lemma_round_half_away_bounds((value - amin) * face, d, 0, face);
}

/// Projection preserves order.
pub proof fn lemma_cell_offset_mono(v1: int, v2: int, amin: int, amax: int, face: int)
    requires
        v1 <= v2,
        amin < amax,
        face >= 0,
    ensures
        spec_cell_offset(v1, amin, amax, face) <= spec_cell_offset(v2, amin, amax, face),
{
    assert((v1 - amin) * face <= (v2 - amin) * face) by (nonlinear_arith)
        requires
            v1 <= v2,
            face >= 0,
    ;
    lemma_round_half_away_mono((v1 - amin) * face, (v2 - amin) * face, amax - amin);
}

/// Given a value, an axis and the number of face cells, calculate the cell
/// offset the value projects onto.
pub fn value_to_axis_cell_offset(value: i64, axis: &Axis, face_cells: u32) -> (r: i32)
    requires
        axis.wf(),
        face_cells <= FACE_LIMIT,
        -10 * COORD_LIMIT <= value <= 10 * COORD_LIMIT,
        i32::MIN <= spec_cell_offset(
            value as int,
            axis.spec_min(),
            axis.spec_max(),
            face_cells as int,
        ) <= i32::MAX,
    ensures
        r as int == spec_cell_offset(
            value as int,
            axis.spec_min(),
            axis.spec_max(),
            face_cells as int,
        ),
{
    let amin = axis.min();
    let amax = axis.max();
    proof {
        assert((value as int - amin as int) * (face_cells as int)
            < 0x1_0000_0000_0000_0000_0000_0000_0000 && (value as int - amin as int) * (
        face_cells as int) > -0x1_0000_0000_0000_0000_0000_0000_0000) by (nonlinear_arith)
            requires
                -11 * COORD_LIMIT <= value as int - amin as int <= 11 * COORD_LIMIT,
                0 <= face_cells as int <= FACE_LIMIT as int,
        ;
    }
    let n: i128 = (value as i128 - amin as i128) * (face_cells as i128);
    let d: i128 = (amax - amin) as i128;
    let q = round_div(n, d);
    q as i32
}

/// The mapping from cell offset to tick value, as an offset-sorted list.
/// When several ticks share a cell, the last one wins.
pub open spec fn spec_tick_map(ticks: Seq<i64>, amin: int, amax: int, face: int) -> Seq<
    (int, int),
>
    decreases ticks.len(),
{
    if ticks.len() == 0 {
        Seq::empty()
    } else {
        let prev = spec_tick_map(ticks.drop_last(), amin, amax, face);
        let o = spec_cell_offset(ticks.last() as int, amin, amax, face);
        if prev.len() > 0 && prev.last().0 == o {
            prev.update(prev.len() - 1, (o, ticks.last() as int))
        } else {
            prev.push((o, ticks.last() as int))
        }
    }
}

/// Whether some entry of the map sits at the given offset.
pub open spec fn map_has_offset(m: Seq<(int, int)>, o: int) -> bool {
    exists|j: int| 0 <= j < m.len() && m[j].0 == o
}

/// Structure of the tick map over a well-formed axis: entries are sorted
/// by offset, stay inside the face, carry tick values, and cover exactly
/// the offsets that some tick projects onto.
pub proof fn lemma_tick_map_props(ticks: Seq<i64>, amin: int, amax: int, face: int)
    requires
        amin < amax,
        face >= 0,
        forall|i: int, j: int| 0 <= i < j < ticks.len() ==> ticks[i] < ticks[j],
        forall|i: int| 0 <= i < ticks.len() ==> amin <= #[trigger] ticks[i] <= amax,
    ensures
        spec_tick_map(ticks, amin, amax, face).len() <= ticks.len(),
        ticks.len() >= 1 ==> spec_tick_map(ticks, amin, amax, face).len() >= 1,
        forall|j1: int, j2: int|
            0 <= j1 < j2 < spec_tick_map(ticks, amin, amax, face).len() ==> spec_tick_map(
                ticks,
                amin,
                amax,
                face,
            )[j1].0 < spec_tick_map(ticks, amin, amax, face)[j2].0,
        forall|j: int|
            0 <= j < spec_tick_map(ticks, amin, amax, face).len() ==> 0 <= (
            #[trigger] spec_tick_map(ticks, amin, amax, face)[j]).0 <= face,
        forall|j: int|
            0 <= j < spec_tick_map(ticks, amin, amax, face).len() ==> exists|i: int|
                0 <= i < ticks.len() && (#[trigger] spec_tick_map(ticks, amin, amax, face)[j]).1
                    == ticks[i] as int && spec_tick_map(ticks, amin, amax, face)[j].0
                    == spec_cell_offset(ticks[i] as int, amin, amax, face),
        forall|i: int|
            0 <= i < ticks.len() ==> map_has_offset(
                spec_tick_map(ticks, amin, amax, face),
                spec_cell_offset(#[trigger] ticks[i] as int, amin, amax, face),
            ),
    decreases ticks.len(),
{
    if ticks.len() == 0 {
    } else {
        let pre = ticks.drop_last();
        lemma_tick_map_props(pre, amin, amax, face);
        let prev = spec_tick_map(pre, amin, amax, face);
        let m = spec_tick_map(ticks, amin, amax, face);
        let t = ticks.last();
        let o = spec_cell_offset(t as int, amin, amax, face);
        lemma_cell_offset_in_face(t as int, amin, amax, face);
        // the last tick projects at or beyond every earlier entry
        assert forall|j: int| 0 <= j < prev.len() implies prev[j].0 <= o by {
            let i = choose|i: int|
                0 <= i < pre.len() && prev[j].1 == pre[i] as int && prev[j].0 == spec_cell_offset(
                    pre[i] as int,
                    amin,
                    amax,
                    face,
                );
            lemma_cell_offset_mono(pre[i] as int, t as int, amin, amax, face);
        }
        if prev.len() > 0 && prev.last().0 == o {
            assert(m == prev.update(prev.len() - 1, (o, t as int)));
            assert forall|j: int|
                0 <= j < m.len() implies exists|i: int|
                    0 <= i < ticks.len() && (#[trigger] m[j]).1 == ticks[i] as int && m[j].0
                        == spec_cell_offset(ticks[i] as int, amin, amax, face) by {
                if j < m.len() - 1 {
                    let i = choose|i: int|
                        0 <= i < pre.len() && prev[j].1 == pre[i] as int && prev[j].0
                            == spec_cell_offset(pre[i] as int, amin, amax, face);
                    assert(ticks[i] == pre[i]);
                    assert(m[j] == prev[j]);
                } else {
                    assert(m[j].1 == ticks[ticks.len() - 1] as int);
                }
            }
            assert forall|i: int|
                0 <= i < ticks.len() implies map_has_offset(
                m,
                spec_cell_offset(#[trigger] ticks[i] as int, amin, amax, face),
            ) by {
                if i < ticks.len() - 1 {
                    assert(pre[i] == ticks[i]);
                    let oi = spec_cell_offset(ticks[i] as int, amin, amax, face);
                    assert(map_has_offset(prev, oi));
                    let j = choose|j: int| 0 <= j < prev.len() && prev[j].0 == oi;
                    assert(m[j].0 == oi);
                } else {
                    assert(m[m.len() - 1].0 == o);
                }
            }
        } else {
            assert(m == prev.push((o, t as int)));
            // the new offset strictly exceeds all previous ones
            assert forall|j: int| 0 <= j < prev.len() implies prev[j].0 < o by {
                if j < prev.len() - 1 {
                    assert(prev[j].0 < prev[prev.len() - 1].0);
                } else {
                    assert(prev[j].0 <= o && prev[j].0 != o);
                }
            }
            assert forall|j: int|
                0 <= j < m.len() implies exists|i: int|
                    0 <= i < ticks.len() && (#[trigger] m[j]).1 == ticks[i] as int && m[j].0
                        == spec_cell_offset(ticks[i] as int, amin, amax, face) by {
                if j < m.len() - 1 {
                    let i = choose|i: int|
                        0 <= i < pre.len() && prev[j].1 == pre[i] as int && prev[j].0
                            == spec_cell_offset(pre[i] as int, amin, amax, face);
                    assert(ticks[i] == pre[i]);
                    assert(m[j] == prev[j]);
                } else {
                    assert(m[j].1 == ticks[ticks.len() - 1] as int);
                }
            }
            assert forall|i: int|
                0 <= i < ticks.len() implies map_has_offset(
                m,
                spec_cell_offset(#[trigger] ticks[i] as int, amin, amax, face),
            ) by {
                if i < ticks.len() - 1 {
                    assert(pre[i] == ticks[i]);
                    let oi = spec_cell_offset(ticks[i] as int, amin, amax, face);
                    assert(map_has_offset(prev, oi));
                    let j = choose|j: int| 0 <= j < prev.len() && prev[j].0 == oi;
                    assert(m[j].0 == oi);
                } else {
                    assert(m[m.len() - 1].0 == o);
                }
            }
        }
    }
}

/// Create the mapping of cell offset to tick value for an axis laid over
/// `face_cells` cells.
pub fn tick_offset_map(axis: &Axis, face_cells: u32) -> (m: Vec<(i32, i64)>)
    requires
        axis.wf(),
        1 <= face_cells <= FACE_LIMIT,
    ensures
        m@.len() == spec_tick_map(
            axis.spec_ticks(),
            axis.spec_min(),
            axis.spec_max(),
            face_cells as int,
        ).len(),
        forall|j: int|
            0 <= j < m@.len() ==> (#[trigger] m@[j]).0 as int == spec_tick_map(
                axis.spec_ticks(),
                axis.spec_min(),
                axis.spec_max(),
                face_cells as int,
            )[j].0 && m@[j].1 as int == spec_tick_map(
                axis.spec_ticks(),
                axis.spec_min(),
                axis.spec_max(),
                face_cells as int,
            )[j].1,
        1 <= m@.len() <= axis.spec_ticks().len(),
        forall|j1: int, j2: int| 0 <= j1 < j2 < m@.len() ==> m@[j1].0 < m@[j2].0,
        forall|j: int|
            0 <= j < m@.len() ==> 0 <= (#[trigger] m@[j]).0 <= face_cells && axis.spec_min()
                <= m@[j].1 <= axis.spec_max(),
{
    let ticks = axis.ticks();
    let ghost amin = axis.spec_min();
    let ghost amax = axis.spec_max();
    let ghost face = face_cells as int;
    let mut m: Vec<(i32, i64)> = Vec::new();
    let mut i: usize = 0;
    proof {
        lemma_tick_map_props(axis.spec_ticks(), amin, amax, face);
    }
    while i < ticks.len()
        invariant
            axis.wf(),
            1 <= face_cells <= FACE_LIMIT,
            ticks@ == axis.spec_ticks(),
            amin == axis.spec_min(),
            amax == axis.spec_max(),
            face == face_cells as int,
            i <= ticks@.len(),
            m@.len() == spec_tick_map(ticks@.take(i as int), amin, amax, face).len(),
            forall|j: int|
                0 <= j < m@.len() ==> (#[trigger] m@[j]).0 as int == spec_tick_map(
                    ticks@.take(i as int),
                    amin,
                    amax,
                    face,
                )[j].0 && m@[j].1 as int == spec_tick_map(ticks@.take(i as int), amin, amax, face)[j].1,
        decreases ticks@.len() - i,
    {
        let t = ticks[i];
        proof {
            lemma_cell_offset_in_face(t as int, amin, amax, face);
        }
        let o = value_to_axis_cell_offset(t, axis, face_cells);
        proof {
            assert(ticks@.take(i as int + 1).drop_last() =~= ticks@.take(i as int));
        }
        if m.len() > 0 && m[m.len() - 1].0 == o {
            let li = m.len() - 1;
            m.set(li, (o, t));
        } else {
            m.push((o, t));
        }
        i = i + 1;
    }
    proof {
        assert(ticks@.take(ticks@.len() as int) =~= ticks@);
        let sm = spec_tick_map(axis.spec_ticks(), amin, amax, face);
        assert forall|j: int|
            0 <= j < m@.len() implies 0 <= (#[trigger] m@[j]).0 <= face_cells
                && axis.spec_min() <= m@[j].1 <= axis.spec_max() by {
            let wi = choose|wi: int|
                0 <= wi < axis.spec_ticks().len() && sm[j].1 == axis.spec_ticks()[wi] as int
                    && sm[j].0 == spec_cell_offset(axis.spec_ticks()[wi] as int, amin, amax, face);
            assert(amin <= axis.spec_ticks()[wi] <= amax);
        }
    }
    m
}

/// Width of bin `k` in cells: the gap between its two boundary offsets.
pub open spec fn bin_width(offsets: Seq<i32>, k: int) -> int
    recommends
        0 <= k < offsets.len() - 1,
{
    offsets[k + 1] - offsets[k]
}

/// Total cells of the first `i` bins (negative widths count as zero).
pub open spec fn widths_sum(offsets: Seq<i32>, i: int) -> int
    decreases i,
{
    if i <= 0 {
        0
    } else {
        widths_sum(offsets, i - 1) + clamp0(bin_width(offsets, i - 1))
    }
}

/// The expansion of the first `i` bins: each bin index repeated as many
/// cells as the bin is wide.
pub open spec fn spec_bin_run(offsets: Seq<i32>, i: int) -> Seq<Option<i32>>
    decreases i,
{
    if i <= 0 {
        Seq::empty()
    } else {
        spec_bin_run(offsets, i - 1) + Seq::new(
            clamp0(bin_width(offsets, i - 1)),
            |p: int| Some((i - 1) as i32),
        )
    }
}

/// The full column array before shifting: a leading no-bin cell, the bin
/// expansion, and a trailing no-bin cell.
pub open spec fn spec_core_bins(offsets: Seq<i32>) -> Seq<Option<i32>> {
    seq![Option::<i32>::None] + spec_bin_run(offsets, offsets.len() - 1) + seq![
        Option::<i32>::None,
    ]
}

/// For every face column (plus one underflow and one overflow cell), which
/// bin owns it: the core array shifted by the first boundary's offset, with
/// no-bin cells wherever the shifted window leaves the core.
pub open spec fn spec_bins_for_cells(offsets: Seq<i32>, face: int) -> Seq<Option<i32>>
    recommends
        offsets.len() >= 1,
        face >= 0,
{
    Seq::new(
        (face + 2) as nat,
        |j: int|
            {
                let p = j - offsets[0];
                if 0 <= p < spec_core_bins(offsets).len() {
                    spec_core_bins(offsets)[p]
                } else {
                    Option::<i32>::None
                }
            },
    )
}

proof fn lemma_bin_run_entries(offsets: Seq<i32>, i: int)
    requires
        0 <= i <= offsets.len() - 1,
        i <= 0x7fff_ffff,
    ensures
        spec_bin_run(offsets, i).len() == widths_sum(offsets, i),
        forall|p: int|
            0 <= p < spec_bin_run(offsets, i).len() ==> ((#[trigger] spec_bin_run(offsets, i)[p])
                is Some && 0 <= bin_of(spec_bin_run(offsets, i)[p]) < i),
        forall|p1: int, p2: int|
            0 <= p1 <= p2 < spec_bin_run(offsets, i).len() ==> bin_of(
                spec_bin_run(offsets, i)[p1],
            ) <= bin_of(spec_bin_run(offsets, i)[p2]),
    decreases i,
{
    if i > 0 {
        lemma_bin_run_entries(offsets, i - 1);
        let prevr = spec_bin_run(offsets, i - 1);
        let r = spec_bin_run(offsets, i);
        assert forall|p: int| 0 <= p < r.len() implies (r[p] is Some && 0 <= bin_of(r[p])
            < i) by {
            if p < prevr.len() {
                assert(r[p] == prevr[p]);
            } else {
                assert(r[p] == Some((i - 1) as i32));
            }
        }
        assert forall|p1: int, p2: int|
            0 <= p1 <= p2 < r.len() implies bin_of(r[p1]) <= bin_of(r[p2]) by {
            if p1 < prevr.len() {
                assert(r[p1] == prevr[p1]);
            } else {
                assert(r[p1] == Some((i - 1) as i32));
            }
            if p2 < prevr.len() {
                assert(r[p2] == prevr[p2]);
            } else {
                assert(r[p2] == Some((i - 1) as i32));
            }
        }
    }
}

/// The bin index an owned column names (no-bin cells map below every bin).
pub open spec fn bin_of(o: Option<i32>) -> int {
    match o {
        Some(b) => b as int,
        None => -1,
    }
}

/// Largest boundary cell offset magnitude the renderer accepts.
pub const OFFSET_LIMIT: i32 = 1_000_000;

proof fn lemma_widths_sum_bound(offsets: Seq<i32>, i: int)
    requires
        0 <= i <= offsets.len() - 1,
        forall|k: int|
            0 <= k < offsets.len() ==> -OFFSET_LIMIT <= #[trigger] offsets[k] <= OFFSET_LIMIT,
    ensures
        0 <= widths_sum(offsets, i) <= i * 2_000_000,
    decreases i,
{
    if i > 0 {
        lemma_widths_sum_bound(offsets, i - 1);
    }
}

/// Calculate, for each cell column, which bin it is representing.  The
/// result has `face_width + 2` entries, one underflow and one overflow
/// cell included; columns outside every bin carry the no-bin marker.
#[verifier::loop_isolation(false)]
pub fn bins_for_cells(bound_cell_offsets: &Vec<i32>, face_width: u32) -> (cell_bins: Vec<
    Option<i32>,
>)
    requires
        1 <= bound_cell_offsets@.len() <= 1001,
        forall|i: int|
            0 <= i < bound_cell_offsets@.len() ==> -OFFSET_LIMIT
                <= #[trigger] bound_cell_offsets@[i] <= OFFSET_LIMIT,
        face_width <= FACE_LIMIT,
    ensures
        cell_bins@.len() == face_width as int + 2,
        forall|j: int|
            0 <= j < cell_bins@.len() ==> cell_bins@[j] == spec_bins_for_cells(
                bound_cell_offsets@,
                face_width as int,
            )[j],
        forall|j: int|
            0 <= j < cell_bins@.len() ==> ((#[trigger] cell_bins@[j]) is Some ==> 0 <= bin_of(
            cell_bins@[j]) < bound_cell_offsets@.len() - 1),
        forall|j1: int, j2: int|
            0 <= j1 <= j2 < cell_bins@.len() ==> ((cell_bins@[j1] is Some && cell_bins@[j2]
                is Some) ==> bin_of(cell_bins@[j1]) <= bin_of(cell_bins@[j2])),
{
    let ghost offs = bound_cell_offsets@;
    let nb = bound_cell_offsets.len() - 1;
    let widths = pairwise(bound_cell_offsets);
    let mut core: Vec<Option<i32>> = Vec::new();
    core.push(None);
    let mut b: usize = 0;
    while b < nb
        invariant
            b <= nb,
            core@ == seq![Option::<i32>::None] + spec_bin_run(offs, b as int),
        decreases nb - b,
    {
        let (lo, hi) = widths[b];
        let w: i32 = hi - lo;
        let ghost run_before = core@;
        let mut c: i32 = 0;
        while c < w
            invariant
                0 <= c as int <= clamp0(w as int),
                core@ == run_before + Seq::new(c as nat, |p: int| Some(b as i32)),
            decreases w - c,
        {
            core.push(Some(b as i32));
            proof {
                assert(core@ =~= run_before + Seq::new((c + 1) as nat, |p: int| Some(b as i32)));
            }
            c = c + 1;
        }
        proof {
            assert(bin_width(offs, b as int) == w as int);
            assert(Seq::new(c as nat, |p: int| Some(b as i32)) =~= Seq::new(
                clamp0(bin_width(offs, b as int)),
                |p: int| Some(b as i32),
            ));
            assert(core@ =~= seq![Option::<i32>::None] + spec_bin_run(offs, b as int + 1));
        }
        b = b + 1;
    }
    core.push(None);
    proof {
        assert(core@ =~= spec_core_bins(offs));
        lemma_widths_sum_bound(offs, nb as int);
        lemma_bin_run_entries(offs, nb as int);
    }
    let off0 = bound_cell_offsets[0];
    let mut out: Vec<Option<i32>> = Vec::new();
    let target: usize = face_width as usize + 2;
    let mut j: usize = 0;
    while j < target
        invariant
            j <= target,
            out@.len() == j as int,
            forall|k: int|
                0 <= k < j as int ==> out@[k] == spec_bins_for_cells(offs, face_width as int)[k],
        decreases target - j,
    {
        let p: i64 = j as i64 - off0 as i64;
        if p >= 0 && p < core.len() as i64 {
            let e = core[p as usize];
            out.push(e);
        } else {
            out.push(None);
        }
        j = j + 1;
    }
    proof {
        let run = spec_bin_run(offs, nb as int);
        let fw = face_width as int;
        assert forall|j2: int|
            0 <= j2 < out@.len() && (#[trigger] out@[j2]) is Some implies 0 <= bin_of(out@[j2])
                < nb by {
            let p = j2 - offs[0];
            if 0 <= p < spec_core_bins(offs).len() {
                if 1 <= p <= run.len() {
                    assert(spec_core_bins(offs)[p] == run[p - 1]);
                } else {
                    assert(spec_core_bins(offs)[p] is None);
                }
            }
        }
        assert forall|j1: int, j2: int|
            0 <= j1 <= j2 < out@.len() && out@[j1] is Some && out@[j2] is Some implies bin_of(
            out@[j1]) <= bin_of(out@[j2]) by {
            let p1 = j1 - offs[0];
            let p2 = j2 - offs[0];
            if out@[j1] is Some && out@[j2] is Some {
                assert(1 <= p1 <= run.len() && 1 <= p2 <= run.len()) by {
                    if 0 <= p1 < spec_core_bins(offs).len() && !(1 <= p1 <= run.len()) {
                        assert(spec_core_bins(offs)[p1] is None);
                    }
                    if 0 <= p2 < spec_core_bins(offs).len() && !(1 <= p2 <= run.len()) {
                        assert(spec_core_bins(offs)[p2] is None);
                    }
                }
                assert(spec_core_bins(offs)[p1] == run[p1 - 1]);
                assert(spec_core_bins(offs)[p2] == run[p2 - 1]);
                assert(bin_of(run[p1 - 1]) <= bin_of(run[p2 - 1]));
            }
        }
    }
    out
}

/// Look up the tick value mapped at a cell offset, if any.
pub fn tick_at_offset(m: &Vec<(i32, i64)>, offset: i32) -> (r: Option<i64>)
    ensures
        match r {
            Some(v) => exists|j: int| 0 <= j < m@.len() && #[trigger] m@[j] == (offset, v),
            None => forall|j: int| 0 <= j < m@.len() ==> (#[trigger] m@[j]).0 != offset,
        },
{
    let mut j: usize = 0;
    while j < m.len()
        invariant
            j <= m@.len(),
            forall|k: int| 0 <= k < j as int ==> (#[trigger] m@[k]).0 != offset,
        decreases m@.len() - j,
    {
        let (o, v) = m[j];
        if o == offset {
            return Some(v);
        }
        j = j + 1;
    }
    None
}

/// An x-axis label for the text output renderer.
#[derive(Debug)]
pub struct XAxisLabel {
    pub text: String,
    pub offset: i32,
}

/// The cells a label of this text occupies: its length, rounded up to odd
/// so that it can be centered on its offset cell.
pub open spec fn spec_footprint_of(text: Seq<char>) -> int {
    if text.len() % 2 == 0 {
        text.len() + 1int
    } else {
        text.len() as int
    }
}

/// The cell where a label starts: its footprint centered on its offset.
pub open spec fn spec_start_offset_of(offset: int, text: Seq<char>) -> int {
    offset - spec_footprint_of(text) / 2
}

impl XAxisLabel {
    pub fn len(&self) -> (r: usize)
        ensures
            r == self.text@.len(),
    {
        self.text.as_str().unicode_len()
    }

    pub open spec fn spec_footprint(&self) -> int {
        spec_footprint_of(self.text@)
    }

    /// The number of cells the label will actually use (always odd).
    pub fn footprint(&self) -> (r: usize)
        requires
            self.text@.len() < 100_000,
        ensures
            r as int == self.spec_footprint(),
            r % 2 == 1,
    {
        let l = self.len();
        if l % 2 == 0 {
            l + 1
        } else {
            l
        }
    }

    pub open spec fn spec_start_offset(&self) -> int {
        spec_start_offset_of(self.offset as int, self.text@)
    }

    /// The offset, relative to the zero-point of the axis, where the label
    /// should start to be drawn.
    pub fn start_offset(&self) -> (r: i32)
        requires
            self.text@.len() < 100_000,
            -0x3fff_0000 <= self.offset <= 0x3fff_0000,
        ensures
            r as int == self.spec_start_offset(),
    {
        let half = (self.footprint() / 2) as i32;
        self.offset - half
    }
}

/// The (offset, text) pairs of a label list, as specification values.
pub open spec fn labels_view(labels: Seq<XAxisLabel>) -> Seq<(int, Seq<char>)> {
    Seq::new(labels.len(), |j: int| (labels[j].offset as int, labels[j].text@))
}

/// Turn the tick map into sorted labels, one per mapped offset, each
/// carrying the tick value's decimal text.
pub fn create_x_axis_labels(x_tick_map: &Vec<(i32, i64)>, scale: u32) -> (labels: Vec<
    XAxisLabel,
>)
    requires
        scale <= 16,
        forall|j: int|
            0 <= j < x_tick_map@.len() ==> -0x4000_0000_0000_0000 < (#[trigger] x_tick_map@[j]).1
                < 0x4000_0000_0000_0000,
    ensures
        labels@.len() == x_tick_map@.len(),
        forall|j: int|
            0 <= j < labels@.len() ==> (#[trigger] labels@[j]).offset == x_tick_map@[j].0
                && labels@[j].text@ == crate::decimal::spec_format_decimal(
                x_tick_map@[j].1 as int,
                scale as nat,
            ),
{
    let mut labels: Vec<XAxisLabel> = Vec::new();
    let mut i: usize = 0;
    while i < x_tick_map.len()
        invariant
            scale <= 16,
            i <= x_tick_map@.len(),
            labels@.len() == i as int,
            forall|j: int|
                0 <= j < x_tick_map@.len() ==> -0x4000_0000_0000_0000 < (
                #[trigger] x_tick_map@[j]).1 < 0x4000_0000_0000_0000,
            forall|j: int|
                0 <= j < labels@.len() ==> (#[trigger] labels@[j]).offset == x_tick_map@[j].0
                    && labels@[j].text@ == crate::decimal::spec_format_decimal(
                    x_tick_map@[j].1 as int,
                    scale as nat,
                ),
        decreases x_tick_map@.len() - i,
    {
        let (o, t) = x_tick_map[i];
        let text = crate::decimal::format_decimal(t, scale);
        labels.push(XAxisLabel { text, offset: o });
        i = i + 1;
    }
    labels
}

/// A run of spaces (none for a negative count).
pub open spec fn spaces(n: int) -> Seq<char> {
    Seq::new(clamp0(n), |p: int| ' ')
}

/// A label's text centered in its footprint: the single extra cell of an
/// even-length text goes to the right.
pub open spec fn spec_centered(text: Seq<char>) -> Seq<char> {
    if text.len() % 2 == 0 {
        text + seq![' ']
    } else {
        text
    }
}

/// The composed label line: walk the labels left to right, pad with spaces
/// up to each label's start cell, and on a shortfall retract what was
/// already written before appending the centered text.
pub open spec fn spec_label_line(items: Seq<(int, Seq<char>)>, base: int) -> Seq<char>
    decreases items.len(),
{
    if items.len() == 0 {
        Seq::empty()
    } else {
        let prev = spec_label_line(items.drop_last(), base);
        let text = items.last().1;
        let gap = spec_start_offset_of(items.last().0, text) - base - prev.len();
        prev.take(clamp0(prev.len() + (if gap >= 0 {
            0
        } else {
            gap
        })) as int) + spaces(gap) + spec_centered(text)
    }
}

/// The smallest start offset among the labels.
pub open spec fn spec_min_start(items: Seq<(int, Seq<char>)>) -> int
    decreases items.len(),
{
    if items.len() <= 1 {
        if items.len() == 0 {
            0
        } else {
            spec_start_offset_of(items[0].0, items[0].1)
        }
    } else {
        let m = spec_min_start(items.drop_last());
        let s = spec_start_offset_of(items.last().0, items.last().1);
        if s < m {
            s
        } else {
            m
        }
    }
}

/// The minimum start offset is at most every label's start offset.
pub proof fn lemma_min_start_le(items: Seq<(int, Seq<char>)>)
    requires
        items.len() >= 1,
    ensures
        forall|i: int|
            0 <= i < items.len() ==> spec_min_start(items) <= spec_start_offset_of(
                (#[trigger] items[i]).0,
                items[i].1,
            ),
    decreases items.len(),
{
    if items.len() > 1 {
        lemma_min_start_le(items.drop_last());
        assert forall|i: int|
            0 <= i < items.len() implies spec_min_start(items) <= spec_start_offset_of(
            (#[trigger] items[i]).0,
            items[i].1,
        ) by {
            if i < items.len() - 1 {
                assert(items.drop_last()[i] == items[i]);
            }
        }
    }
}

/// Build the x-axis label line and its leftmost start offset.
#[verifier::loop_isolation(false)]
pub fn build_label_line(labels: &Vec<XAxisLabel>) -> (r: (String, i32))
    requires
        1 <= labels@.len() <= 100_000,
        forall|i: int| 0 <= i < labels@.len() ==> (#[trigger] labels@[i]).text@.len() <= 100,
        forall|i: int|
            0 <= i < labels@.len() ==> -0x10_0000 <= (#[trigger] labels@[i]).offset <= 0x10_0000,
    ensures
        r.1 as int == spec_min_start(labels_view(labels@)),
        r.0@ == spec_label_line(labels_view(labels@), r.1 as int),
{
    let ghost items = labels_view(labels@);
    let first_start = labels[0].start_offset();
    let mut base: i32 = first_start;
    let mut i: usize = 1;
    proof {
        assert(items.take(1).drop_last() =~= items.take(0));
    }
    while i < labels.len()
        invariant
            1 <= i <= labels@.len(),
            base as int == spec_min_start(items.take(i as int)),
            -0x20_0000 <= base as int <= 0x20_0000,
        decreases labels@.len() - i,
    {
        let s = labels[i].start_offset();
        proof {
            assert(items.take(i as int + 1).drop_last() =~= items.take(i as int));
            assert(items.take(i as int + 1).last() == items[i as int]);
        }
        if s < base {
            base = s;
        }
        i = i + 1;
    }
    proof {
        assert(items.take(items.len() as int) =~= items);
    }

    proof {
        lemma_min_start_le(items);
    }
    let mut out: Vec<char> = Vec::new();
    let mut j: usize = 0;
    while j < labels.len()
        invariant
            j <= labels@.len(),
            out@ == spec_label_line(items.take(j as int), base as int),
            out@.len() <= 0x40_0000,
        decreases labels@.len() - j,
    {
        let l = &labels[j];
        let start = l.start_offset();
        let ghost before = out@;
        proof {
            assert(items.take(j as int + 1).drop_last() =~= items.take(j as int));
            assert(items.take(j as int + 1).last() == items[j as int]);
        }
        proof {
            assert(spec_min_start(items) <= spec_start_offset_of(items[j as int].0, items[j as int].1));
        }
        let gap: i64 = start as i64 - base as i64 - out.len() as i64;
        if gap >= 0 {
            let mut g: i64 = 0;
            while g < gap
                invariant
                    0 <= g <= gap,
                    out@ == before + spaces(g as int),
                decreases gap - g,
            {
                out.push(' ');
                proof {
                    assert(out@ =~= before + spaces(g as int + 1));
                }
                g = g + 1;
            }
            proof {
                assert(before.take(clamp0(before.len() as int + 0) as int) =~= before);
            }
        } else {
            let keep: usize = (out.len() as i64 + gap) as usize;
            out.truncate(keep);
            proof {
                assert(out@ =~= before.take(
                    clamp0(before.len() as int + (start as int - base as int - before.len() as int))
                        as int,
                ) + spaces(start as int - base as int - before.len() as int));
            }
        }
        let ghost mid = out@;
        let text_len = l.len();
        let mut k: usize = 0;
        while k < text_len
            invariant
                0 <= k <= text_len,
                text_len == l.text@.len(),
                out@ == mid + l.text@.take(k as int),
            decreases text_len - k,
        {
            let c = l.text.as_str().get_char(k);
            out.push(c);
            proof {
                assert(out@ =~= mid + l.text@.take(k as int + 1));
            }
            k = k + 1;
        }
        proof {
            assert(l.text@.take(text_len as int) =~= l.text@);
        }
        if text_len % 2 == 0 {
            out.push(' ');
        }
        proof {
            assert(out@ =~= spec_label_line(items.take(j as int + 1), base as int));
        }
        j = j + 1;
    }
    proof {
        assert(items.take(items.len() as int) =~= items);
    }
    let line = crate::decimal::chars_to_string(&out);
    (line, base)
}

/// The tick value mapped at an offset, if any (later entries win, though
/// over a sorted map the match is unique).
pub open spec fn map_value_at(m: Seq<(int, int)>, o: int) -> Option<int>
    decreases m.len(),
{
    if m.len() == 0 {
        Option::None
    } else if m.last().0 == o {
        Option::Some(m.last().1)
    } else {
        map_value_at(m.drop_last(), o)
    }
}

proof fn lemma_map_value_at_witness(m: Seq<(int, int)>, o: int, v: int)
    requires
        forall|j1: int, j2: int| 0 <= j1 < j2 < m.len() ==> m[j1].0 < m[j2].0,
        exists|j: int| 0 <= j < m.len() && m[j] == (o, v),
    ensures
        map_value_at(m, o) == Option::Some(v),
    decreases m.len(),
{
    let j = choose|j: int| 0 <= j < m.len() && m[j] == (o, v);
    if j == m.len() - 1 {
        assert(m.last() == (o, v));
    } else {
        assert(m.last().0 > m[j].0);
        assert forall|j1: int, j2: int|
            0 <= j1 < j2 < m.drop_last().len() implies m.drop_last()[j1].0 < m.drop_last()[j2].0
            by {
            assert(m[j1].0 < m[j2].0);
        }
        assert(m.drop_last()[j] == (o, v));
        lemma_map_value_at_witness(m.drop_last(), o, v);
    }
}

proof fn lemma_map_value_at_none(m: Seq<(int, int)>, o: int)
    requires
        forall|j: int| 0 <= j < m.len() ==> (#[trigger] m[j]).0 != o,
    ensures
        map_value_at(m, o) is None,
    decreases m.len(),
{
    if m.len() > 0 {
        assert forall|j: int| 0 <= j < m.drop_last().len() implies (#[trigger] m.drop_last()[j]).0
            != o by {
            assert(m[j].0 != o);
        }
        lemma_map_value_at_none(m.drop_last(), o);
    }
}

/// Chained separation: start offsets plus footprints are nondecreasing
/// along a separated label list.
proof fn lemma_start_chain(items: Seq<(int, Seq<char>)>, i: int, j: int)
    requires
        forall|k: int|
            0 <= k < items.len() - 1 ==> spec_start_offset_of(
                (#[trigger] items[k + 1]).0,
                items[k + 1].1,
            ) >= spec_start_offset_of(items[k].0, items[k].1) + spec_footprint_of(items[k].1),
        0 <= i <= j < items.len(),
    ensures
        spec_start_offset_of(items[i].0, items[i].1) + spec_footprint_of(items[i].1)
            <= spec_start_offset_of(items[j].0, items[j].1) + spec_footprint_of(items[j].1),
    decreases j - i,
{
    if i < j {
        lemma_start_chain(items, i + 1, j);
    }
}

/// Label non-overlap: when consecutive labels are separated by at least
/// the earlier label's footprint, the composed line never retracts, and
/// every label's text stands intact at its cell, character by character.
#[verifier::rlimit(80)]
pub proof fn lemma_label_line_no_overlap(items: Seq<(int, Seq<char>)>, base: int)
    requires
        items.len() >= 1,
        forall|i: int|
            0 <= i < items.len() ==> base <= spec_start_offset_of(
                (#[trigger] items[i]).0,
                items[i].1,
            ),
        forall|i: int|
            0 <= i < items.len() - 1 ==> spec_start_offset_of(
                (#[trigger] items[i + 1]).0,
                items[i + 1].1,
            ) >= spec_start_offset_of(items[i].0, items[i].1) + spec_footprint_of(items[i].1),
    ensures
        spec_label_line(items, base).len() == spec_start_offset_of(items.last().0, items.last().1)
            - base + spec_footprint_of(items.last().1),
        forall|i: int, k: int|
            #![trigger items[i].1[k]]
            0 <= i < items.len() && 0 <= k < items[i].1.len() ==> spec_label_line(items, base)[
                spec_start_offset_of(items[i].0, items[i].1) - base + k] == items[i].1[k],
    decreases items.len(),
{
    let line = spec_label_line(items, base);
    let pre = items.drop_last();
    let text = items.last().1;
    let start = spec_start_offset_of(items.last().0, text);
    if items.len() == 1 {
        assert(spec_label_line(pre, base) =~= Seq::<char>::empty());
        assert forall|i: int, k: int|
            #![trigger items[i].1[k]]
            0 <= i < items.len() && 0 <= k < items[i].1.len() implies line[spec_start_offset_of(
            items[i].0,
            items[i].1,
        ) - base + k] == items[i].1[k] by {
            assert(line[start - base + k] == spec_centered(text)[k]);
        }
    } else {
        assert forall|i: int|
            0 <= i < pre.len() implies base <= spec_start_offset_of(
            (#[trigger] pre[i]).0,
            pre[i].1,
        ) by {
            assert(pre[i] == items[i]);
        }
        assert forall|i: int|
            0 <= i < pre.len() - 1 implies spec_start_offset_of(
            (#[trigger] pre[i + 1]).0,
            pre[i + 1].1,
        ) >= spec_start_offset_of(pre[i].0, pre[i].1) + spec_footprint_of(pre[i].1) by {
            assert(pre[i] == items[i] && pre[i + 1] == items[i + 1]);
        }
        lemma_label_line_no_overlap(pre, base);
        let prev = spec_label_line(pre, base);
        let pstart = spec_start_offset_of(pre.last().0, pre.last().1);
        assert(pre.last() == items[items.len() - 2]);
        assert(spec_start_offset_of(items[items.len() - 2 + 1].0, items[items.len() - 2 + 1].1)
            >= spec_start_offset_of(items[items.len() - 2].0, items[items.len() - 2].1)
            + spec_footprint_of(items[items.len() - 2].1));
        assert(items[items.len() - 2 + 1] == items.last());
        assert(start >= pstart + spec_footprint_of(pre.last().1));
        let gap = start - base - prev.len();
        assert(gap >= 0);
        assert(prev.take(clamp0(prev.len() as int + 0) as int) =~= prev);
        assert(line == prev + spaces(gap) + spec_centered(text));
        assert forall|i: int, k: int|
            #![trigger items[i].1[k]]
            0 <= i < items.len() && 0 <= k < items[i].1.len() implies line[spec_start_offset_of(
            items[i].0,
            items[i].1,
        ) - base + k] == items[i].1[k] by {
            let st = spec_start_offset_of(items[i].0, items[i].1);
            if i < items.len() - 1 {
                assert(pre[i] == items[i]);
                lemma_start_chain(pre, i, pre.len() - 1);
                assert(st + k < st + spec_footprint_of(items[i].1));
                assert(st - base + k < prev.len());
                assert(line[st - base + k] == prev[st - base + k]);
                assert(prev[spec_start_offset_of(pre[i].0, pre[i].1) - base + k] == pre[i].1[k]);
            } else {
                assert(line[st - base + k] == spec_centered(text)[k]);
            }
        }
    }
}

/// The label text at a y-axis row: the mapped tick's decimal text, or
/// nothing.
pub open spec fn spec_y_label_text(m: Seq<(int, int)>, o: int, scale: nat) -> Seq<char> {
    match map_value_at(m, o) {
        Option::Some(v) => crate::decimal::spec_format_decimal(v, scale),
        Option::None => Seq::empty(),
    }
}

/// The tick-dash text at a y-axis row.
pub open spec fn spec_y_tick_text(m: Seq<(int, int)>, o: int) -> Seq<char> {
    if map_value_at(m, o) is Some {
        seq!['-']
    } else {
        seq![' ']
    }
}

/// The longest label text over the map's entries.
pub open spec fn spec_longest_label_len(m: Seq<(int, int)>, scale: nat) -> int
    decreases m.len(),
{
    if m.len() == 0 {
        0
    } else {
        let p = spec_longest_label_len(m.drop_last(), scale);
        let l = crate::decimal::spec_format_decimal(m.last().1, scale).len() as int;
        if l > p {
            l
        } else {
            p
        }
    }
}

/// A run of spaces, executably.
pub fn spaces_string(n: usize) -> (s: String)
    requires
        n <= 0x100_0000,
    ensures
        s@ == spaces(n as int),
{
    let mut out: Vec<char> = Vec::new();
    let mut i: usize = 0;
    while i < n
        invariant
            i <= n,
            out@ == spaces(i as int),
        decreases n - i,
    {
        out.push(' ');
        proof {
            assert(out@ =~= spaces(i as int + 1));
        }
        i = i + 1;
    }
    crate::decimal::chars_to_string(&out)
}

/// The strings of the y axis: a label column, a tick-dash column, the
/// axis line itself (all indexed by cell row, bottom first), and the
/// width of the longest label.
#[verifier::loop_isolation(false)]
pub fn render_y_axis_strings(y_axis: &Axis, axis_scale: u32, face_height: u32) -> (r: (
    Vec<String>,
    Vec<String>,
    Vec<String>,
    i32,
))
    requires
        y_axis.wf(),
        axis_scale <= 16,
        1 <= face_height <= FACE_LIMIT,
    ensures
        ({
            let m = spec_tick_map(
                y_axis.spec_ticks(),
                y_axis.spec_min(),
                y_axis.spec_max(),
                face_height as int,
            );
            &&& r.0@.len() == face_height as int + 1
            &&& forall|o: int|
                0 <= o < r.0@.len() ==> (#[trigger] r.0@[o])@ == spec_y_label_text(
                    m,
                    o,
                    axis_scale as nat,
                )
            &&& r.1@.len() == face_height as int + 1
            &&& forall|o: int|
                0 <= o < r.1@.len() ==> (#[trigger] r.1@[o])@ == spec_y_tick_text(m, o)
            &&& r.2@.len() == face_height as int + 1
            &&& forall|o: int|
                0 <= o < r.2@.len() ==> (#[trigger] r.2@[o])@ == (if o == 0 {
                    seq!['+']
                } else {
                    seq!['|']
                })
            &&& r.3 as int == spec_longest_label_len(m, axis_scale as nat)
            &&& 1 <= r.3 <= 42
        }),
{
    let m = tick_offset_map(y_axis, face_height);
    let ghost sm = spec_tick_map(
        y_axis.spec_ticks(),
        y_axis.spec_min(),
        y_axis.spec_max(),
        face_height as int,
    );

    let mut longest: i32 = 0;
    let mut i: usize = 0;
    while i < m.len()
        invariant
            i <= m@.len(),
            longest as int == spec_longest_label_len(sm.take(i as int), axis_scale as nat),
            0 <= longest <= 42,
        decreases m@.len() - i,
    {
        let (_, v) = m[i];
        proof {
            assert(y_axis.spec_min() <= m@[i as int].1 <= y_axis.spec_max());
        }
        let text = crate::decimal::format_decimal(v, axis_scale);
        let l = text.as_str().unicode_len();
        proof {
            crate::decimal::lemma_format_decimal_len(v as int, axis_scale as nat);
            assert(sm.take(i as int + 1).drop_last() =~= sm.take(i as int));
            assert(sm.take(i as int + 1).last() == sm[i as int]);
        }
        if (l as i32) > longest {
            longest = l as i32;
        }
        i = i + 1;
    }
    proof {
        assert(sm.take(sm.len() as int) =~= sm);
        assert(spec_longest_label_len(sm, axis_scale as nat) >= 1) by {
            assert(sm.len() >= 1);
            crate::decimal::lemma_format_decimal_len(sm.last().1, axis_scale as nat);
            assert(spec_longest_label_len(sm, axis_scale as nat)
                >= crate::decimal::spec_format_decimal(sm.last().1, axis_scale as nat).len());
        }
    }

    proof {
        assert forall|j1: int, j2: int| 0 <= j1 < j2 < sm.len() implies sm[j1].0 < sm[j2].0 by {
            assert(m@[j1].0 < m@[j2].0);
        }
    }
    let mut label_strings: Vec<String> = Vec::new();
    let mut tick_strings: Vec<String> = Vec::new();
    let mut axis_strings: Vec<String> = Vec::new();
    let mut o: usize = 0;
    while o <= face_height as usize
        invariant
            o <= face_height as usize + 1,
            label_strings@.len() == o as int,
            tick_strings@.len() == o as int,
            axis_strings@.len() == o as int,
            forall|k: int|
                0 <= k < o as int ==> (#[trigger] label_strings@[k])@ == spec_y_label_text(
                    sm,
                    k,
                    axis_scale as nat,
                ),
            forall|k: int|
                0 <= k < o as int ==> (#[trigger] tick_strings@[k])@ == spec_y_tick_text(sm, k),
            forall|k: int|
                0 <= k < o as int ==> (#[trigger] axis_strings@[k])@ == (if k == 0 {
                    seq!['+']
                } else {
                    seq!['|']
                }),
        decreases face_height as usize + 1 - o,
    {
        let found = tick_at_offset(&m, o as i32);
        proof {
            match found {
                Some(v) => {
                    let j = choose|j: int| 0 <= j < m@.len() && m@[j] == (o as i32, v);
                    assert(sm[j] == (o as int, v as int));
                    lemma_map_value_at_witness(sm, o as int, v as int);
                },
                None => {
                    assert forall|j: int| 0 <= j < sm.len() implies (#[trigger] sm[j]).0
                        != o as int by {
                        assert(m@[j].0 != o as i32);
                    }
                    lemma_map_value_at_none(sm, o as int);
                },
            }
        }
        match found {
            Some(v) => {
                label_strings.push(crate::decimal::format_decimal(v, axis_scale));
                tick_strings.push(single_char_string('-'));
            },
            None => {
                label_strings.push(String::new());
                tick_strings.push(single_char_string(' '));
            },
        }
        if o == 0 {
            axis_strings.push(single_char_string('+'));
        } else {
            axis_strings.push(single_char_string('|'));
        }
        o = o + 1;
    }
    (label_strings, tick_strings, axis_strings, longest)
}

/// A one-character string.
fn single_char_string(c: char) -> (s: String)
    ensures
        s@ == seq![c],
{
    let mut v: Vec<char> = Vec::new();
    v.push(c);
    proof {
        assert(v@ =~= seq![c]);
    }
    crate::decimal::chars_to_string(&v)
}

/// The x-axis labels a tick map gives rise to, as (offset, text) pairs.
pub open spec fn spec_x_label_items(m: Seq<(int, int)>, scale: nat) -> Seq<(int, Seq<char>)> {
    Seq::new(m.len(), |j: int| (m[j].0, crate::decimal::spec_format_decimal(m[j].1, scale)))
}

/// The strings of the x axis: the label line, the tick-mark line, the
/// axis line itself, and the cell offset at which the label line starts
/// (possibly negative, for a label overhanging the origin).
#[verifier::loop_isolation(false)]
pub fn render_x_axis_strings(x_axis: &Axis, axis_scale: u32, face_width: u32) -> (r: (
    String,
    String,
    String,
    i32,
))
    requires
        x_axis.wf(),
        axis_scale <= 16,
        1 <= face_width <= FACE_LIMIT,
    ensures
        ({
            let m = spec_tick_map(
                x_axis.spec_ticks(),
                x_axis.spec_min(),
                x_axis.spec_max(),
                face_width as int,
            );
            &&& r.3 as int == spec_min_start(spec_x_label_items(m, axis_scale as nat))
            &&& r.0@ == spec_label_line(spec_x_label_items(m, axis_scale as nat), r.3 as int)
            &&& r.1@.len() == face_width as int + 1
            &&& forall|c: int|
                0 <= c < r.1@.len() ==> r.1@[c] == (if map_value_at(m, c) is Some {
                    '|'
                } else {
                    ' '
                })
            &&& r.2@ == Seq::new(face_width as nat + 1, |c: int| if c == 0 {
                '+'
            } else {
                '-'
            })
        }),
{
    let m = tick_offset_map(x_axis, face_width);
    let ghost sm = spec_tick_map(
        x_axis.spec_ticks(),
        x_axis.spec_min(),
        x_axis.spec_max(),
        face_width as int,
    );
    proof {
        assert forall|j1: int, j2: int| 0 <= j1 < j2 < sm.len() implies sm[j1].0 < sm[j2].0 by {
            assert(m@[j1].0 < m@[j2].0);
        }
    }

    let mut tick_chars: Vec<char> = Vec::new();
    let mut c: usize = 0;
    while c <= face_width as usize
        invariant
            c <= face_width as usize + 1,
            tick_chars@.len() == c as int,
            forall|k: int|
                0 <= k < c as int ==> tick_chars@[k] == (if map_value_at(sm, k) is Some {
                    '|'
                } else {
                    ' '
                }),
        decreases face_width as usize + 1 - c,
    {
        let found = tick_at_offset(&m, c as i32);
        proof {
            match found {
                Some(v) => {
                    let j = choose|j: int| 0 <= j < m@.len() && m@[j] == (c as i32, v);
                    assert(sm[j] == (c as int, v as int));
                    lemma_map_value_at_witness(sm, c as int, v as int);
                },
                None => {
                    assert forall|j: int| 0 <= j < sm.len() implies (#[trigger] sm[j]).0
                        != c as int by {
                        assert(m@[j].0 != c as i32);
                    }
                    lemma_map_value_at_none(sm, c as int);
                },
            }
        }
        match found {
            Some(_) => {
                tick_chars.push('|');
            },
            None => {
                tick_chars.push(' ');
            },
        }
        c = c + 1;
    }
    let x_axis_tick_string = crate::decimal::chars_to_string(&tick_chars);

    let labels = create_x_axis_labels(&m, axis_scale);
    proof {
        assert forall|j: int|
            0 <= j < labels@.len() implies (#[trigger] labels@[j]).text@.len() <= 100 by {
            assert(x_axis.spec_min() <= m@[j].1 <= x_axis.spec_max());
            assert(sm[j].1 == m@[j].1 as int);
            crate::decimal::lemma_format_decimal_len(sm[j].1, axis_scale as nat);
        }
        assert(labels_view(labels@) =~= spec_x_label_items(sm, axis_scale as nat));
    }
    let (x_axis_label_string, start_offset) = build_label_line(&labels);

    let mut line_chars: Vec<char> = Vec::new();
    let mut d: usize = 0;
    while d <= face_width as usize
        invariant
            d <= face_width as usize + 1,
            line_chars@.len() == d as int,
            forall|k: int|
                0 <= k < d as int ==> line_chars@[k] == (if k == 0 {
                    '+'
                } else {
                    '-'
                }),
        decreases face_width as usize + 1 - d,
    {
        if d == 0 {
            line_chars.push('+');
        } else {
            line_chars.push('-');
        }
        d = d + 1;
    }
    let x_axis_line_string = crate::decimal::chars_to_string(&line_chars);
    proof {
        assert(line_chars@ =~= Seq::new(face_width as nat + 1, |k: int| if k == 0 {
            '+'
        } else {
            '-'
        }));
    }

    (x_axis_label_string, x_axis_tick_string, x_axis_line_string, start_offset)
}

/// A sequence of small nonnegative offsets, narrowed to `i32`.
pub open spec fn to_i32_seq(s: Seq<int>) -> Seq<i32> {
    Seq::new(s.len(), |i: int| s[i] as i32)
}

/// The boundary offsets of a histogram projected onto the face width.
pub open spec fn spec_bound_offsets(bounds: Seq<i64>, amin: int, amax: int, face: int) -> Seq<
    int,
> {
    Seq::new(bounds.len(), |i: int| spec_cell_offset(10 * bounds[i], amin, amax, face))
}

/// Given a histogram and the face width, the cell offsets of its bounds.
pub open spec fn spec_hist_offsets(h: Histogram, face_width: int) -> Seq<i32> {
    to_i32_seq(
        spec_bound_offsets(h.bin_bounds@, h.x_axis.spec_min(), h.x_axis.spec_max(), face_width),
    )
}

/// The bar height, in cells, of the bin owning each column (no-bin
/// columns have height zero).
pub open spec fn spec_cell_heights(
    cell_bins: Seq<Option<i32>>,
    counts: Seq<u32>,
    ymin: int,
    ymax: int,
    face_height: int,
) -> Seq<int> {
    Seq::new(
        cell_bins.len(),
        |j: int|
            match cell_bins[j] {
                Option::Some(b) => spec_cell_offset(10 * counts[b as int], ymin, ymax, face_height),
                Option::None => 0,
            },
    )
}

pub open spec fn spec_hist_heights(h: Histogram, face_width: int, face_height: int) -> Seq<
    int,
> {
    spec_cell_heights(
        spec_bins_for_cells(spec_hist_offsets(h, face_width), face_width),
        h.bin_counts@,
        h.y_axis.spec_min(),
        h.y_axis.spec_max(),
        face_height,
    )
}

/// Whether some boundary projects onto the given column.
pub open spec fn offsets_contain(offsets: Seq<i32>, c: int) -> bool {
    exists|k: int| 0 <= k < offsets.len() && offsets[k] as int == c
}

/// The face glyph of a histogram cell.  On a boundary column, the heights
/// of the bins on either side pick a wall, a cap or a blank so that bars
/// of different heights draw a continuous outline; inside a bin, a cap is
/// drawn exactly at the bar's top row.
pub open spec fn spec_bar_glyph(
    offsets: Seq<i32>,
    heights: Seq<int>,
    column: int,
    line: int,
) -> char
    recommends
        1 <= column,
        column + 1 < heights.len(),
{
    if offsets_contain(offsets, column) {
        let b = heights[column - 1];
        let a = heights[column + 1];
        if b < line {
            if a < line {
                ' '
            } else if a == line {
                '-'
            } else {
                '|'
            }
        } else if b == line {
            if a > line {
                '|'
            } else {
                '-'
            }
        } else {
            '|'
        }
    } else {
        if heights[column] == line {
            '-'
        } else {
            ' '
        }
    }
}

/// One face row of a histogram (row `line`, counted from the axis up).
pub open spec fn spec_bar_row(
    offsets: Seq<i32>,
    heights: Seq<int>,
    face_width: int,
    line: int,
) -> Seq<char> {
    Seq::new(face_width as nat, |c0: int| spec_bar_glyph(offsets, heights, c0 + 1, line))
}

/// Whether a vector of offsets holds the given value.
fn contains_i32(v: &Vec<i32>, x: i32) -> (r: bool)
    ensures
        r == offsets_contain(v@, x as int),
{
    let mut k: usize = 0;
    while k < v.len()
        invariant
            k <= v@.len(),
            forall|i: int| 0 <= i < k as int ==> (#[trigger] v@[i]) != x,
        decreases v@.len() - k,
    {
        if v[k] == x {
            return true;
        }
        k = k + 1;
    }
    proof {
        assert forall|i: int| 0 <= i < v@.len() implies (#[trigger] v@[i]) as int != x as int by {
            assert(v@[i] != x);
        }
    }
    false
}

/// Given a histogram and the face width, project each bin boundary onto
/// its face column.
#[verifier::loop_isolation(false)]
pub fn bound_cell_offsets(hist: &Histogram, face_width: u32) -> (offsets: Vec<i32>)
    requires
        hist.wf(),
        1 <= face_width <= FACE_LIMIT,
    ensures
        offsets@ == spec_hist_offsets(*hist, face_width as int),
        offsets@.len() == hist.bin_bounds@.len(),
        forall|i: int| 0 <= i < offsets@.len() ==> 0 <= #[trigger] offsets@[i] <= face_width,
{
    let ghost amin = hist.x_axis.spec_min();
    let ghost amax = hist.x_axis.spec_max();
    let n = hist.bin_bounds.len();
    let mut offsets: Vec<i32> = Vec::new();
    let mut i: usize = 0;
    while i < n
        invariant
            i <= n,
            offsets@.len() == i as int,
            forall|k: int|
                0 <= k < i as int ==> (#[trigger] offsets@[k]) as int == spec_cell_offset(
                    10 * hist.bin_bounds@[k],
                    amin,
                    amax,
                    face_width as int,
                ) && 0 <= offsets@[k] <= face_width,
        decreases n - i,
    {
        let bnd = hist.bin_bounds[i];
        proof {
            assert(hist.bin_bounds@[0] <= hist.bin_bounds@[i as int] <= hist.bin_bounds@[
                hist.bin_bounds@.len() - 1]) by {
                if 0 < i as int {
                    assert(hist.bin_bounds@[0] < hist.bin_bounds@[i as int]);
                }
                if (i as int) < hist.bin_bounds@.len() - 1 {
                    assert(hist.bin_bounds@[i as int] < hist.bin_bounds@[hist.bin_bounds@.len()
                        - 1]);
                }
            }
            lemma_cell_offset_in_face(10 * bnd as int, amin, amax, face_width as int);
        }
        let o = value_to_axis_cell_offset(bnd * 10, &hist.x_axis, face_width);
        offsets.push(o);
        i = i + 1;
    }
    proof {
        assert(offsets@ =~= spec_hist_offsets(*hist, face_width as int));
    }
    offsets
}

/// Given a histogram and the face extents, create the strings to be drawn
/// as the face, bottom row first.
#[verifier::loop_isolation(false)]
pub fn render_face_bars(h: &Histogram, face_width: u32, face_height: u32) -> (rows: Vec<
    String,
>)
    requires
        h.wf(),
        1 <= face_width <= FACE_LIMIT,
        1 <= face_height <= FACE_LIMIT,
    ensures
        rows@.len() == face_height as int,
        forall|li: int|
            0 <= li < rows@.len() ==> (#[trigger] rows@[li])@ == spec_bar_row(
                spec_hist_offsets(*h, face_width as int),
                spec_hist_heights(*h, face_width as int, face_height as int),
                face_width as int,
                li + 1,
            ),
{
    let bc = bound_cell_offsets(h, face_width);
    let cb = bins_for_cells(&bc, face_width);
    let ghost sheights = spec_hist_heights(*h, face_width as int, face_height as int);

    let mut heights: Vec<i32> = Vec::new();
    let mut j: usize = 0;
    while j < cb.len()
        invariant
            j <= cb@.len(),
            heights@.len() == j as int,
            forall|k: int|
                0 <= k < j as int ==> (#[trigger] heights@[k]) as int == sheights[k] && 0
                    <= heights@[k] <= face_height,
        decreases cb@.len() - j,
    {
        match cb[j] {
            Some(b) => {
                proof {
                    assert(cb@[j as int] is Some && 0 <= bin_of(cb@[j as int])
                        < h.bin_bounds@.len() - 1);
                    crate::histogram::lemma_max_count_ge(h.bin_counts@, b as int);
                    lemma_cell_offset_in_face(
                        10 * h.bin_counts@[b as int] as int,
                        h.y_axis.spec_min(),
                        h.y_axis.spec_max(),
                        face_height as int,
                    );
                }
                let count = h.bin_counts[b as usize];
                let o = value_to_axis_cell_offset(
                    (count as i64) * 10,
                    &h.y_axis,
                    face_height,
                );
                heights.push(o);
            },
            None => {
                heights.push(0);
            },
        }
        j = j + 1;
    }

    let mut rows: Vec<String> = Vec::new();
    let mut line: usize = 1;
    while line <= face_height as usize
        invariant
            1 <= line <= face_height as usize + 1,
            rows@.len() == line - 1,
            forall|li: int|
                0 <= li < rows@.len() ==> (#[trigger] rows@[li])@ == spec_bar_row(
                    spec_hist_offsets(*h, face_width as int),
                    sheights,
                    face_width as int,
                    li + 1,
                ),
        decreases face_height as usize + 1 - line,
    {
        let mut chars: Vec<char> = Vec::new();
        let mut column: usize = 1;
        while column <= face_width as usize
            invariant
                1 <= column <= face_width as usize + 1,
                chars@.len() == column - 1,
                1 <= line <= face_height as usize,
                forall|c0: int|
                    0 <= c0 < chars@.len() ==> #[trigger] chars@[c0] == spec_bar_glyph(
                        spec_hist_offsets(*h, face_width as int),
                        sheights,
                        c0 + 1,
                        line as int,
                    ),
            decreases face_width as usize + 1 - column,
        {
            let li32 = line as i32;
            let g: char = if contains_i32(&bc, column as i32) {
                let b = heights[column - 1];
                let a = heights[column + 1];
                if b < li32 {
                    if a < li32 {
                        ' '
                    } else if a == li32 {
                        '-'
                    } else {
                        '|'
                    }
                } else if b == li32 {
                    if a > li32 {
                        '|'
                    } else {
                        '-'
                    }
                } else {
                    '|'
                }
            } else {
                let hc = heights[column];
                if hc == li32 {
                    '-'
                } else {
                    ' '
                }
            };
            chars.push(g);
            column = column + 1;
        }
        rows.push(crate::decimal::chars_to_string(&chars));
        proof {
            assert(chars@ =~= spec_bar_row(
                spec_hist_offsets(*h, face_width as int),
                sheights,
                face_width as int,
                line as int,
            ));
        }
        line = line + 1;
    }
    rows
}

/// The face cells each scatter point projects onto.
pub open spec fn spec_point_cells(s: Scatter, face_width: int, face_height: int) -> Seq<
    (int, int),
> {
    Seq::new(
        s.data@.len(),
        |p: int|
            (
                spec_cell_offset(
                    10 * s.data@[p].0,
                    s.x_axis.spec_min(),
                    s.x_axis.spec_max(),
                    face_width,
                ),
                spec_cell_offset(
                    10 * s.data@[p].1,
                    s.y_axis.spec_min(),
                    s.y_axis.spec_max(),
                    face_height,
                ),
            ),
    )
}

pub open spec fn spec_points_contain(pts: Seq<(int, int)>, c: int, l: int) -> bool {
    exists|p: int| 0 <= p < pts.len() && pts[p] == (c, l)
}

/// One face row of a scatter plot.
pub open spec fn spec_scatter_row(pts: Seq<(int, int)>, face_width: int, line: int) -> Seq<
    char,
> {
    Seq::new(
        face_width as nat,
        |c0: int|
            if spec_points_contain(pts, c0 + 1, line) {
                'o'
            } else {
                ' '
            },
    )
}

/// Given scatter data and the face extents, create the strings to be
/// drawn as the face, bottom row first.
#[verifier::loop_isolation(false)]
pub fn render_face_points(s: &Scatter, face_width: u32, face_height: u32) -> (rows: Vec<
    String,
>)
    requires
        s.wf(),
        1 <= face_width <= FACE_LIMIT,
        1 <= face_height <= FACE_LIMIT,
    ensures
        rows@.len() == face_height as int,
        forall|li: int|
            0 <= li < rows@.len() ==> (#[trigger] rows@[li])@ == spec_scatter_row(
                spec_point_cells(*s, face_width as int, face_height as int),
                face_width as int,
                li + 1,
            ),
{
    let ghost spts = spec_point_cells(*s, face_width as int, face_height as int);
    let mut pts: Vec<(i32, i32)> = Vec::new();
    let mut p: usize = 0;
    while p < s.data.len()
        invariant
            p <= s.data@.len(),
            pts@.len() == p as int,
            forall|k: int|
                0 <= k < p as int ==> (#[trigger] pts@[k]).0 as int == spts[k].0 && pts@[k].1 as int
                    == spts[k].1,
        decreases s.data@.len() - p,
    {
        let (x, y) = s.data[p];
        proof {
            crate::histogram::lemma_point_bounds(s.data@, p as int);
            lemma_cell_offset_in_face(
                10 * x as int,
                s.x_axis.spec_min(),
                s.x_axis.spec_max(),
                face_width as int,
            );
            lemma_cell_offset_in_face(
                10 * y as int,
                s.y_axis.spec_min(),
                s.y_axis.spec_max(),
                face_height as int,
            );
        }
        let px = value_to_axis_cell_offset(x * 10, &s.x_axis, face_width);
        let py = value_to_axis_cell_offset(y * 10, &s.y_axis, face_height);
        pts.push((px, py));
        p = p + 1;
    }

    let mut rows: Vec<String> = Vec::new();
    let mut line: usize = 1;
    while line <= face_height as usize
        invariant
            1 <= line <= face_height as usize + 1,
            rows@.len() == line - 1,
            forall|li: int|
                0 <= li < rows@.len() ==> (#[trigger] rows@[li])@ == spec_scatter_row(
                    spts,
                    face_width as int,
                    li + 1,
                ),
        decreases face_height as usize + 1 - line,
    {
        let mut chars: Vec<char> = Vec::new();
        let mut column: usize = 1;
        while column <= face_width as usize
            invariant
                1 <= column <= face_width as usize + 1,
                chars@.len() == column - 1,
                1 <= line <= face_height as usize,
                forall|c0: int|
                    0 <= c0 < chars@.len() ==> #[trigger] chars@[c0] == (if spec_points_contain(
                        spts,
                        c0 + 1,
                        line as int,
                    ) {
                        'o'
                    } else {
                        ' '
                    }),
            decreases face_width as usize + 1 - column,
        {
            let mut found = false;
            let mut q: usize = 0;
            while q < pts.len()
                invariant
                    q <= pts@.len(),
                    found == exists|k: int|
                        0 <= k < q as int && pts@[k] == (column as i32, line as i32),
                decreases pts@.len() - q,
            {
                let (a, bb) = pts[q];
                if a == column as i32 && bb == line as i32 {
                    found = true;
                }
                q = q + 1;
            }
            proof {
                if found {
                    let k = choose|k: int|
                        0 <= k < pts@.len() && pts@[k] == (column as i32, line as i32);
                    assert(spts[k] == (column as int, line as int));
                } else {
                    assert forall|k: int|
                        0 <= k < spts.len() implies #[trigger] spts[k] != (
                    column as int,
                    line as int,
                    ) by {
                        assert(pts@[k] != (column as i32, line as i32));
                    }
                }
            }
            if found {
                chars.push('o');
            } else {
                chars.push(' ');
            }
            column = column + 1;
        }
        rows.push(crate::decimal::chars_to_string(&chars));
        proof {
            assert(chars@ =~= spec_scatter_row(spts, face_width as int, line as int));
        }
        line = line + 1;
    }
    rows
}

/// The fixed number of face rows of a drawn chart.
pub const FACE_HEIGHT: u32 = 30;

/// The fixed face width of a scatter chart.
pub const SCATTER_FACE_WIDTH: u32 = 90;

/// Face columns drawn per histogram bin.
pub const BAR_CELLS_PER_BIN: u32 = 3;

/// Right-alignment: spaces in front of a string up to a width (a longer
/// string is left as it is).
pub open spec fn spec_pad_left(s: Seq<char>, w: int) -> Seq<char> {
    spaces(w - s.len()) + s
}

/// The left gutter width: room for the widest y label plus its dash, or
/// for an x label overhanging the origin, whichever is more.
pub open spec fn spec_gutter(longest: int, start_offset: int) -> int {
    if longest + 1 >= -start_offset {
        longest + 1
    } else {
        -start_offset
    }
}

fn pad_left(s: &String, w: usize) -> (r: String)
    requires
        w <= 0x100_0000,
        s@.len() <= 0x100_0000,
    ensures
        r@ == spec_pad_left(s@, w as int),
{
    let l = s.as_str().unicode_len();
    let mut out = if l < w {
        spaces_string(w - l)
    } else {
        spaces_string(0)
    };
    out.append(s.as_str());
    proof {
        assert(out@ =~= spec_pad_left(s@, w as int));
    }
    out
}

/// Some mapped value sits in the map's entries.
proof fn lemma_map_value_at_in_entries(m: Seq<(int, int)>, o: int)
    requires
        map_value_at(m, o) is Some,
    ensures
        exists|j: int|
            0 <= j < m.len() && #[trigger] m[j] == (o, map_value_at(m, o)->Some_0),
    decreases m.len(),
{
    if m.len() > 0 {
        if m.last().0 == o {
            assert(m[m.len() - 1] == (o, map_value_at(m, o)->Some_0));
        } else {
            lemma_map_value_at_in_entries(m.drop_last(), o);
            let j = choose|j: int|
                0 <= j < m.drop_last().len() && #[trigger] m.drop_last()[j] == (
                o,
                map_value_at(m.drop_last(), o)->Some_0,
                );
            assert(m[j] == (o, map_value_at(m, o)->Some_0));
        }
    }
}

/// The minimum start offset lies between the bounds of the starts.
proof fn lemma_min_start_bounds(items: Seq<(int, Seq<char>)>, lo: int, hi: int)
    requires
        items.len() >= 1,
        forall|j: int|
            0 <= j < items.len() ==> lo <= spec_start_offset_of(
                (#[trigger] items[j]).0,
                items[j].1,
            ) <= hi,
    ensures
        lo <= spec_min_start(items) <= hi,
    decreases items.len(),
{
    if items.len() > 1 {
        assert forall|j: int|
            0 <= j < items.drop_last().len() implies lo <= spec_start_offset_of(
            (#[trigger] items.drop_last()[j]).0,
            items.drop_last()[j].1,
        ) <= hi by {
            assert(items.drop_last()[j] == items[j]);
        }
        lemma_min_start_bounds(items.drop_last(), lo, hi);
    }
}

/// Assemble the full chart from its rendered parts: the face rows with
/// the y axis on their left (top row first), then the x axis line, its
/// tick marks, and its labels.
#[verifier::loop_isolation(false)]
fn assemble_chart(
    y_label_strings: &Vec<String>,
    y_tick_strings: &Vec<String>,
    y_axis_line_strings: &Vec<String>,
    x_axis_label_string: &String,
    x_axis_tick_string: &String,
    x_axis_line_string: &String,
    face_strings: &Vec<String>,
    longest: i32,
    start_offset: i32,
    face_width: u32,
    face_height: u32,
) -> (lines: Vec<String>)
    requires
        1 <= face_width <= FACE_LIMIT,
        1 <= face_height <= FACE_LIMIT,
        y_label_strings@.len() == face_height as int + 1,
        y_tick_strings@.len() == face_height as int + 1,
        y_axis_line_strings@.len() == face_height as int + 1,
        face_strings@.len() == face_height as int,
        1 <= longest <= 100,
        -0x20_0000 <= start_offset <= 0x20_0000,
        x_axis_line_string@.len() == face_width as int + 1,
        x_axis_label_string@.len() <= 0x80_0000,
        forall|i: int|
            0 <= i < y_label_strings@.len() ==> (#[trigger] y_label_strings@[i])@.len() <= 100,
        forall|i: int|
            0 <= i < y_tick_strings@.len() ==> (#[trigger] y_tick_strings@[i])@.len() <= 10,
    ensures
        ({
            let fh = face_height as int;
            let gutter = spec_gutter(longest as int, start_offset as int);
            &&& lines@.len() == fh + 3
            &&& forall|li: int|
                0 <= li < fh ==> (#[trigger] lines@[li])@ == spec_pad_left(
                    y_label_strings@[fh - li]@ + y_tick_strings@[fh - li]@,
                    gutter,
                ) + y_axis_line_strings@[fh - li]@ + face_strings@[fh - li - 1]@
            &&& lines@[fh]@ == spec_pad_left(y_label_strings@[0]@, gutter)
                + y_axis_line_strings@[0]@ + x_axis_line_string@.skip(1)
            &&& lines@[fh + 1]@ == spaces(gutter) + x_axis_tick_string@
            &&& lines@[fh + 2]@ == spaces(gutter + start_offset as int) + x_axis_label_string@
                + spaces(
                face_width as int + 1 + start_offset as int - x_axis_label_string@.len(),
            )
        }),
{
    let gutter: usize = if longest + 1 >= -start_offset {
        (longest + 1) as usize
    } else {
        (-start_offset) as usize
    };
    let mut lines: Vec<String> = Vec::new();
    let ghost fh = face_height as int;
    let ghost sgutter = spec_gutter(longest as int, start_offset as int);

    let mut li: usize = 0;
    while li < face_height as usize
        invariant
            li <= face_height as usize,
            gutter as int == sgutter,
            lines@.len() == li as int,
            forall|k: int|
                0 <= k < li as int ==> (#[trigger] lines@[k])@ == spec_pad_left(
                    y_label_strings@[fh - k]@ + y_tick_strings@[fh - k]@,
                    sgutter,
                ) + y_axis_line_strings@[fh - k]@ + face_strings@[fh - k - 1]@,
        decreases face_height as usize - li,
    {
        let cp: usize = face_height as usize - li;
        let mut label_and_tick = y_label_strings[cp].clone();
        label_and_tick.append(y_tick_strings[cp].as_str());
        let mut row = pad_left(&label_and_tick, gutter);
        row.append(y_axis_line_strings[cp].as_str());
        row.append(face_strings[cp - 1].as_str());
        lines.push(row);
        li = li + 1;
    }

    // the x-axis line, sharing its corner with the y-axis origin
    let n = x_axis_line_string.as_str().unicode_len();
    let reduced = x_axis_line_string.as_str().substring_char(1, n);
    let mut zero_row = pad_left(&y_label_strings[0], gutter);
    zero_row.append(y_axis_line_strings[0].as_str());
    zero_row.append(reduced);
    lines.push(zero_row);

    // the x-axis tick marks
    let mut tick_row = spaces_string(gutter);
    tick_row.append(x_axis_tick_string.as_str());
    lines.push(tick_row);

    // the x-axis labels, shifted by the leftmost label's start
    let shift: usize = (gutter as i64 + start_offset as i64) as usize;
    let mut label_row = spaces_string(shift);
    label_row.append(x_axis_label_string.as_str());
    let llen = x_axis_label_string.as_str().unicode_len();
    let tail: i64 = face_width as i64 + 1 + start_offset as i64 - llen as i64;
    let tail_spaces = if tail > 0 {
        spaces_string(tail as usize)
    } else {
        spaces_string(0)
    };
    label_row.append(tail_spaces.as_str());
    proof {
        assert(label_row@ =~= spaces(sgutter + start_offset as int) + x_axis_label_string@
            + spaces(face_width as int + 1 + start_offset as int - x_axis_label_string@.len()));
    }
    lines.push(label_row);
    lines
}

/// Draw a histogram as its full text block: face rows with the y axis on
/// the left (top row first), then the x-axis line, tick marks and labels.
#[verifier::loop_isolation(false)]
pub fn draw_histogram(h: &Histogram) -> (lines: Vec<String>)
    requires
        h.wf(),
    ensures
        ({
            let fw = BAR_CELLS_PER_BIN as int * h.bin_counts@.len();
            let fh = FACE_HEIGHT as int;
            let my = spec_tick_map(
                h.y_axis.spec_ticks(),
                h.y_axis.spec_min(),
                h.y_axis.spec_max(),
                fh,
            );
            let mx = spec_tick_map(
                h.x_axis.spec_ticks(),
                h.x_axis.spec_min(),
                h.x_axis.spec_max(),
                fw,
            );
            let items = spec_x_label_items(mx, (h.scale + 1) as nat);
            let start = spec_min_start(items);
            let gutter = spec_gutter(spec_longest_label_len(my, 1), start);
            &&& lines@.len() == fh + 3
            &&& forall|li: int|
                0 <= li < fh ==> (#[trigger] lines@[li])@ == spec_pad_left(
                    spec_y_label_text(my, fh - li, 1) + spec_y_tick_text(my, fh - li),
                    gutter,
                ) + seq!['|'] + spec_bar_row(
                    spec_hist_offsets(*h, fw),
                    spec_hist_heights(*h, fw, fh),
                    fw,
                    fh - li,
                )
            &&& lines@[fh]@ == spec_pad_left(spec_y_label_text(my, 0, 1), gutter) + seq!['+']
                + Seq::new(fw as nat, |c: int| '-')
            &&& lines@[fh + 1]@ == spaces(gutter) + Seq::new(
                fw as nat + 1,
                |c: int|
                    if map_value_at(mx, c) is Some {
                        '|'
                    } else {
                        ' '
                    },
            )
            &&& lines@[fh + 2]@ == spaces(gutter + start) + spec_label_line(items, start)
                + spaces(fw + 1 + start - spec_label_line(items, start).len())
        }),
{
    let face_height: u32 = FACE_HEIGHT;
    let face_width: u32 = BAR_CELLS_PER_BIN * (h.num_bins() as u32);
    let (y_label_strings, y_tick_strings, y_axis_line_strings, longest) = render_y_axis_strings(
        &h.y_axis,
        1,
        face_height,
    );
    let (x_axis_label_string, x_axis_tick_string, x_axis_line_string, start_offset) =
        render_x_axis_strings(&h.x_axis, h.scale + 1, face_width);
    let face_strings = render_face_bars(h, face_width, face_height);
    proof {
        chart_parts_bounds(
            &h.x_axis,
            (h.scale + 1) as nat,
            face_width as int,
            start_offset as int,
            x_axis_label_string@,
        );
        assert forall|i: int|
            0 <= i < y_label_strings@.len() implies (#[trigger] y_label_strings@[i])@.len()
            <= 100 by {
            y_label_len_bound(&h.y_axis, 1, face_height as int, i);
            assert(y_label_strings@[i]@ == spec_y_label_text(
                spec_tick_map(
                    h.y_axis.spec_ticks(),
                    h.y_axis.spec_min(),
                    h.y_axis.spec_max(),
                    face_height as int,
                ),
                i,
                1,
            ));
        }
    }
    let lines = assemble_chart(
        &y_label_strings,
        &y_tick_strings,
        &y_axis_line_strings,
        &x_axis_label_string,
        &x_axis_tick_string,
        &x_axis_line_string,
        &face_strings,
        longest,
        start_offset,
        face_width,
        face_height,
    );
    proof {
        let fh = face_height as int;
        let ghost sgutter = spec_gutter(longest as int, start_offset as int);
        assert forall|li: int|
            0 <= li < fh implies (#[trigger] lines@[li])@ == spec_pad_left(
            spec_y_label_text(
                spec_tick_map(
                    h.y_axis.spec_ticks(),
                    h.y_axis.spec_min(),
                    h.y_axis.spec_max(),
                    fh,
                ),
                fh - li,
                1,
            ) + spec_y_tick_text(
                spec_tick_map(
                    h.y_axis.spec_ticks(),
                    h.y_axis.spec_min(),
                    h.y_axis.spec_max(),
                    fh,
                ),
                fh - li,
            ),
            sgutter,
        ) + seq!['|'] + spec_bar_row(
            spec_hist_offsets(*h, face_width as int),
            spec_hist_heights(*h, face_width as int, fh),
            face_width as int,
            fh - li,
        ) by {
            assert(y_axis_line_strings@[fh - li]@ == seq!['|']);
        }
        assert(x_axis_line_string@.skip(1) =~= Seq::new(face_width as nat, |c: int| '-'));
    }
    lines
}

/// Bounds used when assembling: the label line's start offset and length.
proof fn chart_parts_bounds(
    x_axis: &Axis,
    scale: nat,
    fw: int,
    start_offset: int,
    label_line: Seq<char>,
)
    requires
        x_axis.wf(),
        scale <= 16,
        1 <= fw <= FACE_LIMIT as int,
        start_offset == spec_min_start(
            spec_x_label_items(
                spec_tick_map(x_axis.spec_ticks(), x_axis.spec_min(), x_axis.spec_max(), fw),
                scale,
            ),
        ),
        label_line == spec_label_line(
            spec_x_label_items(
                spec_tick_map(x_axis.spec_ticks(), x_axis.spec_min(), x_axis.spec_max(), fw),
                scale,
            ),
            start_offset,
        ),
    ensures
        -0x20_0000 <= start_offset <= 0x20_0000,
        label_line.len() <= 0x80_0000,
{
    let m = spec_tick_map(x_axis.spec_ticks(), x_axis.spec_min(), x_axis.spec_max(), fw);
    lemma_tick_map_props(x_axis.spec_ticks(), x_axis.spec_min(), x_axis.spec_max(), fw);
    let items = spec_x_label_items(m, scale);
    assert forall|j: int|
        0 <= j < items.len() implies -0x20_0000 <= spec_start_offset_of(
        (#[trigger] items[j]).0,
        items[j].1,
    ) <= 0x20_0000 by {
        let wi = choose|wi: int|
            0 <= wi < x_axis.spec_ticks().len() && m[j].1 == x_axis.spec_ticks()[wi] as int
                && m[j].0 == spec_cell_offset(
                x_axis.spec_ticks()[wi] as int,
                x_axis.spec_min(),
                x_axis.spec_max(),
                fw,
            );
        crate::decimal::lemma_format_decimal_len(m[j].1, scale);
    }
    lemma_min_start_bounds(items, -0x20_0000, 0x20_0000);
}

/// A y-axis row label is short.
proof fn y_label_len_bound(y_axis: &Axis, scale: nat, fh: int, o: int)
    requires
        y_axis.wf(),
        scale <= 16,
        fh >= 1,
    ensures
        spec_y_label_text(
            spec_tick_map(y_axis.spec_ticks(), y_axis.spec_min(), y_axis.spec_max(), fh),
            o,
            scale,
        ).len() <= 100,
{
    let m = spec_tick_map(y_axis.spec_ticks(), y_axis.spec_min(), y_axis.spec_max(), fh);
    lemma_tick_map_props(y_axis.spec_ticks(), y_axis.spec_min(), y_axis.spec_max(), fh);
    if map_value_at(m, o) is Some {
        lemma_map_value_at_in_entries(m, o);
        let j = choose|j: int|
            0 <= j < m.len() && #[trigger] m[j] == (o, map_value_at(m, o)->Some_0);
        let wi = choose|wi: int|
            0 <= wi < y_axis.spec_ticks().len() && m[j].1 == y_axis.spec_ticks()[wi] as int
                && m[j].0 == spec_cell_offset(
                y_axis.spec_ticks()[wi] as int,
                y_axis.spec_min(),
                y_axis.spec_max(),
                fh,
            );
        crate::decimal::lemma_format_decimal_len(m[j].1, scale);
    }
}

/// Draw a scatter plot as its full text block: face rows with the y axis
/// on the left (top row first), then the x-axis line, tick marks and
/// labels.
#[verifier::loop_isolation(false)]
pub fn draw_scatter(s: &Scatter) -> (lines: Vec<String>)
    requires
        s.wf(),
    ensures
        ({
            let fw = SCATTER_FACE_WIDTH as int;
            let fh = FACE_HEIGHT as int;
            let my = spec_tick_map(
                s.y_axis.spec_ticks(),
                s.y_axis.spec_min(),
                s.y_axis.spec_max(),
                fh,
            );
            let mx = spec_tick_map(
                s.x_axis.spec_ticks(),
                s.x_axis.spec_min(),
                s.x_axis.spec_max(),
                fw,
            );
            let items = spec_x_label_items(mx, (s.scale + 1) as nat);
            let start = spec_min_start(items);
            let gutter = spec_gutter(
                spec_longest_label_len(my, (s.scale + 1) as nat),
                start,
            );
            &&& lines@.len() == fh + 3
            &&& forall|li: int|
                0 <= li < fh ==> (#[trigger] lines@[li])@ == spec_pad_left(
                    spec_y_label_text(my, fh - li, (s.scale + 1) as nat) + spec_y_tick_text(
                        my,
                        fh - li,
                    ),
                    gutter,
                ) + seq!['|'] + spec_scatter_row(spec_point_cells(*s, fw, fh), fw, fh - li)
            &&& lines@[fh]@ == spec_pad_left(spec_y_label_text(my, 0, (s.scale + 1) as nat), gutter)
                + seq!['+'] + Seq::new(fw as nat, |c: int| '-')
            &&& lines@[fh + 1]@ == spaces(gutter) + Seq::new(
                fw as nat + 1,
                |c: int|
                    if map_value_at(mx, c) is Some {
                        '|'
                    } else {
                        ' '
                    },
            )
            &&& lines@[fh + 2]@ == spaces(gutter + start) + spec_label_line(items, start)
                + spaces(fw + 1 + start - spec_label_line(items, start).len())
        }),
{
    let face_height: u32 = FACE_HEIGHT;
    let face_width: u32 = SCATTER_FACE_WIDTH;
    let (y_label_strings, y_tick_strings, y_axis_line_strings, longest) = render_y_axis_strings(
        &s.y_axis,
        s.scale + 1,
        face_height,
    );
    let (x_axis_label_string, x_axis_tick_string, x_axis_line_string, start_offset) =
        render_x_axis_strings(&s.x_axis, s.scale + 1, face_width);
    let face_strings = render_face_points(s, face_width, face_height);
    proof {
        chart_parts_bounds(
            &s.x_axis,
            (s.scale + 1) as nat,
            face_width as int,
            start_offset as int,
            x_axis_label_string@,
        );
        assert forall|i: int|
            0 <= i < y_label_strings@.len() implies (#[trigger] y_label_strings@[i])@.len()
            <= 100 by {
            y_label_len_bound(&s.y_axis, (s.scale + 1) as nat, face_height as int, i);
            assert(y_label_strings@[i]@ == spec_y_label_text(
                spec_tick_map(
                    s.y_axis.spec_ticks(),
                    s.y_axis.spec_min(),
                    s.y_axis.spec_max(),
                    face_height as int,
                ),
                i,
                (s.scale + 1) as nat,
            ));
        }
    }
    let lines = assemble_chart(
        &y_label_strings,
        &y_tick_strings,
        &y_axis_line_strings,
        &x_axis_label_string,
        &x_axis_tick_string,
        &x_axis_line_string,
        &face_strings,
        longest,
        start_offset,
        face_width,
        face_height,
    );
    proof {
        let fh = face_height as int;
        assert forall|li: int|
            0 <= li < fh implies (#[trigger] lines@[li])@ == spec_pad_left(
            spec_y_label_text(
                spec_tick_map(
                    s.y_axis.spec_ticks(),
                    s.y_axis.spec_min(),
                    s.y_axis.spec_max(),
                    fh,
                ),
                fh - li,
                (s.scale + 1) as nat,
            ) + spec_y_tick_text(
                spec_tick_map(
                    s.y_axis.spec_ticks(),
                    s.y_axis.spec_min(),
                    s.y_axis.spec_max(),
                    fh,
                ),
                fh - li,
            ),
            spec_gutter(longest as int, start_offset as int),
        ) + seq!['|'] + spec_scatter_row(
            spec_point_cells(*s, face_width as int, fh),
            face_width as int,
            fh - li,
        ) by {
            assert(y_axis_line_strings@[fh - li]@ == seq!['|']);
        }
        assert(x_axis_line_string@.skip(1) =~= Seq::new(face_width as nat, |c: int| '-'));
    }
    lines
}

} // verus!
