//! The masses of an evaluation add up to the probability of one spawn
//! position.

use crate::animation::animation_masses;
use crate::constant::lemma_round_monotone;
use crate::cover::{cells_moved, cover_count, cover_mass, cover_masses};
use crate::histogram::{running_sum, window_end, window_sum};
use crate::mass::{
    cell_total, lemma_confined_prefix, lemma_total_concat, MassView, total, within_board,
};
use crate::rational::{frac, lemma_frac_floor, lemma_frac_neg, Num, trunc};
use crate::segment::{
    chill_step_masses, moved_after, PlanView, rate_share, segment_masses, segment_weight,
    segments_ordered, table_forward,
};
use crate::timing::{chill_multiplier, int_max, int_min, lemma_multipliers_total, multiplier_sum};
use crate::walk::{frame_shift, frame_ticks, moved, phase, stretch, table_index};
use vstd::prelude::*;

verus! {

/// The first `m` masses of a cover.
spec fn cover_prefix(spawn: int, dmin: int, dmax: int, w: real, m: int) -> Seq<MassView> {
    Seq::new(m as nat, |i: int| cover_mass(spawn, dmin, dmax, w, cells_moved(dmin) + i))
}

proof fn lemma_cells_moved(ticks: int)
    ensures
        16384 * (cells_moved(ticks) - 1) < ticks <= 16384 * cells_moved(ticks),
{
    lemma_frac_neg(ticks, 16384);
    lemma_frac_floor(-ticks, 16384);
}

proof fn lemma_cells_moved_monotone(a: int, b: int)
    requires
        a <= b,
    ensures
        cells_moved(a) <= cells_moved(b),
{
    lemma_cells_moved(a);
    lemma_cells_moved(b);
}

proof fn lemma_cover_prefix_total(spawn: int, dmin: int, dmax: int, w: real, m: int)
    requires
        dmin < dmax,
        1 <= m <= cover_count(dmin, dmax),
    ensures
        total(cover_prefix(spawn, dmin, dmax, w, m)) == w * frac(
            int_min(16384 * (cells_moved(dmin) + m - 1), dmax) - dmin,
            dmax - dmin,
        ),
    decreases m,
{
    let lo = cells_moved(dmin);
    let s = cover_prefix(spawn, dmin, dmax, w, m);
    let dx = lo + m - 1;
    lemma_cells_moved(dmin);
    lemma_cells_moved(dmax);
    assert(s.drop_last() =~= cover_prefix(spawn, dmin, dmax, w, m - 1));
    assert(s.last() == cover_mass(spawn, dmin, dmax, w, dx));
    let top = int_min(16384 * dx, dmax);
    let width = dmax - dmin;
    if m == 1 {
        assert(total(s.drop_last()) == 0real);
        assert(int_max(16384 * (dx - 1), dmin) == dmin);
        assert(0real + w * frac(top - dmin, width) * 1real == w * frac(top - dmin, width))
            by (nonlinear_arith);
    } else {
        lemma_cover_prefix_total(spawn, dmin, dmax, w, m - 1);
        let below = 16384 * (dx - 1);
        assert(int_min(below, dmax) == below);
        assert(int_max(below, dmin) == below);
        assert(w * frac(below - dmin, width) + w * frac(top - below, width) * 1real == w * frac(
            top - dmin,
            width,
        )) by (nonlinear_arith)
            requires
                width > 0,
        ;
    }
}

/// The masses of a cover add up to its weight.
pub proof fn lemma_cover_total(spawn: int, dmin: int, dmax: int, w: real)
    requires
        dmin <= dmax,
    ensures
        total(cover_masses(spawn, dmin, dmax, w)) == w,
{
    lemma_cells_moved_monotone(dmin, dmax);
    lemma_cells_moved(dmax);
    let count = cover_count(dmin, dmax) as int;
    assert(cover_masses(spawn, dmin, dmax, w) =~= cover_prefix(spawn, dmin, dmax, w, count));
    if dmin < dmax {
        lemma_cover_prefix_total(spawn, dmin, dmax, w, count);
        assert(w * frac(dmax - dmin, dmax - dmin) == w) by (nonlinear_arith)
            requires
                dmax - dmin > 0,
        ;
    } else {
        let s = cover_masses(spawn, dmin, dmax, w);
        assert(s.len() == 1);
        assert(s.drop_last() =~= Seq::<MassView>::empty());
        assert(total(s.drop_last()) == 0real);
        assert(s.last().weight == w * 1real);
        assert(0real + w * 1real * 1real == w) by (nonlinear_arith);
    }
}

/// At a greater rate the entity moves further in each frame, where every
/// displacement of the table is forward.
pub proof fn lemma_frame_ticks_monotone(tbl: Seq<Num>, l: real, r: real, norm: int, t: int)
    requires
        tbl.len() > 0,
        table_forward(tbl),
        l <= r,
    ensures
        frame_ticks(tbl, l, l, norm, t) <= frame_ticks(tbl, l, r, norm, t),
{
    let len = tbl.len() as int;
    let idx = table_index(len, phase(l, norm, t));
    assert(0 <= idx < len) by (nonlinear_arith)
        requires
            idx == trunc(phase(l, norm, t)) % len,
            len > 0,
    ;
    let a = tbl[idx]@;
    let s = frame_shift(tbl, l, norm, t);
    assert(stretch(len) > 0real) by (nonlinear_arith)
        requires
            len > 0,
    ;
    assert(s * l * 16384real <= s * r * 16384real) by (nonlinear_arith)
        requires
            a >= 0real,
            stretch(len) > 0real,
            s == a * stretch(len) * 2real || s == a * stretch(len) * 1real,
            l <= r,
    ;
    lemma_round_monotone(s * l * 16384real, s * r * 16384real);
}

/// At a greater rate the entity moves further.
pub proof fn lemma_moved_monotone(tbl: Seq<Num>, l: real, r: real, norm: int, frames: int)
    requires
        tbl.len() > 0,
        table_forward(tbl),
        l <= r,
    ensures
        moved(tbl, l, l, norm, frames) <= moved(tbl, l, r, norm, frames),
    decreases frames,
{
    if frames > 0 {
        lemma_moved_monotone(tbl, l, r, norm, frames - 1);
        lemma_frame_ticks_monotone(tbl, l, r, norm, frames - 1);
    }
}

proof fn lemma_segment_prefix_total(plan: PlanView, tbl: Seq<Num>, l: real, r: real, upto: int)
    requires
        tbl.len() > 0,
        table_forward(tbl),
        l <= r,
        plan.span() != 0,
        plan.chill_min() - 1 <= upto,
    ensures
        total(segment_masses(plan, tbl, l, r, upto)) == frac(
            multiplier_sum(plan.chill_min(), plan.chill_time_max, upto),
            201,
        ) / plan.span() as real * rate_share(plan.k_min, plan.k_max, l, r),
    decreases upto - plan.chill_min() + 1,
{
    let span = plan.span();
    let share = rate_share(plan.k_min, plan.k_max, l, r);
    if upto < plan.chill_min() {
        assert(frac(0, 201) / span as real * share == 0real) by (nonlinear_arith)
            requires
                span != 0,
        ;
    } else {
        lemma_segment_prefix_total(plan, tbl, l, r, upto - 1);
        lemma_moved_monotone(tbl, l, r, plan.norm_time, plan.norm_time + upto);
        lemma_cover_total(
            plan.spawn.1,
            moved_after(plan, tbl, l, l, upto),
            moved_after(plan, tbl, l, r, upto),
            segment_weight(plan, l, r, upto),
        );
        lemma_total_concat(
            segment_masses(plan, tbl, l, r, upto - 1),
            chill_step_masses(plan, tbl, l, r, upto),
        );
        let a = multiplier_sum(plan.chill_min(), plan.chill_time_max, upto - 1);
        let b = chill_multiplier(upto, plan.chill_min(), plan.chill_time_max);
        assert(frac(a, 201) / span as real * share + frac(b, 201) / span as real * share == frac(
            a + b,
            201,
        ) / span as real * share) by (nonlinear_arith)
            requires
                span != 0,
        ;
    }
}

/// The masses of a segment add up to the share of the segment in the
/// probability of one spawn position.
pub proof fn lemma_segment_total(plan: PlanView, tbl: Seq<Num>, l: real, r: real)
    requires
        tbl.len() > 0,
        table_forward(tbl),
        l <= r,
        plan.span() > 0,
        0 <= plan.chill_time_max,
    ensures
        total(segment_masses(plan, tbl, l, r, plan.chill_time_max)) * plan.span() as real
            == rate_share(plan.k_min, plan.k_max, l, r),
{
    let span = plan.span();
    let share = rate_share(plan.k_min, plan.k_max, l, r);
    lemma_segment_prefix_total(plan, tbl, l, r, plan.chill_time_max);
    lemma_multipliers_total(plan.chill_min(), plan.chill_time_max);
    assert(frac(201, 201) / span as real * share * span as real == share) by (nonlinear_arith)
        requires
            span > 0,
    ;
}

proof fn lemma_animation_prefix_total(plan: PlanView, tbl: Seq<Num>, upto: int)
    requires
        tbl.len() > 0,
        table_forward(tbl),
        segments_ordered(plan),
        plan.span() > 0,
        0 <= plan.chill_time_max,
        0 <= upto < plan.k_segments.len(),
    ensures
        total(animation_masses(plan, tbl, upto)) * plan.span() as real == if plan.k_min
            == plan.k_max {
            upto as real
        } else {
            (plan.k_segments[upto] - plan.k_min) / (plan.k_max - plan.k_min)
        },
    decreases upto,
{
    let span = plan.span() as real;
    if upto == 0 {
        assert(0real * span == 0real) by (nonlinear_arith);
        if plan.k_min != plan.k_max {
            assert((plan.k_min - plan.k_min) / (plan.k_max - plan.k_min) == 0real)
                by (nonlinear_arith)
                requires
                    plan.k_min != plan.k_max,
            ;
        }
    } else {
        let l = plan.k_segments[upto - 1];
        let r = plan.k_segments[upto];
        lemma_animation_prefix_total(plan, tbl, upto - 1);
        lemma_segment_total(plan, tbl, l, r);
        let before = animation_masses(plan, tbl, upto - 1);
        let here = segment_masses(plan, tbl, l, r, plan.chill_time_max);
        lemma_total_concat(before, here);
        let x = total(before);
        let y = total(here);
        assert((x + y) * span == x * span + y * span) by (nonlinear_arith);
        if plan.k_min != plan.k_max {
            assert((l - plan.k_min) / (plan.k_max - plan.k_min) + (r - l) / (plan.k_max
                - plan.k_min) == (r - plan.k_min) / (plan.k_max - plan.k_min))
                by (nonlinear_arith)
                requires
                    plan.k_min != plan.k_max,
            ;
        }
    }
}

/// The masses of an animation add up to the probability of one spawn
/// position: spread over all the spawn positions they add up to 1.
pub proof fn lemma_animation_total(plan: PlanView, tbl: Seq<Num>)
    requires
        tbl.len() > 0,
        table_forward(tbl),
        segments_ordered(plan),
        plan.span() > 0,
        0 <= plan.chill_time_max,
    ensures
        total(animation_masses(plan, tbl, plan.k_segments.len() - 1)) * plan.span() as real
            == 1real,
{
    lemma_animation_prefix_total(plan, tbl, plan.k_segments.len() - 1);
    if plan.k_min != plan.k_max {
        assert((plan.k_max - plan.k_min) / (plan.k_max - plan.k_min) == 1real)
            by (nonlinear_arith)
            requires
                plan.k_min != plan.k_max,
        ;
    }
}

/// The sum of the windows that start at the cells before `upto`.
pub open spec fn windows_total(s: Seq<real>, span: int, upto: int) -> real
    decreases upto,
{
    if upto <= 0 {
        0real
    } else {
        windows_total(s, span, upto - 1) + window_sum(
            s,
            upto - 1,
            window_end(upto - 1, span, s.len() as int),
        )
    }
}

/// The entries of two arrays added up, cell by cell.
spec fn added(a: Seq<real>, b: Seq<real>) -> Seq<real> {
    Seq::new(a.len(), |i: int| a[i] + b[i])
}

/// An array with `w` in the cells from `first` to `last`, and 0 elsewhere.
spec fn row(cells: int, first: int, last: int, w: real) -> Seq<real> {
    Seq::new(
        cells as nat,
        |c: int|
            if first <= c <= last {
                w
            } else {
                0real
            },
    )
}

proof fn lemma_window_added(a: Seq<real>, b: Seq<real>, from: int, upto: int)
    requires
        a.len() == b.len(),
        0 <= from,
        upto <= a.len(),
    ensures
        window_sum(added(a, b), from, upto) == window_sum(a, from, upto) + window_sum(
            b,
            from,
            upto,
        ),
    decreases upto - from,
{
    if upto > from {
        lemma_window_added(a, b, from, upto - 1);
    }
}

proof fn lemma_windows_added(a: Seq<real>, b: Seq<real>, span: int, upto: int)
    requires
        a.len() == b.len(),
        1 <= span,
        0 <= upto <= a.len(),
    ensures
        windows_total(added(a, b), span, upto) == windows_total(a, span, upto) + windows_total(
            b,
            span,
            upto,
        ),
    decreases upto,
{
    if upto > 0 {
        lemma_windows_added(a, b, span, upto - 1);
        lemma_window_added(a, b, upto - 1, window_end(upto - 1, span, a.len() as int));
    }
}

proof fn lemma_window_unit(cells: int, k: int, w: real, from: int, upto: int)
    requires
        0 <= from <= upto <= cells,
    ensures
        window_sum(row(cells, k, k, w), from, upto) == if from <= k < upto {
            w
        } else {
            0real
        },
    decreases upto - from,
{
    if upto > from {
        lemma_window_unit(cells, k, w, from, upto - 1);
    }
}

/// How many of the windows that start before `upto` hold the cell `k`.
spec fn windows_holding(k: int, span: int, upto: int) -> int {
    int_max(0, int_min(upto, k + 1) - int_max(0, k - span + 1))
}

proof fn lemma_windows_unit(cells: int, k: int, w: real, span: int, upto: int)
    requires
        1 <= span,
        0 <= k < cells,
        0 <= upto <= cells,
    ensures
        windows_total(row(cells, k, k, w), span, upto) == w * windows_holding(k, span, upto) as real,
    decreases upto,
{
    let r = row(cells, k, k, w);
    if upto > 0 {
        lemma_windows_unit(cells, k, w, span, upto - 1);
        let c = upto - 1;
        lemma_window_unit(cells, k, w, c, window_end(c, span, cells));
        let before = windows_holding(k, span, upto - 1);
        let after = windows_holding(k, span, upto);
        if c <= k < window_end(c, span, cells) {
            assert(after == before + 1);
            assert(w * before as real + w == w * after as real) by (nonlinear_arith)
                requires
                    after == before + 1,
            ;
        } else {
            assert(after == before);
        }
    } else {
        assert(w * 0real == 0real) by (nonlinear_arith);
    }
}

proof fn lemma_windows_row(cells: int, first: int, last: int, w: real, span: int)
    requires
        1 <= span,
        span - 1 <= first,
        first <= last + 1,
        last < cells,
    ensures
        windows_total(row(cells, first, last, w), span, cells) == w * ((last - first + 1)
            * span) as real,
    decreases last - first + 1,
{
    let count = (last - first + 1) * span;
    if last < first {
        lemma_windows_zero(cells, span, cells);
        assert(row(cells, first, last, w) =~= Seq::new(cells as nat, |c: int| 0real));
        assert(count == 0) by (nonlinear_arith)
            requires
                count == (last - first + 1) * span,
                last - first + 1 == 0,
        ;
        assert(w * 0real == 0real) by (nonlinear_arith);
    } else {
        lemma_windows_row(cells, first, last - 1, w, span);
        lemma_windows_unit(cells, last, w, span, cells);
        let a = row(cells, first, last - 1, w);
        let b = row(cells, last, last, w);
        assert(row(cells, first, last, w) =~= added(a, b));
        lemma_windows_added(a, b, span, cells);
        assert(windows_holding(last, span, cells) == span);
        let before = (last - 1 - first + 1) * span;
        assert(count == before + span) by (nonlinear_arith)
            requires
                count == (last - first + 1) * span,
                before == (last - 1 - first + 1) * span,
        ;
        assert(w * before as real + w * span as real == w * count as real) by (nonlinear_arith)
            requires
                count == before + span,
        ;
    }
}

proof fn lemma_window_zero(cells: int, from: int, upto: int)
    requires
        0 <= from,
        upto <= cells,
    ensures
        window_sum(Seq::new(cells as nat, |c: int| 0real), from, upto) == 0real,
    decreases upto - from,
{
    if upto > from {
        lemma_window_zero(cells, from, upto - 1);
    }
}

proof fn lemma_windows_zero(cells: int, span: int, upto: int)
    requires
        1 <= span,
        0 <= upto <= cells,
    ensures
        windows_total(Seq::new(cells as nat, |c: int| 0real), span, upto) == 0real,
    decreases upto,
{
    if upto > 0 {
        lemma_windows_zero(cells, span, upto - 1);
        lemma_window_zero(cells, upto - 1, window_end(upto - 1, span, cells));
    }
}

/// What the masses add to each of the `cells` cells.
pub open spec fn totals_row(s: Seq<MassView>, cells: int) -> Seq<real> {
    Seq::new(cells as nat, |c: int| cell_total(s, c))
}

/// The probabilities of all the cells of the board add up to the total of
/// the masses times the number of spawn positions, as long as no entity
/// has left the board.
pub proof fn lemma_windows_total(s: Seq<MassView>, span: int, cells: int)
    requires
        1 <= span,
        0 <= cells,
        within_board(s, span, cells),
    ensures
        windows_total(totals_row(s, cells), span, cells) == total(s) * span as real,
    decreases s.len(),
{
    if s.len() == 0 {
        lemma_windows_zero(cells, span, cells);
        assert(totals_row(s, cells) =~= Seq::new(cells as nat, |c: int| 0real));
        assert(0real * span as real == 0real) by (nonlinear_arith);
    } else {
        let m = s.last();
        let rest = s.drop_last();
        lemma_confined_prefix(s, span - 1, cells - 1);
        lemma_windows_total(rest, span, cells);
        lemma_windows_row(cells, m.first, m.last, m.weight, span);
        let a = totals_row(rest, cells);
        let b = row(cells, m.first, m.last, m.weight);
        assert(totals_row(s, cells) =~= added(a, b));
        lemma_windows_added(a, b, span, cells);
        let n = m.last - m.first + 1;
        let count = n * span;
        let x = total(rest);
        let w = m.weight;
        if m.first <= m.last {
            assert(x * span as real + w * count as real == (x + w * n as real) * span as real)
                by (nonlinear_arith)
                requires
                    count == n * span,
            ;
        } else {
            assert(count == 0) by (nonlinear_arith)
                requires
                    count == n * span,
                    n == 0,
            ;
            assert(x * span as real + w * 0real == (x + 0real) * span as real)
                by (nonlinear_arith);
        }
    }
}

/// The sum of an array of window sums is the sum of the windows.
pub proof fn lemma_sum_of_windows(p: Seq<real>, row: Seq<real>, span: int, upto: int)
    requires
        p.len() == row.len(),
        0 <= upto <= p.len(),
        forall|c: int|
            0 <= c < p.len() ==> #[trigger] p[c] == window_sum(
                row,
                c,
                window_end(c, span, row.len() as int),
            ),
    ensures
        running_sum(p, upto - 1) == windows_total(row, span, upto),
    decreases upto,
{
    if upto > 0 {
        lemma_sum_of_windows(p, row, span, upto - 1);
    }
}

} // verus!
