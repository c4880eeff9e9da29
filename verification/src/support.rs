//! The bounds of an evaluation hold all its masses.

use crate::animation::{
    animation_farthest, animation_masses, animation_max, animation_min, animation_nearest,
};
use crate::common::ZombieData;
use crate::constant::{
    cell_of, constant_masses, constant_max, constant_min, lemma_cell_monotone, lemma_round_monotone,
    lemma_to_ticks_monotone, lemma_travelled_monotone, slowed, spread_masses, to_ticks, travelled,
};
use crate::cover::{cells_moved, cover_masses};
use crate::histogram::{window_end, window_sum};
use crate::mass::{
    cell_total, confined, lemma_confined_concat, lemma_confined_prefix, lemma_widen, MassView,
    supported,
};
use crate::rational::{ceil, frac, lemma_frac_floor, lemma_frac_neg, Num, round_half_away, trunc};
use crate::segment::{
    chill_step_masses, farthest_ticks, moved_after, nearest_ticks, PlanView, segment_masses,
    segments_ordered, table_forward,
};
use crate::timing::chill_weight;
use crate::totals::{lemma_moved_monotone, totals_row};
use crate::walk::{frame_shift, frame_ticks, moved, phase, stretch, table_index};
use vstd::prelude::*;

verus! {

proof fn lemma_position_cells(spawn: int, ticks: int)
    ensures
        (spawn as real - frac(ticks, 16384)).floor() == spawn - cells_moved(ticks),
        ceil(spawn as real - frac(ticks, 16384)) == spawn - frac(ticks, 16384).floor(),
        cells_moved(ticks) >= frac(ticks, 16384).floor(),
        cell_of(spawn, ticks) == spawn - cells_moved(ticks),
{
    lemma_frac_neg(ticks, 16384);
    lemma_frac_floor(-ticks, 16384);
    lemma_frac_floor(ticks, 16384);
    assert(spawn as real - frac(ticks, 16384) == frac(16384 * spawn - ticks, 16384))
        by (nonlinear_arith);
    lemma_frac_floor(16384 * spawn - ticks, 16384);
    assert(-(spawn as real - frac(ticks, 16384)) == frac(ticks - 16384 * spawn, 16384))
        by (nonlinear_arith);
    lemma_frac_floor(ticks - 16384 * spawn, 16384);
}

proof fn lemma_cells_moved_monotone(a: int, b: int)
    requires
        a <= b,
    ensures
        cells_moved(a) <= cells_moved(b),
        frac(a, 16384).floor() <= frac(b, 16384).floor(),
{
    lemma_frac_neg(a, 16384);
    lemma_frac_floor(-a, 16384);
    lemma_frac_neg(b, 16384);
    lemma_frac_floor(-b, 16384);
    lemma_frac_floor(a, 16384);
    lemma_frac_floor(b, 16384);
}

proof fn lemma_nearest_bound(plan: PlanView, tbl: Seq<Num>, l: real, upto: int, c: int)
    requires
        plan.chill_min() <= c <= upto,
    ensures
        nearest_ticks(plan, tbl, l, upto) <= moved_after(plan, tbl, l, l, c),
    decreases upto - plan.chill_min() + 1,
{
    if c < upto {
        lemma_nearest_bound(plan, tbl, l, upto - 1, c);
    }
}

proof fn lemma_farthest_bound(plan: PlanView, tbl: Seq<Num>, l: real, r: real, upto: int, c: int)
    requires
        plan.chill_min() <= c <= upto,
    ensures
        farthest_ticks(plan, tbl, l, r, upto) >= moved_after(plan, tbl, l, r, c),
    decreases upto - plan.chill_min() + 1,
{
    if c < upto {
        lemma_farthest_bound(plan, tbl, l, r, upto - 1, c);
    }
}

proof fn lemma_cover_confined(spawn: int, dmin: int, dmax: int, w: real)
    ensures
        confined(
            cover_masses(spawn, dmin, dmax, w),
            spawn - cells_moved(dmax),
            spawn - cells_moved(dmin),
        ),
{
}

proof fn lemma_segment_confined(
    plan: PlanView,
    tbl: Seq<Num>,
    l: real,
    r: real,
    upto: int,
    near: int,
    far: int,
)
    requires
        plan.chill_min() - 1 <= upto <= plan.chill_time_max,
        near <= nearest_ticks(plan, tbl, l, plan.chill_time_max),
        farthest_ticks(plan, tbl, l, r, plan.chill_time_max) <= far,
    ensures
        confined(
            segment_masses(plan, tbl, l, r, upto),
            plan.spawn.1 - cells_moved(far),
            plan.spawn.1 - cells_moved(near),
        ),
    decreases upto - plan.chill_min() + 1,
{
    if upto >= plan.chill_min() {
        lemma_segment_confined(plan, tbl, l, r, upto - 1, near, far);
        let dmin = moved_after(plan, tbl, l, l, upto);
        let dmax = moved_after(plan, tbl, l, r, upto);
        lemma_nearest_bound(plan, tbl, l, plan.chill_time_max, upto);
        lemma_farthest_bound(plan, tbl, l, r, plan.chill_time_max, upto);
        lemma_cells_moved_monotone(near, dmin);
        lemma_cells_moved_monotone(dmax, far);
        let step = chill_step_masses(plan, tbl, l, r, upto);
        lemma_cover_confined(plan.spawn.1, dmin, dmax, step[0].weight);
        lemma_widen(
            step,
            plan.spawn.1 - cells_moved(dmax),
            plan.spawn.1 - cells_moved(dmin),
            plan.spawn.1 - cells_moved(far),
            plan.spawn.1 - cells_moved(near),
        );
        lemma_confined_concat(
            segment_masses(plan, tbl, l, r, upto - 1),
            step,
            plan.spawn.1 - cells_moved(far),
            plan.spawn.1 - cells_moved(near),
        );
    }
}

proof fn lemma_animation_bounds(plan: PlanView, tbl: Seq<Num>, upto: int, i: int)
    requires
        0 <= i < upto,
    ensures
        animation_nearest(plan, tbl, upto) <= nearest_ticks(
            plan,
            tbl,
            plan.k_segments[i],
            plan.chill_time_max,
        ),
        animation_farthest(plan, tbl, upto) >= farthest_ticks(
            plan,
            tbl,
            plan.k_segments[i],
            plan.k_segments[i + 1],
            plan.chill_time_max,
        ),
    decreases upto,
{
    if i < upto - 1 {
        lemma_animation_bounds(plan, tbl, upto - 1, i);
    }
}

proof fn lemma_animation_confined(plan: PlanView, tbl: Seq<Num>, upto: int, all: int)
    requires
        0 <= upto <= all,
        0 <= plan.chill_time_max,
    ensures
        confined(
            animation_masses(plan, tbl, upto),
            plan.spawn.1 - cells_moved(animation_farthest(plan, tbl, all)),
            plan.spawn.1 - cells_moved(animation_nearest(plan, tbl, all)),
        ),
    decreases upto,
{
    if upto > 0 {
        lemma_animation_confined(plan, tbl, upto - 1, all);
        lemma_animation_bounds(plan, tbl, all, upto - 1);
        let near = animation_nearest(plan, tbl, all);
        let far = animation_farthest(plan, tbl, all);
        lemma_segment_confined(
            plan,
            tbl,
            plan.k_segments[upto - 1],
            plan.k_segments[upto],
            plan.chill_time_max,
            near,
            far,
        );
        lemma_confined_concat(
            animation_masses(plan, tbl, upto - 1),
            segment_masses(
                plan,
                tbl,
                plan.k_segments[upto - 1],
                plan.k_segments[upto],
                plan.chill_time_max,
            ),
            plan.spawn.1 - cells_moved(far),
            plan.spawn.1 - cells_moved(near),
        );
    }
}

/// The bounds of an animation hold its masses.
pub proof fn lemma_animation_supported(plan: PlanView, tbl: Seq<Num>)
    requires
        plan.k_segments.len() >= 1,
        0 <= plan.chill_time_max,
    ensures
        supported(
            animation_masses(plan, tbl, plan.k_segments.len() - 1),
            plan.span(),
            animation_min(plan, tbl),
            animation_max(plan, tbl),
        ),
{
    let n = plan.k_segments.len() - 1;
    let near = animation_nearest(plan, tbl, n);
    let far = animation_farthest(plan, tbl, n);
    lemma_animation_confined(plan, tbl, n, n);
    lemma_position_cells(plan.spawn.0, far);
    lemma_position_cells(plan.spawn.1, near);
    lemma_widen(
        animation_masses(plan, tbl, n),
        plan.spawn.1 - cells_moved(far),
        plan.spawn.1 - cells_moved(near),
        animation_min(plan, tbl).floor() + plan.span() - 1,
        ceil(animation_max(plan, tbl)),
    );
}

proof fn lemma_moved_forward(tbl: Seq<Num>, l: real, r: real, norm: int, frames: int)
    requires
        tbl.len() > 0,
        table_forward(tbl),
        0real <= l <= r,
    ensures
        0 <= moved(tbl, l, l, norm, frames) <= moved(tbl, l, r, norm, frames),
    decreases frames,
{
    lemma_moved_monotone(tbl, l, r, norm, frames);
    if frames > 0 {
        lemma_moved_forward(tbl, l, r, norm, frames - 1);
        lemma_frame_forward(tbl, l, norm, frames - 1);
    }
}

proof fn lemma_frame_forward(tbl: Seq<Num>, l: real, norm: int, t: int)
    requires
        tbl.len() > 0,
        table_forward(tbl),
        0real <= l,
    ensures
        0 <= frame_ticks(tbl, l, l, norm, t),
{
    let len = tbl.len() as int;
    let idx = table_index(len, phase(l, norm, t));
    assert(0 <= idx < len) by (nonlinear_arith)
        requires
            idx == trunc(phase(l, norm, t)) % len,
            len > 0,
    ;
    let a = tbl[idx]@;
    let s = frame_shift(tbl, l, norm, t);
    assert(stretch(len) > 0real) by (nonlinear_arith)
        requires
            len > 0,
    ;
    assert(0real <= s * l * 16384real) by (nonlinear_arith)
        requires
            a >= 0real,
            stretch(len) > 0real,
            s == a * stretch(len) * 2real || s == a * stretch(len) * 1real,
            0real <= l,
    ;
    lemma_round_monotone(0real, s * l * 16384real);
    assert(round_half_away(0real) == 0) by (nonlinear_arith);
}

proof fn lemma_segment_range(plan: PlanView, tbl: Seq<Num>, l: real, r: real, upto: int)
    requires
        tbl.len() > 0,
        table_forward(tbl),
        0real <= l <= r,
        plan.chill_min() - 1 <= upto,
    ensures
        0 <= nearest_ticks(plan, tbl, l, upto),
        upto >= plan.chill_min() ==> nearest_ticks(plan, tbl, l, upto) <= farthest_ticks(
            plan,
            tbl,
            l,
            r,
            upto,
        ),
    decreases upto - plan.chill_min() + 1,
{
    if upto >= plan.chill_min() {
        lemma_segment_range(plan, tbl, l, r, upto - 1);
        lemma_moved_forward(tbl, l, r, plan.norm_time, plan.norm_time + upto);
    }
}

proof fn lemma_animation_range(plan: PlanView, tbl: Seq<Num>, upto: int)
    requires
        tbl.len() > 0,
        table_forward(tbl),
        segments_ordered(plan),
        0real <= plan.k_min,
        0 <= plan.chill_time_max,
        0 <= upto < plan.k_segments.len(),
    ensures
        0 <= animation_nearest(plan, tbl, upto),
        upto >= 1 ==> animation_nearest(plan, tbl, upto) <= animation_farthest(plan, tbl, upto),
    decreases upto,
{
    if upto > 0 {
        lemma_animation_range(plan, tbl, upto - 1);
        let l = plan.k_segments[upto - 1];
        let r = plan.k_segments[upto];
        assert(plan.k_segments[0] <= l);
        assert(l <= r);
        lemma_segment_range(plan, tbl, l, r, plan.chill_time_max);
    }
}

/// The bounds of an animation whose displacements are all forward are in
/// order, and the greatest position is not above the last spawn position.
pub proof fn lemma_animation_bounds_ordered(plan: PlanView, tbl: Seq<Num>)
    requires
        tbl.len() > 0,
        table_forward(tbl),
        segments_ordered(plan),
        0real <= plan.k_min,
        0 <= plan.chill_time_max,
        plan.spawn.0 <= plan.spawn.1,
    ensures
        animation_min(plan, tbl) <= animation_max(plan, tbl) <= plan.spawn.1 as real,
{
    let n = plan.k_segments.len() - 1;
    lemma_animation_range(plan, tbl, n);
    let near = animation_nearest(plan, tbl, n);
    let far = animation_farthest(plan, tbl, n);
    assert(plan.spawn.0 as real - frac(far, 16384) <= plan.spawn.1 as real - frac(near, 16384)
        <= plan.spawn.1 as real) by (nonlinear_arith)
        requires
            0 <= near <= far,
            plan.spawn.0 <= plan.spawn.1,
    ;
}

proof fn lemma_spread_confined(spawn: int, p: int, q: int, w: real)
    requires
        p <= q,
    ensures
        confined(spread_masses(spawn, p, q, w), cell_of(spawn, q), cell_of(spawn, p)),
{
    lemma_cell_monotone(spawn, p, q);
}

proof fn lemma_travelled_grows(speed: real, norm: int, c: int, d: int)
    requires
        0real <= speed,
        c <= d,
    ensures
        travelled(speed, norm, c) <= travelled(speed, norm, d),
{
    lemma_to_ticks_monotone(0real, speed);
    assert(to_ticks(slowed(0real)) == 0) by (nonlinear_arith);
    let a = to_ticks(slowed(speed));
    assert(a * c <= a * d) by (nonlinear_arith)
        requires
            0 <= a,
            c <= d,
    ;
}

proof fn lemma_constant_confined(
    data: ZombieData,
    norm: int,
    chill_min: int,
    chill_max: int,
    upto: int,
)
    requires
        0real <= data.speed.0@ <= data.speed.1@,
        0 <= norm,
        0 <= chill_min,
        chill_min - 1 <= upto <= chill_max,
    ensures
        confined(
            constant_masses(data, norm, chill_min, chill_max, upto),
            cell_of(data.spawn.1 as int, travelled(data.speed.1@, norm, chill_max)),
            cell_of(data.spawn.1 as int, travelled(data.speed.0@, norm, chill_min)),
        ),
    decreases upto - chill_min + 1,
{
    if upto >= chill_min {
        lemma_constant_confined(data, norm, chill_min, chill_max, upto - 1);
        let spawn = data.spawn.1 as int;
        let p = travelled(data.speed.0@, norm, upto);
        let q = travelled(data.speed.1@, norm, upto);
        let w = chill_weight(upto, chill_min, chill_max, data.spawn_span());
        lemma_travelled_monotone(data.speed.0@, data.speed.1@, norm, upto);
        lemma_spread_confined(spawn, p, q, w);
        lemma_travelled_grows(data.speed.1@, norm, upto, chill_max);
        lemma_travelled_grows(data.speed.0@, norm, chill_min, upto);
        lemma_cell_monotone(spawn, q, travelled(data.speed.1@, norm, chill_max));
        lemma_cell_monotone(spawn, travelled(data.speed.0@, norm, chill_min), p);
        lemma_widen(
            spread_masses(spawn, p, q, w),
            cell_of(spawn, q),
            cell_of(spawn, p),
            cell_of(spawn, travelled(data.speed.1@, norm, chill_max)),
            cell_of(spawn, travelled(data.speed.0@, norm, chill_min)),
        );
        lemma_confined_concat(
            constant_masses(data, norm, chill_min, chill_max, upto - 1),
            spread_masses(spawn, p, q, w),
            cell_of(spawn, travelled(data.speed.1@, norm, chill_max)),
            cell_of(spawn, travelled(data.speed.0@, norm, chill_min)),
        );
    }
}

/// The bounds of an entity that draws its speed anew for every frame hold
/// its masses and are in order, and the greatest position is not above the
/// last spawn position.
pub proof fn lemma_constant_supported(data: ZombieData, norm: int, chill_min: int, chill_max: int)
    requires
        0real <= data.speed.0@ <= data.speed.1@,
        data.spawn.0 <= data.spawn.1,
        0 <= norm,
        0 <= chill_min <= chill_max,
    ensures
        supported(
            constant_masses(data, norm, chill_min, chill_max, chill_max),
            data.spawn_span(),
            constant_min(data, norm, chill_max),
            constant_max(data, norm, chill_min),
        ),
        constant_min(data, norm, chill_max) <= constant_max(data, norm, chill_min)
            <= data.spawn.1 as real,
{
    let far = travelled(data.speed.1@, norm, chill_max);
    let near = travelled(data.speed.0@, norm, chill_min);
    lemma_constant_confined(data, norm, chill_min, chill_max, chill_max);
    lemma_position_cells(data.spawn.0 as int, far);
    lemma_position_cells(data.spawn.1 as int, near);
    lemma_position_cells(data.spawn.1 as int, far);
    lemma_widen(
        constant_masses(data, norm, chill_min, chill_max, chill_max),
        cell_of(data.spawn.1 as int, far),
        cell_of(data.spawn.1 as int, near),
        constant_min(data, norm, chill_max).floor() + data.spawn_span() - 1,
        ceil(constant_max(data, norm, chill_min)),
    );
    lemma_travelled_grows(data.speed.0@, norm, chill_min, chill_max);
    lemma_travelled_monotone(data.speed.0@, data.speed.1@, norm, chill_max);
    lemma_travelled_grows(data.speed.0@, norm, 0, chill_min);
    lemma_to_ticks_monotone(0real, data.speed.0@);
    assert(to_ticks(0real) == 0) by (nonlinear_arith);
    assert(to_ticks(slowed(0real)) == 0) by (nonlinear_arith);
    let a = to_ticks(data.speed.0@);
    let b = to_ticks(slowed(data.speed.0@));
    assert(0 <= a * norm + b * chill_min) by (nonlinear_arith)
        requires
            0 <= a,
            0 <= b,
            0 <= norm,
            0 <= chill_min,
    ;
    assert(data.spawn.0 as real - frac(far, 16384) <= data.spawn.1 as real - frac(near, 16384)
        <= data.spawn.1 as real) by (nonlinear_arith)
        requires
            0 <= near <= far,
            data.spawn.0 <= data.spawn.1,
    ;
}

/// A cell below or above all the masses gets nothing.
proof fn lemma_cell_total_outside(s: Seq<MassView>, low: int, high: int, cell: int)
    requires
        confined(s, low, high),
        cell < low || high < cell,
    ensures
        cell_total(s, cell) == 0real,
    decreases s.len(),
{
    if s.len() > 0 {
        lemma_confined_prefix(s, low, high);
        lemma_cell_total_outside(s.drop_last(), low, high, cell);
        assert(s.last() == s[s.len() - 1]);
    }
}

proof fn lemma_window_outside(
    s: Seq<MassView>,
    cells: int,
    low: int,
    high: int,
    from: int,
    upto: int,
)
    requires
        confined(s, low, high),
        0 <= from,
        upto <= cells,
        upto <= low || high < from,
    ensures
        window_sum(totals_row(s, cells), from, upto) == 0real,
    decreases upto - from,
{
    if upto > from {
        lemma_window_outside(s, cells, low, high, from, upto - 1);
        lemma_cell_total_outside(s, low, high, upto - 1);
    }
}

/// A cell below the cell of the least position or above the cell after
/// the greatest position has no probability.
pub proof fn lemma_nothing_outside(
    s: Seq<MassView>,
    span: int,
    cells: int,
    min: real,
    max: real,
    cell: int,
)
    requires
        supported(s, span, min, max),
        1 <= span,
        0 <= cell < cells,
        cell < min.floor() || ceil(max) < cell,
    ensures
        window_sum(totals_row(s, cells), cell, window_end(cell, span, cells)) == 0real,
{
    lemma_window_outside(
        s,
        cells,
        min.floor() + span - 1,
        ceil(max),
        cell,
        window_end(cell, span, cells),
    );
}

} // verus!
