//! The evaluator for entities that move with the frames of an animation.

use crate::common::{table_wf, ZombieData};
use crate::mass::{
    ExactDistribution, is_distribution, lemma_views_concat, Mass, masses_wf, MassView,
    merged_bounds, supported, views,
};
use crate::plan::{animation_plan, animation_ready, plan_fits, plan_spec};
use crate::rational::{frac, lemma_frac_eq, lemma_frac_lt, Num, representable};
use crate::segment::{
    animation_segment, farthest_ticks, nearest_ticks, PlanView, segment_fits, segment_masses,
    segments_ordered, table_forward,
};
use crate::support::{lemma_animation_bounds_ordered, lemma_animation_supported};
use crate::timing::{int_max, int_min};
use crate::totals::lemma_animation_total;
use vstd::prelude::*;

verus! {
/// The masses of the first `upto` segments of the plan.
pub open spec fn animation_masses(plan: PlanView, tbl: Seq<Num>, upto: int) -> Seq<MassView>
    decreases upto,
{
    if upto <= 0 {
        Seq::empty()
    } else {
        animation_masses(plan, tbl, upto - 1) + segment_masses(
            plan,
            tbl,
            plan.k_segments[upto - 1],
            plan.k_segments[upto],
            plan.chill_time_max,
        )
    }
}

/// The least displacement in ticks within the first `upto` segments.
pub open spec fn animation_nearest(plan: PlanView, tbl: Seq<Num>, upto: int) -> int
    decreases upto,
{
    if upto <= 0 {
        16384000
    } else {
        int_min(
            animation_nearest(plan, tbl, upto - 1),
            nearest_ticks(plan, tbl, plan.k_segments[upto - 1], plan.chill_time_max),
        )
    }
}

/// The greatest displacement in ticks within the first `upto` segments.
pub open spec fn animation_farthest(plan: PlanView, tbl: Seq<Num>, upto: int) -> int
    decreases upto,
{
    if upto <= 0 {
        0
    } else {
        int_max(
            animation_farthest(plan, tbl, upto - 1),
            farthest_ticks(
                plan,
                tbl,
                plan.k_segments[upto - 1],
                plan.k_segments[upto],
                plan.chill_time_max,
            ),
        )
    }
}

/// Segment `i` of the plan can be computed in 64 bits.
pub open spec fn segment_at_fits(plan: PlanView, tbl: Seq<Num>, i: int) -> bool {
    segment_fits(plan, tbl, plan.k_segments[i], plan.k_segments[i + 1])
}

/// The least position that the entity can have.
pub open spec fn animation_min(plan: PlanView, tbl: Seq<Num>) -> real {
    plan.spawn.0 as real - frac(animation_farthest(plan, tbl, plan.k_segments.len() - 1), 16384)
}

/// The greatest position that the entity can have.
pub open spec fn animation_max(plan: PlanView, tbl: Seq<Num>) -> real {
    plan.spawn.1 as real - frac(animation_nearest(plan, tbl, plan.k_segments.len() - 1), 16384)
}

/// Every number of the evaluation has a 64-bit form.
pub open spec fn animation_fits(data: ZombieData, ice_time: int, time: int, tbl: Seq<Num>) -> bool {
    let plan = plan_spec(data, ice_time, time, tbl);
    &&& plan_fits(data, ice_time, time, tbl)
    &&& forall|i: int|
        0 <= i < plan.k_segments.len() - 1 ==> #[trigger] segment_at_fits(plan, tbl, i)
    &&& representable(animation_min(plan, tbl))
    &&& representable(animation_max(plan, tbl))
}

/// The bounds of two parts taken together: the lesser of the least
/// displacements and the greater of the greatest.
pub fn merge_bounds(a: (Num, Num), b: (Num, Num)) -> (r: (Num, Num))
    requires
        a.0.wf(),
        a.1.wf(),
        b.0.wf(),
        b.1.wf(),
    ensures
        r.0 == if b.0@ < a.0@ { b.0 } else { a.0 },
        r.1 == if a.1@ < b.1@ { b.1 } else { a.1 },
        (r.0@, r.1@) == merged_bounds((a.0@, a.1@), (b.0@, b.1@)),
        r.0.wf(),
        r.1.wf(),
{
    (a.0.min(b.0), a.1.max(b.1))
}

/// The bounds of no part at all: a least displacement of 1000 cells, a
/// greatest of none.
pub fn empty_bounds() -> (r: (Num, Num))
    ensures
        r.0.wf(),
        r.1.wf(),
        r.0@ == frac(16384000, 16384),
        r.1@ == frac(0, 16384),
        r.0@ == 1000real,
        r.1@ == 0real,
{
    proof {
        assert(frac(16384000, 16384) == 1000real) by (nonlinear_arith);
        assert(frac(0, 16384) == 0real) by (nonlinear_arith);
    }
    (Num::from_integer(1000), Num::from_integer(0))
}

/// The least and the greatest position of entities that start at the
/// cells from `spawn.0` to `spawn.1` and move by the displacements from
/// `bounds.0` to `bounds.1`: the first spawn position less the greatest
/// displacement, and the last less the least.
pub fn positions_of(spawn: (i64, i64), bounds: (Num, Num)) -> (r: Option<(Num, Num)>)
    requires
        bounds.0.wf(),
        bounds.1.wf(),
    ensures
        r is Some <==> representable(spawn.0 as real - bounds.1@) && representable(
            spawn.1 as real - bounds.0@,
        ),
        r matches Some(p) ==> {
            &&& p.0.wf()
            &&& p.1.wf()
            &&& p.0@ == spawn.0 as real - bounds.1@
            &&& p.1@ == spawn.1 as real - bounds.0@
        },
{
    let first = Num::from_integer(spawn.0);
    let last = Num::from_integer(spawn.1);
    let min = first.checked_sub(&bounds.1)?;
    let max = last.checked_sub(&bounds.0)?;
    Some((min, max))
}

proof fn lemma_ticks_order(x: int, y: int)
    ensures
        frac(x, 16384) < frac(y, 16384) <==> x < y,
        frac(x, 16384) == frac(y, 16384) <==> x == y,
{
    lemma_frac_lt(x, 16384, y, 16384);
    lemma_frac_eq(x, 16384, y, 16384);
}

/// The distribution of an entity that moves with the frames of the table
/// `animation`, observed at `time` after a slow effect at `ice_time`: the
/// masses of the segments of its plan, one segment after the other.
///
/// The result is `None` exactly if some number of the evaluation has no
/// 64-bit form.
pub fn calculate_animation(
    data: &ZombieData,
    ice_time: i64,
    time: i64,
    animation: &Vec<Num>,
) -> (r: Option<ExactDistribution>)
    requires
        animation_ready(*data, ice_time as int, time as int, animation@),
    ensures
        r is Some <==> animation_fits(*data, ice_time as int, time as int, animation@),
        r matches Some(d) ==> {
            let plan = plan_spec(*data, ice_time as int, time as int, animation@);
            &&& d.wf()
            &&& views(d.masses@) == animation_masses(plan, animation@, plan.k_segments.len() - 1)
            &&& d.min@ == animation_min(plan, animation@)
            &&& d.max@ == animation_max(plan, animation@)
            &&& segments_ordered(plan)
            &&& supported(views(d.masses@), plan.span(), d.min@, d.max@)
            &&& table_forward(animation@) ==> is_distribution(
                views(d.masses@),
                d.min@,
                d.max@,
                plan.span(),
            ) && d.max@ <= data.spawn.1 as real
        },
{
    let plan = animation_plan(data, ice_time, time, animation)?;
    let count = plan.k_segments.len() - 1;
    let mut masses: Vec<Mass> = Vec::new();
    let mut bounds = empty_bounds();
    let mut i: usize = 0;
    proof {
        assert(views(masses@) =~= animation_masses(plan@, animation@, 0));
    }
    while i < count
        invariant
            plan.wf(),
            plan@ == plan_spec(*data, ice_time as int, time as int, animation@),
            table_wf(animation@),
            0 < animation@.len() < i64::MAX,
            count == plan.k_segments@.len() - 1,
            plan@.k_segments.len() == plan.k_segments@.len(),
            0 <= i <= count,
            masses_wf(masses@),
            views(masses@) == animation_masses(plan@, animation@, i as int),
            bounds.0.wf(),
            bounds.1.wf(),
            bounds.0@ == frac(animation_nearest(plan@, animation@, i as int), 16384),
            bounds.1@ == frac(animation_farthest(plan@, animation@, i as int), 16384),
            forall|j: int| 0 <= j < i ==> #[trigger] segment_at_fits(plan@, animation@, j),
        decreases count - i,
    {
        let l = &plan.k_segments[i];
        let r = &plan.k_segments[i + 1];
        assert(plan@.k_segments[i as int] == l@);
        assert(plan@.k_segments[i + 1] == r@);
        let mut segment = match animation_segment(&plan, animation, l, r) {
            Some(segment) => segment,
            None => {
                assert(!segment_at_fits(plan@, animation@, i as int));
                return None;
            },
        };
        assert(segment_at_fits(plan@, animation@, i as int));
        proof {
            lemma_views_concat(masses@, segment.masses@);
            lemma_ticks_order(
                nearest_ticks(plan@, animation@, l@, plan@.chill_time_max),
                animation_nearest(plan@, animation@, i as int),
            );
            lemma_ticks_order(
                animation_farthest(plan@, animation@, i as int),
                farthest_ticks(plan@, animation@, l@, r@, plan@.chill_time_max),
            );
        }
        masses.append(&mut segment.masses);
        bounds = merge_bounds(bounds, (segment.dx_min, segment.dx_max));
        i += 1;
    }
    let (min, max) = positions_of(data.spawn, bounds)?;
    proof {
        lemma_animation_supported(plan@, animation@);
        if table_forward(animation@) {
            lemma_animation_total(plan@, animation@);
            lemma_animation_bounds_ordered(plan@, animation@);
        }
    }
    Some(ExactDistribution { masses: masses, min: min, max: max })
}

} // verus!
