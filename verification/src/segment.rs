//! One segment of rates of an animation.
//!
//! Between two neighbouring fractions of small denominator the frames
//! that the entity shows do not depend on the rate, so its displacement is
//! linear in the rate there: one walk through the frames at each end of
//! such a segment gives the displacements of the whole segment.

use crate::common::table_wf;
use crate::constant::TICKS;
use crate::cover::{cover, cover_fits, cover_masses};
use crate::fractions::values;
use crate::mass::{lemma_views_concat, Mass, masses_wf, MassView, views};
use crate::rational::{frac, Num, representable};
use crate::timing::{chill_floor, chill_time_min, chill_weight, chill_weight_of, int_max, int_min};
use crate::walk::{MAX_TIME, moved, walk, walk_fits, walk_ready};
use vstd::prelude::*;

verus! {
/// A displacement of 1000 cells, in ticks: more than the board is wide.
pub const FAR_AWAY: i64 = 16384000;

/// What is fixed for all the segments of one evaluation.
pub struct AnimationPlan {
    /// The number of frames at normal speed.
    pub norm_time: i64,
    /// The greatest number of slowed frames.
    pub chill_time_max: i64,
    /// The rate at the least speed.
    pub k_min: Num,
    /// The rate at the greatest speed.
    pub k_max: Num,
    /// The ends of the segments, ascending from `k_min` to `k_max`.
    pub k_segments: Vec<Num>,
    /// The first and the last spawn position.
    pub spawn: (i64, i64),
}

/// A plan as its numbers.
pub struct PlanView {
    pub norm_time: int,
    pub chill_time_max: int,
    pub k_min: real,
    pub k_max: real,
    pub k_segments: Seq<real>,
    pub spawn: (int, int),
}

impl PlanView {
    /// The number of spawn positions.
    pub open spec fn span(&self) -> int {
        self.spawn.1 - self.spawn.0 + 1
    }

    /// The least number of slowed frames.
    pub open spec fn chill_min(&self) -> int {
        chill_floor(false, self.chill_time_max)
    }
}

impl View for AnimationPlan {
    type V = PlanView;

    open spec fn view(&self) -> PlanView {
        PlanView {
            norm_time: self.norm_time as int,
            chill_time_max: self.chill_time_max as int,
            k_min: self.k_min@,
            k_max: self.k_max@,
            k_segments: values(self.k_segments@),
            spawn: (self.spawn.0 as int, self.spawn.1 as int),
        }
    }
}

impl AnimationPlan {
    /// The plan holds numbers in lowest terms, rates that are not negative,
    /// times that can be walked and a range of spawn positions.
    pub open spec fn wf(&self) -> bool {
        &&& 0 <= self.norm_time
        &&& 0 <= self.chill_time_max <= 1999
        &&& self.norm_time + self.chill_time_max <= MAX_TIME
        &&& self.k_min.wf()
        &&& self.k_max.wf()
        &&& table_wf(self.k_segments@)
        &&& forall|i: int| 0 <= i < self.k_segments@.len() ==> 0real <= (#[trigger] self.k_segments@[i])@
        &&& self.spawn.0 <= self.spawn.1
        &&& self.spawn.1 - self.spawn.0 < i64::MAX
    }
}

/// The plan's segments run in ascending order from its least to its
/// greatest rate, and there is a single one where the two are the same.
pub open spec fn segments_ordered(plan: PlanView) -> bool {
    &&& plan.k_segments.len() >= 2
    &&& plan.k_segments[0] == plan.k_min
    &&& plan.k_segments[plan.k_segments.len() - 1] == plan.k_max
    &&& forall|i: int, j: int|
        0 <= i <= j < plan.k_segments.len() ==> #[trigger] plan.k_segments[i]
            <= #[trigger] plan.k_segments[j]
    &&& plan.k_min == plan.k_max ==> plan.k_segments.len() == 2
}

/// Every displacement of the table is forward.
pub open spec fn table_forward(tbl: Seq<Num>) -> bool {
    forall|i: int| 0 <= i < tbl.len() ==> 0real <= (#[trigger] tbl[i])@
}

/// The share of the segment from `l` to `r` in the rates from `k_min` to
/// `k_max`; where there is one rate only, its segment has it all.
pub open spec fn rate_share(k_min: real, k_max: real, l: real, r: real) -> real {
    if k_min == k_max {
        1real
    } else {
        (r - l) / (k_max - k_min)
    }
}

/// The share of the segment can be computed in 64 bits.
pub open spec fn rate_share_fits(k_min: real, k_max: real, l: real, r: real) -> bool {
    k_min != k_max ==> {
        &&& representable(r - l)
        &&& representable(k_max - k_min)
        &&& representable((r - l) / (k_max - k_min))
    }
}

/// The probability of one spawn position, `chill` slowed frames and a rate
/// within the segment.
pub open spec fn segment_weight(plan: PlanView, l: real, r: real, chill: int) -> real {
    chill_weight(chill, plan.chill_min(), plan.chill_time_max, plan.span()) * rate_share(
        plan.k_min,
        plan.k_max,
        l,
        r,
    )
}

/// The displacement at the rate `k` after `chill` slowed frames, in ticks.
pub open spec fn moved_after(plan: PlanView, tbl: Seq<Num>, l: real, k: real, chill: int) -> int {
    moved(tbl, l, k, plan.norm_time, plan.norm_time + chill)
}

/// The masses of the segment for `chill` slowed frames.
pub open spec fn chill_step_masses(
    plan: PlanView,
    tbl: Seq<Num>,
    l: real,
    r: real,
    chill: int,
) -> Seq<MassView> {
    cover_masses(
        plan.spawn.1,
        moved_after(plan, tbl, l, l, chill),
        moved_after(plan, tbl, l, r, chill),
        segment_weight(plan, l, r, chill),
    )
}

/// The masses for `chill` slowed frames can be computed in 64 bits.
pub open spec fn chill_step_fits(
    plan: PlanView,
    tbl: Seq<Num>,
    l: real,
    r: real,
    chill: int,
) -> bool {
    &&& representable(
        chill_weight(chill, plan.chill_min(), plan.chill_time_max, plan.span()),
    )
    &&& representable(segment_weight(plan, l, r, chill))
    &&& cover_fits(
        plan.spawn.1,
        moved_after(plan, tbl, l, l, chill),
        moved_after(plan, tbl, l, r, chill),
        segment_weight(plan, l, r, chill),
    )
}

/// The masses of the segment for the numbers of slowed frames up to `upto`.
pub open spec fn segment_masses(
    plan: PlanView,
    tbl: Seq<Num>,
    l: real,
    r: real,
    upto: int,
) -> Seq<MassView>
    decreases upto - plan.chill_min() + 1,
{
    if upto < plan.chill_min() {
        Seq::empty()
    } else {
        segment_masses(plan, tbl, l, r, upto - 1) + chill_step_masses(plan, tbl, l, r, upto)
    }
}

/// The least displacement of the segment in ticks, for the numbers of
/// slowed frames up to `upto`; 1000 cells where there is none.
pub open spec fn nearest_ticks(plan: PlanView, tbl: Seq<Num>, l: real, upto: int) -> int
    decreases upto - plan.chill_min() + 1,
{
    if upto < plan.chill_min() {
        16384000
    } else {
        int_min(nearest_ticks(plan, tbl, l, upto - 1), moved_after(plan, tbl, l, l, upto))
    }
}

/// The greatest displacement of the segment in ticks, for the numbers of
/// slowed frames up to `upto`; 0 where there is none.
pub open spec fn farthest_ticks(
    plan: PlanView,
    tbl: Seq<Num>,
    l: real,
    r: real,
    upto: int,
) -> int
    decreases upto - plan.chill_min() + 1,
{
    if upto < plan.chill_min() {
        0
    } else {
        int_max(farthest_ticks(plan, tbl, l, r, upto - 1), moved_after(plan, tbl, l, r, upto))
    }
}

/// Every number of the segment has a 64-bit form.
pub open spec fn segment_fits(plan: PlanView, tbl: Seq<Num>, l: real, r: real) -> bool {
    &&& rate_share_fits(plan.k_min, plan.k_max, l, r)
    &&& walk_fits(tbl, l, r, plan.norm_time, 0, plan.norm_time + plan.chill_time_max)
    &&& forall|c: int|
        plan.chill_min() <= c <= plan.chill_time_max ==> #[trigger] chill_step_fits(
            plan,
            tbl,
            l,
            r,
            c,
        )
}

/// What one segment adds: its masses, and the least and the greatest
/// displacement in cells.
pub struct Segment {
    pub masses: Vec<Mass>,
    pub dx_min: Num,
    pub dx_max: Num,
}

/// The share of the segment from `l` to `r` in the rates of the plan.
fn rate_share_of(k_min: &Num, k_max: &Num, l: &Num, r: &Num) -> (s: Option<Num>)
    requires
        k_min.wf(),
        k_max.wf(),
        l.wf(),
        r.wf(),
    ensures
        s is Some <==> rate_share_fits(k_min@, k_max@, l@, r@),
        s matches Some(q) ==> q.wf() && q@ == rate_share(k_min@, k_max@, l@, r@),
{
    if k_min.equals(k_max) {
        return Some(Num::from_integer(1));
    }
    let width = r.checked_sub(l)?;
    let whole = k_max.checked_sub(k_min)?;
    width.checked_div(&whole)
}

/// The masses of the segment for `chill` slowed frames, after which the
/// entity has moved by `state` at the two ends of the segment.
fn chill_step(plan: &AnimationPlan, share: &Num, state: (i64, i64), chill: i64) -> (m: Option<
    Vec<Mass>,
>)
    requires
        plan.wf(),
        share.wf(),
        plan@.chill_min() <= chill <= plan@.chill_time_max,
    ensures
        m is Some <==> {
            let base = chill_weight(
                chill as int,
                plan@.chill_min(),
                plan@.chill_time_max,
                plan@.span(),
            );
            &&& representable(base)
            &&& representable(base * share@)
            &&& cover_fits(plan@.spawn.1, state.0 as int, state.1 as int, base * share@)
        },
        m matches Some(v) ==> masses_wf(v@) && views(v@) == cover_masses(
            plan@.spawn.1,
            state.0 as int,
            state.1 as int,
            chill_weight(chill as int, plan@.chill_min(), plan@.chill_time_max, plan@.span())
                * share@,
        ),
{
    let chill_min = chill_time_min(false, plan.chill_time_max);
    let span = plan.spawn.1 - plan.spawn.0 + 1;
    let base = chill_weight_of(chill, chill_min, plan.chill_time_max, span)?;
    let w = base.checked_mul(share)?;
    cover(plan.spawn.1, state.0, state.1, &w)
}

/// The masses and the displacements of the segment of rates from `l` to
/// `r`: for each number of slowed frames, the even spread between the
/// displacements at the two ends.
///
/// The result is `None` exactly if some number of the segment has no
/// 64-bit form.
pub fn animation_segment(plan: &AnimationPlan, animation: &Vec<Num>, l: &Num, r: &Num) -> (m:
    Option<Segment>)
    requires
        plan.wf(),
        table_wf(animation@),
        0 < animation@.len() < i64::MAX,
        l.wf(),
        r.wf(),
        0real <= l@,
    ensures
        m is Some <==> segment_fits(plan@, animation@, l@, r@),
        m matches Some(s) ==> {
            &&& masses_wf(s.masses@)
            &&& s.dx_min.wf()
            &&& s.dx_max.wf()
            &&& views(s.masses@) == segment_masses(
                plan@,
                animation@,
                l@,
                r@,
                plan@.chill_time_max,
            )
            &&& s.dx_min@ == frac(
                nearest_ticks(plan@, animation@, l@, plan@.chill_time_max),
                16384,
            )
            &&& s.dx_max@ == frac(
                farthest_ticks(plan@, animation@, l@, r@, plan@.chill_time_max),
                16384,
            )
        },
{
    let len = animation.len() as i64;
    let factor = Num::new(len + 1, len);
    let share = rate_share_of(&plan.k_min, &plan.k_max, l, r)?;
    let norm = plan.norm_time;
    let chill_max = plan.chill_time_max;
    let chill_min = chill_time_min(false, chill_max);
    let mut state = walk(animation, &factor, l, r, norm, 0, norm + chill_min, (0, 0))?;
    let mut masses = match chill_step(plan, &share, state, chill_min) {
        Some(masses) => masses,
        None => {
            assert(!chill_step_fits(plan@, animation@, l@, r@, chill_min as int));
            return None;
        },
    };
    assert(chill_step_fits(plan@, animation@, l@, r@, chill_min as int));
    let mut nearest: i64 = if state.0 < FAR_AWAY {
        state.0
    } else {
        FAR_AWAY
    };
    let mut farthest: i64 = if state.1 > 0 {
        state.1
    } else {
        0
    };
    let mut chill = chill_min;
    proof {
        assert(nearest_ticks(plan@, animation@, l@, chill - 1) == 16384000);
        assert(farthest_ticks(plan@, animation@, l@, r@, chill - 1) == 0);
        assert(segment_masses(plan@, animation@, l@, r@, chill - 1) =~= Seq::empty());
        assert(views(masses@) =~= segment_masses(plan@, animation@, l@, r@, chill as int));
    }
    while chill < chill_max
        invariant
            plan.wf(),
            walk_ready(animation@, factor, *l, *r, norm as int),
            norm == plan@.norm_time,
            chill_max == plan@.chill_time_max,
            chill_min == plan@.chill_min(),
            share.wf(),
            share@ == rate_share(plan@.k_min, plan@.k_max, l@, r@),
            rate_share_fits(plan@.k_min, plan@.k_max, l@, r@),
            chill_min <= chill <= chill_max,
            state.0 == moved_after(plan@, animation@, l@, l@, chill as int),
            state.1 == moved_after(plan@, animation@, l@, r@, chill as int),
            walk_fits(animation@, l@, r@, norm as int, 0, norm + chill),
            forall|c: int|
                chill_min <= c <= chill ==> #[trigger] chill_step_fits(
                    plan@,
                    animation@,
                    l@,
                    r@,
                    c,
                ),
            masses_wf(masses@),
            views(masses@) == segment_masses(plan@, animation@, l@, r@, chill as int),
            nearest == nearest_ticks(plan@, animation@, l@, chill as int),
            farthest == farthest_ticks(plan@, animation@, l@, r@, chill as int),
        decreases chill_max - chill,
    {
        state = match walk(animation, &factor, l, r, norm, norm + chill, norm + chill + 1, state) {
            Some(state) => state,
            None => {
                return None;
            },
        };
        chill += 1;
        let mut step = match chill_step(plan, &share, state, chill) {
            Some(step) => step,
            None => {
                assert(!chill_step_fits(plan@, animation@, l@, r@, chill as int));
                return None;
            },
        };
        assert(chill_step_fits(plan@, animation@, l@, r@, chill as int));
        proof {
            lemma_views_concat(masses@, step@);
        }
        masses.append(&mut step);
        if state.0 < nearest {
            nearest = state.0;
        }
        if state.1 > farthest {
            farthest = state.1;
        }
    }
    Some(
        Segment {
            masses: masses,
            dx_min: Num::new(nearest, TICKS),
            dx_max: Num::new(farthest, TICKS),
        },
    )
}

} // verus!
