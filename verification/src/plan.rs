//! The plan of the evaluation of an animation: its two phases, its rates
//! and the segments between them.

use crate::common::{table_wf, ZombieData};
use crate::fractions::{
    fraction_between, in_scaled_range, is_inner_fraction, scaled_in_range, segmentation, values,
};
use crate::rational::{frac, Num, representable};
use crate::segment::{AnimationPlan, PlanView, segments_ordered};
use crate::timing::{calc_time, lemma_timing_split_bounds, timing_split};
use crate::walk::MAX_TIME;
use vstd::prelude::*;

verus! {
/// The sum of the first `upto` numbers of the table.
pub open spec fn table_sum(tbl: Seq<Num>, upto: int) -> real
    decreases upto,
{
    if upto <= 0 {
        0real
    } else {
        table_sum(tbl, upto - 1) + tbl[upto - 1]@
    }
}

/// The displacement of one cycle of the table.
pub open spec fn cycle_length(tbl: Seq<Num>) -> real {
    table_sum(tbl, tbl.len() as int)
}

/// The rate per unit of speed: 47 hundredths of the number of frames of
/// the table, for each unit of displacement of its cycle.
pub open spec fn speed_scale(tbl: Seq<Num>) -> real {
    frac(47, 100) * tbl.len() as real / cycle_length(tbl)
}

/// The rate of slowed movement at `speed`.
pub open spec fn rate_of(speed: real, tbl: Seq<Num>) -> real {
    speed * speed_scale(tbl) / 2real
}

/// The greatest denominator of the rates at which the frames shown change:
/// the number of times that the rate is added to the phase. Without slowed
/// frames the phase only ever advances by twice the rate.
pub open spec fn rate_bound(norm: int, chill_max: int) -> int {
    if chill_max != 0 {
        2 * norm + chill_max
    } else {
        norm
    }
}

/// The ends of the segments of the rates from `k_min` to `k_max`.
pub open spec fn rate_segments(k_min: real, k_max: real, norm: int, chill_max: int) -> Seq<real> {
    if chill_max != 0 {
        segmentation(2 * norm + chill_max, k_min, k_max)
    } else {
        let doubled = segmentation(norm, k_min * 2real, k_max * 2real);
        Seq::new(doubled.len(), |i: int| doubled[i] / 2real)
    }
}

/// The plan of the evaluation of `data` with the table `tbl`.
pub open spec fn plan_spec(data: ZombieData, ice_time: int, time: int, tbl: Seq<Num>) -> PlanView {
    let (norm, chill_max) = timing_split(data.freeze_immune, data.chill_immune, ice_time, time);
    let k_min = rate_of(data.speed.0@, tbl);
    let k_max = rate_of(data.speed.1@, tbl);
    PlanView {
        norm_time: norm,
        chill_time_max: chill_max,
        k_min: k_min,
        k_max: k_max,
        k_segments: rate_segments(k_min, k_max, norm, chill_max),
        spawn: (data.spawn.0 as int, data.spawn.1 as int),
    }
}

/// The rate at `speed` can be computed in 64 bits.
pub open spec fn rate_fits(speed: real, tbl: Seq<Num>) -> bool {
    &&& representable(speed * speed_scale(tbl))
    &&& representable(rate_of(speed, tbl))
}

/// Every number of the plan has a 64-bit form.
pub open spec fn plan_fits(data: ZombieData, ice_time: int, time: int, tbl: Seq<Num>) -> bool {
    let (norm, chill_max) = timing_split(data.freeze_immune, data.chill_immune, ice_time, time);
    let k_min = rate_of(data.speed.0@, tbl);
    let k_max = rate_of(data.speed.1@, tbl);
    &&& table_sums_fit(tbl)
    &&& representable(frac(47, 100) * tbl.len() as real)
    &&& representable(speed_scale(tbl))
    &&& rate_fits(data.speed.0@, tbl)
    &&& rate_fits(data.speed.1@, tbl)
    &&& chill_max != 0 && rate_bound(norm, chill_max) >= 1 ==> {
        &&& scaled_in_range(k_min, rate_bound(norm, chill_max))
        &&& scaled_in_range(k_max, rate_bound(norm, chill_max))
    }
    &&& chill_max == 0 ==> {
        &&& representable(k_min * 2real)
        &&& representable(k_max * 2real)
        &&& norm >= 1 ==> scaled_in_range(k_min * 2real, norm) && scaled_in_range(
            k_max * 2real,
            norm,
        )
    }
}

/// What an evaluation asks of its input: a record with an ordered range of
/// spawn positions and of speeds that are not negative, times that are not
/// negative, and a table whose cycle moves the entity forward.
pub open spec fn animation_ready(data: ZombieData, ice_time: int, time: int, tbl: Seq<Num>) -> bool {
    &&& data.wf()
    &&& table_wf(tbl)
    &&& 0 < tbl.len() < i64::MAX
    &&& 0 <= ice_time
    &&& 0 <= time <= MAX_TIME
    &&& data.spawn.0 <= data.spawn.1
    &&& data.spawn.1 - data.spawn.0 < i64::MAX
    &&& 0real <= data.speed.0@ <= data.speed.1@
    &&& cycle_length(tbl) > 0real
}

/// The sums of the table, number by number, have 64-bit forms.
pub open spec fn table_sums_fit(tbl: Seq<Num>) -> bool {
    forall|i: int| 0 <= i <= tbl.len() ==> representable(#[trigger] table_sum(tbl, i))
}

/// The displacement of one cycle of the table, if the sums of the table
/// have 64-bit forms.
pub fn sum_table(tbl: &Vec<Num>) -> (r: Option<Num>)
    requires
        table_wf(tbl@),
    ensures
        r is Some <==> table_sums_fit(tbl@),
        r matches Some(q) ==> q.wf() && q@ == cycle_length(tbl@),
{
    let mut total = Num::from_integer(0);
    let mut i: usize = 0;
    proof {
        total.lemma_representable();
    }
    while i < tbl.len()
        invariant
            table_wf(tbl@),
            0 <= i <= tbl@.len(),
            total.wf(),
            total@ == table_sum(tbl@, i as int),
            forall|j: int| 0 <= j <= i ==> representable(#[trigger] table_sum(tbl@, j)),
        decreases tbl@.len() - i,
    {
        total = match total.checked_add(&tbl[i]) {
            Some(t) => t,
            None => {
                assert(!representable(table_sum(tbl@, i + 1)));
                return None;
            },
        };
        i += 1;
    }
    Some(total)
}

/// The rate of slowed movement at `speed`.
fn rate_at(speed: &Num, scale: &Num) -> (r: Option<Num>)
    requires
        speed.wf(),
        scale.wf(),
    ensures
        r is Some <==> representable(speed@ * scale@) && representable(speed@ * scale@ / 2real),
        r matches Some(q) ==> q.wf() && q@ == speed@ * scale@ / 2real,
{
    let two = Num::from_integer(2);
    let scaled = speed.checked_mul(scale)?;
    scaled.checked_div(&two)
}

/// The half of each number.
fn halved(v: &Vec<Num>, bound: i64, low: &Num, high: &Num) -> (r: Vec<Num>)
    requires
        table_wf(v@),
        v@.len() >= 2,
        low.wf(),
        high.wf(),
        v@[0]@ == low@ * 2real,
        v@[v@.len() - 1]@ == high@ * 2real,
        forall|k: int| 1 <= k < v@.len() - 1 ==> 1 <= (#[trigger] v@[k]).denom <= bound,
        bound <= MAX_TIME,
    ensures
        table_wf(r@),
        r@.len() == v@.len(),
        forall|i: int| 0 <= i < r@.len() ==> (#[trigger] r@[i])@ == v@[i]@ / 2real,
{
    let two = Num::from_integer(2);
    let mut out: Vec<Num> = Vec::new();
    let mut i: usize = 0;
    while i < v.len()
        invariant
            table_wf(v@),
            v@.len() >= 2,
            low.wf(),
            high.wf(),
            v@[0]@ == low@ * 2real,
            v@[v@.len() - 1]@ == high@ * 2real,
            forall|k: int| 1 <= k < v@.len() - 1 ==> 1 <= (#[trigger] v@[k]).denom <= bound,
            bound <= MAX_TIME,
            two.wf(),
            two@ == 2real,
            0 <= i <= v@.len(),
            table_wf(out@),
            out@.len() == i,
            forall|j: int| 0 <= j < i ==> (#[trigger] out@[j])@ == v@[j]@ / 2real,
        decreases v@.len() - i,
    {
        let x = v[i];
        proof {
            if i == 0 {
                low.lemma_representable();
            } else if i == v@.len() - 1 {
                high.lemma_representable();
            } else {
                assert(x@ / 2real == frac(x.numer as int, 2 * x.denom)) by (nonlinear_arith)
                    requires
                        x@ == frac(x.numer as int, x.denom as int),
                        x.denom >= 1,
                ;
            }
        }
        let h = x.checked_div(&two).unwrap();
        out.push(h);
        i += 1;
    }
    out
}

/// The plan of the evaluation of `data` with the table `animation`: the
/// two phases, the rates at the least and at the greatest speed, and the
/// ends of the segments between them.
///
/// The result is `None` exactly if some number of the plan has no 64-bit
/// form.
pub fn animation_plan(data: &ZombieData, ice_time: i64, time: i64, animation: &Vec<Num>) -> (r:
    Option<AnimationPlan>)
    requires
        animation_ready(*data, ice_time as int, time as int, animation@),
    ensures
        r is Some <==> plan_fits(*data, ice_time as int, time as int, animation@),
        r matches Some(p) ==> p.wf() && p@ == plan_spec(
            *data,
            ice_time as int,
            time as int,
            animation@,
        ) && segments_ordered(p@),
{
    let len = animation.len() as i64;
    let total = sum_table(animation)?;
    let base = Num::new(47, 100);
    let count = Num::from_integer(len);
    let frames = base.checked_mul(&count)?;
    let scale = frames.checked_div(&total)?;
    let k_min = rate_at(&data.speed.0, &scale)?;
    let k_max = rate_at(&data.speed.1, &scale)?;
    proof {
        let c = cycle_length(animation@);
        let s = speed_scale(animation@);
        assert(s > 0real) by (nonlinear_arith)
            requires
                s == frac(47, 100) * len as real / c,
                c > 0real,
                len > 0,
        ;
        assert(0real <= k_min@ <= k_max@) by (nonlinear_arith)
            requires
                s > 0real,
                0real <= data.speed.0@ <= data.speed.1@,
                k_min@ == data.speed.0@ * s / 2real,
                k_max@ == data.speed.1@ * s / 2real,
        ;
        lemma_timing_split_bounds(
            data.freeze_immune,
            data.chill_immune,
            ice_time as int,
            time as int,
        );
    }
    let (norm_time, chill_time_max) = calc_time(data, ice_time, time);
    let k_segments = if chill_time_max != 0 {
        let n = norm_time * 2 + chill_time_max;
        if !in_scaled_range(&k_min, n) || !in_scaled_range(&k_max, n) {
            return None;
        }
        let direct = fraction_between(n, k_min, k_max);
        proof {
            if direct@.len() > 2 {
                assert(is_inner_fraction(direct@[1]@, n as int, k_min@, k_max@));
            }
        }
        direct
    } else {
        let two = Num::from_integer(2);
        let low = k_min.checked_mul(&two)?;
        let high = k_max.checked_mul(&two)?;
        proof {
            assert(low@ <= high@);
        }
        if norm_time >= 1 && (!in_scaled_range(&low, norm_time) || !in_scaled_range(
            &high,
            norm_time,
        )) {
            return None;
        }
        let doubled = fraction_between(norm_time, low, high);
        let r = halved(&doubled, norm_time, &k_min, &k_max);
        proof {
            if doubled@.len() > 2 {
                assert(is_inner_fraction(doubled@[1]@, norm_time as int, low@, high@));
            }
            assert forall|i: int, j: int| 0 <= i <= j < r@.len() implies (#[trigger] r@[i])@ <= (
            #[trigger] r@[j])@ by {
                if i < j {
                    assert(doubled@[i]@ <= doubled@[j]@);
                }
            }
            assert(values(r@) =~= rate_segments(
                k_min@,
                k_max@,
                norm_time as int,
                chill_time_max as int,
            ));
            assert forall|i: int| 0 <= i < r@.len() implies 0real <= (#[trigger] r@[i])@ by {
                if i > 0 {
                    assert(doubled@[0]@ <= doubled@[i]@);
                }
            }
        }
        r
    };
    proof {
        assert forall|i: int| 0 <= i < k_segments@.len() implies 0real <= (
        #[trigger] k_segments@[i])@ by {
            if chill_time_max != 0 && i > 0 {
                assert(k_segments@[0]@ <= k_segments@[i]@);
            }
        }
        let ks = values(k_segments@);
        assert forall|i: int, j: int| 0 <= i <= j < ks.len() implies #[trigger] ks[i]
            <= #[trigger] ks[j] by {
            if i < j {
                assert(k_segments@[i]@ <= k_segments@[j]@);
            }
        }
    }
    Some(
        AnimationPlan {
            norm_time: norm_time,
            chill_time_max: chill_time_max,
            k_min: k_min,
            k_max: k_max,
            k_segments: k_segments,
            spawn: data.spawn,
        },
    )
}

} // verus!
