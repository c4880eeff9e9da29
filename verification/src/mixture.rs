//! The evaluators for entities whose movement is a mixture of animations.

use crate::animation::{
    animation_fits, animation_masses, animation_max, animation_min, calculate_animation,
};
use crate::common::{MovementType, ZombieData};
use crate::mass::{
    cell_total, confined, ExactDistribution, is_distribution, lemma_cell_total_concat,
    lemma_confined_concat, lemma_supported_wider, lemma_total_concat, lemma_views_concat, Mass,
    masses_wf, MassView, supported, total, views,
};
use crate::plan::{animation_ready, plan_spec};
use crate::rational::{ceil, frac, Num, representable};
use crate::segment::table_forward;
use crate::timing::{calc_time, int_max, int_min, lemma_timing_split_bounds, timing_split};
use vstd::prelude::*;

verus! {

/// The masses with each weight multiplied by `factor`.
pub open spec fn scaled(s: Seq<MassView>, factor: real) -> Seq<MassView> {
    Seq::new(
        s.len(),
        |i: int| MassView { first: s[i].first, last: s[i].last, weight: s[i].weight * factor },
    )
}

/// Each weight multiplied by `factor` has a 64-bit form.
pub open spec fn scaled_fits(s: Seq<MassView>, factor: real) -> bool {
    forall|i: int| 0 <= i < s.len() ==> representable(#[trigger] s[i].weight * factor)
}

/// What scaled masses add to a cell is the scaled sum of what the masses
/// add to it.
pub proof fn lemma_scaled_cell_total(s: Seq<MassView>, factor: real, cell: int)
    ensures
        cell_total(scaled(s, factor), cell) == cell_total(s, cell) * factor,
    decreases s.len(),
{
    if s.len() == 0 {
        assert(0real * factor == 0real) by (nonlinear_arith);
    } else {
        assert(scaled(s, factor).drop_last() =~= scaled(s.drop_last(), factor));
        lemma_scaled_cell_total(s.drop_last(), factor, cell);
        let rest = cell_total(s.drop_last(), cell);
        let w = s.last().weight;
        assert((rest + w) * factor == rest * factor + w * factor) by (nonlinear_arith);
        assert((rest + 0real) * factor == rest * factor + 0real) by (nonlinear_arith);
    }
}

/// The total of scaled masses is the scaled total of the masses.
pub proof fn lemma_scaled_total(s: Seq<MassView>, factor: real)
    ensures
        total(scaled(s, factor)) == total(s) * factor,
    decreases s.len(),
{
    if s.len() == 0 {
        assert(0real * factor == 0real) by (nonlinear_arith);
    } else {
        assert(scaled(s, factor).drop_last() =~= scaled(s.drop_last(), factor));
        lemma_scaled_total(s.drop_last(), factor);
        let rest = total(s.drop_last());
        let m = s.last();
        let n = (m.last - m.first + 1) as real;
        assert((rest + m.weight * n) * factor == rest * factor + m.weight * factor * n)
            by (nonlinear_arith);
        assert((rest + 0real) * factor == rest * factor + 0real) by (nonlinear_arith);
    }
}

/// Scaled masses lie where the masses lie.
pub proof fn lemma_scaled_confined(s: Seq<MassView>, factor: real, low: int, high: int)
    requires
        confined(s, low, high),
    ensures
        confined(scaled(s, factor), low, high),
{
    assert forall|i: int| 0 <= i < scaled(s, factor).len() implies low <= (#[trigger] scaled(
        s,
        factor,
    )[i]).first <= scaled(s, factor)[i].last + 1 <= high + 1 by {
        assert(scaled(s, factor)[i].first == s[i].first);
        assert(scaled(s, factor)[i].last == s[i].last);
    }
}

/// The masses with each weight multiplied by `factor`.
pub fn scale_masses(masses: &Vec<Mass>, factor: &Num) -> (r: Option<Vec<Mass>>)
    requires
        masses_wf(masses@),
        factor.wf(),
    ensures
        r is Some <==> scaled_fits(views(masses@), factor@),
        r matches Some(v) ==> masses_wf(v@) && views(v@) == scaled(views(masses@), factor@),
{
    let mut out: Vec<Mass> = Vec::new();
    let mut i: usize = 0;
    while i < masses.len()
        invariant
            masses_wf(masses@),
            factor.wf(),
            0 <= i <= masses@.len(),
            masses_wf(out@),
            out@.len() == i,
            forall|j: int|
                0 <= j < i ==> (#[trigger] out@[j])@ == (MassView {
                    first: masses@[j].first as int,
                    last: masses@[j].last as int,
                    weight: masses@[j].weight@ * factor@,
                }),
            forall|j: int|
                0 <= j < i ==> representable(#[trigger] views(masses@)[j].weight * factor@),
        decreases masses@.len() - i,
    {
        let m = &masses[i];
        assert(views(masses@)[i as int].weight == m.weight@);
        let w = m.weight.checked_mul(factor)?;
        out.push(Mass { first: m.first, last: m.last, weight: w });
        i += 1;
    }
    proof {
        assert(views(out@) =~= scaled(views(masses@), factor@));
    }
    Some(out)
}

/// The masses of the evaluation of `data` with the table `tbl`.
pub open spec fn animation_result(data: ZombieData, ice_time: int, time: int, tbl: Seq<Num>) -> Seq<
    MassView,
> {
    let plan = plan_spec(data, ice_time, time, tbl);
    animation_masses(plan, tbl, plan.k_segments.len() - 1)
}

/// The least position of the evaluation of `data` with the table `tbl`.
pub open spec fn animation_low(data: ZombieData, ice_time: int, time: int, tbl: Seq<Num>) -> real {
    animation_min(plan_spec(data, ice_time, time, tbl), tbl)
}

/// The greatest position of the evaluation of `data` with the table `tbl`.
pub open spec fn animation_high(data: ZombieData, ice_time: int, time: int, tbl: Seq<Num>) -> real {
    animation_max(plan_spec(data, ice_time, time, tbl), tbl)
}

/// The two tables of an entity that alternates between two animations.
pub open spec fn regular_tables(data: ZombieData) -> (Seq<Num>, Seq<Num>) {
    match data.movement_type {
        MovementType::Regular(a, b) => (a@, b@),
        _ => (Seq::empty(), Seq::empty()),
    }
}

/// The masses of an entity that moves with either of two animations, each
/// with probability one half.
pub open spec fn regular_masses(data: ZombieData, ice_time: int, time: int) -> Seq<MassView> {
    let (a, b) = regular_tables(data);
    scaled(animation_result(data, ice_time, time, a), half_weight()) + scaled(
        animation_result(data, ice_time, time, b),
        half_weight(),
    )
}

/// One half.
pub open spec fn half_weight() -> real {
    frac(1, 2)
}

/// Every number of the evaluation has a 64-bit form.
pub open spec fn regular_fits(data: ZombieData, ice_time: int, time: int) -> bool {
    let (a, b) = regular_tables(data);
    &&& animation_fits(data, ice_time, time, a)
    &&& animation_fits(data, ice_time, time, b)
    &&& scaled_fits(animation_result(data, ice_time, time, a), half_weight())
    &&& scaled_fits(animation_result(data, ice_time, time, b), half_weight())
}

/// What the mixture adds to a cell is the average of what the two
/// animations add to it.
pub proof fn lemma_regular_average(data: ZombieData, ice_time: int, time: int, cell: int)
    ensures
        ({
            let (a, b) = regular_tables(data);
            cell_total(regular_masses(data, ice_time, time), cell) == (cell_total(
                animation_result(data, ice_time, time, a),
                cell,
            ) + cell_total(animation_result(data, ice_time, time, b), cell)) / 2real
        }),
{
    let (a, b) = regular_tables(data);
    let ma = animation_result(data, ice_time, time, a);
    let mb = animation_result(data, ice_time, time, b);
    lemma_scaled_cell_total(ma, half_weight(), cell);
    lemma_scaled_cell_total(mb, half_weight(), cell);
    lemma_cell_total_concat(scaled(ma, half_weight()), scaled(mb, half_weight()), cell);
    let x = cell_total(ma, cell);
    let y = cell_total(mb, cell);
    assert(x * frac(1, 2) + y * frac(1, 2) == (x + y) / 2real) by (nonlinear_arith);
}

/// The distribution of an entity that moves with either of two
/// animations: the masses of each at half their weight, and the bounds of
/// both.
///
/// The result is `None` exactly if some number of the evaluation has no
/// 64-bit form.
pub fn calculate_regular(data: &ZombieData, ice_time: i64, time: i64) -> (r: Option<
    ExactDistribution,
>)
    requires
        data.movement_type is Regular,
        animation_ready(*data, ice_time as int, time as int, regular_tables(*data).0),
        animation_ready(*data, ice_time as int, time as int, regular_tables(*data).1),
    ensures
        r is Some <==> regular_fits(*data, ice_time as int, time as int),
        r matches Some(d) ==> {
            let (a, b) = regular_tables(*data);
            let low_a = animation_low(*data, ice_time as int, time as int, a);
            let low_b = animation_low(*data, ice_time as int, time as int, b);
            let high_a = animation_high(*data, ice_time as int, time as int, a);
            let high_b = animation_high(*data, ice_time as int, time as int, b);
            &&& d.wf()
            &&& views(d.masses@) == regular_masses(*data, ice_time as int, time as int)
            &&& d.min@ == if low_b < low_a { low_b } else { low_a }
            &&& d.max@ == if high_a < high_b { high_b } else { high_a }
            &&& supported(views(d.masses@), data.spawn_span(), d.min@, d.max@)
            &&& table_forward(a) && table_forward(b) ==> is_distribution(
                views(d.masses@),
                d.min@,
                d.max@,
                data.spawn_span(),
            ) && d.max@ <= data.spawn.1 as real
        },
{
    match &data.movement_type {
        MovementType::Regular(anim_a, anim_b) => {
            let dist_a = calculate_animation(data, ice_time, time, anim_a)?;
            let dist_b = calculate_animation(data, ice_time, time, anim_b)?;
            let half = Num::new(1, 2);
            let mut masses = scale_masses(&dist_a.masses, &half)?;
            let mut second = scale_masses(&dist_b.masses, &half)?;
            let min = dist_a.min.min(dist_b.min);
            let max = dist_a.max.max(dist_b.max);
            proof {
                let span = data.spawn_span();
                let first = views(masses@);
                let other = views(second@);
                lemma_views_concat(masses@, second@);
                lemma_scaled_confined(
                    views(dist_a.masses@),
                    half@,
                    dist_a.min@.floor() + span - 1,
                    ceil(dist_a.max@),
                );
                lemma_scaled_confined(
                    views(dist_b.masses@),
                    half@,
                    dist_b.min@.floor() + span - 1,
                    ceil(dist_b.max@),
                );
                lemma_supported_wider(first, span, dist_a.min@, dist_a.max@, min@, max@);
                lemma_supported_wider(other, span, dist_b.min@, dist_b.max@, min@, max@);
                lemma_confined_concat(first, other, min@.floor() + span - 1, ceil(max@));
                lemma_scaled_total(views(dist_a.masses@), half@);
                lemma_scaled_total(views(dist_b.masses@), half@);
                lemma_total_concat(first, other);
                let x = total(views(dist_a.masses@));
                let y = total(views(dist_b.masses@));
                assert((x * frac(1, 2) + y * frac(1, 2)) * span as real == (x * span as real + y
                    * span as real) / 2real) by (nonlinear_arith);
            }
            masses.append(&mut second);
            Some(ExactDistribution { masses: masses, min: min, max: max })
        },
        _ => None,
    }
}

/// The shortest time at normal speed from which on a dancing entity is
/// evaluated as a mixture.
pub const DANCE_FROM: i64 = 299;

/// The longest time at normal speed of the mixture.
pub const DANCE_UPTO: i64 = 310;

/// The table of a dancing entity.
pub open spec fn dancing_table(data: ZombieData) -> Seq<Num> {
    match data.movement_type {
        MovementType::Dancing(t) => t@,
        _ => Seq::empty(),
    }
}

/// The last time at normal speed of the mixture.
pub open spec fn dancing_last(norm_time: int) -> int {
    int_min(norm_time, 310)
}

/// How many twelfths of the mixture the time `norm` at normal speed has:
/// one, and the last time also those of the times that are cut off.
pub open spec fn dancing_multiplier(norm: int, norm_time: int) -> int {
    if norm == dancing_last(norm_time) {
        int_max(311 - norm_time, 1)
    } else {
        1
    }
}

/// The last time at normal speed of the mixture.
pub fn dancing_last_of(norm_time: i64) -> (last: i64)
    ensures
        last == dancing_last(norm_time as int),
{
    if norm_time < DANCE_UPTO {
        norm_time
    } else {
        DANCE_UPTO
    }
}

/// How many twelfths of the mixture the time `norm` at normal speed has.
pub fn dancing_multiplier_of(norm: i64, norm_time: i64) -> (m: i64)
    requires
        299 <= norm_time,
    ensures
        m == dancing_multiplier(norm as int, norm_time as int),
        1 <= m <= 12,
{
    if norm == dancing_last_of(norm_time) && norm_time < DANCE_UPTO {
        DANCE_UPTO + 1 - norm_time
    } else {
        1
    }
}

/// The multipliers of the times from 299 to `upto`.
pub open spec fn dancing_multiplier_sum(norm_time: int, upto: int) -> int
    decreases upto - 298,
{
    if upto < 299 {
        0
    } else {
        dancing_multiplier_sum(norm_time, upto - 1) + dancing_multiplier(upto, norm_time)
    }
}

proof fn lemma_dancing_multiplier_prefix(norm_time: int, upto: int)
    requires
        298 <= upto < dancing_last(norm_time),
    ensures
        dancing_multiplier_sum(norm_time, upto) == upto - 298,
    decreases upto - 298,
{
    if upto >= 299 {
        lemma_dancing_multiplier_prefix(norm_time, upto - 1);
    }
}

/// The multipliers of the mixture add up to twelve.
pub proof fn lemma_dancing_multipliers_total(norm_time: int)
    requires
        299 <= norm_time,
    ensures
        dancing_multiplier_sum(norm_time, dancing_last(norm_time)) == 12,
{
    lemma_dancing_multiplier_prefix(norm_time, dancing_last(norm_time) - 1);
}

/// The weight of the time `norm` at normal speed in the mixture.
pub open spec fn dancing_weight(norm: int, norm_time: int) -> real {
    frac(dancing_multiplier(norm, norm_time), 12)
}

/// The masses of the time `norm` at normal speed, at their weight in the
/// mixture.
pub open spec fn dancing_part(data: ZombieData, norm_time: int, norm: int) -> Seq<MassView> {
    scaled(
        animation_result(data, 0, norm, dancing_table(data)),
        dancing_weight(norm, norm_time),
    )
}

/// The part of the time `norm` can be computed in 64 bits.
pub open spec fn dancing_part_fits(data: ZombieData, norm_time: int, norm: int) -> bool {
    &&& animation_fits(data, 0, norm, dancing_table(data))
    &&& scaled_fits(
        animation_result(data, 0, norm, dancing_table(data)),
        dancing_weight(norm, norm_time),
    )
}

/// The masses of the times at normal speed from 299 to `upto`.
pub open spec fn dancing_masses(data: ZombieData, norm_time: int, upto: int) -> Seq<MassView>
    decreases upto - 298,
{
    if upto < 299 {
        Seq::empty()
    } else {
        dancing_masses(data, norm_time, upto - 1) + dancing_part(data, norm_time, upto)
    }
}

/// The least position of the times from 299 to `upto`; 1000 where there
/// is none.
pub open spec fn dancing_low(data: ZombieData, upto: int) -> real
    decreases upto - 298,
{
    if upto < 299 {
        1000real
    } else {
        let before = dancing_low(data, upto - 1);
        let here = animation_low(data, 0, upto, dancing_table(data));
        if here < before {
            here
        } else {
            before
        }
    }
}

/// The greatest position of the times from 299 to `upto`; 0 where there is
/// none.
pub open spec fn dancing_high(data: ZombieData, upto: int) -> real
    decreases upto - 298,
{
    if upto < 299 {
        0real
    } else {
        let before = dancing_high(data, upto - 1);
        let here = animation_high(data, 0, upto, dancing_table(data));
        if before < here {
            here
        } else {
            before
        }
    }
}

/// The time at normal speed of `data`.
pub open spec fn normal_time(data: ZombieData, ice_time: int, time: int) -> int {
    timing_split(data.freeze_immune, data.chill_immune, ice_time, time).0
}

/// Every number of the evaluation has a 64-bit form.
pub open spec fn dancing_fits(data: ZombieData, ice_time: int, time: int) -> bool {
    let norm_time = normal_time(data, ice_time, time);
    if norm_time < 299 {
        animation_fits(data, 0, norm_time, dancing_table(data))
    } else {
        forall|norm: int|
            299 <= norm <= dancing_last(norm_time) ==> #[trigger] dancing_part_fits(
                data,
                norm_time,
                norm,
            )
    }
}

/// The distribution of a dancing entity. Its slowed phase does not count:
/// it is evaluated as an animation over its time at normal speed, and from
/// 299 on as the mixture of the animations over the times from 299 to 310,
/// each at one twelfth and the last with the twelfths of the times that are
/// cut off.
///
/// The result is `None` exactly if some number of the evaluation has no
/// 64-bit form.
pub fn calculate_dancing(data: &ZombieData, ice_time: i64, time: i64) -> (r: Option<
    ExactDistribution,
>)
    requires
        data.movement_type is Dancing,
        animation_ready(*data, ice_time as int, time as int, dancing_table(*data)),
    ensures
        r is Some <==> dancing_fits(*data, ice_time as int, time as int),
        r matches Some(d) ==> {
            let norm_time = normal_time(*data, ice_time as int, time as int);
            let tbl = dancing_table(*data);
            &&& d.wf()
            &&& norm_time < 299 ==> {
                &&& views(d.masses@) == animation_result(*data, 0, norm_time, tbl)
                &&& d.min@ == animation_low(*data, 0, norm_time, tbl)
                &&& d.max@ == animation_high(*data, 0, norm_time, tbl)
            }
            &&& norm_time >= 299 ==> {
                &&& views(d.masses@) == dancing_masses(
                    *data,
                    norm_time,
                    dancing_last(norm_time),
                )
                &&& d.min@ == dancing_low(*data, dancing_last(norm_time))
                &&& d.max@ == dancing_high(*data, dancing_last(norm_time))
            }
            &&& supported(views(d.masses@), data.spawn_span(), d.min@, d.max@)
            &&& table_forward(tbl) ==> is_distribution(
                views(d.masses@),
                d.min@,
                d.max@,
                data.spawn_span(),
            )
            &&& table_forward(tbl) && 0 <= data.spawn.1 ==> d.max@ <= data.spawn.1 as real
        },
{
    let table = match &data.movement_type {
        MovementType::Dancing(table) => table,
        _ => {
            return None;
        },
    };
    proof {
        lemma_timing_split_bounds(
            data.freeze_immune,
            data.chill_immune,
            ice_time as int,
            time as int,
        );
    }
    let (norm_time, _) = calc_time(data, ice_time, time);
    if norm_time < DANCE_FROM {
        return calculate_animation(data, 0, norm_time, table);
    }
    let last = dancing_last_of(norm_time);
    let mut masses: Vec<Mass> = Vec::new();
    let mut min = Num::from_integer(1000);
    let mut max = Num::from_integer(0);
    let mut norm = DANCE_FROM;
    proof {
        assert(views(masses@) =~= dancing_masses(*data, norm_time as int, norm - 1));
        assert(total(views(masses@)) * data.spawn_span() as real == frac(0, 12))
            by (nonlinear_arith)
            requires
                total(views(masses@)) == 0real,
        ;
    }
    while norm <= last
        invariant
            data.movement_type is Dancing,
            animation_ready(*data, ice_time as int, time as int, dancing_table(*data)),
            table@ == dancing_table(*data),
            299 <= norm_time <= time,
            norm_time == normal_time(*data, ice_time as int, time as int),
            last == dancing_last(norm_time as int),
            299 <= norm <= last + 1,
            masses_wf(masses@),
            views(masses@) == dancing_masses(*data, norm_time as int, norm - 1),
            min.wf(),
            max.wf(),
            min@ == dancing_low(*data, norm - 1),
            max@ == dancing_high(*data, norm - 1),
            forall|k: int|
                299 <= k < norm ==> #[trigger] dancing_part_fits(*data, norm_time as int, k),
            supported(views(masses@), data.spawn_span(), min@, max@),
            table_forward(table@) ==> total(views(masses@)) * data.spawn_span() as real == frac(
                dancing_multiplier_sum(norm_time as int, norm - 1),
                12,
            ),
            table_forward(table@) && norm > 299 ==> min@ <= max@,
            table_forward(table@) && 0 <= data.spawn.1 ==> max@ <= data.spawn.1 as real,
        decreases last + 1 - norm,
    {
        let ghost fits = dancing_part_fits(*data, norm_time as int, norm as int);
        let d = match calculate_animation(data, 0, norm, table) {
            Some(d) => d,
            None => {
                assert(!fits);
                return None;
            },
        };
        let multiplier = dancing_multiplier_of(norm, norm_time);
        let weight = Num::new(multiplier, 12);
        let mut part = match scale_masses(&d.masses, &weight) {
            Some(part) => part,
            None => {
                assert(!fits);
                return None;
            },
        };
        assert(fits);
        let lower = min.min(d.min);
        let higher = max.max(d.max);
        proof {
            let span = data.spawn_span();
            let before = views(masses@);
            let here = views(part@);
            lemma_views_concat(masses@, part@);
            lemma_scaled_confined(
                views(d.masses@),
                weight@,
                d.min@.floor() + span - 1,
                ceil(d.max@),
            );
            lemma_supported_wider(here, span, d.min@, d.max@, lower@, higher@);
            lemma_supported_wider(before, span, min@, max@, lower@, higher@);
            lemma_confined_concat(before, here, lower@.floor() + span - 1, ceil(higher@));
            lemma_scaled_total(views(d.masses@), weight@);
            lemma_total_concat(before, here);
            if table_forward(table@) {
                let x = total(before);
                let y = total(views(d.masses@));
                let a = dancing_multiplier_sum(norm_time as int, norm - 1);
                let b = dancing_multiplier(norm as int, norm_time as int);
                assert((x + y * frac(b, 12)) * span as real == frac(a + b, 12)) by (nonlinear_arith)
                    requires
                        x * span as real == frac(a, 12),
                        y * span as real == 1real,
                ;
            }
        }
        masses.append(&mut part);
        min = lower;
        max = higher;
        norm += 1;
    }
    proof {
        lemma_dancing_multipliers_total(norm_time as int);
        assert(frac(12, 12) == 1real) by (nonlinear_arith);
    }
    Some(ExactDistribution { masses: masses, min: min, max: max })
}

} // verus!
