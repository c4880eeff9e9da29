//! The evaluator for entities that draw a new speed for every frame.
//!
//! Over a whole phase such an entity moves as if its displacement were
//! spread evenly between the least and the greatest possible one, so the
//! contribution of one length of the slowed phase is an even spread over a
//! run of cells, with the two cells at the ends covered in part.

use crate::common::ZombieData;
use crate::mass::{
    ExactDistribution, is_distribution, lemma_total_concat, lemma_views_concat, Mass, masses_wf,
    MassView, total, views,
};
use crate::rational::{
    ceil, frac, lemma_frac_floor, lemma_frac_neg, narrow, Num, representable, round_half_away,
    wide_mul,
};
use crate::support::lemma_constant_supported;
use crate::timing::{
    calc_time, chill_floor, chill_multiplier, chill_time_min, chill_weight, chill_weight_of,
    lemma_multipliers_total, lemma_timing_split_bounds, multiplier_sum, timing_split,
};
use vstd::prelude::*;

verus! {

/// Displacements are rounded to this fraction of a cell.
pub const TICKS: i64 = 16384;

/// The displacement per frame at the speed `speed`, in ticks.
pub open spec fn to_ticks(speed: real) -> int {
    round_half_away(speed * 16384real)
}

/// The speed of slowed movement.
pub open spec fn slowed(speed: real) -> real {
    speed * frac(2, 5)
}

/// The displacement, in ticks, after `norm` frames at `speed` and `chill`
/// frames slowed.
pub open spec fn travelled(speed: real, norm: int, chill: int) -> int {
    to_ticks(speed) * norm + to_ticks(slowed(speed)) * chill
}

/// The cell of an entity that started at `spawn` and moved by `ticks`.
pub open spec fn cell_of(spawn: int, ticks: int) -> int {
    spawn - ceil(frac(ticks, 16384))
}

/// The two rounded speeds can be computed in 64 bits.
pub open spec fn speed_fits(speed: real) -> bool {
    &&& representable(speed * 16384real)
    &&& representable(slowed(speed))
    &&& representable(slowed(speed) * 16384real)
}

/// The share of an even spread from `p` to `q` ticks that falls into the
/// cell of `q`, where that is not the cell of `p`: a cell holds the
/// displacements above one integer up to the next.
pub open spec fn head_share(p: int, q: int) -> real {
    (frac(q, 16384) - (ceil(frac(q, 16384)) - 1) as real) / (frac(q, 16384) - frac(p, 16384))
}

/// The share that falls into the cell of `p`.
pub open spec fn tail_share(p: int, q: int) -> real {
    (ceil(frac(p, 16384)) as real - frac(p, 16384)) / (frac(q, 16384) - frac(p, 16384))
}

/// The share that falls into each cell between the two.
pub open spec fn cell_share(p: int, q: int) -> real {
    1real / (frac(q, 16384) - frac(p, 16384))
}

/// The masses of an even spread of the weight `w` over the displacements
/// from `p` to `q` ticks, from the spawn position `spawn`: the whole weight
/// where both ends fall into one cell; else the cell of `q`, the cell of
/// `p`, and the cells between them.
pub open spec fn spread_masses(spawn: int, p: int, q: int, w: real) -> Seq<MassView> {
    let first = cell_of(spawn, q);
    let last = cell_of(spawn, p);
    if first == last {
        seq![MassView { first: first, last: first, weight: w }]
    } else {
        seq![
            MassView { first: first, last: first, weight: w * head_share(p, q) },
            MassView { first: last, last: last, weight: w * tail_share(p, q) },
            MassView { first: first + 1, last: last - 1, weight: w * cell_share(p, q) },
        ]
    }
}

/// The spread can be computed in 64 bits.
pub open spec fn spread_fits(spawn: int, p: int, q: int, w: real) -> bool {
    &&& i64::MIN <= cell_of(spawn, q) <= i64::MAX
    &&& i64::MIN <= cell_of(spawn, p) <= i64::MAX
    &&& cell_of(spawn, q) != cell_of(spawn, p) ==> {
        &&& representable(head_share(p, q))
        &&& representable(w * head_share(p, q))
        &&& representable(tail_share(p, q))
        &&& representable(w * tail_share(p, q))
        &&& representable(cell_share(p, q))
        &&& representable(w * cell_share(p, q))
    }
}

/// The cell of an entity that started at `spawn` and moved by `ticks`.
fn cell_after(spawn: i64, ticks: i64) -> (r: Option<i64>)
    ensures
        r is Some <==> i64::MIN <= cell_of(spawn as int, ticks as int) <= i64::MAX,
        r matches Some(c) ==> c == cell_of(spawn as int, ticks as int),
{
    let n: i128 = -(ticks as i128);
    proof {
        lemma_frac_neg(ticks as int, 16384);
        lemma_frac_floor(n as int, 16384);
    }
    let up: i128 = -(n.checked_div_euclid(16384).unwrap());
    let c: i128 = spawn as i128 - up;
    if c < i64::MIN as i128 || c > i64::MAX as i128 {
        None
    } else {
        Some(c as i64)
    }
}

/// The further an entity moves, the lower its cell.
pub proof fn lemma_cell_monotone(spawn: int, p: int, q: int)
    requires
        p <= q,
    ensures
        cell_of(spawn, q) <= cell_of(spawn, p),
{
    lemma_frac_neg(p, 16384);
    lemma_frac_neg(q, 16384);
    lemma_frac_floor(-p, 16384);
    lemma_frac_floor(-q, 16384);
}

proof fn lemma_shares(p: int, q: int)
    requires
        p != q,
    ensures
        head_share(p, q) == frac(q - 16384 * (-((-q) / 16384)) + 16384, q - p),
        tail_share(p, q) == frac(16384 * (-((-p) / 16384)) - p, q - p),
        cell_share(p, q) == frac(16384, q - p),
{
    lemma_frac_neg(q, 16384);
    lemma_frac_floor(-q, 16384);
    lemma_frac_neg(p, 16384);
    lemma_frac_floor(-p, 16384);
    let f = -((-q) / 16384) - 1;
    let c = -((-p) / 16384);
    assert((frac(q, 16384) - f as real) / (frac(q, 16384) - frac(p, 16384)) == frac(
        q - 16384 * f,
        q - p,
    )) by (nonlinear_arith)
        requires
            p != q,
    ;
    assert((c as real - frac(p, 16384)) / (frac(q, 16384) - frac(p, 16384)) == frac(
        16384 * c - p,
        q - p,
    )) by (nonlinear_arith)
        requires
            p != q,
    ;
    assert(1real / (frac(q, 16384) - frac(p, 16384)) == frac(16384, q - p)) by (nonlinear_arith)
        requires
            p != q,
    ;
}

proof fn lemma_shares_total(w: real, x: real, y: real, z: real, d: real)
    requires
        d != 0real,
        x + y + z == d,
    ensures
        w * (x / d) + w * (y / d) + w * (1real / d) * z == w,
{
    assert(w * (x / d) + w * (y / d) + w * (1real / d) * z == w * ((x + y + z) / d))
        by (nonlinear_arith)
        requires
            d != 0real,
    ;
    assert(w * (d / d) == w) by (nonlinear_arith)
        requires
            d != 0real,
    ;
}

/// The masses of an even spread add up to its weight.
pub proof fn lemma_spread_total(spawn: int, p: int, q: int, w: real)
    requires
        p <= q,
    ensures
        total(spread_masses(spawn, p, q, w)) == w,
{
    let s = spread_masses(spawn, p, q, w);
    let first = cell_of(spawn, q);
    let last = cell_of(spawn, p);
    lemma_cell_monotone(spawn, p, q);
    reveal_with_fuel(total, 4);
    if first == last {
        assert(s.drop_last() =~= Seq::<MassView>::empty());
        assert(w * 1real == w) by (nonlinear_arith);
    } else {
        let s2 = s.drop_last();
        let s1 = s2.drop_last();
        assert(s1.drop_last() =~= Seq::<MassView>::empty());
        assert(s2.last() == s[1]);
        assert(s1.last() == s[0]);
        let dmin = frac(p, 16384);
        let dmax = frac(q, 16384);
        let n = (last - 1) - (first + 1) + 1;
        assert(n == ceil(dmax) - ceil(dmin) - 1);
        let x = dmax - (ceil(dmax) - 1) as real;
        let y = ceil(dmin) as real - dmin;
        lemma_shares_total(w, x, y, n as real, dmax - dmin);
        let head = w * head_share(p, q);
        let tail = w * tail_share(p, q);
        let each = w * cell_share(p, q);
        assert(head * 1real == head) by (nonlinear_arith);
        assert(tail * 1real == tail) by (nonlinear_arith);
        assert(n == 0 ==> each * n as real == 0real) by (nonlinear_arith);
    }
}

/// The masses of an even spread of `w` over the displacements from `p` to
/// `q` ticks.
pub fn spread(spawn: i64, p: i64, q: i64, w: &Num) -> (r: Option<Vec<Mass>>)
    requires
        w.wf(),
        p <= q,
    ensures
        r is Some <==> spread_fits(spawn as int, p as int, q as int, w@),
        r matches Some(v) ==> masses_wf(v@) && views(v@) == spread_masses(
            spawn as int,
            p as int,
            q as int,
            w@,
        ),
{
    let first = cell_after(spawn, q)?;
    let last = cell_after(spawn, p)?;
    let mut out: Vec<Mass> = Vec::new();
    if first == last {
        out.push(Mass { first: first, last: first, weight: *w });
        assert(views(out@) =~= spread_masses(spawn as int, p as int, q as int, w@));
        return Some(out);
    }
    proof {
        lemma_shares(p as int, q as int);
        lemma_cell_monotone(spawn as int, p as int, q as int);
    }
    let width: i128 = q as i128 - p as i128;
    let top: i128 = -((-(q as i128)).checked_div_euclid(16384).unwrap());
    let head = narrow(q as i128 - 16384 * top + 16384, width)?;
    let head_mass = w.checked_mul(&head)?;
    let up: i128 = -((-(p as i128)).checked_div_euclid(16384).unwrap());
    let tail = narrow(16384 * up - p as i128, width)?;
    let tail_mass = w.checked_mul(&tail)?;
    let each = narrow(16384, width)?;
    let each_mass = w.checked_mul(&each)?;
    out.push(Mass { first: first, last: first, weight: head_mass });
    out.push(Mass { first: last, last: last, weight: tail_mass });
    out.push(Mass { first: first + 1, last: last - 1, weight: each_mass });
    assert(views(out@) =~= spread_masses(spawn as int, p as int, q as int, w@));
    Some(out)
}

/// The masses of the lengths of the slowed phase from `chill_min` to
/// `upto`: for each length the even spread, from the last spawn position,
/// between the displacements at the least and at the greatest speed.
pub open spec fn constant_masses(
    data: ZombieData,
    norm: int,
    chill_min: int,
    chill_max: int,
    upto: int,
) -> Seq<MassView>
    decreases upto - chill_min + 1,
{
    if upto < chill_min {
        Seq::empty()
    } else {
        constant_masses(data, norm, chill_min, chill_max, upto - 1) + spread_masses(
            data.spawn.1 as int,
            travelled(data.speed.0@, norm, upto),
            travelled(data.speed.1@, norm, upto),
            chill_weight(upto, chill_min, chill_max, data.spawn_span()),
        )
    }
}

/// The masses of the length `chill` can be computed in 64 bits.
pub open spec fn step_fits(
    data: ZombieData,
    norm: int,
    chill_min: int,
    chill_max: int,
    chill: int,
) -> bool {
    let p = travelled(data.speed.0@, norm, chill);
    let q = travelled(data.speed.1@, norm, chill);
    let w = chill_weight(chill, chill_min, chill_max, data.spawn_span());
    &&& i64::MIN <= p <= i64::MAX
    &&& i64::MIN <= q <= i64::MAX
    &&& representable(w)
    &&& spread_fits(data.spawn.1 as int, p, q, w)
}

/// The least position that the entity can have.
pub open spec fn constant_min(data: ZombieData, norm: int, chill_max: int) -> real {
    data.spawn.0 as real - frac(travelled(data.speed.1@, norm, chill_max), 16384)
}

/// The greatest position that the entity can have.
pub open spec fn constant_max(data: ZombieData, norm: int, chill_min: int) -> real {
    data.spawn.1 as real - frac(travelled(data.speed.0@, norm, chill_min), 16384)
}

/// Every number of the evaluation has a 64-bit form.
pub open spec fn constant_fits(data: ZombieData, ice_time: int, time: int) -> bool {
    let (norm, chill_max) = timing_split(data.freeze_immune, data.chill_immune, ice_time, time);
    let chill_min = chill_floor(data.freeze_immune, chill_max);
    &&& speed_fits(data.speed.0@)
    &&& speed_fits(data.speed.1@)
    &&& forall|c: int|
        chill_min <= c <= chill_max ==> #[trigger] step_fits(data, norm, chill_min, chill_max, c)
    &&& representable(constant_min(data, norm, chill_max))
    &&& representable(constant_max(data, norm, chill_min))
}

/// Rounding keeps the order.
pub proof fn lemma_round_monotone(x: real, y: real)
    requires
        x <= y,
    ensures
        round_half_away(x) <= round_half_away(y),
{
    assert(round_half_away(x) <= round_half_away(y)) by (nonlinear_arith)
        requires
            x <= y,
    ;
}

/// A greater speed moves further in each frame.
pub proof fn lemma_to_ticks_monotone(x: real, y: real)
    requires
        x <= y,
    ensures
        to_ticks(x) <= to_ticks(y),
        to_ticks(slowed(x)) <= to_ticks(slowed(y)),
{
    lemma_round_monotone(x * 16384real, y * 16384real);
    assert(slowed(x) * 16384real <= slowed(y) * 16384real) by (nonlinear_arith)
        requires
            x <= y,
    ;
    lemma_round_monotone(slowed(x) * 16384real, slowed(y) * 16384real);
}

/// A greater speed moves further.
pub proof fn lemma_travelled_monotone(x: real, y: real, norm: int, chill: int)
    requires
        x <= y,
        0 <= norm,
        0 <= chill,
    ensures
        travelled(x, norm, chill) <= travelled(y, norm, chill),
{
    lemma_to_ticks_monotone(x, y);
    let a = to_ticks(x);
    let b = to_ticks(y);
    let c = to_ticks(slowed(x));
    let d = to_ticks(slowed(y));
    assert(a * norm + c * chill <= b * norm + d * chill) by (nonlinear_arith)
        requires
            a <= b,
            c <= d,
            0 <= norm,
            0 <= chill,
    ;
}

proof fn lemma_constant_prefix_total(
    data: ZombieData,
    norm: int,
    chill_min: int,
    chill_max: int,
    upto: int,
)
    requires
        data.speed.0@ <= data.speed.1@,
        data.spawn_span() != 0,
        0 <= norm,
        0 <= chill_min,
        chill_min - 1 <= upto,
    ensures
        total(constant_masses(data, norm, chill_min, chill_max, upto)) == frac(
            multiplier_sum(chill_min, chill_max, upto),
            201,
        ) / data.spawn_span() as real,
    decreases upto - chill_min + 1,
{
    let span = data.spawn_span();
    if upto < chill_min {
        assert(frac(0, 201) / span as real == 0real) by (nonlinear_arith)
            requires
                span != 0,
        ;
    } else {
        lemma_constant_prefix_total(data, norm, chill_min, chill_max, upto - 1);
        let before = constant_masses(data, norm, chill_min, chill_max, upto - 1);
        let p = travelled(data.speed.0@, norm, upto);
        let q = travelled(data.speed.1@, norm, upto);
        let w = chill_weight(upto, chill_min, chill_max, span);
        lemma_travelled_monotone(data.speed.0@, data.speed.1@, norm, upto);
        lemma_spread_total(data.spawn.1 as int, p, q, w);
        lemma_total_concat(before, spread_masses(data.spawn.1 as int, p, q, w));
        let a = multiplier_sum(chill_min, chill_max, upto - 1);
        let b = chill_multiplier(upto, chill_min, chill_max);
        assert(frac(a, 201) / span as real + frac(b, 201) / span as real == frac(a + b, 201)
            / span as real) by (nonlinear_arith)
            requires
                span != 0,
        ;
    }
}

/// The masses of the evaluation add up to the probability of one spawn
/// position: spread over all the spawn positions they add up to 1.
pub proof fn lemma_constant_total(data: ZombieData, norm: int, chill_min: int, chill_max: int)
    requires
        data.speed.0@ <= data.speed.1@,
        data.spawn.0 <= data.spawn.1,
        0 <= norm,
        0 <= chill_min <= chill_max,
    ensures
        total(constant_masses(data, norm, chill_min, chill_max, chill_max))
            * data.spawn_span() as real == 1real,
{
    let span = data.spawn_span();
    lemma_constant_prefix_total(data, norm, chill_min, chill_max, chill_max);
    lemma_multipliers_total(chill_min, chill_max);
    assert(frac(201, 201) / span as real * span as real == 1real) by (nonlinear_arith)
        requires
            span != 0,
    ;
}

/// The displacements per frame, in ticks, at `speed` and at `speed` slowed.
pub fn speed_ticks(speed: &Num) -> (r: Option<(i64, i64)>)
    requires
        speed.wf(),
    ensures
        r is Some <==> speed_fits(speed@),
        r matches Some(t) ==> t.0 == to_ticks(speed@) && t.1 == to_ticks(slowed(speed@)),
{
    let unit = Num::from_integer(TICKS);
    let normal = speed.checked_mul(&unit)?;
    let factor = Num::new(2, 5);
    let slow = speed.checked_mul(&factor)?;
    let slow_scaled = slow.checked_mul(&unit)?;
    Some((normal.round(), slow_scaled.round()))
}

/// The displacement after `norm` frames at `ticks.0` per frame and `chill`
/// frames at `ticks.1` per frame.
fn travel(ticks: (i64, i64), norm: i64, chill: i64) -> (r: Option<i64>)
    requires
        0 <= norm,
        0 <= chill,
    ensures
        r is Some <==> i64::MIN <= ticks.0 * norm + ticks.1 * chill <= i64::MAX,
        r matches Some(t) ==> t == ticks.0 * norm + ticks.1 * chill,
{
    let t: i128 = wide_mul(ticks.0, norm) + wide_mul(ticks.1, chill);
    if t < i64::MIN as i128 || t > i64::MAX as i128 {
        None
    } else {
        Some(t as i64)
    }
}

/// The position `spawn - ticks / 16384`.
fn position(spawn: i64, ticks: i64) -> (r: Option<Num>)
    ensures
        r is Some <==> representable(spawn as real - frac(ticks as int, 16384)),
        r matches Some(q) ==> q.wf() && q@ == spawn as real - frac(ticks as int, 16384),
{
    let n: i128 = 16384 * (spawn as i128) - ticks as i128;
    proof {
        assert(spawn as real - frac(ticks as int, 16384) == frac(16384 * spawn - ticks, 16384))
            by (nonlinear_arith);
    }
    narrow(n, 16384)
}

/// The masses of the length `chill` of the slowed phase.
fn constant_step(
    data: &ZombieData,
    low: (i64, i64),
    high: (i64, i64),
    norm_time: i64,
    chill_min: i64,
    chill_max: i64,
    chill: i64,
) -> (r: Option<Vec<Mass>>)
    requires
        data.wf(),
        data.speed.0@ <= data.speed.1@,
        data.spawn.0 <= data.spawn.1,
        data.spawn.1 - data.spawn.0 < i64::MAX,
        0 <= norm_time,
        0 <= chill_min <= chill <= chill_max,
        chill_max - chill_min <= 200,
        low.0 == to_ticks(data.speed.0@),
        low.1 == to_ticks(slowed(data.speed.0@)),
        high.0 == to_ticks(data.speed.1@),
        high.1 == to_ticks(slowed(data.speed.1@)),
    ensures
        r is Some <==> step_fits(
            *data,
            norm_time as int,
            chill_min as int,
            chill_max as int,
            chill as int,
        ),
        r matches Some(v) ==> masses_wf(v@) && views(v@) == spread_masses(
            data.spawn.1 as int,
            travelled(data.speed.0@, norm_time as int, chill as int),
            travelled(data.speed.1@, norm_time as int, chill as int),
            chill_weight(chill as int, chill_min as int, chill_max as int, data.spawn_span()),
        ),
{
    proof {
        lemma_travelled_monotone(data.speed.0@, data.speed.1@, norm_time as int, chill as int);
    }
    let span = data.spawn.1 - data.spawn.0 + 1;
    let p = travel(low, norm_time, chill)?;
    let q = travel(high, norm_time, chill)?;
    let w = chill_weight_of(chill, chill_min, chill_max, span)?;
    spread(data.spawn.1, p, q, &w)
}

/// The distribution of an entity that draws its speed anew for every
/// frame, observed at `time` after a slow effect at `ice_time`.
///
/// The result is `None` exactly if some number of the evaluation has no
/// 64-bit form.
pub fn calculate_constant(data: &ZombieData, ice_time: i64, time: i64) -> (r: Option<
    ExactDistribution,
>)
    requires
        data.wf(),
        0 <= ice_time,
        0 <= time,
        data.spawn.0 <= data.spawn.1,
        data.spawn.1 - data.spawn.0 < i64::MAX,
        data.speed.0@ <= data.speed.1@,
    ensures
        r is Some <==> constant_fits(*data, ice_time as int, time as int),
        r matches Some(d) ==> {
            let (norm, chill_max) = timing_split(
                data.freeze_immune,
                data.chill_immune,
                ice_time as int,
                time as int,
            );
            let chill_min = chill_floor(data.freeze_immune, chill_max);
            &&& d.wf()
            &&& views(d.masses@) == constant_masses(*data, norm, chill_min, chill_max, chill_max)
            &&& d.min@ == constant_min(*data, norm, chill_max)
            &&& d.max@ == constant_max(*data, norm, chill_min)
            &&& total(views(d.masses@)) * data.spawn_span() as real == 1real
            &&& 0real <= data.speed.0@ ==> is_distribution(
                views(d.masses@),
                d.min@,
                d.max@,
                data.spawn_span(),
            ) && d.max@ <= data.spawn.1 as real
        },
{
    let low = speed_ticks(&data.speed.0)?;
    let high = speed_ticks(&data.speed.1)?;
    let (norm_time, chill_time_max) = calc_time(data, ice_time, time);
    proof {
        lemma_timing_split_bounds(
            data.freeze_immune,
            data.chill_immune,
            ice_time as int,
            time as int,
        );
    }
    let chill_time_min = chill_time_min(data.freeze_immune, chill_time_max);
    let mut masses: Vec<Mass> = Vec::new();
    let mut chill = chill_time_min;
    assert(views(masses@) =~= constant_masses(
        *data,
        norm_time as int,
        chill_time_min as int,
        chill_time_max as int,
        chill - 1,
    ));
    while chill <= chill_time_max
        invariant
            data.wf(),
            data.speed.0@ <= data.speed.1@,
            data.spawn.0 <= data.spawn.1,
            data.spawn.1 - data.spawn.0 < i64::MAX,
            0 <= norm_time,
            0 <= chill_time_min <= chill <= chill_time_max + 1,
            chill_time_max <= 1999,
            chill_time_max - chill_time_min <= 200,
            (norm_time as int, chill_time_max as int) == timing_split(
                data.freeze_immune,
                data.chill_immune,
                ice_time as int,
                time as int,
            ),
            chill_time_min == chill_floor(data.freeze_immune, chill_time_max as int),
            low.0 == to_ticks(data.speed.0@),
            low.1 == to_ticks(slowed(data.speed.0@)),
            high.0 == to_ticks(data.speed.1@),
            high.1 == to_ticks(slowed(data.speed.1@)),
            masses_wf(masses@),
            views(masses@) == constant_masses(
                *data,
                norm_time as int,
                chill_time_min as int,
                chill_time_max as int,
                chill - 1,
            ),
            forall|c: int|
                chill_time_min <= c < chill ==> #[trigger] step_fits(
                    *data,
                    norm_time as int,
                    chill_time_min as int,
                    chill_time_max as int,
                    c,
                ),
        decreases chill_time_max + 1 - chill,
    {
        let mut step = match constant_step(
            data,
            low,
            high,
            norm_time,
            chill_time_min,
            chill_time_max,
            chill,
        ) {
            Some(step) => step,
            None => {
                return None;
            },
        };
        proof {
            lemma_views_concat(masses@, step@);
        }
        masses.append(&mut step);
        chill += 1;
    }
    assert(step_fits(
        *data,
        norm_time as int,
        chill_time_min as int,
        chill_time_max as int,
        chill_time_max as int,
    ));
    assert(step_fits(
        *data,
        norm_time as int,
        chill_time_min as int,
        chill_time_max as int,
        chill_time_min as int,
    ));
    let far = travel(high, norm_time, chill_time_max).unwrap();
    let near = travel(low, norm_time, chill_time_min).unwrap();
    let min = position(data.spawn.0, far)?;
    let max = position(data.spawn.1, near)?;
    proof {
        lemma_constant_total(
            *data,
            norm_time as int,
            chill_time_min as int,
            chill_time_max as int,
        );
        if 0real <= data.speed.0@ {
            lemma_constant_supported(
                *data,
                norm_time as int,
                chill_time_min as int,
                chill_time_max as int,
            );
        }
    }
    Some(ExactDistribution { masses: masses, min: min, max: max })
}

} // verus!
