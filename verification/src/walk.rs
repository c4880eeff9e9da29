//! The walk of an entity through the frames of its animation.
//!
//! The speed of an entity sets the rate at which it runs through a cyclic
//! table of displacements: in each frame the phase advances by the rate,
//! by twice the rate at normal speed, and the whole part of the phase picks
//! the frame that is shown.

use crate::common::table_wf;
use crate::constant::TICKS;
use crate::rational::{frac, Num, representable, round_half_away, trunc};
use crate::timing::{int_max, int_min};
use vstd::prelude::*;

verus! {


/// The longest time that can be evaluated.
pub const MAX_TIME: i64 = 0x1000_0000_0000_0000;

/// The factor by which a table of `len` frames stretches displacements.
pub open spec fn stretch(len: int) -> real {
    frac(len + 1, len)
}

/// How many times the rate has been added to the phase before frame `t`:
/// the phase starts at twice the rate and advances by twice the rate in
/// each of the `norm` frames at normal speed, by the rate in each later one.
pub open spec fn phase_steps(norm: int, t: int) -> int {
    2 + 2 * int_min(t, norm) + int_max(t - norm, 0)
}

/// The phase before frame `t` at the rate `l`.
pub open spec fn phase(l: real, norm: int, t: int) -> real {
    l * phase_steps(norm, t) as real
}

/// The place in a table of `len` frames that is shown at `phase`.
pub open spec fn table_index(len: int, phase: real) -> int {
    trunc(phase) % len
}

/// By how much the displacement of frame `t` is multiplied.
pub open spec fn frame_rate(norm: int, t: int) -> int {
    if t < norm {
        2
    } else {
        1
    }
}

/// The displacement of frame `t` per unit of rate, for an entity that runs
/// through the table at the rate `l`.
pub open spec fn frame_shift(tbl: Seq<Num>, l: real, norm: int, t: int) -> real {
    tbl[table_index(tbl.len() as int, phase(l, norm, t))]@ * stretch(tbl.len() as int)
        * frame_rate(norm, t) as real
}

/// The displacement of frame `t` in ticks at the rate `k`, with the frames
/// shown at the rate `l`.
pub open spec fn frame_ticks(tbl: Seq<Num>, l: real, k: real, norm: int, t: int) -> int {
    round_half_away(frame_shift(tbl, l, norm, t) * k * 16384real)
}

/// The displacement in ticks after `frames` frames.
pub open spec fn moved(tbl: Seq<Num>, l: real, k: real, norm: int, frames: int) -> int
    decreases frames,
{
    if frames <= 0 {
        0
    } else {
        moved(tbl, l, k, norm, frames - 1) + frame_ticks(tbl, l, k, norm, frames - 1)
    }
}

/// Frame `t` of the segment from `l` to `r` can be computed in 64 bits.
pub open spec fn frame_fits(tbl: Seq<Num>, l: real, r: real, norm: int, t: int) -> bool {
    let a = tbl[table_index(tbl.len() as int, phase(l, norm, t))]@;
    let s = frame_shift(tbl, l, norm, t);
    &&& representable(phase(l, norm, t))
    &&& representable(a * stretch(tbl.len() as int))
    &&& representable(s)
    &&& representable(s * l)
    &&& representable(s * l * 16384real)
    &&& representable(s * r)
    &&& representable(s * r * 16384real)
}

/// The frames from `from` up to `to` can be computed in 64 bits, and so
/// can the displacements after each of them.
pub open spec fn walk_fits(tbl: Seq<Num>, l: real, r: real, norm: int, from: int, to: int) -> bool {
    forall|t: int|
        from <= t < to ==> {
            &&& #[trigger] frame_fits(tbl, l, r, norm, t)
            &&& i64::MIN <= moved(tbl, l, l, norm, t + 1) <= i64::MAX
            &&& i64::MIN <= moved(tbl, l, r, norm, t + 1) <= i64::MAX
        }
}

/// What a walk needs of its table and its rates.
pub open spec fn walk_ready(tbl: Seq<Num>, factor: Num, l: Num, r: Num, norm: int) -> bool {
    &&& table_wf(tbl)
    &&& 0 < tbl.len() < i64::MAX
    &&& factor.wf()
    &&& factor@ == stretch(tbl.len() as int)
    &&& l.wf()
    &&& r.wf()
    &&& 0real <= l@
    &&& 0 <= norm <= MAX_TIME
}

/// The number of ticks that `shift * k` comes to.
pub(crate) fn ticks_of(shift: &Num, k: &Num) -> (m: Option<i64>)
    requires
        shift.wf(),
        k.wf(),
    ensures
        m is Some <==> representable(shift@ * k@) && representable(shift@ * k@ * 16384real),
        m matches Some(v) ==> v == round_half_away(shift@ * k@ * 16384real),
{
    let unit = Num::from_integer(TICKS);
    let x = shift.checked_mul(k)?;
    let y = x.checked_mul(&unit)?;
    Some(y.round())
}

/// The displacements of frame `t` in ticks, at the rate `l` and at the
/// rate `r`.
pub(crate) fn frame(
    tbl: &Vec<Num>,
    factor: &Num,
    l: &Num,
    r: &Num,
    norm: i64,
    t: i64,
) -> (m: Option<(i64, i64)>)
    requires
        walk_ready(tbl@, *factor, *l, *r, norm as int),
        0 <= t <= MAX_TIME,
    ensures
        m is Some <==> frame_fits(tbl@, l@, r@, norm as int, t as int),
        m matches Some(v) ==> v.0 == frame_ticks(tbl@, l@, l@, norm as int, t as int) && v.1
            == frame_ticks(tbl@, l@, r@, norm as int, t as int),
{
    let steps: i64 = if t < norm {
        2 + 2 * t
    } else {
        2 + 2 * norm + (t - norm)
    };
    let count = Num::from_integer(steps);
    let at = l.checked_mul(&count)?;
    proof {
        assert(at@ >= 0real) by (nonlinear_arith)
            requires
                at@ == l@ * steps as real,
                l@ >= 0real,
                steps >= 0,
        ;
    }
    let whole = at.to_integer();
    let len = tbl.len() as i64;
    let place = (whole % len) as usize;
    let a = &tbl[place];
    let stretched = a.checked_mul(factor)?;
    let shift = if t < norm {
        let two = Num::from_integer(2);
        stretched.checked_mul(&two)?
    } else {
        proof {
            assert(stretched@ * 1real == stretched@) by (nonlinear_arith);
        }
        stretched
    };
    let low = ticks_of(&shift, l)?;
    let high = ticks_of(&shift, r)?;
    Some((low, high))
}

/// The displacements in ticks after the frames up to `to`, given those
/// after the frames up to `from`.
pub(crate) fn walk(
    tbl: &Vec<Num>,
    factor: &Num,
    l: &Num,
    r: &Num,
    norm: i64,
    from: i64,
    to: i64,
    start: (i64, i64),
) -> (m: Option<(i64, i64)>)
    requires
        walk_ready(tbl@, *factor, *l, *r, norm as int),
        0 <= from <= to <= MAX_TIME,
        start.0 == moved(tbl@, l@, l@, norm as int, from as int),
        start.1 == moved(tbl@, l@, r@, norm as int, from as int),
    ensures
        m is Some <==> walk_fits(tbl@, l@, r@, norm as int, from as int, to as int),
        m matches Some(v) ==> v.0 == moved(tbl@, l@, l@, norm as int, to as int) && v.1 == moved(
            tbl@,
            l@,
            r@,
            norm as int,
            to as int,
        ),
{
    let mut t = from;
    let mut low = start.0;
    let mut high = start.1;
    while t < to
        invariant
            walk_ready(tbl@, *factor, *l, *r, norm as int),
            0 <= from <= t <= to <= MAX_TIME,
            low == moved(tbl@, l@, l@, norm as int, t as int),
            high == moved(tbl@, l@, r@, norm as int, t as int),
            walk_fits(tbl@, l@, r@, norm as int, from as int, t as int),
        decreases to - t,
    {
        let step = match frame(tbl, factor, l, r, norm, t) {
            Some(step) => step,
            None => {
                assert(!frame_fits(tbl@, l@, r@, norm as int, t as int));
                return None;
            },
        };
        let next_low = match low.checked_add(step.0) {
            Some(v) => v,
            None => {
                assert(moved(tbl@, l@, l@, norm as int, t + 1) == low + step.0);
                return None;
            },
        };
        let next_high = match high.checked_add(step.1) {
            Some(v) => v,
            None => {
                assert(moved(tbl@, l@, r@, norm as int, t + 1) == high + step.1);
                return None;
            },
        };
        low = next_low;
        high = next_high;
        t += 1;
    }
    Some((low, high))
}

} // verus!
