//! The split of the elapsed time into a phase at normal speed and a phase
//! of slowed movement, and the weights of the possible lengths of the
//! slowed phase.

use crate::common::ZombieData;
use crate::rational::{frac, narrow, Num, representable};
use vstd::prelude::*;

verus! {

/// The longest time for which a slow effect lasts.
pub const CHILL_CAP: i64 = 1999;

/// The time at the start of a slow effect for which an entity that can be
/// frozen does not move at all.
pub const FREEZE_TIME: i64 = 399;

/// The number of equally likely lengths of the freeze.
pub const CHILL_SPREAD: i64 = 200;

/// The lesser of two integers.
pub open spec fn int_min(a: int, b: int) -> int {
    if a <= b {
        a
    } else {
        b
    }
}

/// The greater of two integers.
pub open spec fn int_max(a: int, b: int) -> int {
    if a >= b {
        a
    } else {
        b
    }
}

/// The time moved at normal speed and the longest time moved slowed, for an
/// entity that is hit by the slow effect at `ice_time` and observed at `time`.
///
/// The effect does nothing when `ice_time` is 0 or after `time`, or when the
/// entity is immune. Else the entity moves normally for `ice_time - 1`, then
/// is slowed for at most 1999, of which an entity that can be frozen loses
/// the first 399; what is left of `time` beyond 1999 is again at normal speed.
pub open spec fn timing_split(
    freeze_immune: bool,
    chill_immune: bool,
    ice_time: int,
    time: int,
) -> (int, int) {
    if ice_time == 0 || ice_time > time || chill_immune {
        (time, 0)
    } else {
        let before = ice_time - 1;
        let after = time - before;
        let normal = before + int_max(after - 1999, 0);
        let chilled = int_min(after, 1999);
        if freeze_immune {
            (normal, chilled)
        } else {
            (normal, int_max(chilled - 399, 0))
        }
    }
}

/// Both phases are non-negative, the slowed one is at most 1999, and
/// together they do not exceed the elapsed time.
pub proof fn lemma_timing_split_bounds(
    freeze_immune: bool,
    chill_immune: bool,
    ice_time: int,
    time: int,
)
    requires
        0 <= ice_time,
        0 <= time,
    ensures
        ({
            let (normal, chilled) = timing_split(freeze_immune, chill_immune, ice_time, time);
            &&& 0 <= normal <= time
            &&& 0 <= chilled <= 1999
            &&& normal + chilled <= time
            &&& freeze_immune ==> normal + chilled == time
        }),
{
}

/// Splits the elapsed time into the time at normal speed and the longest
/// time of slowed movement.
pub fn calc_time(data: &ZombieData, ice_time: i64, time: i64) -> (r: (i64, i64))
    requires
        0 <= ice_time,
        0 <= time,
    ensures
        (r.0 as int, r.1 as int) == timing_split(
            data.freeze_immune,
            data.chill_immune,
            ice_time as int,
            time as int,
        ),
{
    if ice_time == 0 || ice_time > time || data.chill_immune {
        return (time, 0);
    }
    let norm_time = ice_time - 1;
    let after = time - norm_time;
    let extra = if after > CHILL_CAP {
        after - CHILL_CAP
    } else {
        0
    };
    let chilled = if after < CHILL_CAP {
        after
    } else {
        CHILL_CAP
    };
    if data.freeze_immune {
        (norm_time + extra, chilled)
    } else if chilled > FREEZE_TIME {
        (norm_time + extra, chilled - FREEZE_TIME)
    } else {
        (norm_time + extra, 0)
    }
}

/// The shortest time of slowed movement, given the longest: the freeze
/// takes up to 200 of it, of an entity that can be frozen.
pub open spec fn chill_floor(freeze_immune: bool, chill_max: int) -> int {
    if freeze_immune {
        chill_max
    } else {
        int_max(chill_max - 200, 0)
    }
}

/// How many of the 201 equally likely lengths of the freeze leave the
/// entity `chill` of slowed movement: all those that outlast the effect
/// leave the shortest time, each other one a time of its own.
pub open spec fn chill_multiplier(chill: int, chill_min: int, chill_max: int) -> int {
    if chill == chill_min {
        201 - (chill_max - chill_min)
    } else {
        1
    }
}

/// The probability of one spawn position together with `chill` of slowed
/// movement.
pub open spec fn chill_weight(chill: int, chill_min: int, chill_max: int, span: int) -> real {
    frac(chill_multiplier(chill, chill_min, chill_max), 201) / span as real
}

/// The multipliers of the times from `chill_min` to `upto`.
pub open spec fn multiplier_sum(chill_min: int, chill_max: int, upto: int) -> int
    decreases upto - chill_min + 1,
{
    if upto < chill_min {
        0
    } else {
        multiplier_sum(chill_min, chill_max, upto - 1) + chill_multiplier(
            upto,
            chill_min,
            chill_max,
        )
    }
}

/// The multipliers of all the times of slowed movement add up to 201, so
/// that their weights add up to the probability of one spawn position.
pub proof fn lemma_multipliers_total(chill_min: int, chill_max: int)
    requires
        chill_min <= chill_max,
    ensures
        multiplier_sum(chill_min, chill_max, chill_max) == 201,
{
    lemma_multiplier_prefix(chill_min, chill_max, chill_max);
}

proof fn lemma_multiplier_prefix(chill_min: int, chill_max: int, upto: int)
    requires
        chill_min <= upto,
    ensures
        multiplier_sum(chill_min, chill_max, upto) == 201 - (chill_max - chill_min) + (upto
            - chill_min),
    decreases upto - chill_min,
{
    if upto > chill_min {
        lemma_multiplier_prefix(chill_min, chill_max, upto - 1);
    } else {
        assert(multiplier_sum(chill_min, chill_max, chill_min - 1) == 0);
    }
}

/// The shortest time of slowed movement.
pub fn chill_time_min(freeze_immune: bool, chill_time_max: i64) -> (r: i64)
    requires
        0 <= chill_time_max,
    ensures
        r == chill_floor(freeze_immune, chill_time_max as int),
        0 <= r <= chill_time_max,
        chill_time_max - r <= 200,
{
    if freeze_immune || chill_time_max < CHILL_SPREAD {
        if freeze_immune {
            chill_time_max
        } else {
            0
        }
    } else {
        chill_time_max - CHILL_SPREAD
    }
}

/// How many of the 201 lengths of the freeze leave `chill` of slowed
/// movement.
pub fn chill_multiplier_of(chill: i64, chill_min: i64, chill_max: i64) -> (m: i64)
    requires
        0 <= chill_min <= chill_max,
    ensures
        m == chill_multiplier(chill as int, chill_min as int, chill_max as int),
{
    if chill == chill_min {
        201 - (chill_max - chill_min)
    } else {
        1
    }
}

/// The weight of `chill` of slowed movement, if it has a 64-bit fraction.
pub fn chill_weight_of(chill: i64, chill_min: i64, chill_max: i64, span: i64) -> (r: Option<Num>)
    requires
        span != 0,
    ensures
        r is Some <==> representable(
            chill_weight(chill as int, chill_min as int, chill_max as int, span as int),
        ),
        r matches Some(w) ==> w.wf() && w@ == chill_weight(
            chill as int,
            chill_min as int,
            chill_max as int,
            span as int,
        ),
{
    let m: i128 = if chill == chill_min {
        201 - (chill_max as i128 - chill_min as i128)
    } else {
        1
    };
    let d: i128 = 201 * (span as i128);
    proof {
        assert(frac(m as int, 201) / span as real == frac(m as int, 201 * span)) by (nonlinear_arith)
            requires
                span != 0,
        ;
    }
    narrow(m, d)
}

} // verus!
