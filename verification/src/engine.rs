//! The entry point: the evaluation of an entity by its movement model.

use crate::animation::{animation_fits, calculate_animation};
use crate::common::{CELLS, MovementType, table_wf, ZombieData};
use crate::constant::{
    calculate_constant, constant_fits, constant_masses, constant_max, constant_min,
};
use crate::fractions::values;
use crate::histogram::{
    difference_fits, histogram, running_sum, spread_over_spawns, window_end, window_fits,
    window_sum,
};
use crate::mass::{
    cell_total, ExactDistribution, is_distribution, lemma_bounds_on_board, MassView, on_board,
    supported, total, views, within_board,
};
use crate::mixture::{
    animation_high, animation_low, animation_result, calculate_dancing, calculate_regular,
    dancing_fits, dancing_high, dancing_last, dancing_low, dancing_masses, dancing_part_fits,
    normal_time, regular_fits, regular_masses,
};
use crate::plan::{animation_ready, cycle_length, sum_table, table_sums_fit};
use crate::rational::{ceil, lemma_frac_integer, lemma_frac_lt, Num, representable};
use crate::segment::table_forward;
use crate::support::lemma_nothing_outside;
use crate::timing::{chill_floor, lemma_timing_split_bounds, timing_split};
use crate::totals::{lemma_sum_of_windows, lemma_windows_total, totals_row};
use crate::walk::MAX_TIME;
use vstd::prelude::*;

verus! {

/// How the evaluation of an entity ended.
pub enum Evaluation {
    /// The masses and the bounds of the distribution.
    Exact(ExactDistribution),
    /// Some number of the evaluation has no 64-bit form.
    Unrepresentable,
    /// The movement model is not evaluated exactly: it is an approximation
    /// in floating point, or a walk in floating point.
    Inexact,
}

/// The movement model is evaluated exactly.
pub open spec fn is_exact_model(movement_type: MovementType) -> bool {
    !(movement_type is DanceCheat || movement_type is Zomboni)
}

/// What the evaluation asks of its input: times that are not negative, an
/// ordered range of spawn positions, an ordered range of speeds, and for
/// the models with tables what their walks ask.
pub open spec fn evaluation_ready(data: ZombieData, ice_time: int, time: int) -> bool {
    match data.movement_type {
        MovementType::Constant => {
            &&& data.wf()
            &&& 0 <= ice_time
            &&& 0 <= time
            &&& data.spawn.0 <= data.spawn.1
            &&& data.spawn.1 - data.spawn.0 < i64::MAX
            &&& data.speed.0@ <= data.speed.1@
        },
        MovementType::Animation(t) => animation_ready(data, ice_time, time, t@),
        MovementType::Regular(a, b) => animation_ready(data, ice_time, time, a@) && animation_ready(
            data,
            ice_time,
            time,
            b@,
        ),
        MovementType::Dancing(t) => animation_ready(data, ice_time, time, t@),
        MovementType::DanceCheat => true,
        MovementType::Zomboni => true,
    }
}

/// Every number of the evaluation has a 64-bit form.
pub open spec fn evaluation_fits(data: ZombieData, ice_time: int, time: int) -> bool {
    match data.movement_type {
        MovementType::Constant => constant_fits(data, ice_time, time),
        MovementType::Animation(t) => animation_fits(data, ice_time, time, t@),
        MovementType::Regular(_, _) => regular_fits(data, ice_time, time),
        MovementType::Dancing(_) => dancing_fits(data, ice_time, time),
        MovementType::DanceCheat => false,
        MovementType::Zomboni => false,
    }
}

/// The masses of the distribution, in the order in which they are added.
pub open spec fn evaluation_masses(data: ZombieData, ice_time: int, time: int) -> Seq<MassView> {
    let (norm, chill_max) = timing_split(data.freeze_immune, data.chill_immune, ice_time, time);
    match data.movement_type {
        MovementType::Constant => constant_masses(
            data,
            norm,
            chill_floor(data.freeze_immune, chill_max),
            chill_max,
            chill_max,
        ),
        MovementType::Animation(t) => animation_result(data, ice_time, time, t@),
        MovementType::Regular(_, _) => regular_masses(data, ice_time, time),
        MovementType::Dancing(t) => if norm < 299 {
            animation_result(data, 0, norm, t@)
        } else {
            dancing_masses(data, norm, dancing_last(norm))
        },
        MovementType::DanceCheat => Seq::empty(),
        MovementType::Zomboni => Seq::empty(),
    }
}

/// The least position that the entity can have.
pub open spec fn evaluation_min(data: ZombieData, ice_time: int, time: int) -> real {
    let (norm, chill_max) = timing_split(data.freeze_immune, data.chill_immune, ice_time, time);
    match data.movement_type {
        MovementType::Constant => constant_min(data, norm, chill_max),
        MovementType::Animation(t) => animation_low(data, ice_time, time, t@),
        MovementType::Regular(a, b) => {
            let low_a = animation_low(data, ice_time, time, a@);
            let low_b = animation_low(data, ice_time, time, b@);
            if low_b < low_a {
                low_b
            } else {
                low_a
            }
        },
        MovementType::Dancing(t) => if norm < 299 {
            animation_low(data, 0, norm, t@)
        } else {
            dancing_low(data, dancing_last(norm))
        },
        MovementType::DanceCheat => 0real,
        MovementType::Zomboni => 0real,
    }
}

/// The greatest position that the entity can have.
pub open spec fn evaluation_max(data: ZombieData, ice_time: int, time: int) -> real {
    let (norm, chill_max) = timing_split(data.freeze_immune, data.chill_immune, ice_time, time);
    match data.movement_type {
        MovementType::Constant => constant_max(
            data,
            norm,
            chill_floor(data.freeze_immune, chill_max),
        ),
        MovementType::Animation(t) => animation_high(data, ice_time, time, t@),
        MovementType::Regular(a, b) => {
            let high_a = animation_high(data, ice_time, time, a@);
            let high_b = animation_high(data, ice_time, time, b@);
            if high_a < high_b {
                high_b
            } else {
                high_a
            }
        },
        MovementType::Dancing(t) => if norm < 299 {
            animation_high(data, 0, norm, t@)
        } else {
            dancing_high(data, dancing_last(norm))
        },
        MovementType::DanceCheat => 0real,
        MovementType::Zomboni => 0real,
    }
}

/// The entity never moves backwards: its least speed is not negative, and
/// every displacement of its tables is forward.
pub open spec fn moves_forward(data: ZombieData) -> bool {
    &&& 0real <= data.speed.0@
    &&& match data.movement_type {
        MovementType::Animation(t) => table_forward(t@),
        MovementType::Regular(a, b) => table_forward(a@) && table_forward(b@),
        MovementType::Dancing(t) => table_forward(t@),
        _ => true,
    }
}

/// The distribution of the position of an entity at `time`, after a slow
/// effect at `ice_time`, by its movement model.
///
/// For an entity that never moves backwards the result is a distribution:
/// its bounds are in order and hold its masses, and the masses add up to
/// the probability of one spawn position. Its greatest position is not
/// above the last spawn position.
pub fn calculate_pos_distribution(data: &ZombieData, ice_time: i64, time: i64) -> (r: Evaluation)
    requires
        evaluation_ready(*data, ice_time as int, time as int),
    ensures
        r is Inexact <==> !is_exact_model(data.movement_type),
        r is Exact <==> evaluation_fits(*data, ice_time as int, time as int),
        r matches Evaluation::Exact(d) ==> {
            &&& d.wf()
            &&& views(d.masses@) == evaluation_masses(*data, ice_time as int, time as int)
            &&& d.min@ == evaluation_min(*data, ice_time as int, time as int)
            &&& d.max@ == evaluation_max(*data, ice_time as int, time as int)
            &&& moves_forward(*data) ==> is_distribution(
                views(d.masses@),
                d.min@,
                d.max@,
                data.spawn_span(),
            )
            &&& moves_forward(*data) && 0 <= data.spawn.1 ==> d.max@ <= data.spawn.1 as real
        },
{
    let outcome = match &data.movement_type {
        MovementType::Constant => calculate_constant(data, ice_time, time),
        MovementType::Animation(table) => calculate_animation(data, ice_time, time, table),
        MovementType::Regular(_, _) => calculate_regular(data, ice_time, time),
        MovementType::Dancing(_) => calculate_dancing(data, ice_time, time),
        MovementType::DanceCheat => {
            return Evaluation::Inexact;
        },
        MovementType::Zomboni => {
            return Evaluation::Inexact;
        },
    };
    match outcome {
        Some(d) => Evaluation::Exact(d),
        None => Evaluation::Unrepresentable,
    }
}

/// What the distribution puts on the cell `cell` of the board: the totals
/// of the masses over the cells from `cell` on that the spawn positions
/// span.
pub open spec fn cell_probability(masses: Seq<MassView>, span: int, cell: int) -> real {
    window_sum(totals_row(masses, CELLS as int), cell, window_end(cell, span, CELLS as int))
}

/// The probability of each cell of the board can be computed in 64 bits.
pub open spec fn probabilities_fit(masses: Seq<MassView>, span: int) -> bool {
    &&& difference_fits(masses, CELLS as int)
    &&& forall|c: int| 0 <= c < CELLS ==> representable(#[trigger] cell_total(masses, c))
    &&& forall|i: int| 0 <= i < CELLS ==> #[trigger] window_fits(totals_row(masses, CELLS as int), i, span)
}

/// The exact probability of each cell of the board, for entities that
/// start at `span` neighbouring cells.
///
/// As long as no entity has left the board, the probabilities add up to
/// the total of the masses for each spawn position: those of a
/// distribution whose bounds are on the board add up to 1. No cell below
/// the cell of the least position or above the cell after the greatest
/// position has any probability.
///
/// The result is `None` exactly if one of the sums has no 64-bit form.
pub fn exact_probabilities(d: &ExactDistribution, span: usize) -> (r: Option<Vec<Num>>)
    requires
        d.wf(),
        on_board(views(d.masses@), CELLS as int),
    ensures
        r is Some <==> probabilities_fit(views(d.masses@), span as int),
        r matches Some(p) ==> {
            &&& table_wf(p@)
            &&& p@.len() == CELLS
            &&& forall|c: int|
                0 <= c < CELLS ==> (#[trigger] p@[c])@ == cell_probability(
                    views(d.masses@),
                    span as int,
                    c,
                )
            &&& 1 <= span && within_board(views(d.masses@), span as int, CELLS as int)
                ==> running_sum(values(p@), CELLS - 1) == total(views(d.masses@)) * span as real
            &&& is_distribution(views(d.masses@), d.min@, d.max@, span as int) && 1 <= span && 0real
                <= d.min@ && d.max@ <= 879real ==> running_sum(values(p@), CELLS - 1) == 1real
            &&& 1 <= span && supported(views(d.masses@), span as int, d.min@, d.max@)
                ==> forall|c: int|
                0 <= c < CELLS && (c < d.min@.floor() || ceil(d.max@) < c) ==> (#[trigger] p@[c])@
                    == 0real
        },
{
    let totals = histogram(&d.masses, CELLS)?;
    proof {
        assert(values(totals@) =~= totals_row(views(d.masses@), CELLS as int));
    }
    let p = spread_over_spawns(&totals, span)?;
    proof {
        let masses = views(d.masses@);
        if 1 <= span && supported(masses, span as int, d.min@, d.max@) && 0real <= d.min@
            && d.max@ <= 879real {
            lemma_bounds_on_board(masses, span as int, d.min@, d.max@, CELLS as int);
        }
        if 1 <= span && within_board(masses, span as int, CELLS as int) {
            lemma_windows_total(masses, span as int, CELLS as int);
            lemma_sum_of_windows(
                values(p@),
                totals_row(masses, CELLS as int),
                span as int,
                CELLS as int,
            );
        }
        if 1 <= span && supported(masses, span as int, d.min@, d.max@) {
            assert forall|c: int|
                0 <= c < CELLS && (c < d.min@.floor() || ceil(d.max@) < c) implies (
            #[trigger] p@[c])@ == 0real by {
                lemma_nothing_outside(masses, span as int, CELLS as int, d.min@, d.max@, c);
            }
        }
    }
    Some(p)
}

/// Why an evaluation gave no distribution.
#[derive(Clone, Copy, Debug, PartialEq, Eq)]
pub enum Failure {
    /// The input is not one that the evaluation is made for.
    OutOfDomain,
    /// Some number of the evaluation has no 64-bit form.
    Unrepresentable,
    /// The movement model is not evaluated exactly.
    Inexact,
}

/// What can be asked of a table before its numbers are added up: it is
/// not empty and holds numbers in lowest terms, and if its sums have 64-bit
/// forms, its cycle moves the entity forward.
pub open spec fn table_in_domain(tbl: Seq<Num>) -> bool {
    &&& table_wf(tbl)
    &&& 0 < tbl.len() < i64::MAX
    &&& table_sums_fit(tbl) ==> cycle_length(tbl) > 0real
}

/// The input is one that the evaluation is made for: its numbers are in
/// lowest terms, its times are not negative, its ranges of spawn positions
/// and of speeds are in order; and for an entity with tables, the least
/// speed is not negative, the time is not beyond what can be walked and
/// the tables are in the domain.
pub open spec fn in_domain(data: ZombieData, ice_time: int, time: int) -> bool {
    &&& data.wf()
    &&& 0 <= ice_time
    &&& 0 <= time
    &&& data.spawn.0 <= data.spawn.1
    &&& data.spawn.1 - data.spawn.0 < i64::MAX
    &&& data.speed.0@ <= data.speed.1@
    &&& !(data.movement_type is Constant) ==> 0real <= data.speed.0@ && time <= MAX_TIME
    &&& tables_in_domain(data)
}

/// The tables of the entity are in the domain.
pub open spec fn tables_in_domain(data: ZombieData) -> bool {
    match data.movement_type {
        MovementType::Animation(t) => table_in_domain(t@),
        MovementType::Regular(a, b) => table_in_domain(a@) && table_in_domain(b@),
        MovementType::Dancing(t) => table_in_domain(t@),
        _ => true,
    }
}

/// Whether every number of the table is in lowest terms.
fn table_is_wf(tbl: &Vec<Num>) -> (b: bool)
    ensures
        b == table_wf(tbl@),
{
    let mut i: usize = 0;
    while i < tbl.len()
        invariant
            0 <= i <= tbl@.len(),
            forall|j: int| 0 <= j < i ==> (#[trigger] tbl@[j]).wf(),
        decreases tbl@.len() - i,
    {
        if !tbl[i].is_wf() {
            return false;
        }
        i += 1;
    }
    true
}

/// What became of the test of a table.
enum TableTest {
    Good,
    Bad,
    TooLarge,
}

/// Tests whether the table is in the domain, and whether its sums have
/// 64-bit forms.
fn test_table(tbl: &Vec<Num>) -> (r: TableTest)
    ensures
        r is Bad <==> !table_in_domain(tbl@),
        r is TooLarge <==> table_in_domain(tbl@) && !table_sums_fit(tbl@),
        r is Good ==> cycle_length(tbl@) > 0real,
{
    if tbl.len() == 0 || tbl.len() as u64 >= i64::MAX as u64 || !table_is_wf(tbl) {
        return TableTest::Bad;
    }
    match sum_table(tbl) {
        None => TableTest::TooLarge,
        Some(total) => {
            let zero = Num::from_integer(0);
            if zero.lt(&total) {
                TableTest::Good
            } else {
                TableTest::Bad
            }
        },
    }
}

/// Tests whether the input is one that [`calculate_pos_distribution`]
/// evaluates, and evaluates exactly: it is in the domain, and the sums of
/// its tables have 64-bit forms.
pub fn test_input(data: &ZombieData, ice_time: i64, time: i64) -> (r: Result<(), Failure>)
    ensures
        r matches Err(Failure::Inexact) <==> !is_exact_model(data.movement_type),
        r matches Err(Failure::OutOfDomain) <==> is_exact_model(data.movement_type) && !in_domain(
            *data,
            ice_time as int,
            time as int,
        ),
        r matches Err(Failure::Unrepresentable) <==> is_exact_model(data.movement_type)
            && in_domain(*data, ice_time as int, time as int) && !tables_sums_fit(*data),
        r is Ok ==> evaluation_ready(*data, ice_time as int, time as int),
{
    let constant = match &data.movement_type {
        MovementType::Constant => true,
        MovementType::DanceCheat => {
            return Err(Failure::Inexact);
        },
        MovementType::Zomboni => {
            return Err(Failure::Inexact);
        },
        _ => false,
    };
    if !data.speed.0.is_wf() || !data.speed.1.is_wf() || ice_time < 0 || time < 0 || data.spawn.0
        > data.spawn.1 {
        return Err(Failure::OutOfDomain);
    }
    if data.spawn.1 as i128 - data.spawn.0 as i128 >= i64::MAX as i128 {
        return Err(Failure::OutOfDomain);
    }
    if data.speed.1.lt(&data.speed.0) {
        return Err(Failure::OutOfDomain);
    }
    proof {
        lemma_frac_integer(0);
        lemma_frac_lt(data.speed.0.numer as int, data.speed.0.denom as int, 0, 1);
    }
    if !constant && (data.speed.0.numer < 0 || time > MAX_TIME) {
        return Err(Failure::OutOfDomain);
    }
    let test = match &data.movement_type {
        MovementType::Animation(table) => test_table(table),
        MovementType::Dancing(table) => test_table(table),
        MovementType::Regular(first, second) => {
            match test_table(first) {
                TableTest::Good => test_table(second),
                TableTest::Bad => TableTest::Bad,
                TableTest::TooLarge => {
                    match test_table(second) {
                        TableTest::Bad => TableTest::Bad,
                        _ => TableTest::TooLarge,
                    }
                },
            }
        },
        _ => TableTest::Good,
    };
    assert(test is Bad <==> !tables_in_domain(*data));
    assert(test is TooLarge <==> tables_in_domain(*data) && !tables_sums_fit(*data));
    assert(test is Good ==> data.wf() && evaluation_ready(*data, ice_time as int, time as int));
    match test {
        TableTest::Bad => Err(Failure::OutOfDomain),
        TableTest::TooLarge => Err(Failure::Unrepresentable),
        TableTest::Good => Ok(()),
    }
}

/// The distribution of the position of an entity at `time`, after a slow
/// effect at `ice_time`, or why there is none: the input is tested, and
/// evaluated by [`calculate_pos_distribution`] where it is in the domain.
pub fn evaluate(data: &ZombieData, ice_time: i64, time: i64) -> (r: Result<
    ExactDistribution,
    Failure,
>)
    ensures
        r matches Err(Failure::Inexact) <==> !is_exact_model(data.movement_type),
        r matches Err(Failure::OutOfDomain) <==> is_exact_model(data.movement_type) && !in_domain(
            *data,
            ice_time as int,
            time as int,
        ),
        r matches Err(Failure::Unrepresentable) <==> is_exact_model(data.movement_type)
            && in_domain(*data, ice_time as int, time as int) && !evaluation_fits(
            *data,
            ice_time as int,
            time as int,
        ),
        r matches Ok(d) ==> {
            &&& evaluation_ready(*data, ice_time as int, time as int)
            &&& d.wf()
            &&& views(d.masses@) == evaluation_masses(*data, ice_time as int, time as int)
            &&& d.min@ == evaluation_min(*data, ice_time as int, time as int)
            &&& d.max@ == evaluation_max(*data, ice_time as int, time as int)
            &&& moves_forward(*data) ==> is_distribution(
                views(d.masses@),
                d.min@,
                d.max@,
                data.spawn_span(),
            )
            &&& moves_forward(*data) && 0 <= data.spawn.1 ==> d.max@ <= data.spawn.1 as real
        },
{
    match test_input(data, ice_time, time) {
        Err(failure) => {
            proof {
                if failure == Failure::Unrepresentable {
                    lemma_sums_must_fit(*data, ice_time as int, time as int);
                }
            }
            return Err(failure);
        },
        Ok(_) => {},
    }
    match calculate_pos_distribution(data, ice_time, time) {
        Evaluation::Exact(d) => Ok(d),
        Evaluation::Unrepresentable => Err(Failure::Unrepresentable),
        Evaluation::Inexact => Err(Failure::Inexact),
    }
}

/// The sums of the tables of the entity have 64-bit forms.
pub open spec fn tables_sums_fit(data: ZombieData) -> bool {
    match data.movement_type {
        MovementType::Animation(t) => table_sums_fit(t@),
        MovementType::Regular(a, b) => table_sums_fit(a@) && table_sums_fit(b@),
        MovementType::Dancing(t) => table_sums_fit(t@),
        _ => true,
    }
}

/// An evaluation whose numbers all have 64-bit forms has tables whose sums
/// have them.
proof fn lemma_sums_must_fit(data: ZombieData, ice_time: int, time: int)
    requires
        0 <= ice_time,
        0 <= time,
        !tables_sums_fit(data),
    ensures
        !evaluation_fits(data, ice_time, time),
{
    lemma_timing_split_bounds(data.freeze_immune, data.chill_immune, ice_time, time);
    if data.movement_type is Dancing {
        let norm_time = normal_time(data, ice_time, time);
        if norm_time >= 299 && dancing_fits(data, ice_time, time) {
            assert(dancing_part_fits(data, norm_time, 299));
        }
    }
}

} // verus!
