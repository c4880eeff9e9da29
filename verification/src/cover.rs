//! The cells that a range of displacements covers.

use crate::mass::{Mass, masses_wf, MassView, views};
use crate::rational::{ceil, frac, lemma_frac_floor, lemma_frac_neg, narrow, Num, representable};
use crate::timing::{int_max, int_min};
use vstd::prelude::*;

verus! {
/// The number of whole cells that an entity has entered after `ticks`.
pub open spec fn cells_moved(ticks: int) -> int {
    ceil(frac(ticks, 16384))
}

/// The share of an even spread over the displacements from `dmin` to
/// `dmax` ticks that lies in the cell entered after `dx - 1` cells.
pub open spec fn overlap_share(dmin: int, dmax: int, dx: int) -> real {
    if dmin == dmax {
        1real
    } else {
        frac(int_min(16384 * dx, dmax) - int_max(16384 * (dx - 1), dmin), dmax - dmin)
    }
}

/// The mass of the cell entered after `dx - 1` cells.
pub open spec fn cover_mass(spawn: int, dmin: int, dmax: int, w: real, dx: int) -> MassView {
    MassView { first: spawn - dx, last: spawn - dx, weight: w * overlap_share(dmin, dmax, dx) }
}

/// The number of cells that the displacements from `dmin` to `dmax` touch.
pub open spec fn cover_count(dmin: int, dmax: int) -> nat {
    if cells_moved(dmax) >= cells_moved(dmin) {
        (cells_moved(dmax) - cells_moved(dmin) + 1) as nat
    } else {
        0
    }
}

/// The masses of an even spread of the weight `w` over the displacements
/// from `dmin` to `dmax` ticks, cell by cell, nearest first.
pub open spec fn cover_masses(spawn: int, dmin: int, dmax: int, w: real) -> Seq<MassView> {
    Seq::new(
        cover_count(dmin, dmax),
        |m: int| cover_mass(spawn, dmin, dmax, w, cells_moved(dmin) + m),
    )
}

/// The mass of the cell entered after `dx - 1` cells can be computed in
/// 64 bits.
pub open spec fn cover_cell_fits(spawn: int, dmin: int, dmax: int, w: real, dx: int) -> bool {
    &&& i64::MIN <= spawn - dx <= i64::MAX
    &&& representable(overlap_share(dmin, dmax, dx))
    &&& representable(w * overlap_share(dmin, dmax, dx))
}

/// The masses of the spread can be computed in 64 bits.
pub open spec fn cover_fits(spawn: int, dmin: int, dmax: int, w: real) -> bool {
    forall|dx: int|
        cells_moved(dmin) <= dx <= cells_moved(dmax) ==> #[trigger] cover_cell_fits(
            spawn,
            dmin,
            dmax,
            w,
            dx,
        )
}

/// The number of whole cells entered after `ticks`.
fn cells_after(ticks: i64) -> (c: i64)
    ensures
        c == cells_moved(ticks as int),
        -0x2_0000_0000_0000 <= c <= 0x2_0000_0000_0000,
{
    let n: i128 = -(ticks as i128);
    proof {
        lemma_frac_neg(ticks as int, 16384);
        lemma_frac_floor(n as int, 16384);
    }
    (-(n.checked_div_euclid(16384).unwrap())) as i64
}

/// The share of the spread from `dmin` to `dmax` in the cell entered after
/// `dx - 1` cells.
fn overlap(dmin: i64, dmax: i64, dx: i64) -> (r: Option<Num>)
    requires
        -0x2_0000_0000_0000 <= dx <= 0x2_0000_0000_0000,
    ensures
        r is Some <==> representable(overlap_share(dmin as int, dmax as int, dx as int)),
        r matches Some(q) ==> q.wf() && q@ == overlap_share(dmin as int, dmax as int, dx as int),
{
    if dmin == dmax {
        let one = Num::from_integer(1);
        proof {
            one.lemma_representable();
        }
        return Some(one);
    }
    let upper: i128 = 16384 * (dx as i128);
    let lower: i128 = 16384 * (dx as i128 - 1);
    let top: i128 = if upper < dmax as i128 {
        upper
    } else {
        dmax as i128
    };
    let bottom: i128 = if lower > dmin as i128 {
        lower
    } else {
        dmin as i128
    };
    narrow(top - bottom, dmax as i128 - dmin as i128)
}

/// The masses of an even spread of `w` over the displacements from `dmin`
/// to `dmax` ticks.
pub fn cover(spawn: i64, dmin: i64, dmax: i64, w: &Num) -> (r: Option<Vec<Mass>>)
    requires
        w.wf(),
    ensures
        r is Some <==> cover_fits(spawn as int, dmin as int, dmax as int, w@),
        r matches Some(v) ==> masses_wf(v@) && views(v@) == cover_masses(
            spawn as int,
            dmin as int,
            dmax as int,
            w@,
        ),
{
    let lo = cells_after(dmin);
    let hi = cells_after(dmax);
    let mut out: Vec<Mass> = Vec::new();
    let mut dx = lo;
    while dx <= hi
        invariant
            w.wf(),
            lo == cells_moved(dmin as int),
            hi == cells_moved(dmax as int),
            -0x2_0000_0000_0000 <= lo <= dx,
            hi <= 0x2_0000_0000_0000,
            dx <= hi + 1 || dx == lo,
            masses_wf(out@),
            out@.len() == dx - lo,
            forall|m: int|
                0 <= m < out@.len() ==> (#[trigger] out@[m])@ == cover_mass(
                    spawn as int,
                    dmin as int,
                    dmax as int,
                    w@,
                    lo + m,
                ),
            forall|d: int|
                lo <= d < dx ==> #[trigger] cover_cell_fits(
                    spawn as int,
                    dmin as int,
                    dmax as int,
                    w@,
                    d,
                ),
        decreases hi + 1 - dx,
    {
        let ghost fits = cover_cell_fits(spawn as int, dmin as int, dmax as int, w@, dx as int);
        let cell = match spawn.checked_sub(dx) {
            Some(cell) => cell,
            None => {
                return None;
            },
        };
        let share = overlap(dmin, dmax, dx)?;
        let weight = w.checked_mul(&share)?;
        out.push(Mass { first: cell, last: cell, weight: weight });
        assert(fits);
        dx += 1;
    }
    proof {
        assert(views(out@) =~= cover_masses(spawn as int, dmin as int, dmax as int, w@));
    }
    Some(out)
}

} // verus!
