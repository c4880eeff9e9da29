//! The difference array: adding a weight to a run of cells in two steps,
//! and the running sums that turn the steps into the cells' totals.

use crate::common::table_wf;
use crate::fractions::values;
use crate::mass::{cell_total, lemma_confined_prefix, Mass, masses_wf, MassView, on_board, views};
use crate::rational::{Num, representable};
use vstd::prelude::*;

verus! {

/// The array after `v` was added at `l` and, where `r` is within the
/// array, taken off at `r`.
pub open spec fn range_added(s: Seq<real>, l: int, r: int, v: real) -> Seq<real> {
    let a = s.update(l, s[l] + v);
    if 0 <= r < s.len() {
        a.update(r, a[r] - v)
    } else {
        a
    }
}

/// The two new entries have 64-bit forms.
pub open spec fn range_add_fits(s: Seq<real>, l: int, r: int, v: real) -> bool {
    &&& representable(s[l] + v)
    &&& 0 <= r < s.len() ==> representable(s.update(l, s[l] + v)[r] - v)
}

/// The sum of the entries up to and with `i`.
pub open spec fn running_sum(s: Seq<real>, i: int) -> real
    decreases i + 1,
{
    if i < 0 {
        0real
    } else {
        running_sum(s, i - 1) + s[i]
    }
}

/// What a range that was added puts on the running sum at `i`.
pub open spec fn range_part(l: int, r: int, v: real, i: int) -> real {
    (if l <= i {
        v
    } else {
        0real
    }) - (if r <= i {
        v
    } else {
        0real
    })
}

/// Adding a range puts its weight on the running sums of its cells, and
/// on those only: from `l` up to `r`, where `l <= r`.
pub proof fn lemma_range_added_running_sum(s: Seq<real>, l: int, r: int, v: real, i: int)
    requires
        0 <= l < s.len(),
        0 <= r,
        -1 <= i < s.len(),
    ensures
        running_sum(range_added(s, l, r, v), i) == running_sum(s, i) + range_part(l, r, v, i),
    decreases i + 1,
{
    if i >= 0 {
        lemma_range_added_running_sum(s, l, r, v, i - 1);
    }
}

/// Adds `value` to the cells from `l` on and takes it off again from `r`
/// on: `value` is added at `l` and, where `r` is within the array, taken
/// off at `r`. Where a new entry has no 64-bit form the array stays as it
/// is and the result is `false`.
pub fn add_range(array: &mut Vec<Num>, l: usize, r: usize, value: &Num) -> (done: bool)
    requires
        table_wf(old(array)@),
        value.wf(),
        l < old(array)@.len(),
    ensures
        table_wf(final(array)@),
        final(array)@.len() == old(array)@.len(),
        done <==> range_add_fits(values(old(array)@), l as int, r as int, value@),
        done ==> values(final(array)@) == range_added(
            values(old(array)@),
            l as int,
            r as int,
            value@,
        ),
        !done ==> final(array)@ == old(array)@,
{
    let raised = match array[l].checked_add(value) {
        Some(raised) => raised,
        None => {
            return false;
        },
    };
    if r < array.len() {
        let before = if r == l {
            raised
        } else {
            array[r]
        };
        let lowered = match before.checked_sub(value) {
            Some(lowered) => lowered,
            None => {
                return false;
            },
        };
        array.set(l, raised);
        array.set(r, lowered);
    } else {
        array.set(l, raised);
    }
    proof {
        assert(values(array@) =~= range_added(values(old(array)@), l as int, r as int, value@));
    }
    true
}

/// Replaces each entry by the sum of the entries up to and with it. Where
/// a sum has no 64-bit form the array stays as it is and the result is
/// `false`.
pub fn prefix_sum(array: &mut Vec<Num>) -> (done: bool)
    requires
        table_wf(old(array)@),
    ensures
        table_wf(final(array)@),
        final(array)@.len() == old(array)@.len(),
        done <==> forall|i: int|
            0 <= i < old(array)@.len() ==> representable(
                #[trigger] running_sum(values(old(array)@), i),
            ),
        done ==> forall|i: int|
            0 <= i < final(array)@.len() ==> (#[trigger] final(array)@[i])@ == running_sum(
                values(old(array)@),
                i,
            ),
        !done ==> final(array)@ == old(array)@,
{
    let mut sums: Vec<Num> = Vec::new();
    let mut total = Num::from_integer(0);
    let mut i: usize = 0;
    while i < array.len()
        invariant
            array@ == old(array)@,
            table_wf(array@),
            0 <= i <= array@.len(),
            total.wf(),
            total@ == running_sum(values(array@), i - 1),
            table_wf(sums@),
            sums@.len() == i,
            forall|j: int|
                0 <= j < i ==> (#[trigger] sums@[j])@ == running_sum(values(array@), j),
            forall|j: int|
                0 <= j < i ==> representable(#[trigger] running_sum(values(array@), j)),
        decreases array@.len() - i,
    {
        assert(values(array@)[i as int] == array@[i as int]@);
        total = match total.checked_add(&array[i]) {
            Some(total) => total,
            None => {
                assert(!representable(running_sum(values(array@), i as int)));
                return false;
            },
        };
        proof {
            total.lemma_representable();
        }
        sums.push(total);
        i += 1;
    }
    *array = sums;
    true
}

/// The difference array of the masses on a board of `cells` cells: each
/// mass that is not empty goes in as a range.
pub open spec fn difference_array(s: Seq<MassView>, cells: int) -> Seq<real>
    decreases s.len(),
{
    if s.len() == 0 {
        Seq::new(cells as nat, |i: int| 0real)
    } else {
        let m = s.last();
        let before = difference_array(s.drop_last(), cells);
        if m.first <= m.last {
            range_added(before, m.first, m.last + 1, m.weight)
        } else {
            before
        }
    }
}

/// The difference array can be built in 64 bits.
pub open spec fn difference_fits(s: Seq<MassView>, cells: int) -> bool
    decreases s.len(),
{
    if s.len() == 0 {
        true
    } else {
        let m = s.last();
        &&& difference_fits(s.drop_last(), cells)
        &&& m.first <= m.last ==> range_add_fits(
            difference_array(s.drop_last(), cells),
            m.first,
            m.last + 1,
            m.weight,
        )
    }
}

proof fn lemma_zero_running_sum(cells: int, i: int)
    requires
        -1 <= i < cells,
    ensures
        running_sum(Seq::new(cells as nat, |i: int| 0real), i) == 0real,
    decreases i + 1,
{
    if i >= 0 {
        lemma_zero_running_sum(cells, i - 1);
    }
}

proof fn lemma_difference_len(s: Seq<MassView>, cells: int)
    requires
        0 <= cells,
        on_board(s, cells),
    ensures
        difference_array(s, cells).len() == cells,
    decreases s.len(),
{
    if s.len() > 0 {
        lemma_confined_prefix(s, 0, cells - 1);
        lemma_difference_len(s.drop_last(), cells);
    }
}

/// The running sums of the difference array of the masses are what the
/// masses add to each cell.
pub proof fn lemma_difference_array(s: Seq<MassView>, cells: int, cell: int)
    requires
        on_board(s, cells),
        0 <= cell < cells,
    ensures
        difference_array(s, cells).len() == cells,
        running_sum(difference_array(s, cells), cell) == cell_total(s, cell),
    decreases s.len(),
{
    lemma_difference_len(s, cells);
    if s.len() == 0 {
        lemma_zero_running_sum(cells, cell);
    } else {
        let m = s.last();
        lemma_confined_prefix(s, 0, cells - 1);
        lemma_difference_array(s.drop_last(), cells, cell);
        if m.first <= m.last {
            lemma_range_added_running_sum(
                difference_array(s.drop_last(), cells),
                m.first,
                m.last + 1,
                m.weight,
                cell,
            );
        }
    }
}

/// The total of each cell of a board of `cells` cells: the masses go into
/// a difference array, whose running sums are the totals.
///
/// The result is `None` exactly if an entry of the difference array or a
/// total has no 64-bit form.
pub fn histogram(masses: &Vec<Mass>, cells: usize) -> (r: Option<Vec<Num>>)
    requires
        masses_wf(masses@),
        on_board(views(masses@), cells as int),
    ensures
        r is Some <==> difference_fits(views(masses@), cells as int) && forall|c: int|
            0 <= c < cells ==> representable(#[trigger] cell_total(views(masses@), c)),
        r matches Some(h) ==> {
            &&& table_wf(h@)
            &&& h@.len() == cells
            &&& forall|c: int|
                0 <= c < cells ==> (#[trigger] h@[c])@ == cell_total(views(masses@), c)
        },
{
    let mut array: Vec<Num> = Vec::new();
    let mut c: usize = 0;
    while c < cells
        invariant
            0 <= c <= cells,
            array@.len() == c,
            table_wf(array@),
            forall|i: int| 0 <= i < c ==> (#[trigger] array@[i])@ == 0real,
        decreases cells - c,
    {
        array.push(Num::from_integer(0));
        c += 1;
    }
    let ghost all = views(masses@);
    proof {
        assert(values(array@) =~= difference_array(all.take(0), cells as int));
    }
    let mut i: usize = 0;
    while i < masses.len()
        invariant
            masses_wf(masses@),
            all == views(masses@),
            on_board(all, cells as int),
            0 <= i <= masses@.len(),
            table_wf(array@),
            array@.len() == cells,
            values(array@) == difference_array(all.take(i as int), cells as int),
            difference_fits(all.take(i as int), cells as int),
        decreases masses@.len() - i,
    {
        let m = &masses[i];
        proof {
            assert(all[i as int] == m@);
            assert(all.take(i + 1).drop_last() =~= all.take(i as int));
            assert(all.take(i + 1).last() == m@);
        }
        let done = m.first > m.last || add_range(
            &mut array,
            m.first as usize,
            m.last as usize + 1,
            &m.weight,
        );
        if !done {
            proof {
                assert(!difference_fits(all.take(i + 1), cells as int));
                if difference_fits(all, cells as int) {
                    lemma_difference_fits_prefix(all, cells as int, i + 1);
                }
            }
            return None;
        }
        i += 1;
    }
    proof {
        assert(all.take(masses@.len() as int) =~= all);
        assert forall|c: int|
            #![trigger running_sum(values(array@), c)]
            #![trigger cell_total(all, c)]
            0 <= c < cells implies running_sum(values(array@), c) == cell_total(all, c) by {
            lemma_difference_array(all, cells as int, c);
        }
    }
    let ghost before = values(array@);
    if prefix_sum(&mut array) {
        Some(array)
    } else {
        proof {
            let c = choose|c: int|
                0 <= c < cells && !representable(#[trigger] running_sum(before, c));
            assert(!representable(cell_total(all, c)));
        }
        None
    }
}

/// If the difference array of the masses can be built, so can that of
/// the first `k` of them.
proof fn lemma_difference_fits_prefix(s: Seq<MassView>, cells: int, k: int)
    requires
        0 <= k <= s.len(),
        difference_fits(s, cells),
    ensures
        difference_fits(s.take(k), cells),
    decreases s.len(),
{
    if k < s.len() {
        assert(s.drop_last().take(k) =~= s.take(k));
        lemma_difference_fits_prefix(s.drop_last(), cells, k);
    } else {
        assert(s.take(k) =~= s);
    }
}

/// The sum of the entries from `from` up to, and without, `upto`.
pub open spec fn window_sum(s: Seq<real>, from: int, upto: int) -> real
    decreases upto - from,
{
    if upto <= from {
        0real
    } else {
        window_sum(s, from, upto - 1) + s[upto - 1]
    }
}

/// Where the window of `span` cells that starts at `i` ends on a board of
/// `cells` cells.
pub open spec fn window_end(i: int, span: int, cells: int) -> int {
    if i + span < cells {
        i + span
    } else {
        cells
    }
}

/// The sums of the window that starts at `i` have 64-bit forms.
pub open spec fn window_fits(s: Seq<real>, i: int, span: int) -> bool {
    forall|u: int|
        i < u <= window_end(i, span, s.len() as int) ==> representable(
            #[trigger] window_sum(s, i, u),
        )
}

/// The distribution of the positions of entities that start at `span`
/// neighbouring cells, given the totals for the last of these: an entity
/// that starts `j` cells before the last is `j` cells before it ever after,
/// so each cell gets the totals of the `span` cells from it on, as far as
/// the board goes.
///
/// The result is `None` exactly if one of the sums has no 64-bit form.
pub fn spread_over_spawns(totals: &Vec<Num>, span: usize) -> (r: Option<Vec<Num>>)
    requires
        table_wf(totals@),
    ensures
        r is Some <==> forall|i: int|
            0 <= i < totals@.len() ==> #[trigger] window_fits(values(totals@), i, span as int),
        r matches Some(d) ==> {
            &&& table_wf(d@)
            &&& d@.len() == totals@.len()
            &&& forall|i: int|
                0 <= i < d@.len() ==> (#[trigger] d@[i])@ == window_sum(
                    values(totals@),
                    i,
                    window_end(i, span as int, totals@.len() as int),
                )
        },
{
    let cells = totals.len();
    let mut out: Vec<Num> = Vec::new();
    let mut i: usize = 0;
    while i < cells
        invariant
            table_wf(totals@),
            cells == totals@.len(),
            0 <= i <= cells,
            table_wf(out@),
            out@.len() == i,
            forall|j: int|
                0 <= j < i ==> (#[trigger] out@[j])@ == window_sum(
                    values(totals@),
                    j,
                    window_end(j, span as int, cells as int),
                ),
            forall|j: int| 0 <= j < i ==> #[trigger] window_fits(values(totals@), j, span as int),
        decreases cells - i,
    {
        let end = if span < cells - i {
            i + span
        } else {
            cells
        };
        let mut sum = Num::from_integer(0);
        let mut k = i;
        while k < end
            invariant
                table_wf(totals@),
                cells == totals@.len(),
                0 <= i <= k <= end <= cells,
                end == window_end(i as int, span as int, cells as int),
                sum.wf(),
                sum@ == window_sum(values(totals@), i as int, k as int),
                forall|u: int|
                    i < u <= k ==> representable(#[trigger] window_sum(values(totals@), i as int, u)),
            decreases end - k,
        {
            assert(values(totals@)[k as int] == totals@[k as int]@);
            sum = match sum.checked_add(&totals[k]) {
                Some(sum) => sum,
                None => {
                    assert(!representable(window_sum(values(totals@), i as int, k + 1)));
                    assert(!window_fits(values(totals@), i as int, span as int));
                    return None;
                },
            };
            proof {
                sum.lemma_representable();
            }
            k += 1;
        }
        assert(window_fits(values(totals@), i as int, span as int));
        out.push(sum);
        i += 1;
    }
    Some(out)
}

} // verus!
