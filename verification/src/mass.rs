//! Weighted runs of cells: what an evaluator adds to the histogram.

use crate::rational::{ceil, Num};
use vstd::prelude::*;

verus! {

/// A weight that is added to each of the cells from `first` to `last`.
pub struct MassView {
    pub first: int,
    pub last: int,
    pub weight: real,
}

/// A weight that is added to each of the cells from `first` to `last`; to
/// none where `last < first`.
#[derive(Clone, Copy, Debug, PartialEq, Eq)]
pub struct Mass {
    pub first: i64,
    pub last: i64,
    pub weight: Num,
}

impl View for Mass {
    type V = MassView;

    open spec fn view(&self) -> MassView {
        MassView { first: self.first as int, last: self.last as int, weight: self.weight@ }
    }
}

/// The masses of a distribution, in the order in which they are added,
/// and the exact bounds of its support.
pub struct ExactDistribution {
    pub masses: Vec<Mass>,
    pub min: Num,
    pub max: Num,
}

impl ExactDistribution {
    /// The numbers of the distribution are in lowest terms.
    pub open spec fn wf(&self) -> bool {
        masses_wf(self.masses@) && self.min.wf() && self.max.wf()
    }
}

/// The views of the masses, in order.
pub open spec fn views(s: Seq<Mass>) -> Seq<MassView> {
    Seq::new(s.len(), |i: int| s[i]@)
}

/// Every weight is in lowest terms.
pub open spec fn masses_wf(s: Seq<Mass>) -> bool {
    forall|i: int| 0 <= i < s.len() ==> (#[trigger] s[i]).weight.wf()
}

/// The views of two runs of masses, one after the other.
pub proof fn lemma_views_concat(a: Seq<Mass>, b: Seq<Mass>)
    ensures
        views(a + b) == views(a) + views(b),
        masses_wf(a) && masses_wf(b) ==> masses_wf(a + b),
{
    assert(views(a + b) =~= views(a) + views(b));
}

/// What the masses add to the cell `cell`, taken in order.
pub open spec fn cell_total(s: Seq<MassView>, cell: int) -> real
    decreases s.len(),
{
    if s.len() == 0 {
        0real
    } else {
        let m = s.last();
        cell_total(s.drop_last(), cell) + if m.first <= cell <= m.last {
            m.weight
        } else {
            0real
        }
    }
}

/// What the masses add to all cells together.
pub open spec fn total(s: Seq<MassView>) -> real
    decreases s.len(),
{
    if s.len() == 0 {
        0real
    } else {
        let m = s.last();
        total(s.drop_last()) + if m.first <= m.last {
            m.weight * (m.last - m.first + 1) as real
        } else {
            0real
        }
    }
}

/// The total of two runs of masses is the sum of their totals.
pub proof fn lemma_total_concat(a: Seq<MassView>, b: Seq<MassView>)
    ensures
        total(a + b) == total(a) + total(b),
    decreases b.len(),
{
    if b.len() == 0 {
        assert(a + b =~= a);
    } else {
        assert((a + b).drop_last() =~= a + b.drop_last());
        assert((a + b).last() == b.last());
        lemma_total_concat(a, b.drop_last());
    }
}

/// What two runs of masses add to a cell is the sum of what each adds.
pub proof fn lemma_cell_total_concat(a: Seq<MassView>, b: Seq<MassView>, cell: int)
    ensures
        cell_total(a + b, cell) == cell_total(a, cell) + cell_total(b, cell),
    decreases b.len(),
{
    if b.len() == 0 {
        assert(a + b =~= a);
    } else {
        assert((a + b).drop_last() =~= a + b.drop_last());
        assert((a + b).last() == b.last());
        lemma_cell_total_concat(a, b.drop_last(), cell);
    }
}

/// What the masses of two parts add to a cell does not depend on which
/// part comes first.
pub proof fn lemma_cell_total_commutes(a: Seq<MassView>, b: Seq<MassView>, cell: int)
    ensures
        cell_total(a + b, cell) == cell_total(b + a, cell),
{
    lemma_cell_total_concat(a, b, cell);
    lemma_cell_total_concat(b, a, cell);
}

/// What the masses of three parts add to a cell does not depend on which
/// two of them are put together first.
pub proof fn lemma_cell_total_associates(
    a: Seq<MassView>,
    b: Seq<MassView>,
    c: Seq<MassView>,
    cell: int,
)
    ensures
        cell_total((a + b) + c, cell) == cell_total(a + (b + c), cell),
{
    assert((a + b) + c =~= a + (b + c));
}

/// The least and the greatest displacement of two parts taken together.
pub open spec fn merged_bounds(a: (real, real), b: (real, real)) -> (real, real) {
    (
        if b.0 < a.0 {
            b.0
        } else {
            a.0
        },
        if a.1 < b.1 {
            b.1
        } else {
            a.1
        },
    )
}

/// The bounds of parts taken together do not depend on the order in which
/// the parts are taken, nor on how they are grouped; the bounds of no part
/// at all, 1000 and 0, change nothing where no displacement is above 1000
/// or below 0.
pub proof fn lemma_merged_bounds(a: (real, real), b: (real, real), c: (real, real))
    ensures
        merged_bounds(a, b) == merged_bounds(b, a),
        merged_bounds(merged_bounds(a, b), c) == merged_bounds(a, merged_bounds(b, c)),
        a.0 <= 1000real && 0real <= a.1 ==> merged_bounds((1000real, 0real), a) == a,
{
}

/// Every mass lies within the cells from `low` to `high`, and none ends
/// before the cell before its first.
pub open spec fn confined(s: Seq<MassView>, low: int, high: int) -> bool {
    forall|i: int|
        0 <= i < s.len() ==> low <= (#[trigger] s[i]).first <= s[i].last + 1 <= high + 1
}

/// The bounds `min` and `max` hold the masses: for entities that start at
/// `span` neighbouring cells, of which the masses are those of the last,
/// no mass lies below the cell of `min` or above the cell after `max`.
pub open spec fn supported(s: Seq<MassView>, span: int, min: real, max: real) -> bool {
    confined(s, min.floor() + span - 1, ceil(max))
}

/// The masses make up a distribution with the bounds `min` and `max`, for
/// entities that start at `span` neighbouring cells: the bounds hold the
/// masses and are in order, and the masses add up to the probability of
/// one spawn position.
pub open spec fn is_distribution(s: Seq<MassView>, min: real, max: real, span: int) -> bool {
    &&& supported(s, span, min, max)
    &&& min <= max
    &&& total(s) * span as real == 1real
}

/// Masses that lie within a run of cells lie within every run that holds
/// it.
pub proof fn lemma_widen(s: Seq<MassView>, low: int, high: int, lower: int, higher: int)
    requires
        confined(s, low, high),
        lower <= low,
        high <= higher,
    ensures
        confined(s, lower, higher),
{
}

/// Masses that lie within a run of cells still do without the last of
/// them.
pub proof fn lemma_confined_prefix(s: Seq<MassView>, low: int, high: int)
    requires
        confined(s, low, high),
        s.len() > 0,
    ensures
        confined(s.drop_last(), low, high),
{
    assert forall|i: int| 0 <= i < s.drop_last().len() implies low <= (
    #[trigger] s.drop_last()[i]).first <= s.drop_last()[i].last + 1 <= high + 1 by {
        assert(s.drop_last()[i] == s[i]);
    }
}

/// Two runs of masses that lie within a run of cells lie there together.
pub proof fn lemma_confined_concat(a: Seq<MassView>, b: Seq<MassView>, low: int, high: int)
    requires
        confined(a, low, high),
        confined(b, low, high),
    ensures
        confined(a + b, low, high),
{
    assert forall|i: int| 0 <= i < (a + b).len() implies low <= (#[trigger] (a + b)[i]).first <= (a
        + b)[i].last + 1 <= high + 1 by {
        if i < a.len() {
            assert((a + b)[i] == a[i]);
        } else {
            assert((a + b)[i] == b[i - a.len()]);
        }
    }
}

/// Bounds that hold the masses still hold them when they are made wider.
pub proof fn lemma_supported_wider(
    s: Seq<MassView>,
    span: int,
    min: real,
    max: real,
    lower: real,
    higher: real,
)
    requires
        supported(s, span, min, max),
        lower <= min,
        max <= higher,
    ensures
        supported(s, span, lower, higher),
{
    lemma_widen(s, min.floor() + span - 1, ceil(max), lower.floor() + span - 1, ceil(higher));
}

/// Every mass lies on a board of `cells` cells.
pub open spec fn on_board(s: Seq<MassView>, cells: int) -> bool {
    confined(s, 0, cells - 1)
}

/// Every mass lies on a board of `cells` cells, on cells from which an
/// entity that started `span - 1` cells lower is still on the board.
pub open spec fn within_board(s: Seq<MassView>, span: int, cells: int) -> bool {
    confined(s, span - 1, cells - 1)
}

/// Masses whose bounds are on the board lie on the board, for every spawn
/// position.
pub proof fn lemma_bounds_on_board(s: Seq<MassView>, span: int, min: real, max: real, cells: int)
    requires
        supported(s, span, min, max),
        1 <= span,
        0real <= min,
        max <= (cells - 1) as real,
    ensures
        within_board(s, span, cells),
        on_board(s, cells),
{
    lemma_widen(s, min.floor() + span - 1, ceil(max), span - 1, cells - 1);
    lemma_widen(s, span - 1, cells - 1, 0, cells - 1);
}

} // verus!
