//! Sorting rational numbers by value.

use crate::common::table_wf;
use crate::rational::Num;
use vstd::prelude::*;
use vstd::seq_lib::{lemma_multiset_commutative, to_multiset_build};

verus! {

/// The numbers are in ascending order of value.
pub open spec fn ascending(s: Seq<Num>) -> bool {
    forall|a: int, b: int| 0 <= a <= b < s.len() ==> (#[trigger] s[a])@ <= (#[trigger] s[b])@
}

/// The numbers of two ascending runs in one ascending run.
fn merge(a: &Vec<Num>, b: &Vec<Num>) -> (out: Vec<Num>)
    requires
        table_wf(a@),
        table_wf(b@),
        ascending(a@),
        ascending(b@),
    ensures
        table_wf(out@),
        ascending(out@),
        out@.to_multiset() == a@.to_multiset().add(b@.to_multiset()),
{
    let mut out: Vec<Num> = Vec::new();
    let mut i: usize = 0;
    let mut j: usize = 0;
    proof {
        broadcast use vstd::seq_lib::group_to_multiset_ensures;
        broadcast use vstd::multiset::group_multiset_axioms;

        assert(a@.subrange(0, 0) =~= Seq::<Num>::empty());
        assert(b@.subrange(0, 0) =~= Seq::<Num>::empty());
        assert(out@.to_multiset() =~= a@.subrange(0, 0).to_multiset().add(
            b@.subrange(0, 0).to_multiset(),
        ));
    }
    while i < a.len() || j < b.len()
        invariant
            0 <= i <= a@.len(),
            0 <= j <= b@.len(),
            table_wf(a@),
            table_wf(b@),
            ascending(a@),
            ascending(b@),
            table_wf(out@),
            ascending(out@),
            out@.to_multiset() == a@.subrange(0, i as int).to_multiset().add(
                b@.subrange(0, j as int).to_multiset(),
            ),
            forall|k: int|
                0 <= k < out@.len() ==> (i < a@.len() ==> (#[trigger] out@[k])@ <= a@[i as int]@) && (
                j < b@.len() ==> out@[k]@ <= b@[j as int]@),
        decreases a@.len() - i + b@.len() - j,
    {
        let left = if i < a.len() && j < b.len() {
            !b[j].lt(&a[i])
        } else {
            i < a.len()
        };
        let ghost before = out@;
        if left {
            let x = a[i];
            out.push(x);
            proof {
                let taken = a@.subrange(0, i as int);
                let other = b@.subrange(0, j as int).to_multiset();
                assert(out@ =~= before.push(x));
                assert(a@.subrange(0, i + 1) =~= taken.push(x));
                to_multiset_build(before, x);
                to_multiset_build(taken, x);
                assert(taken.to_multiset().add(other).insert(x) =~= taken.to_multiset().insert(
                    x,
                ).add(other));
                assert forall|p: int, q: int| 0 <= p <= q < out@.len() implies (
                #[trigger] out@[p])@ <= (#[trigger] out@[q])@ by {
                    if q < before.len() {
                        assert(before[p]@ <= before[q]@);
                    } else if p < before.len() {
                        assert(before[p]@ <= x@);
                    }
                }
                if i + 1 < a@.len() {
                    assert(a@[i as int]@ <= a@[i + 1]@);
                }
            }
            i += 1;
        } else {
            let x = b[j];
            out.push(x);
            proof {
                let taken = b@.subrange(0, j as int);
                let other = a@.subrange(0, i as int).to_multiset();
                assert(out@ =~= before.push(x));
                assert(b@.subrange(0, j + 1) =~= taken.push(x));
                to_multiset_build(before, x);
                to_multiset_build(taken, x);
                assert(other.add(taken.to_multiset()).insert(x) =~= other.add(
                    taken.to_multiset().insert(x),
                ));
                assert forall|p: int, q: int| 0 <= p <= q < out@.len() implies (
                #[trigger] out@[p])@ <= (#[trigger] out@[q])@ by {
                    if q < before.len() {
                        assert(before[p]@ <= before[q]@);
                    } else if p < before.len() {
                        assert(before[p]@ <= x@);
                    }
                }
                if j + 1 < b@.len() {
                    assert(b@[j as int]@ <= b@[j + 1]@);
                }
            }
            j += 1;
        }
    }
    proof {
        assert(a@.subrange(0, i as int) =~= a@);
        assert(b@.subrange(0, j as int) =~= b@);
    }
    out
}

/// The numbers from `from` up to `to` in ascending order.
fn sort_range(v: &Vec<Num>, from: usize, to: usize) -> (out: Vec<Num>)
    requires
        from <= to <= v@.len(),
        table_wf(v@),
    ensures
        table_wf(out@),
        ascending(out@),
        out@.to_multiset() == v@.subrange(from as int, to as int).to_multiset(),
    decreases to - from,
{
    if to - from <= 1 {
        let mut out: Vec<Num> = Vec::new();
        if from < to {
            out.push(v[from]);
        }
        proof {
            assert(out@ =~= v@.subrange(from as int, to as int));
        }
        out
    } else {
        let mid = from + (to - from) / 2;
        let left = sort_range(v, from, mid);
        let right = sort_range(v, mid, to);
        proof {
            let a = v@.subrange(from as int, mid as int);
            let b = v@.subrange(mid as int, to as int);
            assert(v@.subrange(from as int, to as int) =~= a + b);
            lemma_multiset_commutative(a, b);
        }
        merge(&left, &right)
    }
}

/// Sorts the numbers by value, ascending: the vector holds the same
/// numbers as before, each as often as before.
pub fn sort_by_value(v: &mut Vec<Num>)
    requires
        table_wf(old(v)@),
    ensures
        table_wf(final(v)@),
        ascending(final(v)@),
        final(v)@.to_multiset() == old(v)@.to_multiset(),
{
    let sorted = sort_range(v, 0, v.len());
    proof {
        assert(v@.subrange(0, v@.len() as int) =~= v@);
    }
    *v = sorted;
}

} // verus!
