//! The climb from the all-zero measure, one step after the other, by which
//! an edge finds the value that it asks for.

use vstd::prelude::*;
use crate::lattice::{
    at, fits, height, lemma_height_bounds, lemma_height_order, lemma_successor, value_fits,
    value_ge, value_gt, value_inc, zeros, Value,
};

verus! {

/// The value that `k` steps from the all-zero measure reach under `bound`.
pub open spec fn climbed(bound: Seq<u32>, k: nat) -> Value
    decreases k,
{
    if k == 0 {
        Value::Measure(zeros(bound.len()))
    } else {
        value_inc(climbed(bound, (k - 1) as nat), bound)
    }
}

/// Whether `c` has climbed far enough for a vertex of priority `prio` whose
/// successor holds `target`: at an even priority `c` has to be no less than
/// `target` up to `prio`, at an odd one it has to be greater.
pub open spec fn settles(c: Value, target: Value, prio: u32) -> bool {
    if prio % 2 == 0 {
        value_ge(c, target, prio as int)
    } else {
        value_gt(c, target, prio as int)
    }
}

/// The number of steps from the all-zero measure at which the climb stops:
/// the first at or after `k` whose value settles, and `limit` at the latest.
pub open spec fn steps(bound: Seq<u32>, target: Value, prio: u32, k: nat, limit: nat) -> nat
    decreases limit - k,
{
    if k >= limit || settles(climbed(bound, k), target, prio) {
        k
    } else {
        steps(bound, target, prio, k + 1, limit)
    }
}

/// The number of steps after which every climb under `bound` has reached `Top`.
pub open spec fn summit(bound: Seq<u32>) -> nat {
    (height(bound, bound.len() - 1) + 1) as nat
}

/// What an edge to a successor that holds `target` asks of a vertex of
/// priority `prio`: `Top` where the successor holds `Top`, and else the first
/// value on the climb from the all-zero measure that settles.
pub open spec fn edge_value(bound: Seq<u32>, prio: u32, target: Value) -> Value {
    match target {
        Value::Top => Value::Top,
        Value::Measure(_) => climbed(bound, steps(bound, target, prio, 0, summit(bound))),
    }
}

/// Every value on the climb fits `bound`; a measure reached after `k` steps
/// is at least `k` high, so the climb is at `Top` after `summit` steps.
pub proof fn lemma_climbed(bound: Seq<u32>, k: nat)
    ensures
        value_fits(climbed(bound, k), bound),
        match climbed(bound, k) {
            Value::Top => true,
            Value::Measure(m) => k <= height(m, bound.len() - 1) <= height(
                bound,
                bound.len() - 1,
            ),
        },
        k >= summit(bound) ==> climbed(bound, k) == Value::Top,
    decreases k,
{
    let n: int = bound.len() as int;
    if k == 0 {
        let z = zeros(bound.len());
        assert(fits(z, bound));
        lemma_height_bounds(z, bound, n - 1);
    } else {
        lemma_climbed(bound, (k - 1) as nat);
        match climbed(bound, (k - 1) as nat) {
            Value::Top => {},
            Value::Measure(m) => {
                lemma_successor(m, bound);
                match value_inc(Value::Measure(m), bound) {
                    Value::Top => {},
                    Value::Measure(r) => {
                        lemma_height_order(r, m, bound, n - 1);
                        lemma_height_bounds(r, bound, n - 1);
                    },
                }
            },
        }
    }
}

/// The steps that a climb takes are those before which nothing settles.
pub proof fn lemma_steps(bound: Seq<u32>, target: Value, prio: u32, k: nat, limit: nat, stop: nat)
    requires
        k <= stop <= limit,
        forall|j: nat| k <= j < stop ==> !settles(#[trigger] climbed(bound, j), target, prio),
        stop == limit || settles(climbed(bound, stop), target, prio),
    ensures
        steps(bound, target, prio, k, limit) == stop,
    decreases stop - k,
{
    if k < stop {
        assert(!settles(climbed(bound, k), target, prio));
        lemma_steps(bound, target, prio, k + 1, limit, stop);
    }
}

/// The number of measures within `bound` that differ at some odd position
/// up to `i`: for each such position one more than `bound` holds there,
/// multiplied.
pub open spec fn measures_within(bound: Seq<u32>, i: int) -> int
    decreases i,
{
    if i < 1 {
        1
    } else if i % 2 == 0 {
        measures_within(bound, i - 1)
    } else {
        (at(bound, i) + 1) * measures_within(bound, i - 1)
    }
}

/// A climb is at `Top` after no more steps than there are measures within
/// `bound`: on its way to `Top` a value changes no more often than that.
pub proof fn lemma_summit_within_measures(bound: Seq<u32>, i: int)
    ensures
        1 <= height(bound, i) + 1 <= measures_within(bound, i),
    decreases i,
{
    if i >= 1 {
        lemma_summit_within_measures(bound, i - 1);
        if i % 2 == 1 {
            let b: int = at(bound, i);
            let h: int = height(bound, i - 1);
            let p: int = measures_within(bound, i - 1);
            assert(b + h + 1 <= (b + 1) * p) by (nonlinear_arith)
                requires
                    b >= 0,
                    1 <= h + 1 <= p,
            ;
        }
    }
}

} // verus!
