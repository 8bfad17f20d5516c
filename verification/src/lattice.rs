//! The mathematics of measures: sequences of counters of which only the odd
//! positions count, their order, and the step from one measure to the next.

use vstd::prelude::*;

verus! {

/// What a vertex holds: a measure, or the element that lies above every measure.
pub enum Value {
    Top,
    Measure(Seq<u32>),
}

/// The counter at position `k`, read as 0 where the sequence has no such position.
pub open spec fn at(m: Seq<u32>, k: int) -> int {
    if 0 <= k < m.len() {
        m[k] as int
    } else {
        0
    }
}

/// The first odd position, scanning from `i` down to 1, at which `a` and `b`
/// differ; 0 where they differ at none.
pub open spec fn split(a: Seq<u32>, b: Seq<u32>, i: int) -> int
    decreases i,
{
    if i < 1 {
        0
    } else if i % 2 == 0 {
        split(a, b, i - 1)
    } else if at(a, i) != at(b, i) {
        i
    } else {
        split(a, b, i - 1)
    }
}

/// `a` and `b` agree at every odd position up to and with `i`.
pub open spec fn eq_upto(a: Seq<u32>, b: Seq<u32>, i: int) -> bool {
    forall|k: int|
        #![trigger at(a, k)]
        #![trigger at(b, k)]
        1 <= k <= i && k % 2 == 1 ==> at(a, k) == at(b, k)
}

/// Scanning the odd positions from `i` down to 1, the first one at which `a`
/// and `b` differ holds the larger counter in `a`.
pub open spec fn gt_upto(a: Seq<u32>, b: Seq<u32>, i: int) -> bool {
    let p = split(a, b, i);
    p > 0 && at(a, p) > at(b, p)
}

/// The index up to which two measures are compared when nothing cuts the
/// comparison short: the last position of the longer one.
pub open spec fn span(a: Seq<u32>, b: Seq<u32>) -> int {
    if a.len() >= b.len() {
        a.len() - 1
    } else {
        b.len() - 1
    }
}

/// `a` and `b` are equal up to `i`: both are `Top`, or both are measures
/// that agree at every odd position up to `i`.
pub open spec fn value_eq(a: Value, b: Value, i: int) -> bool {
    match (a, b) {
        (Value::Top, Value::Top) => true,
        (Value::Measure(x), Value::Measure(y)) => eq_upto(x, y, i),
        _ => false,
    }
}

/// `a` is greater than `b` up to `i`: `Top` is greater than every measure
/// and not greater than itself, and measures compare as `gt_upto` says.
pub open spec fn value_gt(a: Value, b: Value, i: int) -> bool {
    match (a, b) {
        (Value::Top, Value::Top) => false,
        (Value::Top, _) => true,
        (_, Value::Top) => false,
        (Value::Measure(x), Value::Measure(y)) => gt_upto(x, y, i),
    }
}

/// `a` is greater than `b` up to `i`, or equal to it.
pub open spec fn value_ge(a: Value, b: Value, i: int) -> bool {
    value_gt(a, b, i) || value_eq(a, b, i)
}

/// `a` is neither greater than `b` up to `i` nor equal to it.
pub open spec fn value_lt(a: Value, b: Value, i: int) -> bool {
    !value_ge(a, b, i)
}

/// `a` is not greater than `b` up to `i`.
pub open spec fn value_le(a: Value, b: Value, i: int) -> bool {
    !value_gt(a, b, i)
}

/// What `split` returns: 0 exactly where the two agree up to `i`, and else an
/// odd position at which they differ and above which, up to `i`, they agree.
pub proof fn lemma_split(a: Seq<u32>, b: Seq<u32>, i: int)
    ensures
        split(a, b, i) == split(b, a, i),
        0 <= split(a, b, i),
        split(a, b, i) <= i || i < 1,
        split(a, b, i) == 0 <==> eq_upto(a, b, i),
        split(a, b, i) > 0 ==> split(a, b, i) % 2 == 1 && at(a, split(a, b, i)) != at(
            b,
            split(a, b, i),
        ),
        forall|k: int|
            #![trigger at(a, k)]
            #![trigger at(b, k)]
            split(a, b, i) < k <= i && k % 2 == 1 ==> at(a, k) == at(b, k),
    decreases i,
{
    if i < 1 {
    } else if i % 2 == 0 {
        lemma_split(a, b, i - 1);
    } else if at(a, i) != at(b, i) {
    } else {
        lemma_split(a, b, i - 1);
    }
}

/// An odd position at which the two differ, with agreement above it, is the
/// one that `split` finds.
pub proof fn lemma_split_is(a: Seq<u32>, b: Seq<u32>, i: int, q: int)
    requires
        1 <= q <= i,
        q % 2 == 1,
        at(a, q) != at(b, q),
        forall|k: int| #![trigger at(a, k)] q < k <= i && k % 2 == 1 ==> at(a, k) == at(b, k),
    ensures
        split(a, b, i) == q,
    decreases i,
{
    if i % 2 == 0 {
        lemma_split_is(a, b, i - 1, q);
    } else if i != q {
        lemma_split_is(a, b, i - 1, q);
    }
}

/// Of two measures exactly one holds: the first is greater, they are equal,
/// or the second is greater.
pub proof fn lemma_trichotomy(a: Seq<u32>, b: Seq<u32>, i: int)
    ensures
        gt_upto(a, b, i) || eq_upto(a, b, i) || gt_upto(b, a, i),
        !(gt_upto(a, b, i) && eq_upto(a, b, i)),
        !(gt_upto(b, a, i) && eq_upto(a, b, i)),
        !(gt_upto(a, b, i) && gt_upto(b, a, i)),
        eq_upto(a, b, i) == eq_upto(b, a, i),
{
    lemma_split(a, b, i);
    lemma_split(b, a, i);
}

/// Greater than something that is not below a third is greater than the third.
pub proof fn lemma_gt_le(a: Seq<u32>, b: Seq<u32>, c: Seq<u32>, i: int)
    requires
        gt_upto(a, b, i),
        !gt_upto(c, b, i),
    ensures
        gt_upto(a, c, i),
{
    lemma_split(a, b, i);
    lemma_split(c, b, i);
    let p: int = split(a, b, i);
    let r: int = split(c, b, i);
    let q: int = if p >= r { p } else { r };
    assert(at(a, q) > at(c, q));
    assert forall|k: int| #![trigger at(a, k)] q < k <= i && k % 2 == 1 implies at(a, k) == at(
        c,
        k,
    ) by {
        assert(at(a, k) == at(b, k));
        assert(at(c, k) == at(b, k));
    }
    lemma_split_is(a, c, i, q);
}

/// The order up to an index is transitive, in each mix of strict and weak steps.
pub proof fn lemma_transitive(a: Seq<u32>, b: Seq<u32>, c: Seq<u32>, i: int)
    ensures
        gt_upto(a, b, i) && gt_upto(b, c, i) ==> gt_upto(a, c, i),
        gt_upto(a, b, i) && !gt_upto(c, b, i) ==> gt_upto(a, c, i),
        !gt_upto(b, a, i) && gt_upto(b, c, i) ==> gt_upto(a, c, i),
        !gt_upto(a, b, i) && !gt_upto(b, c, i) ==> !gt_upto(a, c, i),
{
    lemma_trichotomy(b, c, i);
    if gt_upto(a, b, i) && !gt_upto(c, b, i) {
        lemma_gt_le(a, b, c, i);
    }
    if !gt_upto(b, a, i) && gt_upto(b, c, i) && !gt_upto(a, c, i) {
        lemma_gt_le(b, c, a, i);
    }
    if !gt_upto(a, b, i) && !gt_upto(b, c, i) && gt_upto(a, c, i) {
        lemma_gt_le(a, c, b, i);
    }
}

/// Beyond the last position of both measures nothing differs, so a scan from
/// `i` finds what a scan from `j` finds.
pub proof fn lemma_split_beyond(a: Seq<u32>, b: Seq<u32>, i: int, j: int)
    requires
        j <= i,
        a.len() <= j + 1,
        b.len() <= j + 1,
    ensures
        split(a, b, i) == split(a, b, j),
    decreases i - j,
{
    if j < i {
        lemma_split_beyond(a, b, i - 1, j);
    }
}

/// The measure of length `n` that holds 0 everywhere.
pub open spec fn zeros(n: nat) -> Seq<u32> {
    Seq::new(n, |k: int| 0u32)
}

/// The highest odd position up to `i` at which `m` lies below `bound`; 0
/// where there is none.
pub open spec fn room(m: Seq<u32>, bound: Seq<u32>, i: int) -> int
    decreases i,
{
    if i < 1 {
        0
    } else if i % 2 == 0 {
        room(m, bound, i - 1)
    } else if at(m, i) < at(bound, i) {
        i
    } else {
        room(m, bound, i - 1)
    }
}

/// `m` with one more at position `p` and 0 at every odd position below `p`.
pub open spec fn raised(m: Seq<u32>, p: int) -> Seq<u32> {
    Seq::new(
        m.len(),
        |k: int|
            if k == p {
                (m[k] + 1) as u32
            } else if k < p && k % 2 == 1 {
                0u32
            } else {
                m[k]
            },
    )
}

/// The step from a measure to the next under `bound`: the highest odd
/// position of `m` that still lies below `bound` goes up by one and the odd
/// positions below it go to 0; where no position lies below `bound`, the step
/// leaves the measures and reaches `Top`.
pub open spec fn successor(m: Seq<u32>, bound: Seq<u32>) -> Value {
    let p = room(m, bound, m.len() - 1);
    if p == 0 {
        Value::Top
    } else {
        Value::Measure(raised(m, p))
    }
}

/// The step of [`successor`] on a value: `Top` stays `Top`.
pub open spec fn value_inc(v: Value, bound: Seq<u32>) -> Value {
    match v {
        Value::Top => Value::Top,
        Value::Measure(m) => successor(m, bound),
    }
}

/// `m` is as long as `bound` and exceeds it at no position.
pub open spec fn within(m: Seq<u32>, bound: Seq<u32>) -> bool {
    &&& m.len() == bound.len()
    &&& forall|k: int| 0 <= k < m.len() ==> #[trigger] m[k] <= bound[k]
}

/// Wherever an odd position of `m` is not 0, every odd position above it is
/// as high as `bound` allows.
pub open spec fn stacked(m: Seq<u32>, bound: Seq<u32>) -> bool {
    forall|j: int, k: int|
        #![trigger m[j], m[k]]
        1 <= j < k < m.len() && j % 2 == 1 && k % 2 == 1 && m[j] > 0 ==> at(m, k) == at(bound, k)
}

/// The measures that the steps from the all-zero measure can reach.
pub open spec fn fits(m: Seq<u32>, bound: Seq<u32>) -> bool {
    within(m, bound) && stacked(m, bound)
}

/// `v` is `Top` or a measure that fits `bound`.
pub open spec fn value_fits(v: Value, bound: Seq<u32>) -> bool {
    match v {
        Value::Top => true,
        Value::Measure(m) => fits(m, bound),
    }
}

/// What `room` returns: 0 exactly where no odd position up to `i` lies below
/// `bound`, and else the highest such position.
pub proof fn lemma_room(m: Seq<u32>, bound: Seq<u32>, i: int)
    ensures
        0 <= room(m, bound, i),
        room(m, bound, i) <= i || i < 1,
        room(m, bound, i) > 0 ==> room(m, bound, i) % 2 == 1 && at(m, room(m, bound, i)) < at(
            bound,
            room(m, bound, i),
        ),
        forall|k: int|
            #![trigger at(m, k)]
            room(m, bound, i) < k <= i && k % 2 == 1 ==> at(m, k) >= at(bound, k),
    decreases i,
{
    if i >= 1 && !(i % 2 == 1 && at(m, i) < at(bound, i)) {
        lemma_room(m, bound, i - 1);
    }
}

/// A measure that equals `bound` at the odd positions has no successor but `Top`.
pub proof fn lemma_successor_of_bound(m: Seq<u32>, bound: Seq<u32>)
    requires
        eq_upto(m, bound, span(m, bound)),
    ensures
        successor(m, bound) == Value::Top,
{
    lemma_room(m, bound, m.len() - 1);
    let p: int = room(m, bound, m.len() - 1);
    if p > 0 {
        assert(at(m, p) == at(bound, p));
    }
}

/// The successor of a measure within `bound` is `Top` only where the measure
/// equals `bound` at the odd positions; else it is a measure that fits
/// `bound` and is greater.
pub proof fn lemma_successor(m: Seq<u32>, bound: Seq<u32>)
    requires
        within(m, bound),
    ensures
        match successor(m, bound) {
            Value::Top => eq_upto(m, bound, m.len() - 1),
            Value::Measure(r) => fits(r, bound) && gt_upto(r, m, m.len() - 1),
        },
{
    let n: int = m.len() as int;
    lemma_room(m, bound, n - 1);
    let p: int = room(m, bound, n - 1);
    if p > 0 {
        let r = raised(m, p);
        assert(within(r, bound));
        assert forall|j: int, k: int|
            #![trigger r[j], r[k]]
            1 <= j < k < r.len() && j % 2 == 1 && k % 2 == 1 && r[j] > 0 implies at(r, k) == at(
            bound,
            k,
        ) by {
            assert(at(m, k) >= at(bound, k));
            assert(m[k] <= bound[k]);
        }
        assert forall|k: int| #![trigger at(r, k)] p < k <= n - 1 && k % 2 == 1 implies at(r, k)
            == at(m, k) by {}
        lemma_split_is(r, m, n - 1, p);
    } else {
        assert forall|k: int|
            #![trigger at(m, k)]
            #![trigger at(bound, k)]
            1 <= k <= n - 1 && k % 2 == 1 implies at(m, k) == at(bound, k) by {
            assert(at(m, k) >= at(bound, k));
            assert(m[k] <= bound[k]);
        }
    }
}

/// The sum of the counters at the odd positions up to `i`.
pub open spec fn height(m: Seq<u32>, i: int) -> int
    decreases i,
{
    if i < 1 {
        0
    } else if i % 2 == 0 {
        height(m, i - 1)
    } else {
        at(m, i) + height(m, i - 1)
    }
}

/// How far a value lies above the all-zero measure: the height of a measure,
/// and one more than the height of `bound` for `Top`.
pub open spec fn rank(v: Value, bound: Seq<u32>) -> int {
    match v {
        Value::Top => height(bound, bound.len() - 1) + 1,
        Value::Measure(m) => height(m, m.len() - 1),
    }
}

/// A measure within `bound` is no higher than `bound`, and as high as the
/// all-zero measure only where it holds 0 at every odd position.
pub proof fn lemma_height_bounds(m: Seq<u32>, bound: Seq<u32>, i: int)
    requires
        within(m, bound),
    ensures
        0 <= height(m, i) <= height(bound, i),
        (forall|k: int| #![trigger at(m, k)] 1 <= k <= i && k % 2 == 1 ==> at(m, k) == 0)
            ==> height(m, i) == 0,
    decreases i,
{
    if i >= 1 {
        lemma_height_bounds(m, bound, i - 1);
        if i % 2 == 1 && i < m.len() {
            assert(m[i] <= bound[i]);
        }
    }
}

/// Among the measures that fit `bound` the greater one is the higher one, and
/// equal ones are equally high.
pub proof fn lemma_height_order(x: Seq<u32>, y: Seq<u32>, bound: Seq<u32>, i: int)
    requires
        within(x, bound),
        fits(y, bound),
        i < bound.len(),
    ensures
        gt_upto(x, y, i) ==> height(x, i) > height(y, i),
        eq_upto(x, y, i) ==> height(x, i) == height(y, i),
    decreases i,
{
    if i >= 1 {
        lemma_height_order(x, y, bound, i - 1);
        lemma_split(x, y, i);
        lemma_split(x, y, i - 1);
        if i % 2 == 1 && at(x, i) != at(y, i) && gt_upto(x, y, i) {
            assert(x[i] <= bound[i]);
            assert forall|k: int| #![trigger at(y, k)] 1 <= k <= i - 1 && k % 2 == 1 implies at(
                y,
                k,
            ) == 0 by {
                if y[k] > 0 {
                    assert(at(y, i) == at(bound, i)) by {
                        let _ = y[i];
                    }
                }
            }
            lemma_height_bounds(y, bound, i - 1);
            lemma_height_bounds(x, bound, i - 1);
        }
    }
}

/// Cutting the comparison short keeps the order of a stacked measure against
/// one within `bound`: what is not greater over all positions is not greater
/// up to `i`.
pub proof fn lemma_cut_keeps_order(x: Seq<u32>, y: Seq<u32>, bound: Seq<u32>, i: int)
    requires
        fits(x, bound),
        within(y, bound),
        !gt_upto(x, y, bound.len() - 1),
        i <= bound.len() - 1,
    ensures
        !gt_upto(x, y, i),
{
    let n: int = bound.len() as int;
    lemma_split(x, y, i);
    lemma_split(x, y, n - 1);
    let p: int = split(x, y, i);
    let q: int = split(x, y, n - 1);
    if gt_upto(x, y, i) {
        assert(x[p] > 0);
        if q > p {
            assert(at(x, q) == at(bound, q)) by {
                let _ = x[q];
            }
            assert(y[q] <= bound[q]);
        } else if q < p {
            assert(at(x, p) == at(y, p));
        }
    }
}

/// The index up to which two values are compared when nothing cuts the
/// comparison short.
pub open spec fn value_span(a: Value, b: Value) -> int {
    match (a, b) {
        (Value::Measure(x), Value::Measure(y)) => span(x, y),
        _ => 0,
    }
}

/// `a` and `b` are equal, compared over all their positions.
pub open spec fn same_value(a: Value, b: Value) -> bool {
    value_eq(a, b, value_span(a, b))
}

/// `a` is greater than `b`, compared over all their positions.
pub open spec fn greater_value(a: Value, b: Value) -> bool {
    value_gt(a, b, value_span(a, b))
}

/// `Top` takes no step and absorbs every comparison: it is equal to itself
/// alone, greater than every measure and not greater than itself, up to any
/// index.
pub proof fn lemma_top_absorbs(m: Seq<u32>, bound: Seq<u32>, i: int)
    ensures
        value_inc(Value::Top, bound) == Value::Top,
        value_eq(Value::Top, Value::Top, i),
        !value_eq(Value::Top, Value::Measure(m), i),
        !value_eq(Value::Measure(m), Value::Top, i),
        value_gt(Value::Top, Value::Measure(m), i),
        !value_gt(Value::Measure(m), Value::Top, i),
        !value_gt(Value::Top, Value::Top, i),
        value_ge(Value::Top, Value::Measure(m), i),
        value_lt(Value::Measure(m), Value::Top, i),
        value_le(Value::Measure(m), Value::Top, i),
        value_le(Value::Top, Value::Top, i),
{
}

} // verus!
