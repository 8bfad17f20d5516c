//! What the engine computes: the least assignment that no lift can raise.

use vstd::prelude::*;
use crate::climb::{
    climbed, edge_value, lemma_climbed, lemma_summit_within_measures, measures_within, settles,
    steps, summit,
};
use crate::lattice::{
    at, eq_upto, gt_upto, height, lemma_cut_keeps_order, lemma_gt_le, lemma_height_bounds,
    lemma_height_order, lemma_successor, lemma_transitive, lemma_trichotomy, rank, value_eq,
    value_fits, value_gt, within, zeros, Value,
};
use crate::pg::{Game, Owner};

verus! {

/// `a` is greater than `b` over all the priorities of `game`.
pub open spec fn above(game: Game, a: Value, b: Value) -> bool {
    value_gt(a, b, game.top() as int)
}

/// `rho` gives every vertex of `game`, and nothing else, a value that fits
/// the greatest measure of `game`.
pub open spec fn admits(game: Game, rho: Map<u32, Value>) -> bool {
    &&& rho.dom() == game@.dom()
    &&& forall|id: u32| #[trigger] rho.contains_key(id) ==> value_fits(rho[id], game.bound())
}

/// What the edge from `v` to `w` asks of `v` under `rho`.
pub open spec fn edge(game: Game, rho: Map<u32, Value>, v: u32, w: u32) -> Value {
    edge_value(game.bound(), game@[v].prio, rho[w])
}

/// `r` is what the edges of `v` ask of `v` under `rho`: the least of their
/// values where `Even` owns `v`, the greatest where `Odd` does.
pub open spec fn is_best(game: Game, rho: Map<u32, Value>, v: u32, r: Value) -> bool {
    &&& exists|w: u32| #[trigger] game@[v].succ.contains(w) && r == edge(game, rho, v, w)
    &&& forall|w: u32| #[trigger]
        game@[v].succ.contains(w) ==> if game@[v].owner == Owner::Even {
            !above(game, r, edge(game, rho, v, w))
        } else {
            !above(game, edge(game, rho, v, w), r)
        }
}

/// `rho` after a lift of `v` that found `r`: `v` holds `r` where `r` is
/// greater than what it held, and nothing changes where it is not.
pub open spec fn lifted(game: Game, rho: Map<u32, Value>, v: u32, r: Value) -> Map<u32, Value> {
    if above(game, r, rho[v]) {
        rho.insert(v, r)
    } else {
        rho
    }
}

/// A lift of `v` leaves `rho` as it is: some edge of a vertex of `Even`, and
/// every edge of a vertex of `Odd`, asks for no more than `v` holds.
pub open spec fn stable_at(game: Game, rho: Map<u32, Value>, v: u32) -> bool {
    if game@[v].owner == Owner::Even {
        exists|w: u32| #[trigger]
            game@[v].succ.contains(w) && !above(game, edge(game, rho, v, w), rho[v])
    } else {
        forall|w: u32| #[trigger]
            game@[v].succ.contains(w) ==> !above(game, edge(game, rho, v, w), rho[v])
    }
}

/// No lift changes `rho`.
pub open spec fn stable(game: Game, rho: Map<u32, Value>) -> bool {
    forall|v: u32| #[trigger] game@.contains_key(v) ==> stable_at(game, rho, v)
}

/// `a` gives no vertex more than `b` does.
pub open spec fn below(game: Game, a: Map<u32, Value>, b: Map<u32, Value>) -> bool {
    forall|id: u32| #[trigger] game@.contains_key(id) ==> !above(game, a[id], b[id])
}

/// `rho` is stable and lies below every stable assignment.
pub open spec fn least_fixpoint(game: Game, rho: Map<u32, Value>) -> bool {
    &&& admits(game, rho)
    &&& stable(game, rho)
    &&& forall|mu: Map<u32, Value>| #[trigger]
        stable(game, mu) && admits(game, mu) ==> below(game, rho, mu)
}

/// The order of values up to an index: of two values exactly one of greater,
/// equal and less holds, and the order is transitive.
pub proof fn lemma_value_order(a: Value, b: Value, c: Value, i: int)
    ensures
        value_gt(a, b, i) || value_eq(a, b, i) || value_gt(b, a, i),
        !(value_gt(a, b, i) && value_eq(a, b, i)),
        !(value_gt(a, b, i) && value_gt(b, a, i)),
        value_gt(a, b, i) && !value_gt(c, b, i) ==> value_gt(a, c, i),
        !value_gt(b, a, i) && value_gt(b, c, i) ==> value_gt(a, c, i),
        !value_gt(a, b, i) && !value_gt(b, c, i) ==> !value_gt(a, c, i),
{
    match (a, b, c) {
        (Value::Measure(x), Value::Measure(y), Value::Measure(z)) => {
            lemma_trichotomy(x, y, i);
            lemma_transitive(x, y, z, i);
        },
        (Value::Measure(x), Value::Measure(y), _) => {
            lemma_trichotomy(x, y, i);
        },
        _ => {},
    }
}

/// Two measures within a bound that is 0 at the even positions are the same
/// measure where they agree at the odd positions.
pub proof fn lemma_same_measure(x: Seq<u32>, y: Seq<u32>, bound: Seq<u32>)
    requires
        within(x, bound),
        within(y, bound),
        forall|k: int| 0 <= k < bound.len() && k % 2 == 0 ==> bound[k] == 0,
        eq_upto(x, y, bound.len() - 1),
    ensures
        x == y,
{
    assert forall|k: int| 0 <= k < x.len() implies x[k] == y[k] by {
        if k % 2 == 0 {
            assert(x[k] <= bound[k]);
            assert(y[k] <= bound[k]);
        } else {
            assert(at(x, k) == at(y, k));
        }
    }
    assert(x =~= y);
}

/// The climb never comes down.
pub proof fn lemma_climb_monotone(bound: Seq<u32>, j: nat, k: nat)
    requires
        j <= k,
    ensures
        !value_gt(climbed(bound, j), climbed(bound, k), bound.len() - 1),
    decreases k - j,
{
    let n: int = bound.len() as int;
    if j == k {
        lemma_value_order(climbed(bound, j), climbed(bound, k), climbed(bound, k), n - 1);
        match climbed(bound, j) {
            Value::Top => {},
            Value::Measure(m) => {
                lemma_trichotomy(m, m, n - 1);
            },
        }
    } else {
        lemma_climb_monotone(bound, j, (k - 1) as nat);
        lemma_climbed(bound, (k - 1) as nat);
        let before = climbed(bound, (k - 1) as nat);
        let after = climbed(bound, k);
        match before {
            Value::Top => {},
            Value::Measure(m) => {
                lemma_successor(m, bound);
            },
        }
        assert(!value_gt(before, after, n - 1)) by {
            lemma_value_order(after, before, before, n - 1);
        }
        lemma_value_order(climbed(bound, j), before, after, n - 1);
    }
}

/// The climb stops no later than at any step whose value settles.
pub proof fn lemma_steps_least(
    bound: Seq<u32>,
    target: Value,
    prio: u32,
    k: nat,
    limit: nat,
    j: nat,
)
    requires
        k <= j <= limit,
        j == limit || settles(climbed(bound, j), target, prio),
    ensures
        k <= steps(bound, target, prio, k, limit) <= j,
    decreases limit - k,
{
    if k < j && !settles(climbed(bound, k), target, prio) {
        lemma_steps_least(bound, target, prio, k + 1, limit, j);
    }
}

/// Where the climb stops, its value settles or the climb is at its summit.
pub proof fn lemma_steps_stop(bound: Seq<u32>, target: Value, prio: u32, k: nat, limit: nat)
    requires
        k <= limit,
    ensures
        k <= steps(bound, target, prio, k, limit) <= limit,
        steps(bound, target, prio, k, limit) == limit || settles(
            climbed(bound, steps(bound, target, prio, k, limit)),
            target,
            prio,
        ),
    decreases limit - k,
{
    if k < limit && !settles(climbed(bound, k), target, prio) {
        lemma_steps_stop(bound, target, prio, k + 1, limit);
    }
}

/// What an edge asks for fits the bound.
pub proof fn lemma_edge_fits(bound: Seq<u32>, prio: u32, target: Value)
    ensures
        value_fits(edge_value(bound, prio, target), bound),
{
    lemma_climbed(bound, steps(bound, target, prio, 0, summit(bound)));
}

/// An edge asks for no less when its target holds no less.
pub proof fn lemma_edge_monotone(bound: Seq<u32>, prio: u32, x: Value, y: Value)
    requires
        value_fits(x, bound),
        value_fits(y, bound),
        prio < bound.len(),
        !value_gt(x, y, bound.len() - 1),
    ensures
        !value_gt(edge_value(bound, prio, x), edge_value(bound, prio, y), bound.len() - 1),
{
    let n: int = bound.len() as int;
    let limit = summit(bound);
    match (x, y) {
        (Value::Measure(xm), Value::Measure(ym)) => {
            let kx = steps(bound, x, prio, 0, limit);
            let ky = steps(bound, y, prio, 0, limit);
            lemma_steps_stop(bound, y, prio, 0, limit);
            lemma_steps_stop(bound, x, prio, 0, limit);
            if ky < limit {
                let c = climbed(bound, ky);
                assert(settles(c, x, prio)) by {
                    lemma_cut_keeps_order(xm, ym, bound, prio as int);
                    match c {
                        Value::Top => {},
                        Value::Measure(cm) => {
                            lemma_trichotomy(cm, ym, prio as int);
                            lemma_trichotomy(cm, xm, prio as int);
                            lemma_transitive(xm, ym, cm, prio as int);
                            if prio % 2 == 1 {
                                lemma_gt_le(cm, ym, xm, prio as int);
                            }
                        },
                    }
                }
                lemma_steps_least(bound, x, prio, 0, limit, ky);
            }
            lemma_climb_monotone(bound, kx, ky);
        },
        _ => {},
    }
}

/// A lift keeps an assignment below every stable assignment that it was below.
pub proof fn lemma_lift_stays_below(
    game: Game,
    rho: Map<u32, Value>,
    mu: Map<u32, Value>,
    v: u32,
    r: Value,
)
    requires
        game.wf(),
        admits(game, rho),
        admits(game, mu),
        stable(game, mu),
        below(game, rho, mu),
        game@.contains_key(v),
        is_best(game, rho, v, r),
    ensures
        !above(game, r, mu[v]),
        below(game, lifted(game, rho, v, r), mu),
{
    let bound = game.bound();
    let top: int = game.top() as int;
    let prio = game@[v].prio;
    assert(bound.len() == top + 1);
    assert(stable_at(game, mu, v));
    if game@[v].owner == Owner::Even {
        let w = choose|w: u32| #[trigger]
            game@[v].succ.contains(w) && !above(game, edge(game, mu, v, w), mu[v]);
        assert(game@.contains_key(w));
        assert(rho.contains_key(w) && mu.contains_key(w));
        lemma_edge_monotone(bound, prio, rho[w], mu[w]);
        lemma_value_order(r, edge(game, rho, v, w), edge(game, mu, v, w), top);
        lemma_value_order(r, edge(game, mu, v, w), mu[v], top);
    } else {
        let w = choose|w: u32| #[trigger]
            game@[v].succ.contains(w) && r == edge(game, rho, v, w);
        assert(game@.contains_key(w));
        assert(rho.contains_key(w) && mu.contains_key(w));
        lemma_edge_monotone(bound, prio, rho[w], mu[w]);
        lemma_value_order(r, edge(game, mu, v, w), mu[v], top);
    }
}

/// The assignment that gives every vertex the all-zero measure is admitted
/// and lies below every admitted assignment.
pub proof fn lemma_bottom(game: Game, mu: Map<u32, Value>)
    requires
        game.wf(),
    ensures
        admits(game, game.bottom()),
        admits(game, mu) ==> below(game, game.bottom(), mu),
{
    let bound = game.bound();
    let z = zeros((game.top() + 1) as nat);
    assert(within(z, bound));
    assert(game.bottom().dom() =~= game@.dom());
    if admits(game, mu) {
        assert forall|id: u32| #[trigger] game@.contains_key(id) implies !above(
            game,
            game.bottom()[id],
            mu[id],
        ) by {
            assert(mu.contains_key(id));
            match mu[id] {
                Value::Top => {},
                Value::Measure(m) => {
                    crate::lattice::lemma_split(z, m, game.top() as int);
                },
            }
        }
    }
}

/// Two least fixpoints of a game are the same assignment: what the engine
/// ends with does not depend on the order in which it visits the vertices.
pub proof fn lemma_order_independence(game: Game, a: Map<u32, Value>, b: Map<u32, Value>)
    requires
        game.wf(),
        least_fixpoint(game, a),
        least_fixpoint(game, b),
    ensures
        a == b,
{
    let bound = game.bound();
    let top: int = game.top() as int;
    assert(below(game, a, b));
    assert(below(game, b, a));
    assert forall|id: u32| a.contains_key(id) implies a[id] == b[id] by {
        assert(game@.contains_key(id));
        assert(b.contains_key(id));
        lemma_value_order(a[id], b[id], b[id], top);
        match (a[id], b[id]) {
            (Value::Measure(x), Value::Measure(y)) => {
                lemma_same_measure(x, y, bound);
            },
            _ => {},
        }
    }
    assert(a =~= b);
}

/// The least fixpoint of a game.
pub open spec fn solution(game: Game) -> Map<u32, Value> {
    choose|rho: Map<u32, Value>| least_fixpoint(game, rho)
}

/// A least fixpoint is the solution.
pub proof fn lemma_solution(game: Game, rho: Map<u32, Value>)
    requires
        game.wf(),
        least_fixpoint(game, rho),
    ensures
        rho == solution(game),
{
    lemma_order_independence(game, rho, solution(game));
}

/// Among the values that fit a bound the greater one has the greater rank.
pub proof fn lemma_rank_order(a: Value, b: Value, bound: Seq<u32>)
    requires
        value_fits(a, bound),
        value_fits(b, bound),
        value_gt(a, b, bound.len() - 1),
    ensures
        0 <= rank(b, bound) < rank(a, bound) <= summit(bound),
{
    let n: int = bound.len() as int;
    match b {
        Value::Top => {},
        Value::Measure(y) => {
            lemma_height_bounds(y, bound, n - 1);
            match a {
                Value::Top => {},
                Value::Measure(x) => {
                    lemma_height_order(x, y, bound, n - 1);
                    lemma_height_bounds(x, bound, n - 1);
                },
            }
        },
    }
}

/// The ranks of the values that `rho` gives to the vertices named in `ids`,
/// added up.
pub open spec fn rank_sum(rho: Map<u32, Value>, bound: Seq<u32>, ids: Seq<u32>) -> int
    decreases ids.len(),
{
    if ids.len() == 0 {
        0
    } else {
        rank_sum(rho, bound, ids.drop_last()) + rank(rho[ids.last()], bound)
    }
}

/// How far an assignment has come: the ranks of the values of all vertices,
/// added up.
pub open spec fn total_rank(game: Game, rho: Map<u32, Value>) -> int {
    rank_sum(rho, game.bound(), game.listing())
}

/// The rank that no assignment of a game exceeds: for each vertex the height
/// of the greatest measure and one more for `Top`.
pub open spec fn rank_limit(game: Game) -> int {
    (game.listing().len() * summit(game.bound())) as int
}

/// The ranks of values that fit `bound` add up to no more than the summit
/// for each of them.
pub proof fn lemma_rank_sum_bounds(rho: Map<u32, Value>, bound: Seq<u32>, ids: Seq<u32>)
    requires
        forall|j: int| 0 <= j < ids.len() ==> value_fits(#[trigger] rho[ids[j]], bound),
    ensures
        0 <= rank_sum(rho, bound, ids) <= ids.len() * summit(bound),
    decreases ids.len(),
{
    let n: int = bound.len() as int;
    if ids.len() > 0 {
        let t = ids.drop_last();
        assert forall|j: int| 0 <= j < t.len() implies value_fits(#[trigger] rho[t[j]], bound) by {
            assert(t[j] == ids[j]);
        }
        lemma_rank_sum_bounds(rho, bound, t);
        let last = rho[ids[ids.len() - 1]];
        assert(value_fits(last, bound));
        lemma_height_bounds(bound, bound, n - 1);
        match last {
            Value::Top => {},
            Value::Measure(m) => {
                lemma_height_bounds(m, bound, n - 1);
            },
        }
        let s: int = summit(bound) as int;
        let l: int = ids.len() as int;
        assert(0 <= rank(last, bound) <= s);
        assert(t.len() * summit(bound) == (l - 1) * s);
        assert((l - 1) * s + s == l * s) by (nonlinear_arith);
        assert(ids.len() * summit(bound) == l * s);
    } else {
        assert(ids.len() * summit(bound) == 0) by (nonlinear_arith)
            requires
                ids.len() == 0,
        ;
    }
}

/// Raising the value of one vertex raises the sum of the ranks by as much.
pub proof fn lemma_rank_sum_insert(
    rho: Map<u32, Value>,
    bound: Seq<u32>,
    ids: Seq<u32>,
    v: u32,
    r: Value,
)
    requires
        ids.no_duplicates(),
    ensures
        rank_sum(rho.insert(v, r), bound, ids) == rank_sum(rho, bound, ids) + if ids.contains(v) {
            rank(r, bound) - rank(rho[v], bound)
        } else {
            0
        },
    decreases ids.len(),
{
    if ids.len() > 0 {
        let t = ids.drop_last();
        lemma_rank_sum_insert(rho, bound, t, v, r);
        if ids.last() == v {
            assert(!t.contains(v)) by {
                if t.contains(v) {
                    let j = choose|j: int| 0 <= j < t.len() && t[j] == v;
                    assert(ids[j] == ids[ids.len() - 1]);
                }
            }
            assert(ids.contains(v)) by {
                assert(ids[ids.len() - 1] == v);
            }
        } else {
            assert(t.contains(v) == ids.contains(v)) by {
                if t.contains(v) {
                    let j = choose|j: int| 0 <= j < t.len() && t[j] == v;
                    assert(ids[j] == v);
                }
                if ids.contains(v) {
                    let j = choose|j: int| 0 <= j < ids.len() && ids[j] == v;
                    assert(t[j] == v);
                }
            }
        }
    }
}

/// A lift that changes an assignment raises its total rank, and no admitted
/// assignment has a total rank beyond the limit.
pub proof fn lemma_lift_raises_rank(game: Game, rho: Map<u32, Value>, v: u32, r: Value)
    requires
        game.wf(),
        admits(game, rho),
        game@.contains_key(v),
        value_fits(r, game.bound()),
    ensures
        admits(game, lifted(game, rho, v, r)),
        0 <= total_rank(game, rho) <= rank_limit(game),
        total_rank(game, lifted(game, rho, v, r)) <= rank_limit(game),
        above(game, r, rho[v]) ==> total_rank(game, lifted(game, rho, v, r)) > total_rank(
            game,
            rho,
        ),
{
    let bound = game.bound();
    let ids = game.listing();
    let after = lifted(game, rho, v, r);
    assert(after.dom() =~= rho.dom());
    assert forall|j: int| 0 <= j < ids.len() implies value_fits(#[trigger] rho[ids[j]], bound) by {
        assert(ids.to_set().contains(ids[j]));
        assert(rho.contains_key(ids[j]));
    }
    assert forall|j: int| 0 <= j < ids.len() implies value_fits(#[trigger] after[ids[j]], bound) by {
        assert(ids.to_set().contains(ids[j]));
        assert(rho.contains_key(ids[j]));
    }
    lemma_rank_sum_bounds(rho, bound, ids);
    lemma_rank_sum_bounds(after, bound, ids);
    if above(game, r, rho[v]) {
        assert(rho.contains_key(v));
        lemma_rank_order(r, rho[v], bound);
        lemma_rank_sum_insert(rho, bound, ids, v, r);
        assert(ids.to_set().contains(v));
    }
}

/// The engine comes to an end: a lift raises the rank of the value of its
/// vertex, and no value has a rank beyond the number of measures within the
/// greatest measure, so no vertex is raised more often than that.
pub proof fn lemma_rank_within_measures(game: Game, rho: Map<u32, Value>, v: u32)
    requires
        game.wf(),
        admits(game, rho),
        game@.contains_key(v),
    ensures
        0 <= rank(rho[v], game.bound()) <= summit(game.bound()) <= measures_within(
            game.bound(),
            game.top() as int,
        ),
{
    let bound = game.bound();
    let n: int = bound.len() as int;
    assert(rho.contains_key(v));
    lemma_height_bounds(bound, bound, n - 1);
    match rho[v] {
        Value::Top => {},
        Value::Measure(m) => {
            lemma_height_bounds(m, bound, n - 1);
        },
    }
    lemma_summit_within_measures(bound, n - 1);
}

/// The total rank of an admitted assignment lies between 0 and the limit.
pub proof fn lemma_total_rank(game: Game, rho: Map<u32, Value>)
    requires
        game.wf(),
        admits(game, rho),
    ensures
        0 <= total_rank(game, rho) <= rank_limit(game),
{
    let ids = game.listing();
    assert forall|j: int| 0 <= j < ids.len() implies value_fits(
        #[trigger] rho[ids[j]],
        game.bound(),
    ) by {
        assert(ids.to_set().contains(ids[j]));
        assert(rho.contains_key(ids[j]));
    }
    lemma_rank_sum_bounds(rho, game.bound(), ids);
}

/// The assignment that gives `Top` to every vertex but `v`, which holds `x`.
pub open spec fn all_top_but(game: Game, v: u32, x: Value) -> Map<u32, Value> {
    Map::new(
        |id: u32| game@.contains_key(id),
        |id: u32|
            if id == v {
                x
            } else {
                Value::Top
            },
    )
}

/// A vertex of `Even` with an even priority that is its own successor is won
/// by `Even`: the least fixpoint gives it no `Top`.
pub proof fn lemma_even_self_loop(game: Game, rho: Map<u32, Value>, v: u32)
    requires
        game.wf(),
        least_fixpoint(game, rho),
        game@.contains_key(v),
        game@[v].succ.contains(v),
        game@[v].owner == Owner::Even,
        game@[v].prio % 2 == 0,
    ensures
        !(rho[v] is Top),
        crate::pg::winning(rho, Owner::Even).contains(v),
{
    let bound = game.bound();
    let top: int = game.top() as int;
    let prio = game@[v].prio;
    let z = zeros((game.top() + 1) as nat);
    let mu = all_top_but(game, v, game.zero());
    assert(within(z, bound));
    assert(mu.dom() =~= game@.dom());
    assert(admits(game, mu));
    assert(climbed(bound, 0) == game.zero());
    assert(settles(game.zero(), game.zero(), prio)) by {
        lemma_trichotomy(z, z, prio as int);
    }
    assert(steps(bound, game.zero(), prio, 0, summit(bound)) == 0);
    assert(edge(game, mu, v, v) == game.zero());
    assert forall|u: u32| #[trigger] game@.contains_key(u) implies stable_at(game, mu, u) by {
        if u == v {
            lemma_trichotomy(z, z, top);
            assert(game@[v].succ.contains(v) && !above(game, edge(game, mu, v, v), mu[v]));
        } else {
            assert(game@[u].succ.len() > 0);
            let w = game@[u].succ.choose();
            assert(game@[u].succ.contains(w));
        }
    }
    assert(stable(game, mu) && admits(game, mu));
    assert(below(game, rho, mu));
    assert(!above(game, rho[v], mu[v]));
    assert(rho.contains_key(v));
}

/// A vertex of `Odd` with an odd priority that is its own successor is won
/// by `Odd`: every stable assignment, and so the least fixpoint, gives it `Top`.
pub proof fn lemma_odd_self_loop(game: Game, rho: Map<u32, Value>, v: u32)
    requires
        game.wf(),
        admits(game, rho),
        stable(game, rho),
        game@.contains_key(v),
        game@[v].succ.contains(v),
        game@[v].owner == Owner::Odd,
        game@[v].prio % 2 == 1,
    ensures
        rho[v] is Top,
        crate::pg::winning(rho, Owner::Odd).contains(v),
{
    let bound = game.bound();
    let top: int = game.top() as int;
    let prio = game@[v].prio;
    assert(rho.contains_key(v));
    assert(stable_at(game, rho, v));
    assert(!above(game, edge(game, rho, v, v), rho[v]));
    match rho[v] {
        Value::Top => {},
        Value::Measure(x) => {
            let k = steps(bound, rho[v], prio, 0, summit(bound));
            lemma_steps_stop(bound, rho[v], prio, 0, summit(bound));
            lemma_climbed(bound, k);
            match climbed(bound, k) {
                Value::Top => {},
                Value::Measure(c) => {
                    assert(gt_upto(c, x, prio as int));
                    lemma_cut_keeps_order(c, x, bound, prio as int);
                },
            }
        },
    }
}

} // verus!
