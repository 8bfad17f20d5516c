//! The lift operator and the engine that applies it until nothing changes.

use vstd::prelude::*;
use crate::climb::{climbed, edge_value, lemma_climbed, lemma_steps, settles, summit};
use crate::fixpoint::{
    above, admits, below, edge, is_best, least_fixpoint, lemma_bottom, lemma_edge_fits,
    lemma_lift_raises_rank, lemma_lift_stays_below, lemma_solution, lemma_total_rank,
    lemma_value_order, lifted, rank_limit, solution, stable, stable_at, total_rank,
};
use crate::lattice::{value_fits, Value};
use crate::listing::{lists, member_list};
use crate::pg::{Game, MeasureT, Node, Owner, Progress};
use crate::arguments::StrategySort;
use crate::strategies::{
    InputStrategy, PriorityStrategy, RandomStrategy, SelfLoopStrategy, Strategy,
    SuccessorStrategy,
};

verus! {

/// What the edge from `v` to `w` asks of `v` under the assignment `progress`.
pub fn prog(game: &Game, progress: &Progress, v: &Node, w: &Node) -> (r: MeasureT)
    requires
        progress@.contains_key(w.id),
    ensures
        r@ == edge_value(game.bound(), v.prio, progress@[w.id]),
        value_fits(r@, game.bound()),
        progress@[w.id] is Top ==> r@ is Top,
        r@ is Top || settles(r@, progress@[w.id], v.prio),
{
    proof {
        lemma_edge_fits(game.bound(), v.prio, progress@[w.id]);
    }
    let m_w: &MeasureT = progress.measure(&w.id);
    if let MeasureT::Top = m_w {
        return MeasureT::Top;
    }
    let mut m: MeasureT = game.new_measure();
    let v_prio: usize = v.prio as usize;
    let prio_is_even: bool = v_prio % 2 == 0;
    let ghost bound = game.bound();
    let ghost target = m_w@;
    let ghost mut k: nat = 0;
    proof {
        use_type_invariant(game);
        assert(bound.len() == game.top() + 1);
        lemma_climbed(bound, 0);
    }
    while (prio_is_even && m.lt(m_w, v_prio)) || (!prio_is_even && m.le(m_w, v_prio))
        invariant
            bound == game.bound(),
            target == m_w@,
            target is Measure,
            v_prio == v.prio,
            prio_is_even == (v.prio % 2 == 0),
            m@ == climbed(bound, k),
            k <= summit(bound),
            forall|j: nat| j < k ==> !settles(#[trigger] climbed(bound, j), target, v.prio),
        decreases summit(bound) - k,
    {
        proof {
            lemma_climbed(bound, k);
            lemma_climbed(bound, k + 1);
            assert(!settles(climbed(bound, k), target, v.prio));
        }
        m = m.inc(game);
        proof {
            k = k + 1;
        }
    }
    proof {
        lemma_climbed(bound, k);
        lemma_steps(bound, target, v.prio, 0, summit(bound), k);
    }
    m
}

/// One lift of the vertex `v`: the least of the values that its edges ask
/// for where `Even` owns it, the greatest where `Odd` does, replaces the value
/// of `v` where it is greater. Tells whether the assignment changed.
pub fn lift(game: &Game, v: &Node, progress: &mut Progress) -> (changed: bool)
    requires
        admits(*game, old(progress)@),
        game@.contains_key(v.id),
        v@ == game@[v.id],
    ensures
        admits(*game, final(progress)@),
        exists|r: Value|
            {
                &&& #[trigger] is_best(*game, old(progress)@, v.id, r)
                &&& final(progress)@ == lifted(*game, old(progress)@, v.id, r)
                &&& changed == above(*game, r, old(progress)@[v.id])
            },
        changed == !stable_at(*game, old(progress)@, v.id),
        !changed ==> final(progress)@ == old(progress)@,
        !above(*game, old(progress)@[v.id], final(progress)@[v.id]),
        forall|id: u32|
            #![trigger final(progress)@[id]]
            game@.contains_key(id) && id != v.id ==> final(progress)@[id] == old(progress)@[id],
{
    proof {
        use_type_invariant(game);
    }
    let full: usize = game.max_prio() as usize;
    let succ: Vec<u32> = member_list(&v.succ);
    let ghost rho = progress@;
    let ghost top: int = game.top() as int;
    let even: bool = match v.owner {
        Owner::Even => true,
        Owner::Odd => false,
    };
    assert(succ@.len() > 0);
    assert(succ@.to_set().contains(succ@[0]));
    let first: &Node = game.node(&succ[0]).unwrap();
    let mut val: MeasureT = prog(game, progress, v, first);
    assert(first.id == succ@[0]);
    assert(val@ == edge(*game, rho, v.id, succ@[0]));
    let mut j: usize = 1;
    while j < succ.len()
        invariant
            1 <= j <= succ@.len(),
            game.wf(),
            admits(*game, rho),
            progress@ == rho,
            game@.contains_key(v.id),
            v@ == game@[v.id],
            even == (v.owner == Owner::Even),
            top == game.top(),
            full == top,
            lists(succ@, v.succ@),
            exists|x: int| 0 <= x < j && val@ == #[trigger] edge(*game, rho, v.id, succ@[x]),
            forall|x: int|
                0 <= x < j ==> if even {
                    !above(*game, val@, #[trigger] edge(*game, rho, v.id, succ@[x]))
                } else {
                    !above(*game, #[trigger] edge(*game, rho, v.id, succ@[x]), val@)
                },
        decreases succ@.len() - j,
    {
        assert(succ@.to_set().contains(succ@[j as int]));
        let w: &Node = game.node(&succ[j]).unwrap();
        let other: MeasureT = prog(game, progress, v, w);
        let better: bool = if even {
            val.gt(&other, full)
        } else {
            other.gt(&val, full)
        };
        proof {
            assert(w.id == succ@[j as int]);
            assert(other@ == edge(*game, rho, v.id, succ@[j as int]));
            let kept = choose|x: int|
                0 <= x < j && val@ == #[trigger] edge(*game, rho, v.id, succ@[x]);
            assert(val@ == edge(*game, rho, v.id, succ@[kept]));
            lemma_value_order(val@, other@, other@, top);
            lemma_value_order(other@, val@, val@, top);
            lemma_value_order(other@, other@, other@, top);
            let chosen: Value = if better {
                other@
            } else {
                val@
            };
            assert forall|x: int| 0 <= x < j + 1 implies if even {
                !above(*game, chosen, #[trigger] edge(*game, rho, v.id, succ@[x]))
            } else {
                !above(*game, #[trigger] edge(*game, rho, v.id, succ@[x]), chosen)
            } by {
                let e = edge(*game, rho, v.id, succ@[x]);
                if x < j {
                    if even {
                        assert(!above(*game, val@, e));
                        lemma_value_order(other@, val@, e, top);
                    } else {
                        assert(!above(*game, e, val@));
                        lemma_value_order(e, val@, other@, top);
                    }
                } else {
                    assert(e == other@);
                }
            }
        }
        if better {
            val = other;
            assert(val@ == edge(*game, rho, v.id, succ@[j as int]));
        }
        j = j + 1;
    }
    proof {
        let x = choose|x: int| 0 <= x < j && val@ == #[trigger] edge(*game, rho, v.id, succ@[x]);
        assert(succ@.to_set().contains(succ@[x]));
        assert forall|w: u32| #[trigger] game@[v.id].succ.contains(w) implies if game@[v.id].owner
            == Owner::Even {
            !above(*game, val@, edge(*game, rho, v.id, w))
        } else {
            !above(*game, edge(*game, rho, v.id, w), val@)
        } by {
            assert(succ@.to_set().contains(w));
            let y = choose|y: int| 0 <= y < succ@.len() && succ@[y] == w;
            assert(edge(*game, rho, v.id, succ@[y]) == edge(*game, rho, v.id, w));
        }
        assert(is_best(*game, rho, v.id, val@));
        lemma_edge_fits(game.bound(), v.prio, rho[succ@[x]]);
        lemma_lift_raises_rank(*game, rho, v.id, val@);
        lemma_value_order(val@, rho[v.id], rho[v.id], top);
        if above(*game, val@, rho[v.id]) {
            if even {
                assert forall|w: u32| #[trigger] game@[v.id].succ.contains(w) implies above(
                    *game,
                    edge(*game, rho, v.id, w),
                    rho[v.id],
                ) by {
                    lemma_value_order(edge(*game, rho, v.id, w), val@, rho[v.id], top);
                }
            }
        } else {
            if !even {
                assert forall|w: u32| #[trigger] game@[v.id].succ.contains(w) implies !above(
                    *game,
                    edge(*game, rho, v.id, w),
                    rho[v.id],
                ) by {
                    lemma_value_order(edge(*game, rho, v.id, w), val@, rho[v.id], top);
                }
            }
        }
    }
    let changed: bool = val.gt(progress.measure(&v.id), full);
    if changed {
        let ghost r = val@;
        progress.0.insert(v.id, val);
        assert(progress@ =~= rho.insert(v.id, r));
    }
    changed
}

/// What the engine ends with: the assignment and the number of passes over
/// the vertices and of lifts that it took. The counts stop at the greatest
/// number that they can hold.
#[derive(Debug)]
pub struct SpmResult {
    pub prog: Progress,
    pub nr_of_iterations: u64,
    pub nr_of_subiterations: u64,
}

/// The number of lifts that the engine takes at most on its way to an
/// assignment of total rank `rank` in a game of `n` vertices: every pass
/// but the last raises the rank, every pass ends with one lift of each
/// vertex that changes nothing, and every other lift raises the rank.
pub open spec fn lift_limit(n: int, rank: int) -> int {
    (rank + 1) * n + rank
}

/// Lifts the vertices of `game` in the order of `strategy`, each until it is
/// stable, pass after pass until a pass changes nothing. What it ends with is
/// the least assignment that no lift can raise, whatever the order. The
/// engine comes to an end because every pass but the last raises the total
/// rank of the assignment, which no assignment has beyond the limit of the
/// game.
pub fn small_progress_measures<S: Strategy>(game: &Game, strategy: &S) -> (r: SpmResult)
    requires
        lists(strategy.order(), game@.dom()),
    ensures
        least_fixpoint(*game, r.prog@),
        r.prog@ == solution(*game),
        0 <= total_rank(*game, r.prog@) <= rank_limit(*game),
        1 <= r.nr_of_iterations <= 1 + total_rank(*game, r.prog@),
        r.nr_of_subiterations <= lift_limit(
            game@.dom().len() as int,
            total_rank(*game, r.prog@),
        ),
{
    let mut progress: Progress = game.new_progress();
    let vertices: Vec<u32> = strategy.vertices();
    let mut nr_of_iterations: u64 = 0;
    let mut nr_of_subiterations: u64 = 0;
    let mut any_change: bool = true;
    let ghost n: int = vertices@.len() as int;
    let ghost mut passes: int = 0;
    let ghost mut plain: int = 0;
    let ghost mut raises: int = 0;
    proof {
        use_type_invariant(game);
        lemma_bottom(*game, game.bottom());
        assert forall|mu: Map<u32, Value>| #[trigger]
            stable(*game, mu) && admits(*game, mu) implies below(*game, progress@, mu) by {
            lemma_bottom(*game, mu);
        }
        lemma_total_rank(*game, progress@);
        vertices@.unique_seq_to_set();
        assert(0 * n == 0);
    }
    while any_change
        invariant
            game.wf(),
            lists(vertices@, game@.dom()),
            n == vertices@.len(),
            n == game@.dom().len(),
            admits(*game, progress@),
            forall|mu: Map<u32, Value>| #[trigger]
                stable(*game, mu) && admits(*game, mu) ==> below(*game, progress@, mu),
            !any_change ==> stable(*game, progress@),
            0 <= raises <= total_rank(*game, progress@) <= rank_limit(*game),
            0 <= passes <= raises + if any_change {
                0int
            } else {
                1int
            },
            !any_change ==> passes >= 1,
            nr_of_iterations <= passes,
            passes >= 1 ==> nr_of_iterations >= 1,
            plain == passes * n,
            nr_of_subiterations <= plain + raises,
        decreases
                rank_limit(*game) - total_rank(*game, progress@),
                if any_change {
                    1int
                } else {
                    0int
                },
    {
        if nr_of_iterations < u64::MAX {
            nr_of_iterations = nr_of_iterations + 1;
        }
        any_change = false;
        let ghost start = progress@;
        let ghost raised_before = raises;
        let mut idx: usize = 0;
        while idx < vertices.len()
            invariant
                idx <= vertices@.len(),
                game.wf(),
                lists(vertices@, game@.dom()),
                n == vertices@.len(),
                admits(*game, progress@),
                forall|mu: Map<u32, Value>| #[trigger]
                    stable(*game, mu) && admits(*game, mu) ==> below(*game, progress@, mu),
                0 <= raises <= total_rank(*game, progress@) <= rank_limit(*game),
                raised_before <= raises,
                any_change ==> raised_before < raises,
                total_rank(*game, start) <= total_rank(*game, progress@),
                any_change ==> total_rank(*game, start) < total_rank(*game, progress@),
                !any_change ==> progress@ == start,
                !any_change ==> forall|x: int|
                    0 <= x < idx ==> stable_at(*game, progress@, #[trigger] vertices@[x]),
                plain == passes * n + idx,
                nr_of_subiterations <= plain + raises,
            decreases vertices@.len() - idx,
        {
            assert(vertices@.to_set().contains(vertices@[idx as int]));
            let v: &Node = game.node(&vertices[idx]).unwrap();
            assert(v.id == vertices@[idx as int]);
            let mut changed: bool = true;
            while changed
                invariant
                    idx < vertices@.len(),
                    game.wf(),
                    admits(*game, progress@),
                    game@.contains_key(v.id),
                    v@ == game@[v.id],
                    v.id == vertices@[idx as int],
                    forall|mu: Map<u32, Value>| #[trigger]
                        stable(*game, mu) && admits(*game, mu) ==> below(*game, progress@, mu),
                    0 <= raises <= total_rank(*game, progress@) <= rank_limit(*game),
                    raised_before <= raises,
                    any_change ==> raised_before < raises,
                    total_rank(*game, start) <= total_rank(*game, progress@),
                    any_change ==> total_rank(*game, start) < total_rank(*game, progress@),
                    !any_change ==> progress@ == start,
                    !any_change ==> forall|x: int|
                        0 <= x < idx ==> stable_at(*game, progress@, #[trigger] vertices@[x]),
                    !changed ==> stable_at(*game, progress@, v.id),
                    plain == passes * n + idx + if changed {
                        0int
                    } else {
                        1int
                    },
                    nr_of_subiterations <= plain + raises,
                decreases
                        rank_limit(*game) - total_rank(*game, progress@),
                        if changed {
                            1int
                        } else {
                            0int
                        },
            {
                let ghost before = progress@;
                changed = lift(game, v, &mut progress);
                if nr_of_subiterations < u64::MAX {
                    nr_of_subiterations = nr_of_subiterations + 1;
                }
                proof {
                    let r = choose|r: Value|
                        {
                            &&& #[trigger] is_best(*game, before, v.id, r)
                            &&& progress@ == lifted(*game, before, v.id, r)
                            &&& changed == above(*game, r, before[v.id])
                        };
                    assert(value_fits(r, game.bound())) by {
                        let w = choose|w: u32| #[trigger]
                            game@[v.id].succ.contains(w) && r == edge(*game, before, v.id, w);
                        lemma_edge_fits(game.bound(), v.prio, before[w]);
                    }
                    lemma_lift_raises_rank(*game, before, v.id, r);
                    assert forall|mu: Map<u32, Value>| #[trigger]
                        stable(*game, mu) && admits(*game, mu) implies below(
                        *game,
                        progress@,
                        mu,
                    ) by {
                        lemma_lift_stays_below(*game, before, mu, v.id, r);
                    }
                    if changed {
                        raises = raises + 1;
                    } else {
                        plain = plain + 1;
                    }
                }
                if changed {
                    any_change = true;
                }
            }
            idx = idx + 1;
        }
        proof {
            if !any_change {
                assert forall|v: u32| #[trigger] game@.contains_key(v) implies stable_at(
                    *game,
                    progress@,
                    v,
                ) by {
                    assert(vertices@.to_set().contains(v));
                    let x = choose|x: int| 0 <= x < vertices@.len() && vertices@[x] == v;
                    assert(stable_at(*game, progress@, vertices@[x]));
                }
            }
            assert(passes * n + n == (passes + 1) * n) by (nonlinear_arith);
            passes = passes + 1;
        }
    }
    proof {
        lemma_solution(*game, progress@);
        let rank: int = total_rank(*game, progress@);
        assert(passes * n <= (rank + 1) * n) by (nonlinear_arith)
            requires
                0 <= passes <= rank + 1,
                0 <= n,
        ;
    }
    SpmResult { prog: progress, nr_of_iterations, nr_of_subiterations }
}

/// Solves `game` with the strategy that `sort` names.
pub fn solve(game: &Game, sort: StrategySort) -> (r: SpmResult)
    ensures
        least_fixpoint(*game, r.prog@),
        r.prog@ == solution(*game),
        0 <= total_rank(*game, r.prog@) <= rank_limit(*game),
        1 <= r.nr_of_iterations <= 1 + total_rank(*game, r.prog@),
        r.nr_of_subiterations <= lift_limit(
            game@.dom().len() as int,
            total_rank(*game, r.prog@),
        ),
{
    match sort {
        StrategySort::Random => small_progress_measures(game, &RandomStrategy::new(game)),
        StrategySort::Input => small_progress_measures(game, &InputStrategy::new(game)),
        StrategySort::Priority => small_progress_measures(game, &PriorityStrategy::new(game)),
        StrategySort::Successor => small_progress_measures(game, &SuccessorStrategy::new(game)),
        StrategySort::SelfLoop => small_progress_measures(game, &SelfLoopStrategy::new(game)),
    }
}

} // verus!
