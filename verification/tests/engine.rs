use parity_games::algorithm::{lift, prog, small_progress_measures, solve};
use parity_games::arguments::StrategySort;
use parity_games::distance::{distances, is_anchored};
use parity_games::pg::{Game, MeasureT, Node, Owner};
use parity_games::strategies::{
    InputStrategy, PriorityStrategy, RandomStrategy, SelfLoopStrategy, Strategy,
    SuccessorStrategy,
};
use std::collections::{HashMap, HashSet};

fn vertex(id: u32, count: usize, prio: u32, owner: Owner, succ: &[u32]) -> Node {
    Node { id, count, prio, owner, succ: succ.iter().copied().collect::<HashSet<u32>>(), name: None }
}

fn game_of(nodes: Vec<Node>) -> Game {
    let mut map = HashMap::new();
    for n in nodes {
        map.insert(n.id, n);
    }
    Game::new(map).unwrap()
}

fn small() -> Game {
    game_of(vec![
        vertex(0, 0, 0, Owner::Even, &[0]),
        vertex(1, 1, 1, Owner::Odd, &[0]),
        vertex(2, 2, 3, Owner::Even, &[1]),
        vertex(3, 3, 2, Owner::Even, &[2]),
        vertex(4, 4, 1, Owner::Even, &[4, 2]),
    ])
}

fn counters(t: &MeasureT) -> Option<Vec<u32>> {
    match t {
        MeasureT::Top => None,
        MeasureT::Measure(x) => Some(x.0.clone()),
    }
}

fn ids(v: &[u32]) -> HashSet<u32> {
    v.iter().copied().collect()
}

const SORTS: [StrategySort; 5] = [
    StrategySort::Input,
    StrategySort::Random,
    StrategySort::Priority,
    StrategySort::Successor,
    StrategySort::SelfLoop,
];

#[test]
fn a_self_loop_of_even_with_an_even_priority_is_won_by_even() {
    for prio in [0u32, 2, 4, 10] {
        let g = game_of(vec![vertex(7, 0, prio, Owner::Even, &[7])]);
        for sort in SORTS {
            let r = solve(&g, sort);
            assert_eq!(r.prog.winning_set(Owner::Even), ids(&[7]));
            assert!(r.prog.winning_set(Owner::Odd).is_empty());
            assert_eq!(counters(r.prog.measure(&7)), Some(vec![0; prio as usize + 1]));
            assert_eq!(r.nr_of_iterations, 1);
            assert_eq!(r.nr_of_subiterations, 1);
        }
    }
}

#[test]
fn a_self_loop_of_odd_with_an_odd_priority_is_won_by_odd() {
    for prio in [1u32, 3, 9] {
        let g = game_of(vec![vertex(7, 0, prio, Owner::Odd, &[7])]);
        for sort in SORTS {
            let r = solve(&g, sort);
            assert_eq!(r.prog.winning_set(Owner::Odd), ids(&[7]));
            assert!(r.prog.winning_set(Owner::Even).is_empty());
            assert!(matches!(r.prog.measure(&7), MeasureT::Top));
            assert_eq!(r.nr_of_iterations, 2);
            assert_eq!(r.nr_of_subiterations, 4);
        }
    }
}

#[test]
fn an_edge_asks_for_the_first_value_on_the_climb_that_settles() {
    let g = small();
    let mut p = g.new_progress();
    let v0 = g.node(&0).unwrap();
    let v1 = g.node(&1).unwrap();
    let v2 = g.node(&2).unwrap();
    let v3 = g.node(&3).unwrap();
    let v4 = g.node(&4).unwrap();
    assert_eq!(counters(&prog(&g, &p, v0, v0)), Some(vec![0, 0, 0, 0]));
    assert_eq!(counters(&prog(&g, &p, v3, v2)), Some(vec![0, 0, 0, 0]));
    assert_eq!(counters(&prog(&g, &p, v1, v0)), Some(vec![0, 1, 0, 1]));
    assert_eq!(counters(&prog(&g, &p, v2, v1)), Some(vec![0, 0, 0, 1]));
    p.0.insert(1, MeasureT::Measure(parity_games::pg::Measure(vec![0, 1, 0, 1])));
    assert_eq!(counters(&prog(&g, &p, v2, v1)), Some(vec![0, 2, 0, 1]));
    assert_eq!(counters(&prog(&g, &p, v4, v4)), Some(vec![0, 1, 0, 1]));
    p.0.insert(2, MeasureT::Measure(parity_games::pg::Measure(vec![0, 2, 0, 1])));
    assert_eq!(counters(&prog(&g, &p, v3, v2)), Some(vec![0, 2, 0, 1]));
    assert_eq!(counters(&prog(&g, &p, v4, v2)), None);
    p.0.insert(0, MeasureT::Top);
    assert_eq!(counters(&prog(&g, &p, v1, v0)), None);
    assert_eq!(counters(&prog(&g, &p, v0, v0)), None);
}

#[test]
fn a_lift_takes_the_least_for_even_and_the_greatest_for_odd() {
    let g = game_of(vec![
        vertex(0, 0, 0, Owner::Even, &[0]),
        vertex(1, 1, 1, Owner::Odd, &[1]),
        vertex(2, 2, 2, Owner::Even, &[0, 1]),
        vertex(3, 3, 2, Owner::Odd, &[0, 1]),
    ]);
    let mut p = g.new_progress();
    p.0.insert(1, MeasureT::Measure(parity_games::pg::Measure(vec![0, 1, 0])));
    assert!(!lift(&g, g.node(&2).unwrap(), &mut p));
    assert_eq!(counters(p.measure(&2)), Some(vec![0, 0, 0]));
    assert!(lift(&g, g.node(&3).unwrap(), &mut p));
    assert_eq!(counters(p.measure(&3)), Some(vec![0, 1, 0]));
    assert!(!lift(&g, g.node(&3).unwrap(), &mut p));
    assert_eq!(counters(p.measure(&3)), Some(vec![0, 1, 0]));
    assert!(lift(&g, g.node(&1).unwrap(), &mut p));
    assert!(matches!(p.measure(&1), MeasureT::Top));
    assert!(lift(&g, g.node(&3).unwrap(), &mut p));
    assert!(matches!(p.measure(&3), MeasureT::Top));
    assert!(!lift(&g, g.node(&2).unwrap(), &mut p));
    assert!(!lift(&g, g.node(&0).unwrap(), &mut p));
    assert_eq!(counters(p.measure(&0)), Some(vec![0, 0, 0]));
}

#[test]
fn a_lift_never_lowers_a_value() {
    let g = small();
    let mut p = g.new_progress();
    for _ in 0..6 {
        for id in [4u32, 3, 2, 1, 0] {
            let before = p.measure(&id).clone();
            let changed = lift(&g, g.node(&id).unwrap(), &mut p);
            let after = p.measure(&id);
            assert!(!(before > *after));
            assert_eq!(changed, *after > before);
        }
    }
}

#[test]
fn the_engine_ends_with_the_same_assignment_under_every_order() {
    let g = small();
    let r = solve(&g, StrategySort::Input);
    assert_eq!(counters(r.prog.measure(&0)), Some(vec![0, 0, 0, 0]));
    assert_eq!(counters(r.prog.measure(&1)), Some(vec![0, 1, 0, 1]));
    assert_eq!(counters(r.prog.measure(&2)), Some(vec![0, 2, 0, 1]));
    assert_eq!(counters(r.prog.measure(&3)), Some(vec![0, 2, 0, 1]));
    assert_eq!(counters(r.prog.measure(&4)), None);
    assert_eq!(r.nr_of_iterations, 2);
    assert_eq!(r.nr_of_subiterations, 16);
    assert_eq!(r.prog.winning_set(Owner::Even), ids(&[0, 1, 2, 3]));
    assert_eq!(r.prog.winning_set(Owner::Odd), ids(&[4]));
    for sort in SORTS {
        for _ in 0..10 {
            let other = solve(&g, sort);
            assert!(other.prog == r.prog);
            assert!(other.nr_of_iterations >= 1);
            assert!(other.nr_of_subiterations >= 5);
        }
    }
}

#[test]
fn the_passes_are_counted() {
    let g = game_of(vec![
        vertex(0, 4, 0, Owner::Even, &[0]),
        vertex(1, 3, 1, Owner::Odd, &[0]),
        vertex(2, 2, 3, Owner::Even, &[1]),
        vertex(3, 1, 2, Owner::Even, &[2]),
        vertex(4, 0, 1, Owner::Even, &[4, 2]),
    ]);
    let r = small_progress_measures(&g, &InputStrategy::new(&g));
    assert_eq!(r.nr_of_iterations, 4);
    assert_eq!(r.nr_of_subiterations, 27);
    assert!(r.prog == solve(&small(), StrategySort::Priority).prog);
}

#[test]
fn the_empty_game_is_solved_in_one_pass() {
    let g = game_of(vec![]);
    for sort in SORTS {
        let r = solve(&g, sort);
        assert!(r.prog.nodes().is_empty());
        assert_eq!(r.nr_of_iterations, 1);
        assert_eq!(r.nr_of_subiterations, 0);
    }
}

#[test]
fn the_orders_are_sorted_by_their_keys() {
    let g = game_of(vec![
        vertex(10, 3, 5, Owner::Even, &[10, 11, 12, 13]),
        vertex(11, 0, 9, Owner::Odd, &[12]),
        vertex(12, 2, 1, Owner::Even, &[10, 11]),
        vertex(13, 1, 7, Owner::Odd, &[10, 12, 13]),
    ]);
    assert_eq!(InputStrategy::new(&g).vertices(), vec![11, 13, 12, 10]);
    assert_eq!(PriorityStrategy::new(&g).vertices(), vec![12, 10, 13, 11]);
    assert_eq!(SuccessorStrategy::new(&g).vertices(), vec![11, 12, 13, 10]);
    assert_eq!(SelfLoopStrategy::new(&g).vertices(), vec![13, 10, 12, 11]);
    let mut random = RandomStrategy::new(&g).vertices();
    random.sort();
    assert_eq!(random, vec![10, 11, 12, 13]);
}

#[test]
fn distances_are_counted_along_the_edges_to_an_anchored_vertex() {
    let g = game_of(vec![
        vertex(0, 0, 2, Owner::Even, &[0, 5]),
        vertex(1, 0, 1, Owner::Even, &[0]),
        vertex(2, 0, 0, Owner::Odd, &[1, 3]),
        vertex(3, 0, 0, Owner::Odd, &[2]),
        vertex(4, 0, 3, Owner::Even, &[4, 3]),
        vertex(5, 0, 0, Owner::Odd, &[5, 6]),
        vertex(6, 0, 0, Owner::Odd, &[6]),
        vertex(7, 0, 0, Owner::Odd, &[7, 8]),
        vertex(8, 0, 0, Owner::Odd, &[7]),
    ]);
    assert!(is_anchored(g.node(&0).unwrap()));
    assert!(!is_anchored(g.node(&1).unwrap()));
    assert!(!is_anchored(g.node(&4).unwrap()));
    assert!(!is_anchored(g.node(&5).unwrap()));
    assert!(is_anchored(g.node(&6).unwrap()));
    assert!(!is_anchored(g.node(&7).unwrap()));
    let d = distances(&g);
    assert_eq!(d[&0], 0);
    assert_eq!(d[&1], 1);
    assert_eq!(d[&2], 2);
    assert_eq!(d[&3], 3);
    assert_eq!(d[&4], 4);
    assert_eq!(d[&5], 1);
    assert_eq!(d[&6], 0);
    assert_eq!(d[&7], u32::MAX);
    assert_eq!(d[&8], u32::MAX);
    let order = SelfLoopStrategy::new(&g).vertices();
    let keys: Vec<u32> = order.iter().map(|id| d[id]).collect();
    let mut sorted = keys.clone();
    sorted.sort();
    assert_eq!(keys, sorted);
    assert_eq!(order.len(), 9);
}

#[test]
fn the_random_order_is_a_rearrangement_that_chance_picks() {
    let nodes: Vec<Node> = (0..60u32).map(|id| vertex(id, id as usize, 0, Owner::Even, &[id])).collect();
    let g = game_of(nodes);
    let listed = g.ids().clone();
    let mut differs = false;
    for _ in 0..4 {
        let order = RandomStrategy::new(&g).vertices();
        let mut sorted = order.clone();
        sorted.sort();
        assert_eq!(sorted, (0..60u32).collect::<Vec<u32>>());
        if order != listed {
            differs = true;
        }
    }
    assert!(differs);
}

#[test]
fn an_order_with_equal_keys_keeps_every_vertex_once() {
    let nodes: Vec<Node> = (0..33u32).map(|id| vertex(id, 5, id % 3, Owner::Odd, &[id, (id + 1) % 33])).collect();
    let g = game_of(nodes);
    for order in [
        InputStrategy::new(&g).vertices(),
        PriorityStrategy::new(&g).vertices(),
        SuccessorStrategy::new(&g).vertices(),
        SelfLoopStrategy::new(&g).vertices(),
    ] {
        let mut sorted = order.clone();
        sorted.sort();
        assert_eq!(sorted, (0..33u32).collect::<Vec<u32>>());
    }
    let by_priority = PriorityStrategy::new(&g).vertices();
    let prios: Vec<u32> = by_priority.iter().map(|id| id % 3).collect();
    let mut sorted = prios.clone();
    sorted.sort();
    assert_eq!(prios, sorted);
}
