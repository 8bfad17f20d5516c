use parity_games::pg::{Game, Measure, MeasureT, Node, Owner, Progress};
use std::cmp::Ordering;
use std::collections::{HashMap, HashSet};

fn m(v: &[u32]) -> Measure {
    Measure(v.to_vec())
}

fn mt(v: &[u32]) -> MeasureT {
    MeasureT::Measure(m(v))
}

fn counters(t: &MeasureT) -> Option<Vec<u32>> {
    match t {
        MeasureT::Top => None,
        MeasureT::Measure(x) => Some(x.0.clone()),
    }
}

fn vertex(id: u32, prio: u32, owner: Owner, succ: &[u32]) -> Node {
    Node {
        id,
        count: id as usize,
        prio,
        owner,
        succ: succ.iter().copied().collect::<HashSet<u32>>(),
        name: None,
    }
}

fn game_of(nodes: Vec<Node>) -> Game {
    let mut map = HashMap::new();
    for n in nodes {
        map.insert(n.id, n);
    }
    Game::new(map).unwrap()
}

/// A game whose greatest measure is [0, 2, 0, 1].
fn small() -> Game {
    game_of(vec![
        vertex(0, 0, Owner::Even, &[0]),
        vertex(1, 1, Owner::Odd, &[0]),
        vertex(2, 3, Owner::Even, &[1]),
        vertex(3, 2, Owner::Even, &[2]),
        vertex(4, 1, Owner::Even, &[4, 2]),
    ])
}

#[test]
fn equality_looks_at_odd_positions_up_to_the_index() {
    let a = m(&[0, 1, 0, 2]);
    let b = m(&[9, 1, 7, 3]);
    assert!(a.eq(&b, 0));
    assert!(a.eq(&b, 1));
    assert!(a.eq(&b, 2));
    assert!(!a.eq(&b, 3));
    assert!(!a.eq(&b, 100));
    assert!(a.eq(&a, 3));
    assert_eq!(a.length(), 4);
}

#[test]
fn missing_positions_count_as_zero() {
    let short = m(&[0, 1]);
    let long = m(&[0, 1, 0, 0, 0, 0]);
    assert!(short.eq(&long, 5));
    assert!(long.eq(&short, 5));
    assert!(!short.gt(&long, 5));
    assert!(!long.gt(&short, 5));
    assert!(short == long);
    let longer = m(&[0, 1, 0, 0, 0, 2]);
    assert!(!short.eq(&longer, 5));
    assert!(short.eq(&longer, 4));
    assert!(longer.gt(&short, 5));
    assert!(!short.gt(&longer, 5));
    assert!(short.eq(&longer, usize::MAX - 1) == false);
    assert!(longer.gt(&short, usize::MAX));
    let empty = m(&[]);
    assert!(empty.eq(&m(&[]), 0));
    assert!(empty == m(&[]));
    assert!(!(empty > m(&[])));
    assert!(empty == m(&[5]));
}

#[test]
fn the_first_difference_from_the_index_down_decides() {
    let a = m(&[0, 1, 0, 2]);
    let b = m(&[0, 2, 0, 1]);
    assert!(a.gt(&b, 3));
    assert!(!b.gt(&a, 3));
    assert!(a.gt(&b, 4));
    assert!(b.gt(&a, 2));
    assert!(!a.gt(&b, 2));
    assert!(b.gt(&a, 1));
    assert!(!a.gt(&b, 0));
    assert!(!b.gt(&a, 0));
    assert!(!a.gt(&a, 3));
    let c = m(&[5, 1, 5, 2]);
    assert!(!c.gt(&a, 3));
    assert!(!a.gt(&c, 3));
}

#[test]
fn the_order_over_all_positions_is_the_order_of_the_operators() {
    let a = m(&[0, 1, 0, 2]);
    let b = m(&[0, 2, 0, 1]);
    assert!(a > b);
    assert!(b < a);
    assert!(a != b);
    assert!(a >= b);
    assert_eq!(a.partial_cmp(&b), Some(Ordering::Greater));
    assert_eq!(b.partial_cmp(&a), Some(Ordering::Less));
    assert_eq!(a.partial_cmp(&m(&[7, 1, 7, 2])), Some(Ordering::Equal));
    assert!(a == m(&[7, 1, 7, 2]));
    assert!(a.same(&m(&[7, 1, 7, 2])));
    assert!(a.exceeds(&b));
    assert!(!b.exceeds(&a));
}

#[test]
fn top_is_above_every_measure_and_equal_to_itself_alone() {
    let x = mt(&[0, 4, 0, 4]);
    let top = MeasureT::Top;
    for i in [0usize, 1, 2, 3, 17] {
        assert!(top.eq(&MeasureT::Top, i));
        assert!(!top.eq(&x, i));
        assert!(!x.eq(&top, i));
        assert!(top.gt(&x, i));
        assert!(!x.gt(&top, i));
        assert!(!top.gt(&MeasureT::Top, i));
        assert!(top.ge(&x, i));
        assert!(top.ge(&MeasureT::Top, i));
        assert!(!x.ge(&top, i));
        assert!(x.lt(&top, i));
        assert!(!top.lt(&x, i));
        assert!(!top.lt(&MeasureT::Top, i));
        assert!(x.le(&top, i));
        assert!(top.le(&MeasureT::Top, i));
        assert!(!top.le(&x, i));
    }
    assert!(top == MeasureT::Top);
    assert!(top != x);
    assert!(top > x);
    assert!(x < top);
    assert_eq!(top.partial_cmp(&MeasureT::Top), Some(Ordering::Equal));
    assert_eq!(x.partial_cmp(&top), Some(Ordering::Less));
    assert_eq!(top.partial_cmp(&x), Some(Ordering::Greater));
    assert!(matches!(top.inc(&small()), MeasureT::Top));
}

#[test]
fn values_compare_as_their_measures() {
    let a = mt(&[0, 1, 0, 2]);
    let b = mt(&[0, 2, 0, 1]);
    assert!(a.gt(&b, 3));
    assert!(a.ge(&b, 3));
    assert!(!a.lt(&b, 3));
    assert!(!a.le(&b, 3));
    assert!(b.lt(&a, 3));
    assert!(b.le(&a, 3));
    assert!(b.gt(&a, 1));
    assert!(a.le(&b, 1));
    assert!(a.eq(&b, 0));
    assert!(a.ge(&b, 0));
    assert!(a.le(&b, 0));
    assert!(!a.lt(&b, 0));
    assert!(a > b);
    assert!(a.exceeds(&b));
    assert!(a.same(&mt(&[1, 1, 1, 2])));
}

#[test]
fn the_greatest_measure_counts_the_vertices_of_each_odd_priority() {
    let g = small();
    assert_eq!(g.max_prio(), 3);
    assert_eq!(g.max_measure().0, vec![0, 2, 0, 1]);
    assert_eq!(counters(&g.new_measure()), Some(vec![0, 0, 0, 0]));
    let g = game_of(vec![
        vertex(0, 4, Owner::Even, &[1]),
        vertex(1, 4, Owner::Odd, &[0]),
        vertex(2, 1, Owner::Odd, &[0]),
    ]);
    assert_eq!(g.max_prio(), 4);
    assert_eq!(g.max_measure().0, vec![0, 1, 0, 0, 0]);
    let g = game_of(vec![vertex(0, 0, Owner::Even, &[0])]);
    assert_eq!(g.max_prio(), 0);
    assert_eq!(g.max_measure().0, vec![0]);
    assert_eq!(counters(&g.new_measure()), Some(vec![0]));
}

#[test]
fn a_step_raises_the_highest_position_with_room_and_clears_those_below() {
    let g = small();
    assert_eq!(counters(&mt(&[0, 0, 0, 0]).inc(&g)), Some(vec![0, 0, 0, 1]));
    assert_eq!(counters(&mt(&[0, 0, 0, 1]).inc(&g)), Some(vec![0, 1, 0, 1]));
    assert_eq!(counters(&mt(&[0, 1, 0, 1]).inc(&g)), Some(vec![0, 2, 0, 1]));
    assert_eq!(counters(&mt(&[0, 2, 0, 1]).inc(&g)), None);
    assert_eq!(counters(&mt(&[0, 2, 0, 0]).inc(&g)), Some(vec![0, 0, 0, 1]));
    assert_eq!(counters(&mt(&[0, 1, 0, 0]).inc(&g)), Some(vec![0, 0, 0, 1]));
    assert_eq!(counters(&mt(&[3, 1, 4, 1]).inc(&g)), Some(vec![3, 2, 4, 1]));
    assert_eq!(counters(&MeasureT::Top.inc(&g)), None);
    assert_eq!(counters(&m(&[0, 0, 0, 0]).successor(&m(&[0, 2, 0, 1]))), Some(vec![0, 0, 0, 1]));
    assert_eq!(counters(&m(&[0, 2]).successor(&m(&[0, 2, 0, 1]))), None);
    assert_eq!(counters(&m(&[0]).successor(&m(&[0]))), None);
    assert_eq!(counters(&m(&[]).successor(&m(&[0, 1]))), None);
}

#[test]
fn the_steps_from_zero_end_at_top() {
    let g = small();
    let mut value = g.new_measure();
    let mut seen = 0;
    loop {
        let next = value.inc(&g);
        if let MeasureT::Top = next {
            break;
        }
        assert!(next > value);
        assert!(next.gt(&value, 3));
        value = next;
        seen += 1;
        assert!(seen <= 3);
    }
    assert_eq!(seen, 3);
    assert_eq!(counters(&value), Some(vec![0, 2, 0, 1]));
}

#[test]
fn a_fresh_assignment_gives_every_vertex_the_zero_measure() {
    let g = small();
    let p = g.new_progress();
    assert_eq!(p.nodes(), [0u32, 1, 2, 3, 4].into_iter().collect::<HashSet<u32>>());
    for id in 0..5u32 {
        assert_eq!(counters(p.measure(&id)), Some(vec![0, 0, 0, 0]));
    }
    assert_eq!(p.winning_set(Owner::Even).len(), 5);
    assert!(p.winning_set(Owner::Odd).is_empty());
    assert!(p == g.new_progress());
}

#[test]
fn the_winning_sets_part_the_vertices() {
    let mut map = HashMap::new();
    map.insert(3, MeasureT::Top);
    map.insert(5, mt(&[0, 1]));
    map.insert(8, MeasureT::Top);
    map.insert(9, mt(&[0, 0]));
    let p = Progress(map);
    let even = p.winning_set(Owner::Even);
    let odd = p.winning_set(Owner::Odd);
    assert_eq!(even, [5u32, 9].into_iter().collect::<HashSet<u32>>());
    assert_eq!(odd, [3u32, 8].into_iter().collect::<HashSet<u32>>());
    assert!(even.is_disjoint(&odd));
    let all: HashSet<u32> = even.union(&odd).copied().collect();
    assert_eq!(all, p.nodes());
    assert!(matches!(p.measure(&3), MeasureT::Top));
    assert_eq!(counters(p.measure(&5)), Some(vec![0, 1]));
}

#[test]
fn assignments_are_equal_where_every_vertex_has_the_same_value() {
    let mut a = HashMap::new();
    a.insert(1, MeasureT::Top);
    a.insert(2, mt(&[0, 1, 0, 2]));
    let mut b = HashMap::new();
    b.insert(1, MeasureT::Top);
    b.insert(2, mt(&[5, 1, 5, 2]));
    assert!(Progress(a.clone()) == Progress(b.clone()));
    b.insert(3, MeasureT::Top);
    assert!(Progress(a.clone()) != Progress(b.clone()));
    assert!(Progress(b.clone()) != Progress(a.clone()));
    b.remove(&3);
    b.insert(2, mt(&[0, 1, 0, 3]));
    assert!(Progress(a) != Progress(b));
}

#[test]
fn games_are_equal_where_they_are_the_same_graph() {
    let a = small();
    let mut other = vec![
        vertex(0, 0, Owner::Even, &[0]),
        vertex(1, 1, Owner::Odd, &[0]),
        vertex(2, 3, Owner::Even, &[1]),
        vertex(3, 2, Owner::Even, &[2]),
        vertex(4, 1, Owner::Even, &[2, 4]),
    ];
    other[2].name = Some(String::from("two"));
    other[2].count = 77;
    assert!(a == game_of(other));
    assert!(a.same(&small()));
    let fewer = game_of(vec![vertex(0, 0, Owner::Even, &[0])]);
    assert!(a != fewer);
    assert!(fewer != a);
    let mut changed = small().nodes().iter().map(|n| vertex(n.id, n.prio, n.owner, &n.succ.iter().copied().collect::<Vec<u32>>())).collect::<Vec<Node>>();
    for n in changed.iter_mut() {
        if n.id == 4 {
            n.owner = Owner::Odd;
        }
    }
    assert!(a != game_of(changed));
    let mut changed = small().nodes().iter().map(|n| vertex(n.id, n.prio, n.owner, &n.succ.iter().copied().collect::<Vec<u32>>())).collect::<Vec<Node>>();
    for n in changed.iter_mut() {
        if n.id == 4 {
            n.succ.remove(&2);
        }
    }
    assert!(a != game_of(changed));
}

#[test]
fn from_nodes_keeps_the_first_vertex_of_an_identifier() {
    let g = Game::from_nodes(vec![
        vertex(1, 2, Owner::Even, &[1]),
        vertex(1, 5, Owner::Odd, &[1]),
    ])
    .unwrap();
    assert_eq!(g.nodes().len(), 1);
    assert_eq!(g.node(&1).unwrap().prio, 2);
    assert_eq!(g.ids().clone(), vec![1]);
    assert!(Game::from_nodes(vec![]).unwrap().nodes().is_empty());
}
