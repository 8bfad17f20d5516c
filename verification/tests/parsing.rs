use parity_games::algorithm::solve;
use parity_games::arguments::StrategySort;
use parity_games::parser::{
    parse, parse_node_spec, parse_nodes, try_parse_header, Error, Flaw, ParseError,
};
use parity_games::pg::{Game, GameError, Node, Owner};
use std::collections::{HashMap, HashSet};

fn node(id: u32, prio: u32, owner: Owner, succ: &[u32], name: Option<&str>) -> Node {
    Node {
        id,
        count: 0,
        prio,
        owner,
        succ: succ.iter().copied().collect::<HashSet<u32>>(),
        name: name.map(String::from),
    }
}

fn game(nodes: Vec<Node>) -> Game {
    let mut map = HashMap::new();
    for n in nodes {
        map.insert(n.id, n);
    }
    Game::new(map).unwrap()
}

fn set(ids: &[u32]) -> HashSet<u32> {
    ids.iter().copied().collect()
}

const SIX: &str = "parity 4;\n1 3 0 1,3,4 \"Europe\";\n0 6 1 4,2;\n4 5 1 0 \"Antarctica\";\n1 8 1 2,4,3 \"America\";\n3 6 0 4,2 \"Australia\";\n2 7 0 3,1,0,4 \"Asia\";";

#[test]
fn parsing() {
    let input = "parity 4;\n1 3 0 1,3,4 \"Europe\";\n0 6 1 4,2;\n4 5 1 0 \"Antarctica\";\n1 8 1 2,4,3 \"America\";\n3 6 0 4,2 \"Australia\";\n2 7 0 3,1,0,4 \"Asia\";";

    let parsed = parse(input).unwrap();
    let result = game(vec![
        node(0, 6, Owner::Odd, &[2, 4], Some("Africa")),
        node(3, 6, Owner::Even, &[2, 4], Some("Australia")),
        node(1, 3, Owner::Even, &[1, 3, 4], Some("Europe")),
        node(4, 5, Owner::Odd, &[0], Some("Antarctica")),
        node(2, 7, Owner::Even, &[1, 0, 4, 3], Some("Asia")),
    ]);
    assert_eq!(parsed, result);

    let result = game(vec![]);
    assert_ne!(parsed, result);

    let result = game(vec![
        node(0, 5, Owner::Odd, &[2, 4], Some("Africa")),
        node(3, 6, Owner::Even, &[2, 4], Some("Australia")),
        node(1, 2, Owner::Even, &[1, 3, 4], Some("Europe")),
        node(4, 3, Owner::Odd, &[0], Some("Antarctica")),
        node(2, 7, Owner::Even, &[1, 0, 4, 3], Some("Asia")),
    ]);
    assert_ne!(parsed, result);
}

#[test]
fn six_lines_give_six_vertices_of_which_two_share_an_identifier() {
    let nodes = parse_nodes(SIX).unwrap();
    assert_eq!(nodes.len(), 6);
    let ids: Vec<u32> = nodes.iter().map(|n| n.id).collect();
    assert_eq!(ids, vec![1, 0, 4, 1, 3, 2]);
    let counts: Vec<usize> = nodes.iter().map(|n| n.count).collect();
    assert_eq!(counts, vec![0, 1, 2, 3, 4, 5]);
    assert_eq!(nodes[0].name, Some(String::from("Europe")));
    assert_eq!(nodes[1].name, None);
    assert_eq!(nodes[3].name, Some(String::from("America")));
    assert_eq!(nodes[3].prio, 8);
    assert_eq!(nodes[3].owner, Owner::Odd);
    assert_eq!(nodes[5].succ, set(&[3, 1, 0, 4]));
}

#[test]
fn the_first_of_two_vertices_with_one_identifier_stays() {
    let g = parse(SIX).unwrap();
    assert_eq!(g.nodes().len(), 5);
    let one = g.node(&1).unwrap();
    assert_eq!(one.prio, 3);
    assert_eq!(one.owner, Owner::Even);
    assert_eq!(one.succ, set(&[1, 3, 4]));
    assert_eq!(one.name, Some(String::from("Europe")));
    assert_eq!(g.max_prio(), 7);
    assert_eq!(g.max_measure().0, vec![0, 0, 0, 1, 0, 1, 0, 1]);
}

#[test]
fn the_six_line_game_has_one_partition_under_all_five_strategies() {
    let g = parse(SIX).unwrap();
    let sorts = [
        StrategySort::Input,
        StrategySort::Random,
        StrategySort::Priority,
        StrategySort::Successor,
        StrategySort::SelfLoop,
    ];
    let first = solve(&g, sorts[0]);
    let even = first.prog.winning_set(Owner::Even);
    let odd = first.prog.winning_set(Owner::Odd);
    let all: HashSet<u32> = even.union(&odd).copied().collect();
    assert_eq!(all, set(&[0, 1, 2, 3, 4]));
    assert!(even.is_disjoint(&odd));
    for sort in sorts {
        for _ in 0..5 {
            let other = solve(&g, sort);
            assert_eq!(other.prog.winning_set(Owner::Even), even);
            assert_eq!(other.prog.winning_set(Owner::Odd), odd);
            assert!(other.prog == first.prog);
        }
    }
}

#[test]
fn a_text_without_header_is_read_from_its_first_line() {
    let nodes = parse_nodes("5 2 0 5;\n\n ; 6 1 1 5,6 \"b\" ignored words;").unwrap();
    assert_eq!(nodes.len(), 2);
    assert_eq!(nodes[0].id, 5);
    assert_eq!(nodes[0].count, 0);
    assert_eq!(nodes[1].id, 6);
    assert_eq!(nodes[1].count, 2);
    assert_eq!(nodes[1].name, Some(String::from("b")));
    assert_eq!(nodes[1].succ, set(&[5, 6]));
}

#[test]
fn an_empty_text_is_the_empty_game() {
    let g = parse("").unwrap();
    assert_eq!(g.nodes().len(), 0);
    assert_eq!(g.max_prio(), 0);
    assert_eq!(g.max_measure().0, vec![0]);
    let g = parse("  \n parity 12 ;  ").unwrap();
    assert_eq!(g.nodes().len(), 0);
}

#[test]
fn headers_are_told_from_vertices() {
    assert!(matches!(try_parse_header("parity 4"), Ok(Some(4))));
    assert!(matches!(try_parse_header("  parity   +17 more"), Ok(Some(17))));
    assert!(matches!(try_parse_header("1 3 0 1"), Ok(None)));
    assert!(matches!(try_parse_header("   "), Ok(None)));
    assert!(matches!(try_parse_header("Parity 4"), Ok(None)));
    match try_parse_header(" parity ") {
        Err(ParseError::MalformedHeader { line }) => assert_eq!(line, "parity"),
        _ => panic!("a header without a number is malformed"),
    }
    match try_parse_header("parity x4") {
        Err(e) => assert_eq!(e.message(), "The header 'parity x4' names no greatest identifier."),
        _ => panic!("a header without a number is malformed"),
    }
    assert!(matches!(try_parse_header("parity 4294967295"), Ok(Some(4294967295))));
    assert!(matches!(try_parse_header("parity 4294967296"), Err(ParseError::MalformedHeader { .. })));
}

#[test]
fn a_malformed_header_stops_the_reading() {
    match parse("parity;\n1 3 0 1;") {
        Err(Error::Input(ParseError::MalformedHeader { line })) => assert_eq!(line, "parity"),
        _ => panic!("the header is malformed"),
    }
}

#[test]
fn a_second_header_is_reported_with_its_line() {
    match parse("parity 4;\n1 3 0 1;\n parity 5 ;\n2 2 0 1;") {
        Err(Error::Input(ParseError::DuplicateHeader { line })) => assert_eq!(line, "parity 5"),
        _ => panic!("the header repeats"),
    }
    match parse_nodes("parity 4;\n parity 5 ;") {
        Err(e) => assert_eq!(e.message(), "The line 'parity 5' is a second header."),
        _ => panic!("the header repeats"),
    }
    match parse("1 3 0 1;\n parity 5 ;") {
        Err(Error::Input(ParseError::MalformedNode { line, flaw })) => {
            assert_eq!(line, "parity 5");
            assert_eq!(flaw, Flaw::BadId);
        },
        _ => panic!("a header after the first line is no vertex"),
    }
}

fn flaw_of(line: &str) -> Flaw {
    match parse_node_spec(0, line) {
        Err(ParseError::MalformedNode { flaw, .. }) => flaw,
        _ => panic!("the line is no vertex"),
    }
}

#[test]
fn each_flaw_of_a_vertex_is_named() {
    assert_eq!(flaw_of("  "), Flaw::NoId);
    assert_eq!(flaw_of("x 1 0 1"), Flaw::BadId);
    assert_eq!(flaw_of("-1 1 0 1"), Flaw::BadId);
    assert_eq!(flaw_of("4294967296 1 0 1"), Flaw::BadId);
    assert_eq!(flaw_of("1"), Flaw::NoPriority);
    assert_eq!(flaw_of("1 1.5 0 1"), Flaw::BadPriority);
    assert_eq!(flaw_of("1 1"), Flaw::NoOwner);
    assert_eq!(flaw_of("1 1 2 1"), Flaw::BadOwner);
    assert_eq!(flaw_of("1 1 00 1"), Flaw::BadOwner);
    assert_eq!(flaw_of("1 1 0"), Flaw::NoSuccessors);
    assert_eq!(flaw_of("1 1 0 1,,2"), Flaw::BadSuccessor);
    assert_eq!(flaw_of("1 1 0 1,"), Flaw::BadSuccessor);
    assert_eq!(flaw_of("1 1 0 1,a"), Flaw::BadSuccessor);
    assert_eq!(flaw_of("1 1 0 1 \"\""), Flaw::NoName);
    assert_eq!(flaw_of("1 1 0 1 \""), Flaw::NoName);
    match parse_node_spec(3, " 1 1 0 1,a \"n\" ") {
        Err(e) => assert_eq!(
            e.message(),
            "The line '1 1 0 1,a \"n\"' is no vertex: one of its successors is not a natural number."
        ),
        _ => panic!("the line is no vertex"),
    }
}

#[test]
fn a_vertex_is_read_field_by_field() {
    let n = parse_node_spec(9, "\t+7  002 1 3,4,3 x\"New\"York\" rest").unwrap();
    assert_eq!(n.id, 7);
    assert_eq!(n.count, 9);
    assert_eq!(n.prio, 2);
    assert_eq!(n.owner, Owner::Odd);
    assert_eq!(n.succ, set(&[3, 4]));
    assert_eq!(n.name, Some(String::from("x")));
    let n = parse_node_spec(0, "1 1 0 1 \"na\u{e4}me\"").unwrap();
    assert_eq!(n.name, Some(String::from("na\u{e4}me")));
    let n = parse_node_spec(0, "1\u{a0}1\u{2003}0\u{3000}1").unwrap();
    assert_eq!(n.succ, set(&[1]));
    assert_eq!(n.name, None);
}

#[test]
fn owners_are_read_from_zero_and_one() {
    assert_eq!(Owner::parse("0"), Ok(Owner::Even));
    assert_eq!(Owner::parse("1"), Ok(Owner::Odd));
    assert_eq!("1".parse::<Owner>(), Ok(Owner::Odd));
    assert_eq!(
        Owner::parse("2"),
        Err(String::from("The string '2' cannot be parsed as the type Owner."))
    );
    assert!(Owner::parse("").is_err());
    assert!(Owner::parse("01").is_err());
}

#[test]
fn a_game_with_a_flaw_in_its_structure_is_refused_with_the_flaw() {
    match parse("1 3 0 2;") {
        Err(Error::Structure(GameError::UnknownSuccessor { id, successor })) => {
            assert_eq!((id, successor), (1, 2));
        },
        _ => panic!("vertex 2 is missing"),
    }
    let mut map = HashMap::new();
    map.insert(1, node(1, 0, Owner::Even, &[], None));
    assert_eq!(Game::new(map).err(), Some(GameError::NoSuccessor { id: 1 }));
    let mut map = HashMap::new();
    map.insert(2, node(1, 0, Owner::Even, &[2], None));
    assert_eq!(Game::new(map).err(), Some(GameError::Misfiled { key: 2, id: 1 }));
    let mut map = HashMap::new();
    map.insert(2, node(1, 0, Owner::Even, &[], None));
    assert_eq!(Game::new(map).err(), Some(GameError::Misfiled { key: 2, id: 1 }));
    let mut map = HashMap::new();
    map.insert(1, node(1, 0, Owner::Even, &[], None));
    map.insert(2, node(2, 0, Owner::Even, &[7], None));
    assert_eq!(Game::new(map).err(), Some(GameError::NoSuccessor { id: 1 }));
    let g = game(vec![node(1, 0, Owner::Even, &[1], None)]);
    assert_eq!(g.node(&5).err(), Some(GameError::UnknownVertex { id: 5 }));
    assert_eq!(g.node(&1).unwrap().id, 1);
}
