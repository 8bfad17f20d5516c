use parity_games::arguments::{flag, usage, Arguments, Flag, StrategySort};
use parity_games::experiment::{
    compare, compare_field, compare_fields, count, fields, lexical_order, ExperimentFile, Field,
    Sign,
};
use std::cmp::Ordering;

fn args(words: &[&str]) -> Vec<String> {
    words.iter().map(|w| String::from(*w)).collect()
}

#[test]
fn a_file_and_a_strategy_ask_for_one_game() {
    let a = Arguments::parse(&args(&["spm", "-pg", "games/a.gm", "-priority"])).unwrap();
    assert_eq!(a.pg_file, "games/a.gm");
    assert_eq!(a.strategy, Some(StrategySort::Priority));
    assert!(!a.testing);
    let a = Arguments::parse(&args(&["spm", "-SelfLoop", "-PG", "-pg"])).unwrap();
    assert_eq!(a.pg_file, "-pg");
    assert_eq!(a.strategy, Some(StrategySort::SelfLoop));
    let a = Arguments::parse(&args(&["spm", "-pg", "a", "-random", "-pg", "b"])).unwrap();
    assert_eq!(a.pg_file, "b");
    assert_eq!(a.strategy, Some(StrategySort::Random));
    for (name, sort) in [
        ("-input", StrategySort::Input),
        ("-random", StrategySort::Random),
        ("-priority", StrategySort::Priority),
        ("-successor", StrategySort::Successor),
        ("-selfloop", StrategySort::SelfLoop),
    ] {
        let a = Arguments::parse(&args(&["spm", name, "-pg", "x"])).unwrap();
        assert_eq!(a.strategy, Some(sort));
        assert_eq!(flag(name), Some(Flag::Strategy(sort)));
    }
}

#[test]
fn a_directory_asks_for_every_strategy_on_every_game() {
    let a = Arguments::parse(&args(&["spm", "-ex", "games"])).unwrap();
    assert_eq!(a.pg_file, "games");
    assert_eq!(a.strategy, None);
    assert!(a.testing);
    assert_eq!(flag("-EX"), Some(Flag::Directory));
    assert_eq!(flag("-pG"), Some(Flag::File));
}

#[test]
fn anything_else_asks_for_the_usage() {
    assert!(Arguments::parse(&args(&[])).is_none());
    assert!(Arguments::parse(&args(&["spm"])).is_none());
    assert!(Arguments::parse(&args(&["spm", "-pg"])).is_none());
    assert!(Arguments::parse(&args(&["spm", "-pg", "a"])).is_none());
    assert!(Arguments::parse(&args(&["spm", "-input", "-random"])).is_none());
    assert!(Arguments::parse(&args(&["spm", "-input", "-pg"])).is_none());
    assert!(Arguments::parse(&args(&["spm", "-pg", "a", "-input", "-input"])).is_none());
    assert!(Arguments::parse(&args(&["spm", "-pg", "a", "-input", "-verbose"])).is_none());
    assert!(Arguments::parse(&args(&["spm", "-pg", "a", "input"])).is_none());
    assert!(Arguments::parse(&args(&["spm", "-ex", "games", "-input"])).is_none());
    assert!(Arguments::parse(&args(&["spm", "-ex", "games", "-pg", "a"])).is_none());
    assert!(Arguments::parse(&args(&["spm", "-ex", "games", "-pg", "a", "-input"])).is_none());
    assert!(Arguments::parse(&args(&["spm", "-input", "-ex"])).is_none());
    assert_eq!(flag("-inputs"), None);
    assert_eq!(flag("-p"), None);
    assert_eq!(flag(""), None);
    assert_eq!(flag("-\u{212a}"), None);
    assert_eq!(
        usage("spm"),
        "usage: spm -pg <file path> [-input]/[-random]/[-priority]/[-selfloop]/[-successor] | -ex <directory>"
    );
}

fn file(path: &str) -> ExperimentFile {
    ExperimentFile { path: String::from(path), file_name: String::from(path) }
}

fn chars(s: &str) -> Vec<char> {
    s.chars().collect()
}

#[test]
fn paths_are_cut_at_underscores_and_dots() {
    let f = fields("dining_10.invariantly.gm").unwrap();
    let texts: Vec<&str> = f.iter().map(|x| x.text.as_str()).collect();
    assert_eq!(texts, vec!["dining", "10", "invariantly", "gm"]);
    let marks: Vec<bool> = f.iter().map(|x| x.numeric).collect();
    assert_eq!(marks, vec![false, true, false, false]);
    let f = fields("_a..7").unwrap();
    let texts: Vec<&str> = f.iter().map(|x| x.text.as_str()).collect();
    assert_eq!(texts, vec!["", "a", "", "7"]);
    let marks: Vec<bool> = f.iter().map(|x| x.numeric).collect();
    assert_eq!(marks, vec![false, false, false, true]);
    assert_eq!(fields("").unwrap().len(), 1);
    assert!(!fields("1 2").unwrap()[0].numeric);
    assert!(!fields("\u{663}").unwrap()[0].numeric);
}

#[test]
fn numbers_are_compared_as_numbers_and_the_rest_as_text() {
    assert_eq!(compare(&file("dining_9.gm"), &file("dining_10.gm")), Some(Ordering::Less));
    assert_eq!(compare(&file("dining_10.gm"), &file("dining_9.gm")), Some(Ordering::Greater));
    assert_eq!(compare(&file("dining_10.gm"), &file("dining_010.gm")), Some(Ordering::Equal));
    assert_eq!(compare(&file("dining_10.gm"), &file("dining_x.gm")), Some(Ordering::Less));
    assert_eq!(compare(&file("b_1.gm"), &file("a_2.gm")), Some(Ordering::Greater));
    assert_eq!(compare(&file("a_1"), &file("a_1.gm")), Some(Ordering::Equal));
    assert_eq!(compare(&file("a.gm"), &file("a.gm")), Some(Ordering::Equal));
    assert_eq!(compare(&file("a_"), &file("a_b")), Some(Ordering::Less));
    assert_eq!(
        compare(&file("a_99999999999999999999999999"), &file("a_0")),
        Some(Ordering::Equal)
    );
    assert_eq!(compare(&file("a_18446744073709551615"), &file("a_1")), Some(Ordering::Greater));
}

#[test]
fn fields_are_compared_one_after_the_other() {
    let f = |t: &str, n: bool| Field { text: String::from(t), numeric: n };
    assert_eq!(compare_field(&f("10", true), &f("9", true)), Sign::Greater);
    assert_eq!(compare_field(&f("10", true), &f("9", false)), Sign::Less);
    assert_eq!(compare_field(&f("x", true), &f("9", true)), Sign::Less);
    assert_eq!(compare_field(&f("x", true), &f("0", true)), Sign::Equal);
    assert_eq!(compare_fields(&vec![f("a", false), f("2", true)], &vec![f("a", false), f("10", true)]), Sign::Less);
    assert_eq!(compare_fields(&vec![f("a", false)], &vec![f("a", false), f("10", true)]), Sign::Equal);
    assert_eq!(compare_fields(&vec![], &vec![f("a", false)]), Sign::Equal);
    assert_eq!(compare_fields(&vec![f("b", false), f("1", true)], &vec![f("a", false), f("2", true)]), Sign::Greater);
}

#[test]
fn texts_are_ordered_by_their_first_difference() {
    assert_eq!(lexical_order(&chars(""), &chars("")), Sign::Equal);
    assert_eq!(lexical_order(&chars(""), &chars("a")), Sign::Less);
    assert_eq!(lexical_order(&chars("a"), &chars("")), Sign::Greater);
    assert_eq!(lexical_order(&chars("abc"), &chars("abd")), Sign::Less);
    assert_eq!(lexical_order(&chars("abd"), &chars("abc")), Sign::Greater);
    assert_eq!(lexical_order(&chars("ab"), &chars("abc")), Sign::Less);
    assert_eq!(lexical_order(&chars("Z"), &chars("a")), Sign::Less);
    assert_eq!(lexical_order(&chars("z"), &chars("\u{e4}")), Sign::Less);
    assert_eq!(lexical_order(&chars("same"), &chars("same")), Sign::Equal);
}

#[test]
fn a_field_of_digits_is_its_number() {
    assert_eq!(count(&chars("0")), 0);
    assert_eq!(count(&chars("007")), 7);
    assert_eq!(count(&chars("1234567890")), 1234567890);
    assert_eq!(count(&chars("")), 0);
    assert_eq!(count(&chars("12a")), 0);
    assert_eq!(count(&chars("+12")), 0);
    assert_eq!(count(&chars(&usize::MAX.to_string())), usize::MAX);
    assert_eq!(count(&chars("340282366920938463463374607431768211456")), 0);
}
