use parity_games::listing::{key_list, member_list};
use parity_games::pg::{Game, Node, Owner};
use parity_games::reverse::reversed_edges;
use parity_games::sorting::sort_pairs;
use parity_games::text::{chars_of, parse_number, space, split, split_words, trim};
use std::collections::{HashMap, HashSet};

fn pieces(text: &str, sep: char) -> Vec<String> {
    let chars = chars_of(text);
    split(&chars, 0, chars.len(), sep)
        .iter()
        .map(|(a, b)| chars[*a..*b].iter().collect::<String>())
        .collect()
}

fn words(text: &str) -> Vec<String> {
    let chars = chars_of(text);
    split_words(&chars, 0, chars.len())
        .iter()
        .map(|(a, b)| chars[*a..*b].iter().collect::<String>())
        .collect()
}

fn trimmed(text: &str) -> String {
    let chars = chars_of(text);
    let (a, b) = trim(&chars, 0, chars.len());
    chars[a..b].iter().collect()
}

fn number(text: &str) -> Option<u32> {
    let chars = chars_of(text);
    parse_number(&chars, 0, chars.len())
}

#[test]
fn a_text_is_its_characters() {
    assert_eq!(chars_of(""), Vec::<char>::new());
    assert_eq!(chars_of("a\u{e4}\u{1F600}b"), vec!['a', '\u{e4}', '\u{1F600}', 'b']);
}

#[test]
fn a_text_is_cut_at_every_separator() {
    assert_eq!(pieces("", ';'), vec![""]);
    assert_eq!(pieces("a", ';'), vec!["a"]);
    assert_eq!(pieces(";", ';'), vec!["", ""]);
    assert_eq!(pieces("a;b;;c;", ';'), vec!["a", "b", "", "c", ""]);
    assert_eq!(pieces("1,2,3", ','), vec!["1", "2", "3"]);
    assert_eq!(pieces("\"x\"", '"'), vec!["", "x", ""]);
    let chars = chars_of("ab;cd;ef");
    assert_eq!(split(&chars, 1, 7, ';'), vec![(1, 2), (3, 5), (6, 7)]);
    assert_eq!(split(&chars, 2, 2, ';'), vec![(2, 2)]);
}

#[test]
fn words_stand_between_white_space() {
    assert_eq!(words(""), Vec::<String>::new());
    assert_eq!(words(" \t\n "), Vec::<String>::new());
    assert_eq!(words("one"), vec!["one"]);
    assert_eq!(words("  one\ttwo \n three  "), vec!["one", "two", "three"]);
    assert_eq!(words("a\u{a0}b\u{2003}c\u{85}d"), vec!["a", "b", "c", "d"]);
    assert_eq!(words("a\u{200b}b"), vec!["a\u{200b}b"]);
    let chars = chars_of("ab cd ef");
    assert_eq!(split_words(&chars, 1, 7), vec![(1, 2), (3, 5), (6, 7)]);
}

#[test]
fn white_space_is_what_unicode_says() {
    for c in ['\u{0}', '\u{8}', '\u{e}', '!', 'a', '\u{84}', '\u{86}', '\u{200b}', '\u{2027}', '\u{2060}', '\u{feff}'] {
        assert!(!space(c));
        assert!(!c.is_whitespace());
    }
    let mut n = 0u32;
    while n <= 0x3100 {
        if let Some(c) = char::from_u32(n) {
            assert_eq!(space(c), c.is_whitespace());
        }
        n += 1;
    }
}

#[test]
fn white_space_is_cut_from_both_ends() {
    assert_eq!(trimmed(""), "");
    assert_eq!(trimmed("  \n"), "");
    assert_eq!(trimmed("a"), "a");
    assert_eq!(trimmed(" \ta b \n"), "a b");
    assert_eq!(trimmed("a b"), "a b");
    let chars = chars_of(" ab ; cd ");
    assert_eq!(trim(&chars, 5, 9), (6, 8));
    assert_eq!(trim(&chars, 4, 9), (4, 8));
    assert_eq!(trim(&chars, 0, 1), (1, 1));
}

#[test]
fn numbers_are_decimal_digits_after_at_most_one_plus() {
    assert_eq!(number("0"), Some(0));
    assert_eq!(number("42"), Some(42));
    assert_eq!(number("+42"), Some(42));
    assert_eq!(number("00042"), Some(42));
    assert_eq!(number("4294967295"), Some(u32::MAX));
    assert_eq!(number("0000000000000000000000004294967295"), Some(u32::MAX));
    assert_eq!(number("4294967296"), None);
    assert_eq!(number("99999999999999999999999999"), None);
    assert_eq!(number(""), None);
    assert_eq!(number("+"), None);
    assert_eq!(number("++1"), None);
    assert_eq!(number("-1"), None);
    assert_eq!(number("1 "), None);
    assert_eq!(number("1a"), None);
    assert_eq!(number("\u{663}"), None);
    for text in ["0", "7", "+7", "12345", "4294967295", "4294967296", "", "+", "-3", "1x"] {
        assert_eq!(number(text), text.parse::<u32>().ok());
    }
}

#[test]
fn pairs_are_sorted_by_their_keys_and_keep_their_order_where_keys_are_equal() {
    assert_eq!(sort_pairs(vec![]), vec![]);
    assert_eq!(sort_pairs(vec![(3, 1)]), vec![(3, 1)]);
    assert_eq!(
        sort_pairs(vec![(3, 1), (1, 2), (2, 3), (1, 4), (3, 5), (0, 6), (1, 7)]),
        vec![(0, 6), (1, 2), (1, 4), (1, 7), (2, 3), (3, 1), (3, 5)]
    );
    let many: Vec<(u64, u32)> = (0..1000u32).map(|k| (((k * 7919) % 101) as u64, k)).collect();
    let mut expected = many.clone();
    expected.sort_by(|a, b| a.0.cmp(&b.0));
    assert_eq!(sort_pairs(many), expected);
}

#[test]
fn collections_are_listed_without_repetition() {
    let mut map = HashMap::new();
    for k in [5u32, 9, 1, 7] {
        map.insert(k, k * 2);
    }
    let mut keys = key_list(&map);
    keys.sort();
    assert_eq!(keys, vec![1, 5, 7, 9]);
    let set: HashSet<u32> = [4u32, 8, 15].into_iter().collect();
    let mut members = member_list(&set);
    members.sort();
    assert_eq!(members, vec![4, 8, 15]);
    assert!(member_list(&HashSet::new()).is_empty());
}

#[test]
fn edges_are_turned_round() {
    let mut map = HashMap::new();
    for (id, succ) in [(0u32, vec![0u32, 1]), (1, vec![2]), (2, vec![0, 1, 2]), (3, vec![0])] {
        map.insert(
            id,
            Node {
                id,
                count: 0,
                prio: 0,
                owner: Owner::Even,
                succ: succ.into_iter().collect(),
                name: None,
            },
        );
    }
    let g = Game::new(map).unwrap();
    let rev = reversed_edges(&g);
    let sorted = |id: u32| {
        let mut v = rev[&id].clone();
        v.sort();
        v
    };
    assert_eq!(rev.len(), 4);
    assert_eq!(sorted(0), vec![0, 2, 3]);
    assert_eq!(sorted(1), vec![0, 2]);
    assert_eq!(sorted(2), vec![1, 2]);
    assert_eq!(sorted(3), Vec::<u32>::new());
}
