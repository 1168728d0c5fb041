use nimi::name_map::NameMap;
use nimi::names::{duplicate_names, holds_name, remove_name, sorted_names};
use nimi::text::{decimal, join_texts, same_text, text_precedes};

fn strings(words: &[&str]) -> Vec<String> {
    words.iter().map(|w| w.to_string()).collect()
}

#[test]
fn map_keeps_first_place_and_last_value() {
    let mut map: NameMap<String, u32> = NameMap::new();
    assert!(map.is_empty());
    map.insert("b".to_string(), 1);
    map.insert("a".to_string(), 2);
    map.insert("b".to_string(), 3);
    assert_eq!(map.len(), 2);
    assert!(!map.is_empty());
    assert_eq!((map.key_at(0).as_str(), *map.value_at(0)), ("b", 3));
    assert_eq!((map.key_at(1).as_str(), *map.value_at(1)), ("a", 2));
    assert_eq!(map.get("a"), Some(&2));
    assert_eq!(map.get("c"), None);
    assert!(map.contains_key("b"));
    assert!(!map.contains_key(""));
    assert_eq!(map.into_entries(), [("b".to_string(), 3), ("a".to_string(), 2)]);
}

#[test]
fn texts_compare_like_strings() {
    let words = ["", "a", "b", "ab", "aa", "B", "é", "e\u{301}", "\u{ffff}", "\u{10000}"];
    for a in words {
        for b in words {
            assert_eq!(same_text(a, b), a == b);
            assert_eq!(text_precedes(a, b), a < b);
        }
    }
}

#[test]
fn name_lists() {
    let list = strings(&["b", "a", "b"]);
    assert!(holds_name(&list, "a"));
    assert!(!holds_name(&list, "c"));
    assert_eq!(duplicate_names(&list), list);
    assert_eq!(sorted_names(&list), ["a", "b"]);
    let mut rest = list;
    remove_name(&mut rest, "b");
    assert_eq!(rest, ["a"]);
}

#[test]
fn joining_puts_the_separator_between() {
    assert_eq!(join_texts(&strings(&[]), ", "), "");
    assert_eq!(join_texts(&strings(&["x"]), ", "), "x");
    assert_eq!(join_texts(&strings(&["x", "", "z"]), ", "), "x, , z");
}

#[test]
fn decimal_notation() {
    for n in [0, 7, 10, 99, 100, 1234567890, 4294967295] {
        assert_eq!(decimal(n), n.to_string());
    }
}
