use std::collections::HashSet;

use api_trie::trie::Trie;
use api_trie::validate::{split_lines, validate_string, validate_word, CustomError};

fn strings(words: &[&str]) -> Vec<String> {
    words.iter().map(|w| w.to_string()).collect()
}

fn with_words(words: &[&str]) -> Trie {
    let mut t = Trie::empty();
    t.add_words(strings(words)).unwrap();
    t
}

fn as_set(words: Vec<String>) -> HashSet<String> {
    words.into_iter().collect()
}

#[test]
fn adding_a_word_counts_once() {
    let mut t = Trie::empty();
    t.add_words(strings(&["Hello"])).unwrap();
    assert_eq!(t.does_word_exist("hello".to_string()).unwrap(), true);
    assert_eq!(t.get_metadata(), (1, 5));
    t.add_words(strings(&["HELLO"])).unwrap();
    assert_eq!(t.get_metadata(), (1, 5));
}

#[test]
fn delete_keeps_nodes_of_other_words() {
    let mut t = with_words(&["app", "apple", "applebot", "ap"]);
    assert_eq!(t.get_metadata(), (4, 8));
    assert_eq!(t.delete_word("apple".to_string()).unwrap(), true);
    assert_eq!(t.get_metadata(), (3, 8));
    assert_eq!(t.does_word_exist("apple".to_string()).unwrap(), false);
    assert_eq!(t.does_word_exist("applebot".to_string()).unwrap(), true);
    assert_eq!(t.delete_word("applebot".to_string()).unwrap(), true);
    assert_eq!(t.get_metadata(), (2, 3));
    assert_eq!(t.does_word_exist("app".to_string()).unwrap(), true);
    assert_eq!(t.delete_word("app".to_string()).unwrap(), true);
    assert_eq!(t.get_metadata(), (1, 2));
    assert_eq!(t.delete_word("ap".to_string()).unwrap(), true);
    assert_eq!(t.get_metadata(), (0, 0));
}

#[test]
fn delete_absent_word_changes_nothing() {
    let mut t = with_words(&["bridge", "brief"]);
    assert_eq!(t.delete_word("bri".to_string()).unwrap(), false);
    assert_eq!(t.delete_word("bridges".to_string()).unwrap(), false);
    assert_eq!(t.delete_word("zebra".to_string()).unwrap(), false);
    assert_eq!(t.get_metadata(), (2, 8));
    assert_eq!(as_set(t.entire_dictionary()), as_set(strings(&["bridge", "brief"])));
}

#[test]
fn round_trip_gives_normalized_unique_entries() {
    let t = with_words(&["Zoo", "zoo", "ZOOM", "a"]);
    assert_eq!(as_set(t.entire_dictionary()), as_set(strings(&["zoo", "zoom", "a"])));
    assert_eq!(t.entire_dictionary().len(), 3);
}

#[test]
fn scenario_seven_words() {
    let t = with_words(&["apple", "app", "ap", "appstore", "bridge", "brief", "brink"]);
    assert_eq!(t.get_metadata(), (7, 20));
    assert_eq!(t.does_word_exist("APP".to_string()).unwrap(), true);
    // A query that spells a stored word is not reported as a prefix.
    assert_eq!(t.does_prefix_exist("ap".to_string()).unwrap(), false);
    assert_eq!(t.does_prefix_exist("appst".to_string()).unwrap(), true);
    assert_eq!(t.does_prefix_exist("bri".to_string()).unwrap(), true);
    assert_eq!(t.does_prefix_exist("cat".to_string()).unwrap(), false);
    let comps = as_set(t.autocomplete("ap".to_string()).unwrap());
    assert_eq!(comps, as_set(strings(&["p", "ple", "pstore"])));
}

#[test]
fn invalid_characters_are_named_and_change_nothing() {
    let mut t = with_words(&["keep"]);
    for (word, bad) in [("two words", ' '), ("abc1", '1'), ("semi;colon", ';'), ("dash-ed", '-')] {
        match t.add_words(vec!["fine".to_string(), word.to_string()]) {
            Err(CustomError::InvalidCharacter(c, s)) => {
                assert_eq!(c, bad);
                assert_eq!(s, word.to_string());
            }
            other => panic!("expected InvalidCharacter, got {:?}", other),
        }
        match t.delete_word(word.to_string()) {
            Err(CustomError::InvalidCharacter(c, _)) => assert_eq!(c, bad),
            other => panic!("expected InvalidCharacter, got {:?}", other),
        }
    }
    assert_eq!(t.get_metadata(), (1, 4));
    assert_eq!(t.does_word_exist("fine".to_string()).unwrap(), false);
}

#[test]
fn empty_word_is_invalid_formatting() {
    let mut t = Trie::empty();
    assert!(matches!(t.add_words(strings(&["a", ""])), Err(CustomError::InvalidFormatting)));
    assert!(matches!(t.does_word_exist("".to_string()), Err(CustomError::InvalidFormatting)));
    assert!(matches!(t.does_prefix_exist("".to_string()), Err(CustomError::InvalidFormatting)));
    assert!(matches!(t.delete_word("".to_string()), Err(CustomError::InvalidFormatting)));
    assert_eq!(t.get_metadata(), (0, 0));
}

#[test]
fn empty_prefix_completes_to_everything() {
    let t = with_words(&["dog", "do", "cat"]);
    assert_eq!(as_set(t.autocomplete("".to_string()).unwrap()), as_set(strings(&["dog", "do", "cat"])));
    assert_eq!(as_set(t.autocomplete("DO".to_string()).unwrap()), as_set(strings(&["g"])));
    assert!(t.autocomplete("x".to_string()).unwrap().is_empty());
    assert!(matches!(t.autocomplete("d0".to_string()), Err(CustomError::InvalidCharacter('0', _))));
}

#[test]
fn clear_empties_the_trie() {
    let mut t = with_words(&["one", "only", "two"]);
    t.delete_dictionary();
    assert_eq!(t.get_metadata(), (0, 0));
    assert!(t.entire_dictionary().is_empty());
    t.add_words(strings(&["again"])).unwrap();
    assert_eq!(t.get_metadata(), (1, 5));
}

#[test]
fn lines_split_at_line_endings() {
    assert_eq!(split_lines("a\nb\r\nc"), strings(&["a", "b", "c"]));
    assert_eq!(split_lines("a\n"), strings(&["a"]));
    assert_eq!(split_lines("a\n\n"), strings(&["a", ""]));
    assert_eq!(split_lines(""), Vec::<String>::new());
    assert_eq!(split_lines("\n"), strings(&[""]));
}

#[test]
fn source_with_crlf_lines_loads() {
    match Trie::new(Some("Alpha\r\nbeta\r\n".to_string())) {
        (Ok(_), words) => assert_eq!(words, strings(&["alpha", "beta"])),
        (Err(e), _) => panic!("{:?}", e),
    }
}

#[test]
fn validation_folds_case_or_fails_whole_batch() {
    let mut batch = strings(&["MiXeD", "lower"]);
    assert!(validate_string(&mut batch).unwrap());
    assert_eq!(batch, strings(&["mixed", "lower"]));
    let mut bad = strings(&["Fine", "ba d", "x!"]);
    match validate_string(&mut bad) {
        Err(CustomError::InvalidCharacter(' ', s)) => assert_eq!(s, "ba d".to_string()),
        other => panic!("expected InvalidCharacter, got {:?}", other),
    }
    assert_eq!(bad, strings(&["Fine", "ba d", "x!"]));
    assert_eq!(validate_word(&"AbC".to_string(), false).unwrap(), vec!['a', 'b', 'c']);
    assert!(validate_word(&"".to_string(), true).unwrap().is_empty());
}
