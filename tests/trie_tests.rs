use std::collections::HashSet;

use api_trie::trie::Trie;
use api_trie::validate::CustomError;

const TEST1: &str = "apple\napp\nappstore\npepper\nboring\nsalty\nbored\n";
const TEST2: &str = "replace\nredfin\nready\nreps\nbrie\nbread\nbreed\n";
const TEST3: &str = "apple\napplebot\napplebots\napp\nap\nbridge\nstone\n";
const INVALID_CHAR: &str = "mike\n9ichael\n";
const NEWLINE: &str = "hello\n";
const NEWLINE_TIMES_TWO: &str = "hello\n\n";
const BLANK_LINE: &str = "hello\n\nworld\n";

fn source(text: &str) -> Option<String> {
    Some(text.to_string())
}

fn loaded(text: &str) -> Trie {
    match Trie::new(source(text)) {
        (Ok(mut my_trie), starting_words) => {
            my_trie.add_words(starting_words).unwrap();
            my_trie
        }
        (Err(e), _) => panic!("{:?}", e),
    }
}

fn as_set(words: Vec<String>) -> HashSet<String> {
    words.iter().cloned().collect()
}

fn strings(words: &[&str]) -> Vec<String> {
    words.iter().map(|w| w.to_string()).collect()
}

#[test]
fn create_empty_trie() {
    match Trie::new(source("")) {
        (Ok(mut my_trie), starting_words) => {
            let _ = my_trie.add_words(starting_words);
            assert_eq!(my_trie.get_metadata().1, 0);
            assert_eq!(my_trie.get_metadata().0, 0);
        }
        (Err(e), _) => panic!("{:?}", e),
    }
}

#[test]
fn create_trie_from_file() {
    match Trie::new(source(TEST1)) {
        (Ok(mut my_trie), starting_words) => {
            let _ = my_trie.add_words(starting_words);
            assert_eq!(my_trie.get_metadata().1, 29);
            assert_eq!(my_trie.get_metadata().0, 7);
        }
        (Err(e), _) => panic!("{:?}", e),
    }
}

#[test]
fn invalid_character() {
    match Trie::new(source(INVALID_CHAR)) {
        (Ok(_), _) => unreachable!(),
        (Err(e), _) => {
            if let CustomError::InvalidCharacter(the_char, the_string) = e {
                assert_eq!(the_char, '9');
                assert_eq!(the_string, "9ichael".to_string());
            } else {
                panic!("Expected InvalidCharacter error, but got {:?}", e);
            }
        }
    }
}

#[test]
fn new_line() {
    match Trie::new(source(NEWLINE)) {
        (Ok(_), _) => assert!(true),
        (Err(_), _) => unreachable!(),
    }
    match Trie::new(source(NEWLINE_TIMES_TWO)) {
        (Ok(_), _) => unreachable!(),
        (Err(e), _) => {
            if let CustomError::InvalidFormatting = e {
                assert!(true);
            } else {
                panic!("Expected InvalidFormatting error, but got {:?}", e);
            }
        }
    }
}

#[test]
fn blank_line() {
    match Trie::new(source(BLANK_LINE)) {
        (Ok(_), _) => unreachable!(),
        (Err(e), _) => {
            if let CustomError::InvalidFormatting = e {
                assert!(true);
            } else {
                panic!("Expected InvalidFormatting error, but got {:?}", e);
            }
        }
    }
}

#[test]
fn create_trie_from_noexistent_file() {
    match Trie::new(None) {
        (Ok(_), _) => {
            panic!();
        }
        (Err(e), _) => {
            if let CustomError::UnableToOpen = e {
                assert!(true);
            } else {
                panic!("Expected UnableToOpen error, but got {:?}", e);
            }
        }
    }
}

#[test]
fn retrieve_all_words() {
    let my_trie = loaded(TEST2);
    let expected_words: HashSet<String> =
        as_set(strings(&["replace", "redfin", "ready", "reps", "brie", "bread", "breed"]));
    let actual_words = as_set(my_trie.entire_dictionary());
    assert_eq!(actual_words, expected_words);
}

#[test]
fn delete_all_words() {
    let mut my_trie = loaded(TEST1);
    my_trie.delete_dictionary();
    assert_eq!(my_trie.get_metadata().1, 0);
    assert_eq!(my_trie.get_metadata().0, 0);
}

#[test]
fn delete_invalid_word() {
    let mut my_trie = loaded(TEST1);
    match my_trie.delete_word("salty man".to_string()) {
        Ok(_) => unreachable!(),
        Err(e) => {
            if let CustomError::InvalidCharacter(c, s) = e {
                assert_eq!(' ', c);
                assert_eq!(s, "salty man".to_string());
            } else {
                unreachable!();
            }
        }
    }
}

#[test]
fn delete_single_word_should_reduce_size() {
    let mut my_trie = loaded(TEST1);
    let _ = my_trie.delete_word("pepper".to_string());
    assert_eq!(my_trie.get_metadata().1, 23);
    assert_eq!(my_trie.get_metadata().0, 6);
}

#[test]
fn delete_multiple_words_should_not_reduce_size() {
    let mut my_trie = loaded(TEST3);
    assert_eq!(my_trie.get_metadata().1, 20);
    assert_eq!(my_trie.get_metadata().0, 7);
    let _ = my_trie.delete_word("apple".to_string());
    let _ = my_trie.delete_word("applebot".to_string());
    let _ = my_trie.delete_word("app".to_string());
    let _ = my_trie.delete_word("ap".to_string());
    assert_eq!(my_trie.get_metadata().1, 20);
    assert_eq!(my_trie.get_metadata().0, 3);
}

#[test]
fn add_invalid_word() {
    let mut my_trie = loaded(TEST1);
    match my_trie.add_words(vec!["saltyman".to_string(), "appstor+E".to_string()]) {
        Ok(_) => unreachable!(),
        Err(e) => {
            if let CustomError::InvalidCharacter(c, s) = e {
                assert_eq!('+', c);
                assert_eq!(s, "appstor+E".to_string());
            } else {
                unreachable!();
            }
        }
    }
}

#[test]
fn add_invalid_word_w_spaces() {
    let mut my_trie = loaded(TEST1);
    match my_trie.add_words(vec!["peppery   giRL".to_string()]) {
        Ok(_) => unreachable!(),
        Err(e) => {
            if let CustomError::InvalidCharacter(c, s) = e {
                assert_eq!(' ', c);
                assert_eq!(s, "peppery   giRL".to_string());
            } else {
                unreachable!();
            }
        }
    }
}

#[test]
fn add_uppercase_word() {
    let mut my_trie = loaded(TEST1);
    assert_eq!(my_trie.get_metadata().1, 29);
    assert_eq!(my_trie.get_metadata().0, 7);
    let _ = my_trie.add_words(vec!["BORINGS".to_string()]);
    assert_eq!(my_trie.get_metadata().1, 30);
    assert_eq!(my_trie.get_metadata().0, 8);
}

#[test]
fn prefix_search_invalid_word() {
    let my_trie = loaded(TEST1);
    match my_trie.does_prefix_exist("pepper is my cat".to_string()) {
        Ok(_) => unreachable!(),
        Err(e) => {
            if let CustomError::InvalidCharacter(c, s) = e {
                assert_eq!(' ', c);
                assert_eq!(s, "pepper is my cat".to_string());
            } else {
                unreachable!();
            }
        }
    }
}

#[test]
fn prefix_search_valid_word() {
    let my_trie = loaded(TEST1);
    match my_trie.does_prefix_exist("borin".to_string()) {
        Ok(bool) => assert_eq!(bool, true),
        Err(_) => unreachable!(),
    }
    match my_trie.does_prefix_exist("boring".to_string()) {
        Ok(bool) => assert_eq!(bool, false),
        Err(_) => unreachable!(),
    }
    match my_trie.does_prefix_exist("borings".to_string()) {
        Ok(bool) => assert_eq!(bool, false),
        Err(_) => unreachable!(),
    }
}

#[test]
fn prefix_search_uppercase_valid_word() {
    let my_trie = loaded(TEST1);
    match my_trie.does_prefix_exist("appL".to_string()) {
        Ok(_) => assert!(true),
        Err(_) => unreachable!(),
    }
    assert_eq!(my_trie.get_metadata().1, 29);
    assert_eq!(my_trie.get_metadata().0, 7);
}

#[test]
fn word_search_invalid_word() {
    let my_trie = loaded(TEST1);
    match my_trie.does_word_exist("AP7S".to_string()) {
        Ok(_) => unreachable!(),
        Err(e) => {
            if let CustomError::InvalidCharacter(c, s) = e {
                assert_eq!('7', c);
                assert_eq!(s, "AP7S".to_string());
            } else {
                unreachable!();
            }
        }
    }
}

#[test]
fn word_search_nonexistent_word() {
    let my_trie = loaded(TEST1);
    match my_trie.does_word_exist("APpS".to_string()) {
        Ok(bool) => assert_eq!(false, bool),
        Err(_) => unreachable!(),
    }
}

#[test]
fn word_search_uppercase_valid_word() {
    let my_trie = loaded(TEST1);
    match my_trie.does_word_exist("APPlE".to_string()) {
        Ok(_) => assert!(true),
        Err(_) => unreachable!(),
    }
}
