use api_trie::controller::TrieController;
use api_trie::query::{verify_word_query_param, QueryError};
use api_trie::validate::CustomError;

const TEST1: &str = "apple\napp\nappstore\npepper\nboring\nsalty\nbored\n";

fn strings(words: &[&str]) -> Vec<String> {
    words.iter().map(|w| w.to_string()).collect()
}

#[test]
fn trie_controller_size_zero_no_input_file() {
    match TrieController::new(Some("".to_string())) {
        Ok((trie_controller, key)) => {
            let (num_words, trie_size) = trie_controller.metadata(key).unwrap();
            assert_eq!(trie_size, 0);
            assert_eq!(num_words, 0);
        }
        Err(e) => panic!("{:?}", e),
    }
}

#[test]
fn trie_controller_has_input_file() {
    match TrieController::new(Some(TEST1.to_string())) {
        Ok((trie_controller, key)) => {
            let (num_words, trie_size) = trie_controller.metadata(key).unwrap();
            assert_eq!(trie_size, 29);
            assert_eq!(num_words, 7);
        }
        Err(e) => panic!("{:?}", e),
    }
}

#[test]
fn controller_unreadable_source() {
    match TrieController::new(None) {
        Err(CustomError::UnableToOpen) => {}
        other => panic!("expected UnableToOpen, got {:?}", other.err()),
    }
}

#[test]
fn controller_rejects_bad_source() {
    match TrieController::new(Some("good\nb4d\n".to_string())) {
        Err(CustomError::InvalidCharacter(c, s)) => {
            assert_eq!(c, '4');
            assert_eq!(s, "b4d".to_string());
        }
        other => panic!("expected InvalidCharacter, got {:?}", other.err()),
    }
}

#[test]
fn create_gives_distinct_ids() {
    let mut c = TrieController::empty();
    let a = c.create(strings(&["one"])).unwrap();
    let b = c.create(strings(&["two", "three"])).unwrap();
    assert_ne!(a, b);
    assert_eq!(c.metadata(a), Some((1, 3)));
    assert_eq!(c.metadata(b), Some((2, 7)));
}

#[test]
fn create_rejects_batch_and_registers_nothing() {
    let mut c = TrieController::empty();
    match c.create(strings(&["fine", ""])) {
        Err(CustomError::InvalidFormatting) => {}
        other => panic!("expected InvalidFormatting, got {:?}", other),
    }
}

#[test]
fn unknown_id_is_reported() {
    let mut c = TrieController::empty();
    let id = c.create(strings(&["word"])).unwrap();
    let other = id.wrapping_add(1);
    assert!(c.metadata(other).is_none());
    assert!(c.word_exists(other, "word".to_string()).is_none());
    assert!(c.prefix_exists(other, "wo".to_string()).is_none());
    assert!(c.autocomplete(other, "w".to_string()).is_none());
    assert!(c.add_words(other, strings(&["more"])).is_none());
    assert!(c.delete_word(other, "word".to_string()).is_none());
    assert!(!c.clear(other));
    assert!(c.destroy(other).is_none());
    assert_eq!(c.metadata(id), Some((1, 4)));
}

#[test]
fn instance_operations_by_id() {
    let mut c = TrieController::empty();
    let id = c.create(strings(&["Cat", "car"])).unwrap();
    assert_eq!(c.word_exists(id, "CAT".to_string()).unwrap().unwrap(), true);
    assert_eq!(c.prefix_exists(id, "ca".to_string()).unwrap().unwrap(), true);
    let mut comps = c.autocomplete(id, "ca".to_string()).unwrap().unwrap();
    comps.sort();
    assert_eq!(comps, strings(&["r", "t"]));
    assert!(c.add_words(id, strings(&["cart"])).unwrap().is_ok());
    assert_eq!(c.metadata(id), Some((3, 5)));
    assert_eq!(c.delete_word(id, "car".to_string()).unwrap().unwrap(), true);
    assert_eq!(c.metadata(id), Some((2, 5)));
    assert!(c.clear(id));
    assert_eq!(c.metadata(id), Some((0, 0)));
    assert_eq!(c.destroy(id), Some((0, 0)));
    assert!(c.metadata(id).is_none());
}

#[test]
fn destroy_reports_counts() {
    let mut c = TrieController::empty();
    let id = c.create(strings(&["ab", "abc"])).unwrap();
    assert_eq!(c.destroy(id), Some((2, 3)));
    assert!(c.destroy(id).is_none());
}

#[test]
fn word_parameter_checks() {
    assert_eq!(verify_word_query_param(None, false), Err(QueryError::Missing));
    assert_eq!(verify_word_query_param(None, true), Err(QueryError::Missing));
    assert_eq!(verify_word_query_param(Some(String::new()), false), Err(QueryError::Empty));
    assert_eq!(verify_word_query_param(Some(String::new()), true), Ok(String::new()));
    assert_eq!(verify_word_query_param(Some("Word".to_string()), false), Ok("Word".to_string()));
}
