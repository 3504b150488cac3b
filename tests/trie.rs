use std::collections::HashSet;
use wordsearch::trie::Trie;
use wordsearch::PuzzleError;

fn build(words: &[&str]) -> Trie {
    let mut trie = Trie::new();
    for word in words {
        trie.insert(word).unwrap();
    }
    trie
}

fn as_set(words: Vec<String>) -> HashSet<String> {
    words.into_iter().collect()
}

#[test]
fn trie_test_word() {
    let word = "motorcycle";
    let mut trie = Trie::new();

    trie.insert(word).unwrap();
}

#[test]
fn test_full_search_single_result() {
    let trie = build(&["space", "place", "craze", "crate", "state", "plate", "blade", "blato"]);

    let result = trie.search("space");

    assert_eq!(result.len(), 1);
}

#[test]
fn test_full_search() {
    let trie = build(&["space", "place", "craze", "crate", "state", "plate", "blade", "blato"]);

    let result = trie.search("space");

    assert_eq!(result.iter().nth(0).unwrap(), "space");
}

#[test]
fn test_full_search_no_result() {
    let trie = build(&["space", "place", "craze", "crate", "state", "plate", "blade", "blato"]);

    let result = trie.search("water");

    match result.iter().nth(0) {
        Some(_) => assert!(false),
        None => assert!(true),
    }
}

#[test]
fn test_wildcard_search_size() {
    let trie = build(&["space", "place", "craze", "crate", "state", "plate", "blade", "blato"]);

    let result = trie.search("??a?e");

    assert_eq!(result.len(), 7);
}

#[test]
fn test_wildcard_search_items() {
    let trie = build(&["space", "place", "craze", "crate", "state", "plate", "blade", "blato"]);

    let result = as_set(trie.search("??a?e"));

    let to_compare = HashSet::from([
        "state".to_string(),
        "space".to_string(),
        "blade".to_string(),
        "craze".to_string(),
        "crate".to_string(),
        "plate".to_string(),
        "place".to_string(),
    ]);
    assert_eq!(result, to_compare)
}

#[test]
fn test_wildcard_search_different_length_items() {
    let trie = build(&["star", "stare", "story", "stories", "start", "staring"]);

    let result = as_set(trie.search("s?a??"));

    let to_compare = HashSet::from(["stare".to_string(), "start".to_string()]);
    assert_eq!(result, to_compare);
}

#[test]
fn fresh_insert_then_search_finds_only_that_word() {
    let mut trie = Trie::new();
    trie.insert("motorcycle").unwrap();
    assert_eq!(trie.search("motorcycle"), vec!["motorcycle".to_string()]);
    assert!(trie.search("motorcycl").is_empty());
    assert!(trie.search("motorcycles").is_empty());
}

#[test]
fn search_is_sound_and_complete_on_a_pattern() {
    let trie = build(&["cat", "cot", "cut", "cart", "dog", "act"]);
    let result = as_set(trie.search("c?t"));
    let expected = HashSet::from(["cat".to_string(), "cot".to_string(), "cut".to_string()]);
    assert_eq!(result, expected);
    assert_eq!(as_set(trie.search("???")).len(), 5);
    assert_eq!(as_set(trie.search("????")), HashSet::from(["cart".to_string()]));
    assert!(trie.search("").is_empty());
}

#[test]
fn insertion_is_idempotent() {
    let mut trie = Trie::new();
    trie.insert("space").unwrap();
    trie.insert("space").unwrap();
    assert_eq!(trie.search("?????"), vec!["space".to_string()]);
}

#[test]
fn short_words_are_rejected() {
    let mut trie = Trie::new();
    assert_eq!(trie.insert("ab"), Err(PuzzleError::TooShort));
    assert_eq!(trie.insert(""), Err(PuzzleError::TooShort));
    assert!(trie.search("ab").is_empty());
    assert_eq!(trie.insert("car"), Ok(()));
    assert_eq!(trie.search("car"), vec!["car".to_string()]);
}
