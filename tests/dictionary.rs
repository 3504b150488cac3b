use wordsearch::dictionary::{dictionary_word, first_field};

#[test]
fn first_field_stops_at_the_first_tab() {
    assert_eq!(first_field("word\t12\tnoun"), "word");
    assert_eq!(first_field("word"), "word");
    assert_eq!(first_field("\tword"), "");
    assert_eq!(first_field(""), "");
}

#[test]
fn dictionary_lines_are_normalized() {
    assert_eq!(dictionary_word("Škoda\t5"), Some("skoda".to_string()));
    assert_eq!(dictionary_word("ÉTUDE"), Some("etude".to_string()));
    assert_eq!(dictionary_word("Car"), Some("car".to_string()));
    assert_eq!(dictionary_word("ab\tlonger field"), None);
    assert_eq!(dictionary_word(""), None);
    assert_eq!(dictionary_word("æb"), Some("aeb".to_string()));
}
