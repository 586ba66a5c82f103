use shared_graph::words::{first_word, first_word_gives_ownership};

#[test]
fn first_word_stops_at_first_space() {
    let s = String::from("Hello, world!");
    assert_eq!(first_word(&s), "Hello,");
    assert_eq!(first_word_gives_ownership(&s), String::from("Hello,"));
}

#[test]
fn first_word_without_space_is_whole_string() {
    let t = String::from("Hello,world!");
    assert_eq!(first_word(&t), "Hello,world!");
    assert_eq!(first_word_gives_ownership(&t), String::from("Hello,world!"));
}

#[test]
fn first_word_of_empty_string_is_empty() {
    let blank = String::new();
    assert_eq!(first_word(&blank), "");
    assert_eq!(first_word_gives_ownership(&blank), String::new());
}

#[test]
fn first_word_of_literal() {
    assert_eq!(first_word("Literal, I am"), "Literal,");
}

#[test]
fn first_word_with_leading_space_is_empty() {
    assert_eq!(first_word(" leading"), "");
}

#[test]
fn first_word_with_multibyte_characters() {
    assert_eq!(first_word("héllo wörld"), "héllo");
    assert_eq!(first_word_gives_ownership("日本 語"), String::from("日本"));
}
