use word_dictionary::word_list::build_word_list;

#[test]
fn test_build_word_list_splits_lines() {
    let words = build_word_list("hello\nworld\ntell");
    assert_eq!(
        words,
        vec![String::from("hello"), String::from("world"), String::from("tell")]
    );
}

#[test]
fn test_build_word_list_handles_terminators() {
    assert_eq!(build_word_list(""), Vec::<String>::new());
    assert_eq!(build_word_list("hello\n"), vec![String::from("hello")]);
    assert_eq!(
        build_word_list("hello\r\nworld"),
        vec![String::from("hello"), String::from("world")]
    );
    assert_eq!(build_word_list("\n"), vec![String::new()]);
}
