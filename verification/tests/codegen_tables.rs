use word_dictionary::codegen::{
    build_segment_table, build_word_table, save_segment_table, save_word_table,
};

#[test]
fn test_build_word_table() {
    let input = vec![String::from("hello"), String::from("world")];
    let mut builder = phf_codegen::Set::new();
    builder.entry(input[0].to_owned());
    builder.entry(input[1].to_owned());
    assert_eq!(build_word_table(input), builder.build().to_string());
}

#[test]
fn test_build_segment_table() {
    let input = vec![
        vec![String::from("abc"), String::from("bcd")],
        vec![String::from("cde")],
    ];

    let mut builder_0 = phf_codegen::OrderedSet::new();
    builder_0.entry(input[0][0].to_owned());
    builder_0.entry(input[0][1].to_owned());

    let mut builder_1 = phf_codegen::OrderedSet::new();
    builder_1.entry(input[1][0].to_owned());

    let expected = format!(
        "{}, {}",
        builder_0.build().to_string(),
        builder_1.build().to_string()
    );
    assert_eq!(build_segment_table(input), expected);
}

#[test]
fn test_save_word_table_frames_the_build() {
    let framed = save_word_table("WORDS", String::from("BUILD"));
    assert_eq!(framed, "static WORDS: phf::Set<&'static str> = BUILD;\n");
}

#[test]
fn test_save_segment_table_frames_the_build() {
    let framed = save_segment_table("SEGMENTS", String::from("A, B"));
    assert_eq!(
        framed,
        "static SEGMENTS: &'static [phf::OrderedSet<&'static str>] = &[A, B];\n"
    );
}
