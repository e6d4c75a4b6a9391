use word_dictionary::segments::{
    group_segments_by_difficulty, make_segments, parse_difficulty_limits, SegmentCounts,
};

#[test]
fn test_make_segments() {
    let input = vec![String::from("hello"), String::from("tell")];
    let segments = make_segments(input, 3);
    assert_eq!(segments.len(), 4, "create segments of length 3");
    assert_eq!(segments.get("ell"), Some(2), "create segments of length 3");
    assert_eq!(segments.get("hel"), Some(1), "create segments of length 3");
    assert_eq!(segments.get("llo"), Some(1), "create segments of length 3");
    assert_eq!(segments.get("tel"), Some(1), "create segments of length 3");

    let input = vec![String::from("test"), String::from("tests")];
    let segments = make_segments(input, 4);
    assert_eq!(segments.len(), 2, "create segments of length 4");
    assert_eq!(segments.get("test"), Some(2), "create segments of length 4");
    assert_eq!(segments.get("ests"), Some(1), "create segments of length 4");
}

#[test]
fn test_make_segments_short_words_contribute_nothing() {
    let input = vec![String::from("ab"), String::from("c")];
    let segments = make_segments(input, 3);
    assert_eq!(segments.len(), 0);
    assert_eq!(segments.get("ab"), None);
}

#[test]
fn test_make_segments_counts_characters_not_bytes() {
    let input = vec![String::from("h\u{e9}llo")];
    let segments = make_segments(input, 3);
    assert_eq!(segments.len(), 3);
    assert_eq!(segments.get("h\u{e9}l"), Some(1));
    assert_eq!(segments.get("\u{e9}ll"), Some(1));
    assert_eq!(segments.get("llo"), Some(1));
}

#[test]
fn test_parse_difficulty_limits() {
    assert_eq!(
        parse_difficulty_limits(String::from("2,4,5")),
        vec![2, 4, 5],
        "Parse difficulty limits string"
    );
    assert_eq!(
        parse_difficulty_limits(String::from("2,4,,5,")),
        vec![2, 4, 5],
        "Parsing missing value should ignore it"
    );
}

#[test]
fn test_parse_difficulty_limits_empty() {
    assert_eq!(parse_difficulty_limits(String::new()), Vec::<usize>::new());
}

fn counts_from(pairs: &[(&str, usize)]) -> SegmentCounts {
    let mut segments = SegmentCounts::new();
    for (segment, count) in pairs {
        for _ in 0..*count {
            segments.increment(segment);
        }
    }
    segments
}

#[test]
fn test_group_segments_by_difficulty() {
    let segments = counts_from(&[
        ("abc", 1),
        ("bcd", 2),
        ("cde", 5),
        ("def", 5),
        ("efg", 10),
    ]);
    let difficulty_limits = vec![2, 7, 9];

    let mut output = group_segments_by_difficulty(segments, difficulty_limits);
    output[0].sort();
    output[1].sort();

    assert_eq!(
        output,
        vec![
            vec![String::from("abc"), String::from("bcd")],
            vec![String::from("cde"), String::from("def")],
            vec![],
            vec![String::from("efg")]
        ]
    );
}

#[test]
fn test_rebuild_yields_identical_tables() {
    let words = || vec![String::from("hello"), String::from("tell")];
    let first = group_segments_by_difficulty(make_segments(words(), 3), vec![1]);
    let second = group_segments_by_difficulty(make_segments(words(), 3), vec![1]);
    assert_eq!(first, second);
    assert_eq!(first.len(), 2);
    assert_eq!(first[1], vec![String::from("ell")]);
}
