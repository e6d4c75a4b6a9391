use word_dictionary::dictionary::{
    get_random_segment, is_word, translate_difficulty, Error, SegmentTable, WordTable,
};
use word_dictionary::segments::{group_segments_by_difficulty, make_segments};

#[test]
fn test_is_word() {
    let table = WordTable::new(vec![
        String::from("hello"),
        String::from("world"),
        String::from("tell"),
    ]);
    assert!(is_word(&table, "hello"), "returns true for real word");
    assert!(!is_word(&table, "abcdefg"), "returns false for fake word");
}

#[test]
fn test_is_word_collapses_duplicates() {
    let table = WordTable::new(vec![
        String::from("echo"),
        String::from("echo"),
        String::from("each"),
    ]);
    assert!(is_word(&table, "echo"));
    assert!(is_word(&table, "each"));
    assert!(!is_word(&table, ""));
}

fn four_bucket_table() -> SegmentTable {
    SegmentTable::new(vec![
        vec![String::from("aa")],
        vec![String::from("bb")],
        vec![String::from("cc")],
        vec![String::from("dd")],
    ])
}

#[test]
fn test_translate_difficulty() {
    let table = four_bucket_table();
    assert_eq!(
        translate_difficulty(&table, 1, 1),
        Ok(3),
        "returns last difficulty index when given difficulty 1.0"
    );
    assert_eq!(
        translate_difficulty(&table, 0, 1),
        Ok(0),
        "returns first difficulty index when given difficulty 0.0"
    );
    assert_eq!(
        translate_difficulty(&table, -1, 10),
        Err(Error::OutOfBoundsDifficulty(-1, 10)),
        "returns error when given a negative difficulty"
    );
    assert_eq!(
        translate_difficulty(&table, 11, 10),
        Err(Error::OutOfBoundsDifficulty(11, 10)),
        "returns error when given a number larger than 1"
    );
}

#[test]
fn test_translate_difficulty_floor_boundaries() {
    let table = four_bucket_table();
    assert_eq!(translate_difficulty(&table, 1, 4), Ok(1));
    assert_eq!(translate_difficulty(&table, 1, 2), Ok(2));
    assert_eq!(translate_difficulty(&table, 3, 4), Ok(3));
    assert_eq!(translate_difficulty(&table, 1, 3), Ok(1));
    assert_eq!(translate_difficulty(&table, 999999, 1000000), Ok(3));
}

#[test]
fn test_get_random_segment() {
    let segment_size: usize = 3;
    let words = vec![String::from("hello"), String::from("tell")];
    let buckets = group_segments_by_difficulty(make_segments(words, segment_size), vec![1]);
    let table = SegmentTable::new(buckets);
    assert!(
        table.bucket_count() > 0,
        "There should be at least one difficulty group of segments"
    );

    let output = get_random_segment(&table, 0);
    assert!(output.is_ok(), "retrieving segment with valid index should be ok");
    assert_eq!(
        output.unwrap().len(),
        segment_size,
        "the length of the segment should equal to config"
    );

    assert_eq!(
        get_random_segment(&table, table.bucket_count()),
        Err(Error::OutOfBoundsDifficultyIndex(table.bucket_count())),
        "returns error when given a difficulty index larger than SEGMENTS"
    );
}

#[test]
fn test_get_random_segment_is_always_a_member() {
    let bucket = vec![String::from("hel"), String::from("llo"), String::from("tel")];
    let table = SegmentTable::new(vec![bucket.clone()]);
    for _ in 0..50 {
        let segment = get_random_segment(&table, 0).unwrap();
        assert!(bucket.contains(&segment));
    }
}
