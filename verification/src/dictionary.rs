//! The runtime query surface: word membership, difficulty translation, and
//! a random draw from a difficulty bucket. The two tables are built once and
//! queried read-only thereafter.
use crate::{dedup_first, distinct_seqs, lemma_dedup_first_distinct};
use crate::text::str_eq;
use rand::Rng;
use vstd::arithmetic::div_mod::{lemma_div_pos_is_pos, lemma_multiply_divide_lt};
use vstd::arithmetic::mul::{lemma_mul_strict_inequality, lemma_mul_upper_bound};
use vstd::prelude::*;

verus! {

/// A runtime validation failure. A difficulty is a ratio and is carried as
/// its numerator and denominator; an index is carried as given.
#[derive(Debug, PartialEq, Eq, Structural, Clone, Copy)]
pub enum Error {
    OutOfBoundsDifficulty(i64, i64),
    OutOfBoundsDifficultyIndex(usize),
}

/// The immutable membership table over the distinct words of the list.
pub struct WordTable {
    words: Vec<String>,
}

impl View for WordTable {
    type V = Seq<Seq<char>>;

    closed spec fn view(&self) -> Seq<Seq<char>> {
        self.words.deep_view()
    }
}

fn vec_contains_str(v: &Vec<String>, s: &str) -> (r: bool)
    ensures
        r == v.deep_view().contains(s@),
{
    let n = v.len();
    let mut j: usize = 0;
    while j < n
        invariant
            n == v@.len(),
            j <= n,
            forall|t: int| 0 <= t < j ==> v.deep_view()[t] != s@,
        decreases n - j,
    {
        if str_eq(v[j].as_str(), s) {
            assert(v.deep_view()[j as int] == s@);
            return true;
        }
        j += 1;
    }
    false
}

impl WordTable {
    pub open spec fn wf(&self) -> bool {
        distinct_seqs(self@)
    }

    /// Builds the table: the distinct words of the list, first occurrences
    /// kept in order, repetitions collapsed.
    pub fn new(word_list: Vec<String>) -> (t: WordTable)
        ensures
            t@ == dedup_first(word_list.deep_view()),
            t.wf(),
    {
        let ghost words = word_list.deep_view();
        let mut out: Vec<String> = Vec::new();
        let mut i: usize = 0;
        proof {
            assert(words.take(0) =~= Seq::<Seq<char>>::empty());
        }
        while i < word_list.len()
            invariant
                words == word_list.deep_view(),
                i <= word_list.len(),
                out.deep_view() == dedup_first(words.take(i as int)),
            decreases word_list.len() - i,
        {
            proof {
                assert(words.take(i + 1).drop_last() =~= words.take(i as int));
                assert(words.take(i + 1).last() == words[i as int]);
            }
            let word: &String = &word_list[i];
            assert(word@ == words[i as int]);
            if !vec_contains_str(&out, word.as_str()) {
                let ghost old_deep = out.deep_view();
                out.push(word.clone());
                proof {
                    assert(out.deep_view() =~= old_deep.push(word@));
                }
            }
            i += 1;
        }
        proof {
            assert(words.take(word_list.len() as int) =~= words);
            lemma_dedup_first_distinct(words);
        }
        WordTable { words: out }
    }
}

/// True iff `word` is an exact member of the word table; no normalization,
/// and an absent string of any shape simply yields false.
pub fn is_word(table: &WordTable, word: &str) -> (r: bool)
    ensures
        r == table@.contains(word@),
{
    vec_contains_str(&table.words, word)
}

/// The immutable, ordered difficulty buckets of segments. There is always at
/// least one bucket, and each bucket keeps a fixed element order that random
/// draws index into.
pub struct SegmentTable {
    buckets: Vec<Vec<String>>,
}

impl View for SegmentTable {
    type V = Seq<Seq<Seq<char>>>;

    closed spec fn view(&self) -> Seq<Seq<Seq<char>>> {
        self.buckets.deep_view()
    }
}

impl SegmentTable {
    pub open spec fn wf(&self) -> bool {
        self@.len() >= 1
    }

    /// Freezes the grouped segments as the runtime table, bucket order kept.
    pub fn new(difficulty_segments: Vec<Vec<String>>) -> (t: SegmentTable)
        requires
            difficulty_segments@.len() >= 1,
        ensures
            t@ == difficulty_segments.deep_view(),
            t.wf(),
    {
        SegmentTable { buckets: difficulty_segments }
    }

    /// How many difficulty buckets the table holds.
    pub fn bucket_count(&self) -> (r: usize)
        ensures
            r == self@.len(),
    {
        self.buckets.len()
    }

    /// How many segments the bucket at `difficulty_index` holds; a draw from
    /// the bucket is possible exactly when this is positive.
    pub fn bucket_len(&self, difficulty_index: usize) -> (r: usize)
        requires
            difficulty_index < self@.len(),
        ensures
            r == self@[difficulty_index as int].len(),
    {
        self.buckets[difficulty_index].len()
    }
}

/// Relies on rand::Rng::gen_range over `0..n`, which panics on an empty
/// range and otherwise returns a value of the range, uniformly drawn.
#[verifier::external_body]
fn random_index_below(n: usize) -> (r: usize)
    requires
        n >= 1,
    ensures
        r < n,
{
    rand::thread_rng().gen_range(0..n)
}

/// Maps a difficulty ratio `num / den` in `[0, 1]` to a bucket index: the
/// floor of the ratio times the bucket count, with the top of the range
/// pinned to the last bucket. A ratio outside `[0, 1]` is rejected, the
/// offending value carried in the error.
pub fn translate_difficulty(table: &SegmentTable, num: i64, den: i64) -> (r: Result<usize, Error>)
    requires
        table.wf(),
        den >= 1,
    ensures
        (num < 0 || num > den) <==> r == Err::<usize, Error>(Error::OutOfBoundsDifficulty(
            num,
            den,
        )),
        r is Err ==> (num < 0 || num > den),
        num == den ==> r == Ok::<usize, Error>((table@.len() - 1) as usize),
        0 <= num < den ==> r == Ok::<usize, Error>(
            ((num as int * table@.len() as int) / den as int) as usize,
        ),
        r matches Ok(i) ==> i < table@.len(),
{
    if num < 0 || num > den {
        return Err(Error::OutOfBoundsDifficulty(num, den));
    }
    let n = table.bucket_count();
    if num == den {
        return Ok(n - 1);
    }
    proof {
        lemma_mul_upper_bound(num as int, i64::MAX as int, n as int, usize::MAX as int);
    }
    let p: i128 = (num as i128) * (n as i128);
    let d: i128 = den as i128;
    proof {
        lemma_div_pos_is_pos(p as int, d as int);
        lemma_mul_strict_inequality(num as int, den as int, n as int);
        lemma_multiply_divide_lt(p as int, d as int, n as int);
    }
    let q: i128 = p / d;
    Ok(q as usize)
}

/// Draws a segment from the bucket at `difficulty_index`: the index is
/// validated, then a uniformly random position of the bucket's fixed order
/// is returned. A valid index must name a bucket with at least one segment.
pub fn get_random_segment(table: &SegmentTable, difficulty_index: usize) -> (r: Result<
    String,
    Error,
>)
    requires
        table.wf(),
        difficulty_index < table@.len() ==> table@[difficulty_index as int].len() >= 1,
    ensures
        (difficulty_index >= table@.len()) <==> r == Err::<String, Error>(
            Error::OutOfBoundsDifficultyIndex(difficulty_index),
        ),
        r is Err ==> difficulty_index >= table@.len(),
        r matches Ok(s) ==> difficulty_index < table@.len() && table@[
            difficulty_index as int
        ].contains(s@),
{
    if difficulty_index >= table.bucket_count() {
        return Err(Error::OutOfBoundsDifficultyIndex(difficulty_index));
    }
    let bucket: &Vec<String> = &table.buckets[difficulty_index];
    proof {
        assert(bucket.deep_view() == table@[difficulty_index as int]);
    }
    let random_index = random_index_below(bucket.len());
    let segment = bucket[random_index].clone();
    proof {
        assert(table@[difficulty_index as int][random_index as int] == segment@);
    }
    Ok(segment)
}

} // verus!
