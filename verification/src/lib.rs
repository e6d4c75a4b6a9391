//! A word-game dictionary, built from a word list: a membership table over
//! the whole words, and fixed-width substrings ("segments") counted across
//! the corpus and grouped into difficulty buckets by frequency thresholds.
//! The build pipeline also renders both tables as constant Rust source for
//! embedding; the query layer answers word membership, translates a
//! difficulty ratio to a bucket index, and draws a random segment from a
//! bucket.
pub mod codegen;
pub mod dictionary;
pub mod laws;
pub mod segments;
pub mod text;
pub mod word_list;

use vstd::prelude::*;

verus! {

/// True when no two elements of `s` are equal: the sequences in `s`
/// form a set when read as one.
pub open spec fn distinct_seqs(s: Seq<Seq<char>>) -> bool {
    forall|i: int, j: int| 0 <= i < j < s.len() ==> s[i] != s[j]
}

/// `words` with every repetition of an earlier element dropped: the order of
/// first occurrences, each element once.
pub open spec fn dedup_first(words: Seq<Seq<char>>) -> Seq<Seq<char>>
    decreases words.len(),
{
    if words.len() == 0 {
        Seq::empty()
    } else {
        let d = dedup_first(words.drop_last());
        if d.contains(words.last()) {
            d
        } else {
            d.push(words.last())
        }
    }
}

pub proof fn lemma_dedup_first_distinct(words: Seq<Seq<char>>)
    ensures
        distinct_seqs(dedup_first(words)),
    decreases words.len(),
{
    if words.len() > 0 {
        lemma_dedup_first_distinct(words.drop_last());
        let d = dedup_first(words.drop_last());
        if !d.contains(words.last()) {
            assert forall|i: int, j: int|
                0 <= i < j < d.push(words.last()).len() implies d.push(words.last())[i] != d.push(
                words.last(),
            )[j] by {
                if j == d.len() as int {
                    assert(d[i] == d.push(words.last())[i]);
                    assert(d.contains(d[i]));
                }
            }
        }
    }
}

} // verus!
