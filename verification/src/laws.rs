//! Properties that hold across the pipeline: what the word table answers,
//! what lands in a bucket, and that a rebuild changes nothing observable.
use crate::{dedup_first, distinct_seqs};
use crate::segments::{
    all_segments, bucket_index, bucket_of, counts_of, lemma_map_upto_at, lemma_map_upto_contains,
    map_upto, word_segments,
};
use vstd::calc;
use vstd::prelude::*;

verus! {

/// An occurrence in the corpus is a window of some word, so it is exactly
/// `sz` characters long.
proof fn lemma_all_segments_len(words: Seq<Seq<char>>, sz: nat, s: Seq<char>)
    requires
        all_segments(words, sz).contains(s),
    ensures
        s.len() == sz,
    decreases words.len(),
{
    let prefix = all_segments(words.drop_last(), sz);
    let wsegs = word_segments(words.last(), sz);
    let j = choose|j: int| 0 <= j < all_segments(words, sz).len() && all_segments(words, sz)[j] == s;
    if j < prefix.len() {
        assert(prefix[j] == s);
        lemma_all_segments_len(words.drop_last(), sz, s);
    } else {
        assert(wsegs[j - prefix.len()] == s);
    }
}

/// The frequency map counts occurrences and nothing else.
proof fn lemma_counts_of_domain(segs: Seq<Seq<char>>, k: Seq<char>)
    requires
        counts_of(segs).contains_key(k),
    ensures
        segs.contains(k),
    decreases segs.len(),
{
    if segs.len() > 0 {
        if k != segs.last() {
            lemma_counts_of_domain(segs.drop_last(), k);
            let j = choose|j: int| 0 <= j < segs.len() - 1 && segs.drop_last()[j] == k;
            assert(segs[j] == k);
        } else {
            assert(segs[segs.len() - 1] == k);
        }
    }
}

/// What a bucket holds, read off the frequency map: the keys of the map
/// whose count selects this bucket, and nothing else.
proof fn lemma_bucket_of_membership(
    keys: Seq<Seq<char>>,
    counts: Seq<usize>,
    limits: Seq<usize>,
    b: int,
    s: Seq<char>,
    n: int,
)
    requires
        distinct_seqs(keys),
        0 <= n <= keys.len(),
        keys.len() == counts.len(),
    ensures
        bucket_of(keys, counts, limits, b, n).contains(s) <==> (map_upto(
            keys,
            counts,
            n,
        ).contains_key(s) && bucket_index(limits, map_upto(keys, counts, n)[s]) == b),
    decreases n,
{
    if n > 0 {
        lemma_bucket_of_membership(keys, counts, limits, b, s, n - 1);
        lemma_map_upto_contains(keys, counts, n - 1, s);
        lemma_map_upto_contains(keys, counts, n, s);
        let prev = bucket_of(keys, counts, limits, b, n - 1);
        let cur = bucket_of(keys, counts, limits, b, n);
        lemma_map_upto_at(keys, counts, n, n - 1);
        if s == keys[n - 1] {
            // a fresh key: the earlier map cannot hold it
            assert(!map_upto(keys, counts, n - 1).contains_key(s));
            assert(map_upto(keys, counts, n)[s] == counts[n - 1] as nat);
            assert(!prev.contains(s));
            if bucket_index(limits, counts[n - 1] as nat) == b {
                assert(cur[cur.len() - 1] == s);
                assert(cur.contains(s));
            } else {
                assert(cur == prev);
            }
        } else {
            assert(map_upto(keys, counts, n).contains_key(s) <==> map_upto(
                keys,
                counts,
                n - 1,
            ).contains_key(s));
            if map_upto(keys, counts, n - 1).contains_key(s) {
                assert(map_upto(keys, counts, n)[s] == map_upto(keys, counts, n - 1)[s]);
            }
            if prev.contains(s) {
                let t = choose|t: int| 0 <= t < prev.len() && prev[t] == s;
                if cur != prev {
                    assert(cur[t] == s);
                }
                assert(cur.contains(s));
            } else {
                if cur.contains(s) {
                    let t = choose|t: int| 0 <= t < cur.len() && cur[t] == s;
                    if cur != prev {
                        assert(t < prev.len() || cur[t] == keys[n - 1]);
                        assert(prev[t] == s);
                    }
                    assert(prev.contains(s));
                }
            }
        }
    }
}

/// Every segment drawn from a bucket of a table built from a word list with
/// window width `sz` is exactly `sz` characters long. The pairs
/// (`keys`, `counts`) are a frequency map that holds the corpus counts, as
/// `make_segments` ensures of its result.
pub proof fn lemma_bucket_segments_have_segment_size(
    words: Seq<Seq<char>>,
    sz: nat,
    keys: Seq<Seq<char>>,
    counts: Seq<usize>,
    limits: Seq<usize>,
    b: int,
    s: Seq<char>,
)
    requires
        distinct_seqs(keys),
        keys.len() == counts.len(),
        map_upto(keys, counts, keys.len() as int) == counts_of(all_segments(words, sz)),
        bucket_of(keys, counts, limits, b, keys.len() as int).contains(s),
    ensures
        s.len() == sz,
{
    lemma_bucket_of_membership(keys, counts, limits, b, s, keys.len() as int);
    lemma_counts_of_domain(all_segments(words, sz), s);
    lemma_all_segments_len(words, sz, s);
}

/// Rebuilding from the same word list and configuration yields buckets with
/// identical membership: two frequency maps that hold the same corpus counts
/// put exactly the same segments in every bucket, whatever order each walk
/// of the corpus recorded the keys in.
pub proof fn lemma_rebuilt_buckets_same_membership(
    keys1: Seq<Seq<char>>,
    counts1: Seq<usize>,
    keys2: Seq<Seq<char>>,
    counts2: Seq<usize>,
    limits: Seq<usize>,
    b: int,
    s: Seq<char>,
)
    requires
        distinct_seqs(keys1),
        keys1.len() == counts1.len(),
        distinct_seqs(keys2),
        keys2.len() == counts2.len(),
        map_upto(keys1, counts1, keys1.len() as int) == map_upto(
            keys2,
            counts2,
            keys2.len() as int,
        ),
    ensures
        bucket_of(keys1, counts1, limits, b, keys1.len() as int).contains(s) <==> bucket_of(
            keys2,
            counts2,
            limits,
            b,
            keys2.len() as int,
        ).contains(s),
{
    lemma_bucket_of_membership(keys1, counts1, limits, b, s, keys1.len() as int);
    lemma_bucket_of_membership(keys2, counts2, limits, b, s, keys2.len() as int);
}

/// Rebuilding from the same word list and configuration yields the very
/// same buckets, element for element: the frequency map pins both the key
/// order (first occurrence) and the counts, so the whole pipeline is a
/// function of the word list, the segment width and the limits.
pub proof fn lemma_rebuilt_buckets_identical(
    keys1: Seq<Seq<char>>,
    counts1: Seq<usize>,
    keys2: Seq<Seq<char>>,
    counts2: Seq<usize>,
    words: Seq<Seq<char>>,
    sz: nat,
    limits: Seq<usize>,
    b: int,
)
    requires
        distinct_seqs(keys1),
        keys1.len() == counts1.len(),
        distinct_seqs(keys2),
        keys2.len() == counts2.len(),
        keys1 == dedup_first(all_segments(words, sz)),
        keys2 == dedup_first(all_segments(words, sz)),
        map_upto(keys1, counts1, keys1.len() as int) == counts_of(all_segments(words, sz)),
        map_upto(keys2, counts2, keys2.len() as int) == counts_of(all_segments(words, sz)),
    ensures
        bucket_of(keys1, counts1, limits, b, keys1.len() as int) == bucket_of(
            keys2,
            counts2,
            limits,
            b,
            keys2.len() as int,
        ),
{
    assert forall|j: int| 0 <= j < counts1.len() implies counts1[j] == counts2[j] by {
        lemma_map_upto_at(keys1, counts1, keys1.len() as int, j);
        lemma_map_upto_at(keys2, counts2, keys2.len() as int, j);
    }
    assert(counts1 =~= counts2);
}

/// The difficulty mapping is monotonic and non-decreasing: of two ratios
/// `a / b <= c / d`, the smaller never selects a later bucket. The floor of
/// each ratio times the bucket count is written in integer arithmetic as a
/// product followed by a division.
pub proof fn lemma_translate_difficulty_monotonic(a: int, b: int, c: int, d: int, n: int)
    requires
        b >= 1,
        d >= 1,
        n >= 0,
        a >= 0,
        a * d <= c * b,
    ensures
        (a * n) / b <= (c * n) / d,
{
    let q = (a * n) / b;
    vstd::arithmetic::mul::lemma_mul_nonnegative(a, n);
    vstd::arithmetic::div_mod::lemma_div_pos_is_pos(a * n, b);
    vstd::arithmetic::div_mod::lemma_fundamental_div_mod(a * n, b);
    vstd::arithmetic::div_mod::lemma_mod_bound(a * n, b);
    assert(b * q <= a * n);
    calc! {
        (<=)
        b * (q * d); (==) {
            vstd::arithmetic::mul::lemma_mul_is_associative(b, q, d);
        }
        (b * q) * d; (<=) {
            vstd::arithmetic::mul::lemma_mul_inequality(b * q, a * n, d);
        }
        (a * n) * d; (==) {
            vstd::arithmetic::mul::lemma_mul_is_associative(a, n, d);
            vstd::arithmetic::mul::lemma_mul_is_commutative(n, d);
            vstd::arithmetic::mul::lemma_mul_is_associative(a, d, n);
        }
        (a * d) * n; (<=) {
            vstd::arithmetic::mul::lemma_mul_inequality(a * d, c * b, n);
        }
        (c * b) * n; (==) {
            vstd::arithmetic::mul::lemma_mul_is_associative(c, b, n);
            vstd::arithmetic::mul::lemma_mul_is_commutative(b, n);
            vstd::arithmetic::mul::lemma_mul_is_associative(c, n, b);
            vstd::arithmetic::mul::lemma_mul_is_commutative(c * n, b);
        }
        b * (c * n);
    }
    assert(q * d <= c * n) by {
        if q * d > c * n {
            vstd::arithmetic::mul::lemma_mul_strict_inequality(c * n, q * d, b);
            vstd::arithmetic::mul::lemma_mul_is_commutative(c * n, b);
            vstd::arithmetic::mul::lemma_mul_is_commutative(q * d, b);
        }
    }
    vstd::arithmetic::div_mod::lemma_div_is_ordered(q * d, c * n, d);
    vstd::arithmetic::div_mod::lemma_div_by_multiple(q, d);
}

/// Every word of the source list is in the word table, and nothing else
/// is: deduplication keeps membership exactly.
pub proof fn lemma_dedup_first_membership(words: Seq<Seq<char>>, w: Seq<char>)
    ensures
        dedup_first(words).contains(w) <==> words.contains(w),
    decreases words.len(),
{
    if words.len() > 0 {
        lemma_dedup_first_membership(words.drop_last(), w);
        let d = dedup_first(words.drop_last());
        let res = dedup_first(words);
        if words.contains(w) {
            let j = choose|j: int| 0 <= j < words.len() && words[j] == w;
            if j < words.len() - 1 {
                assert(words.drop_last()[j] == w);
                assert(words.drop_last().contains(w));
                let t = choose|t: int| 0 <= t < d.len() && d[t] == w;
                if !d.contains(words.last()) {
                    assert(res[t] == w);
                }
                assert(res.contains(w));
            } else {
                if d.contains(w) {
                    assert(res == d);
                } else {
                    assert(res[d.len() as int] == w);
                }
                assert(res.contains(w));
            }
        } else {
            assert(forall|j: int|
                0 <= j < words.len() - 1 ==> words.drop_last()[j] == #[trigger] words[j]);
            if res.contains(w) {
                let t = choose|t: int| 0 <= t < res.len() && res[t] == w;
                if !d.contains(words.last()) && t == d.len() as int {
                    assert(words.last() == w);
                    assert(words[words.len() - 1] == w);
                } else {
                    assert(d[t] == w);
                    assert(d.contains(w));
                    assert(words.drop_last().contains(w));
                    let j = choose|j: int| 0 <= j < words.len() - 1 && words.drop_last()[j] == w;
                    assert(words[j] == w);
                }
                assert(words.contains(w));
            }
        }
    }
}

} // verus!
