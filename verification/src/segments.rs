//! Segment extraction and difficulty grouping.
//!
//! A segment is a substring of a fixed width, cut from a word by a sliding
//! window; the corpus-wide number of occurrences of each distinct segment
//! decides which difficulty bucket it lands in.
use crate::{dedup_first, distinct_seqs};
use crate::text::str_eq;
use vstd::prelude::*;
use vstd::string::StrSliceExecFns;

verus! {

/// The segments of one word: every window of exactly `sz` characters,
/// in order of its start offset. A word shorter than `sz` has none.
pub open spec fn word_segments(w: Seq<char>, sz: nat) -> Seq<Seq<char>> {
    if w.len() >= sz {
        Seq::new((w.len() - sz + 1) as nat, |i: int| w.subrange(i, i + sz))
    } else {
        Seq::empty()
    }
}

/// All segment occurrences of the corpus, word by word, offset by offset.
/// Overlapping occurrences each appear once here.
pub open spec fn all_segments(words: Seq<Seq<char>>, sz: nat) -> Seq<Seq<char>>
    decreases words.len(),
{
    if words.len() == 0 {
        Seq::empty()
    } else {
        all_segments(words.drop_last(), sz) + word_segments(words.last(), sz)
    }
}

/// The frequency map of a sequence of occurrences: each distinct element
/// mapped to the number of times it occurs.
pub open spec fn counts_of(segs: Seq<Seq<char>>) -> Map<Seq<char>, nat>
    decreases segs.len(),
{
    if segs.len() == 0 {
        Map::empty()
    } else {
        let m = counts_of(segs.drop_last());
        let k = segs.last();
        m.insert(k, (if m.contains_key(k) { m[k] } else { 0 }) + 1)
    }
}

/// The map held by the first `n` key/count pairs.
pub open spec fn map_upto(keys: Seq<Seq<char>>, counts: Seq<usize>, n: int) -> Map<Seq<char>, nat>
    decreases n,
{
    if n <= 0 {
        Map::empty()
    } else {
        map_upto(keys, counts, n - 1).insert(keys[n - 1], counts[n - 1] as nat)
    }
}

pub proof fn lemma_map_upto_contains(keys: Seq<Seq<char>>, counts: Seq<usize>, n: int, k: Seq<char>)
    requires
        n <= keys.len(),
    ensures
        map_upto(keys, counts, n).contains_key(k) <==> exists|j: int| 0 <= j < n && keys[j] == k,
    decreases n,
{
    if n > 0 {
        lemma_map_upto_contains(keys, counts, n - 1, k);
    }
}

pub proof fn lemma_map_upto_at(keys: Seq<Seq<char>>, counts: Seq<usize>, n: int, j: int)
    requires
        0 <= j < n <= keys.len(),
        n <= counts.len(),
        distinct_seqs(keys),
    ensures
        map_upto(keys, counts, n).contains_key(keys[j]),
        map_upto(keys, counts, n)[keys[j]] == counts[j] as nat,
    decreases n,
{
    if j < n - 1 {
        lemma_map_upto_at(keys, counts, n - 1, j);
    }
}

proof fn lemma_map_upto_update(keys: Seq<Seq<char>>, counts: Seq<usize>, n: int, j: int, c: usize)
    requires
        0 <= j < n <= keys.len(),
        n <= counts.len(),
        distinct_seqs(keys),
    ensures
        map_upto(keys, counts.update(j, c), n) == map_upto(keys, counts, n).insert(
            keys[j],
            c as nat,
        ),
    decreases n,
{
    let updated = counts.update(j, c);
    if j == n - 1 {
        lemma_map_upto_prefix(keys, updated, keys, counts, n - 1);
        assert(map_upto(keys, updated, n) =~= map_upto(keys, counts, n).insert(keys[j], c as nat));
    } else {
        lemma_map_upto_update(keys, counts, n - 1, j, c);
        assert(map_upto(keys, updated, n) =~= map_upto(keys, counts, n).insert(keys[j], c as nat));
    }
}

/// Only the first `n` pairs decide `map_upto`.
proof fn lemma_map_upto_prefix(
    keys1: Seq<Seq<char>>,
    counts1: Seq<usize>,
    keys2: Seq<Seq<char>>,
    counts2: Seq<usize>,
    n: int,
)
    requires
        forall|j: int| 0 <= j < n ==> keys1[j] == keys2[j] && counts1[j] == counts2[j],
    ensures
        map_upto(keys1, counts1, n) == map_upto(keys2, counts2, n),
    decreases n,
{
    if n > 0 {
        lemma_map_upto_prefix(keys1, counts1, keys2, counts2, n - 1);
    }
}

/// No element occurs more often than the whole sequence is long.
proof fn lemma_counts_of_le_len(segs: Seq<Seq<char>>, k: Seq<char>)
    requires
        counts_of(segs).contains_key(k),
    ensures
        counts_of(segs)[k] <= segs.len(),
    decreases segs.len(),
{
    if segs.len() > 0 {
        let m = counts_of(segs.drop_last());
        if m.contains_key(k) {
            lemma_counts_of_le_len(segs.drop_last(), k);
        }
    }
}

/// A mutable frequency map from segment to occurrence count, with a fixed
/// key order: the order in which the keys were first seen.
pub struct SegmentCounts {
    keys: Vec<String>,
    counts: Vec<usize>,
}

impl SegmentCounts {
    /// The keys, in first-insertion order.
    pub closed spec fn key_seq(&self) -> Seq<Seq<char>> {
        self.keys.deep_view()
    }

    /// The counts, aligned with `key_seq`.
    pub closed spec fn count_seq(&self) -> Seq<usize> {
        self.counts@
    }

    pub open spec fn wf(&self) -> bool {
        &&& self.key_seq().len() == self.count_seq().len()
        &&& distinct_seqs(self.key_seq())
    }

    /// The mapping this container holds.
    pub open spec fn as_map(&self) -> Map<Seq<char>, nat> {
        map_upto(self.key_seq(), self.count_seq(), self.key_seq().len() as int)
    }

    pub fn new() -> (r: SegmentCounts)
        ensures
            r.wf(),
            r.as_map() == Map::<Seq<char>, nat>::empty(),
            r.key_seq() == Seq::<Seq<char>>::empty(),
    {
        let r = SegmentCounts { keys: Vec::new(), counts: Vec::new() };
        proof {
            assert(r.key_seq() =~= Seq::<Seq<char>>::empty());
        }
        r
    }

    pub fn len(&self) -> (r: usize)
        requires
            self.wf(),
        ensures
            r == self.key_seq().len(),
    {
        self.keys.len()
    }

    /// A copy of the key at position `j` of the insertion order.
    pub fn key_at(&self, j: usize) -> (r: String)
        requires
            self.wf(),
            j < self.key_seq().len(),
        ensures
            r@ == self.key_seq()[j as int],
    {
        self.keys[j].clone()
    }

    /// The count at position `j` of the insertion order.
    pub fn count_at(&self, j: usize) -> (r: usize)
        requires
            self.wf(),
            j < self.key_seq().len(),
        ensures
            r == self.count_seq()[j as int],
            self.as_map().contains_key(self.key_seq()[j as int]),
            self.as_map()[self.key_seq()[j as int]] == r as nat,
    {
        proof {
            lemma_map_upto_at(self.key_seq(), self.count_seq(), self.key_seq().len() as int,
                j as int);
        }
        self.counts[j]
    }

    fn find_key(&self, seg: &str) -> (r: Option<usize>)
        requires
            self.wf(),
        ensures
            match r {
                Some(j) => j < self.key_seq().len() && self.key_seq()[j as int] == seg@,
                None => !self.key_seq().contains(seg@),
            },
    {
        let n = self.keys.len();
        let mut j: usize = 0;
        while j < n
            invariant
                self.wf(),
                n == self.key_seq().len(),
                j <= n,
                forall|t: int| 0 <= t < j ==> self.key_seq()[t] != seg@,
            decreases n - j,
        {
            if str_eq(self.keys[j].as_str(), seg) {
                return Some(j);
            }
            j += 1;
        }
        None
    }

    /// Looks a segment up, as the finished map is queried.
    pub fn get(&self, seg: &str) -> (r: Option<usize>)
        requires
            self.wf(),
        ensures
            match r {
                Some(c) => self.as_map().contains_key(seg@) && self.as_map()[seg@] == c as nat,
                None => !self.as_map().contains_key(seg@),
            },
    {
        proof {
            lemma_map_upto_contains(self.key_seq(), self.count_seq(),
                self.key_seq().len() as int, seg@);
        }
        match self.find_key(seg) {
            Some(j) => {
                proof {
                    lemma_map_upto_at(self.key_seq(), self.count_seq(),
                        self.key_seq().len() as int, j as int);
                }
                Some(self.counts[j])
            },
            None => None,
        }
    }

    /// Records one more occurrence of `seg`, starting at one on first sight.
    pub fn increment(&mut self, seg: &str)
        requires
            old(self).wf(),
            old(self).as_map().contains_key(seg@) ==> old(self).as_map()[seg@] < usize::MAX,
        ensures
            final(self).wf(),
            final(self).key_seq() == (if old(self).as_map().contains_key(seg@) {
                old(self).key_seq()
            } else {
                old(self).key_seq().push(seg@)
            }),
            final(self).as_map() == old(self).as_map().insert(
                seg@,
                (if old(self).as_map().contains_key(seg@) {
                    old(self).as_map()[seg@]
                } else {
                    0
                }) + 1,
            ),
    {
        let ghost keys0 = self.key_seq();
        let ghost counts0 = self.count_seq();
        let ghost n = keys0.len() as int;
        proof {
            lemma_map_upto_contains(keys0, counts0, n, seg@);
        }
        match self.find_key(seg) {
            Some(j) => {
                proof {
                    lemma_map_upto_at(keys0, counts0, n, j as int);
                }
                let c = self.counts[j];
                self.counts[j] = c + 1;
                proof {
                    lemma_map_upto_update(keys0, counts0, n, j as int, (c + 1) as usize);
                }
            },
            None => {
                self.keys.push(seg.to_owned());
                self.counts.push(1);
                proof {
                    let keys1 = self.key_seq();
                    assert(keys1 =~= keys0.push(seg@));
                    lemma_map_upto_prefix(keys1, self.count_seq(), keys0, counts0, n);
                    assert(self.as_map() =~= old(self).as_map().insert(seg@, 1));
                }
            },
        }
    }
}

proof fn lemma_all_segments_snoc(words: Seq<Seq<char>>, sz: nat, i: int)
    requires
        0 <= i < words.len(),
    ensures
        all_segments(words.take(i + 1), sz) == all_segments(words.take(i), sz) + word_segments(
            words[i],
            sz,
        ),
{
    assert(words.take(i + 1).drop_last() =~= words.take(i));
    assert(words.take(i + 1).last() == words[i]);
}

/// The occurrences of a prefix of the corpus are a prefix of all occurrences.
proof fn lemma_all_segments_take_len(words: Seq<Seq<char>>, sz: nat, i: int)
    requires
        0 <= i <= words.len(),
    ensures
        all_segments(words.take(i), sz).len() <= all_segments(words, sz).len(),
    decreases words.len() - i,
{
    if i == words.len() {
        assert(words.take(i) =~= words);
    } else {
        lemma_all_segments_snoc(words, sz, i);
        lemma_all_segments_take_len(words, sz, i + 1);
    }
}

/// Builds the segment frequency map of a word list: every window of
/// `segment_size` characters of every long-enough word counts once.
pub fn make_segments(word_list: Vec<String>, segment_size: usize) -> (r: SegmentCounts)
    requires
        segment_size >= 1,
        all_segments(word_list.deep_view(), segment_size as nat).len() <= usize::MAX,
    ensures
        r.wf(),
        r.as_map() == counts_of(all_segments(word_list.deep_view(), segment_size as nat)),
        r.key_seq() == dedup_first(all_segments(word_list.deep_view(), segment_size as nat)),
{
    let ghost words = word_list.deep_view();
    let ghost sz = segment_size as nat;
    let mut r = SegmentCounts::new();
    let mut wi: usize = 0;
    while wi < word_list.len()
        invariant
            words == word_list.deep_view(),
            sz == segment_size as nat,
            segment_size >= 1,
            all_segments(words, sz).len() <= usize::MAX,
            wi <= word_list.len(),
            r.wf(),
            r.as_map() == counts_of(all_segments(words.take(wi as int), sz)),
            r.key_seq() == dedup_first(all_segments(words.take(wi as int), sz)),
        decreases word_list.len() - wi,
    {
        let word: &String = &word_list[wi];
        let wlen = word.as_str().unicode_len();
        proof {
            assert(words[wi as int] == word@);
            lemma_all_segments_snoc(words, sz, wi as int);
        }
        if wlen >= segment_size {
            let last_start = wlen - segment_size;
            let ghost wsegs = word_segments(words[wi as int], sz);
            let ghost prefix = all_segments(words.take(wi as int), sz);
            let mut start: usize = 0;
            proof {
                assert(wsegs.take(0) =~= Seq::<Seq<char>>::empty());
                assert(prefix + wsegs.take(0) =~= prefix);
            }
            while start <= last_start
                invariant
                    words == word_list.deep_view(),
                    sz == segment_size as nat,
                    segment_size >= 1,
                    all_segments(words, sz).len() <= usize::MAX,
                    wi < word_list.len(),
                    word == word_list[wi as int],
                    wlen == word@.len(),
                    wlen >= segment_size,
                    last_start == wlen - segment_size,
                    start <= last_start + 1,
                    wsegs == word_segments(words[wi as int], sz),
                    prefix == all_segments(words.take(wi as int), sz),
                    all_segments(words.take(wi + 1), sz) == prefix + wsegs,
                    r.wf(),
                    r.as_map() == counts_of(prefix + wsegs.take(start as int)),
                    r.key_seq() == dedup_first(prefix + wsegs.take(start as int)),
                decreases last_start + 1 - start,
            {
                let seg: &str = word.as_str().substring_char(start, start + segment_size);
                let ghost processed = prefix + wsegs.take(start as int);
                proof {
                    assert(seg@ == wsegs[start as int]);
                    // the occurrence about to be counted keeps the count below the cap
                    lemma_all_segments_take_len(words, sz, wi + 1);
                    assert(processed.len() + (wsegs.len() - start) == (prefix + wsegs).len());
                    if r.as_map().contains_key(seg@) {
                        lemma_counts_of_le_len(processed, seg@);
                    }
                    assert((prefix + wsegs.take(start + 1)).drop_last() =~= processed);
                    assert((prefix + wsegs.take(start + 1)).last() == wsegs[start as int]);
                    lemma_map_upto_contains(r.key_seq(), r.count_seq(),
                        r.key_seq().len() as int, seg@);
                }
                r.increment(seg);
                start += 1;
            }
            proof {
                assert(wsegs.take(last_start + 1) =~= wsegs);
            }
        } else {
            proof {
                assert(word_segments(words[wi as int], sz) =~= Seq::<Seq<char>>::empty());
                assert(all_segments(words.take(wi as int), sz) + word_segments(
                    words[wi as int],
                    sz,
                ) =~= all_segments(words.take(wi as int), sz));
            }
        }
        wi += 1;
    }
    proof {
        assert(words.take(word_list.len() as int) =~= words);
    }
    r
}

/// The limits a delimiter-separated specification denotes: each nonempty
/// field read as a number, empty fields dropped.
pub open spec fn parsed_limits(s: Seq<char>) -> Seq<nat> {
    crate::text::fields_of(s, ',').filter(|f: Seq<char>| f.len() > 0).map_values(
        |f: Seq<char>| crate::text::digits_val(f),
    )
}

/// Reads a comma-separated list of non-negative numbers; empty fields,
/// as from a doubled or trailing comma, are skipped.
pub fn parse_difficulty_limits(difficulty_limits_str: String) -> (r: Vec<usize>)
    requires
        forall|i: int|
            0 <= i < crate::text::fields_of(difficulty_limits_str@, ',').len() && (
            #[trigger] crate::text::fields_of(difficulty_limits_str@, ',')[i]).len() > 0 ==> {
                &&& crate::text::all_digits(crate::text::fields_of(difficulty_limits_str@, ',')[i])
                &&& crate::text::digits_val(crate::text::fields_of(difficulty_limits_str@, ',')[i])
                    <= usize::MAX
            },
    ensures
        r@.map_values(|x: usize| x as nat) == parsed_limits(difficulty_limits_str@),
{
    let ghost fields = crate::text::fields_of(difficulty_limits_str@, ',');
    let pieces = crate::text::split_fields(difficulty_limits_str.as_str(), ',');
    let mut r: Vec<usize> = Vec::new();
    let mut i: usize = 0;
    proof {
        reveal(Seq::filter);
        assert(fields.take(0) =~= Seq::<Seq<char>>::empty());
        assert(r@.map_values(|x: usize| x as nat) =~= fields.take(0).filter(
            |f: Seq<char>| f.len() > 0,
        ).map_values(|f: Seq<char>| crate::text::digits_val(f)));
    }
    while i < pieces.len()
        invariant
            pieces.deep_view() == fields,
            forall|t: int|
                0 <= t < fields.len() && (#[trigger] fields[t]).len() > 0 ==> {
                    &&& crate::text::all_digits(fields[t])
                    &&& crate::text::digits_val(fields[t]) <= usize::MAX
                },
            i <= pieces.len(),
            r@.map_values(|x: usize| x as nat) == fields.take(i as int).filter(
                |f: Seq<char>| f.len() > 0,
            ).map_values(|f: Seq<char>| crate::text::digits_val(f)),
        decreases pieces.len() - i,
    {
        let piece: &String = &pieces[i];
        let ghost mapped = r@.map_values(|x: usize| x as nat);
        proof {
            reveal(Seq::filter);
            assert(piece@ == fields[i as int]);
            assert(fields.take(i + 1).drop_last() =~= fields.take(i as int));
            assert(fields.take(i + 1).last() == fields[i as int]);
        }
        if piece.as_str().unicode_len() > 0 {
            let v = crate::text::parse_usize(piece.as_str());
            r.push(v);
            proof {
                reveal(Seq::filter);
                assert(r@.map_values(|x: usize| x as nat) =~= mapped.push(
                    crate::text::digits_val(fields[i as int]),
                ));
                assert(fields.take(i + 1).filter(|f: Seq<char>| f.len() > 0) =~= fields.take(
                    i as int,
                ).filter(|f: Seq<char>| f.len() > 0).push(fields[i as int]));
            }
        } else {
            proof {
                reveal(Seq::filter);
                assert(fields.take(i + 1).filter(|f: Seq<char>| f.len() > 0) =~= fields.take(
                    i as int,
                ).filter(|f: Seq<char>| f.len() > 0));
            }
        }
        proof {
            reveal(Seq::filter);
            assert(fields.take(i + 1).filter(|f: Seq<char>| f.len() > 0).map_values(
                |f: Seq<char>| crate::text::digits_val(f),
            ) =~= r@.map_values(|x: usize| x as nat));
        }
        i += 1;
    }
    proof {
        assert(fields.take(pieces.len() as int) =~= fields);
    }
    r
}

/// The bucket a segment of count `c` falls in: the first position whose
/// limit is at least `c`, or one past the last limit when none is.
pub open spec fn bucket_index(limits: Seq<usize>, c: nat) -> int
    decreases limits.len(),
{
    if limits.len() == 0 {
        0
    } else if limits[0] as nat >= c {
        0
    } else {
        1 + bucket_index(limits.drop_first(), c)
    }
}

/// `bucket_index` is the unique position below which every limit is
/// too small and at which, if it exists, the limit suffices.
proof fn lemma_bucket_index_char(limits: Seq<usize>, c: nat, i: int)
    requires
        0 <= i <= limits.len(),
        forall|j: int| 0 <= j < i ==> (limits[j] as nat) < c,
        i < limits.len() ==> limits[i] as nat >= c,
    ensures
        bucket_index(limits, c) == i,
    decreases limits.len(),
{
    if limits.len() == 0 {
    } else if limits[0] as nat >= c {
        assert(i == 0);
    } else {
        let rest = limits.drop_first();
        assert(forall|j: int| 0 <= j < i - 1 ==> rest[j] == limits[j + 1] && (rest[j] as nat) < c);
        lemma_bucket_index_char(rest, c, i - 1);
    }
}

/// Finds the first limit that is at least `c`, scanning in list order.
fn find_bucket(limits: &Vec<usize>, c: usize) -> (i: usize)
    ensures
        i == bucket_index(limits@, c as nat),
{
    let n = limits.len();
    let mut i: usize = 0;
    while i < n
        invariant
            n == limits@.len(),
            i <= n,
            forall|j: int| 0 <= j < i ==> limits@[j] < c,
        decreases n - i,
    {
        if limits[i] >= c {
            proof {
                lemma_bucket_index_char(limits@, c as nat, i as int);
            }
            return i;
        }
        i += 1;
    }
    proof {
        lemma_bucket_index_char(limits@, c as nat, n as int);
    }
    n
}

/// Of the first `n` key/count pairs, the keys whose count falls in bucket
/// `b`, in key order.
pub open spec fn bucket_of(
    keys: Seq<Seq<char>>,
    counts: Seq<usize>,
    limits: Seq<usize>,
    b: int,
    n: int,
) -> Seq<Seq<char>>
    decreases n,
{
    if n <= 0 {
        Seq::empty()
    } else {
        let prev = bucket_of(keys, counts, limits, b, n - 1);
        if bucket_index(limits, counts[n - 1] as nat) == b {
            prev.push(keys[n - 1])
        } else {
            prev
        }
    }
}

/// Partitions the counted segments into `len(limits) + 1` buckets: each
/// segment goes to the first limit at least as large as its count, and past
/// all limits to the final bucket. Counts are discarded.
pub fn group_segments_by_difficulty(segments: SegmentCounts, difficulty_limits: Vec<usize>) -> (r:
    Vec<Vec<String>>)
    requires
        segments.wf(),
        difficulty_limits@.len() < usize::MAX,
    ensures
        r@.len() == difficulty_limits@.len() + 1,
        forall|b: int|
            0 <= b < r@.len() ==> r.deep_view()[b] == bucket_of(
                segments.key_seq(),
                segments.count_seq(),
                difficulty_limits@,
                b,
                segments.key_seq().len() as int,
            ),
{
    let ghost keys = segments.key_seq();
    let ghost counts = segments.count_seq();
    let ghost limits = difficulty_limits@;
    let n = segments.len();
    let n_buckets = difficulty_limits.len() + 1;
    let mut r: Vec<Vec<String>> = Vec::new();
    let mut b: usize = 0;
    while b < n_buckets
        invariant
            keys == segments.key_seq(),
            counts == segments.count_seq(),
            limits == difficulty_limits@,
            segments.wf(),
            n == keys.len(),
            n_buckets == limits.len() + 1,
            b <= n_buckets,
            r@.len() == b,
            forall|bb: int|
                0 <= bb < b ==> r.deep_view()[bb] == bucket_of(keys, counts, limits, bb, n as int),
        decreases n_buckets - b,
    {
        let mut bucket: Vec<String> = Vec::new();
        let mut j: usize = 0;
        proof {
            assert(bucket.deep_view() =~= bucket_of(keys, counts, limits, b as int, 0));
        }
        while j < n
            invariant
                keys == segments.key_seq(),
                counts == segments.count_seq(),
                limits == difficulty_limits@,
                segments.wf(),
                n == keys.len(),
                j <= n,
                bucket.deep_view() == bucket_of(keys, counts, limits, b as int, j as int),
            decreases n - j,
        {
            let c = segments.count_at(j);
            let idx = find_bucket(&difficulty_limits, c);
            let ghost prev = bucket.deep_view();
            if idx == b {
                bucket.push(segments.key_at(j));
                proof {
                    assert(bucket.deep_view() =~= prev.push(keys[j as int]));
                }
            }
            j += 1;
        }
        let ghost prev_r = r.deep_view();
        r.push(bucket);
        proof {
            assert(r.deep_view() =~= prev_r.push(bucket.deep_view()));
        }
        b += 1;
    }
    r
}

} // verus!
