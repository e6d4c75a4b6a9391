//! Rendering the two lookup tables as Rust source text, through the
//! `phf_codegen` builders. The builders are opaque here: what they print is
//! a deterministic function of the entries they were fed, so the rendered
//! text is named rather than spelled out.
use crate::distinct_seqs;
use vstd::prelude::*;
use vstd::string::StrSliceExecFns;
use vstd::string::StringExecFns;

verus! {

#[verifier::external_type_specification]
#[verifier::external_body]
#[verifier::reject_recursive_types(T)]
pub struct ExPhfCodegenSet<T>(phf_codegen::Set<T>);

#[verifier::external_type_specification]
#[verifier::external_body]
#[verifier::reject_recursive_types(T)]
pub struct ExPhfCodegenOrderedSet<T>(phf_codegen::OrderedSet<T>);

/// The entries a set builder has been fed, in the order they were fed.
pub uninterp spec fn phf_set_entries(b: phf_codegen::Set<String>) -> Seq<Seq<char>>;

/// The source text of a `phf::Set` over the given entries, as the builder
/// prints it.
pub uninterp spec fn phf_set_src(entries: Seq<Seq<char>>) -> Seq<char>;

/// The entries an ordered-set builder has been fed, in the order they were
/// fed.
pub uninterp spec fn phf_ordered_set_entries(b: phf_codegen::OrderedSet<String>) -> Seq<Seq<char>>;

/// The source text of a `phf::OrderedSet` over the given entries, in the
/// given order, as the builder prints it.
pub uninterp spec fn phf_ordered_set_src(entries: Seq<Seq<char>>) -> Seq<char>;

/// Relies on phf_codegen::Set::new: the builder starts with no entries.
#[verifier::external_body]
fn phf_set_new() -> (b: phf_codegen::Set<String>)
    ensures
        phf_set_entries(b) == Seq::<Seq<char>>::empty(),
{
    phf_codegen::Set::new()
}

/// Relies on phf_codegen::Set::entry: it appends the entry to the builder.
#[verifier::external_body]
fn phf_set_add(b: &mut phf_codegen::Set<String>, entry: String)
    ensures
        phf_set_entries(*final(b)) == phf_set_entries(*old(b)).push(entry@),
{
    b.entry(entry);
}

/// Relies on phf_codegen::Set::build and its Display output: the printed
/// text depends on the entries alone (the generator is seeded with a fixed
/// constant), and building panics on duplicate entries.
#[verifier::external_body]
fn phf_set_render(b: &phf_codegen::Set<String>) -> (r: String)
    requires
        distinct_seqs(phf_set_entries(*b)),
    ensures
        r@ == phf_set_src(phf_set_entries(*b)),
{
    b.build().to_string()
}

/// Relies on phf_codegen::OrderedSet::new: the builder starts with no
/// entries.
#[verifier::external_body]
fn phf_ordered_set_new() -> (b: phf_codegen::OrderedSet<String>)
    ensures
        phf_ordered_set_entries(b) == Seq::<Seq<char>>::empty(),
{
    phf_codegen::OrderedSet::new()
}

/// Relies on phf_codegen::OrderedSet::entry: it appends the entry to the
/// builder, and the built set keeps this order.
#[verifier::external_body]
fn phf_ordered_set_add(b: &mut phf_codegen::OrderedSet<String>, entry: String)
    ensures
        phf_ordered_set_entries(*final(b)) == phf_ordered_set_entries(*old(b)).push(entry@),
{
    b.entry(entry);
}

/// Relies on phf_codegen::OrderedSet::build and its Display output: the
/// printed text depends on the entries and their order alone (the generator
/// is seeded with a fixed constant), and building panics on duplicate
/// entries.
#[verifier::external_body]
fn phf_ordered_set_render(b: &phf_codegen::OrderedSet<String>) -> (r: String)
    requires
        distinct_seqs(phf_ordered_set_entries(*b)),
    ensures
        r@ == phf_ordered_set_src(phf_ordered_set_entries(*b)),
{
    b.build().to_string()
}

/// Renders the word table as source text: a `phf::Set` over the words.
pub fn build_word_table(word_list: Vec<String>) -> (r: String)
    requires
        distinct_seqs(word_list.deep_view()),
    ensures
        r@ == phf_set_src(word_list.deep_view()),
{
    let ghost words = word_list.deep_view();
    let mut builder = phf_set_new();
    let mut i: usize = 0;
    proof {
        assert(words.take(0) =~= Seq::<Seq<char>>::empty());
    }
    while i < word_list.len()
        invariant
            words == word_list.deep_view(),
            distinct_seqs(words),
            i <= word_list.len(),
            phf_set_entries(builder) == words.take(i as int),
        decreases word_list.len() - i,
    {
        phf_set_add(&mut builder, word_list[i].clone());
        proof {
            assert(words.take(i + 1) =~= words.take(i as int).push(words[i as int]));
        }
        i += 1;
    }
    proof {
        assert(words.take(word_list.len() as int) =~= words);
    }
    phf_set_render(&builder)
}

/// Renders one difficulty bucket as source text: a `phf::OrderedSet` over
/// the bucket's segments, element order kept.
fn render_ordered_bucket(bucket: &Vec<String>) -> (r: String)
    requires
        distinct_seqs(bucket.deep_view()),
    ensures
        r@ == phf_ordered_set_src(bucket.deep_view()),
{
    let ghost entries = bucket.deep_view();
    let mut builder = phf_ordered_set_new();
    let mut i: usize = 0;
    proof {
        assert(entries.take(0) =~= Seq::<Seq<char>>::empty());
    }
    while i < bucket.len()
        invariant
            entries == bucket.deep_view(),
            distinct_seqs(entries),
            i <= bucket.len(),
            phf_ordered_set_entries(builder) == entries.take(i as int),
        decreases bucket.len() - i,
    {
        phf_ordered_set_add(&mut builder, bucket[i].clone());
        proof {
            assert(entries.take(i + 1) =~= entries.take(i as int).push(entries[i as int]));
        }
        i += 1;
    }
    proof {
        assert(entries.take(bucket.len() as int) =~= entries);
    }
    phf_ordered_set_render(&builder)
}

/// The source text of the whole segment table: one ordered set per bucket,
/// joined by a comma and a space.
pub open spec fn segment_table_src(buckets: Seq<Seq<Seq<char>>>) -> Seq<char>
    decreases buckets.len(),
{
    if buckets.len() == 0 {
        Seq::empty()
    } else if buckets.len() == 1 {
        phf_ordered_set_src(buckets[0])
    } else {
        segment_table_src(buckets.drop_last()) + ", "@ + phf_ordered_set_src(buckets.last())
    }
}

/// Renders every difficulty bucket and joins the pieces for embedding.
pub fn build_segment_table(difficulty_segments: Vec<Vec<String>>) -> (r: String)
    requires
        forall|b: int|
            0 <= b < difficulty_segments@.len() ==> distinct_seqs(
                #[trigger] difficulty_segments.deep_view()[b],
            ),
    ensures
        r@ == segment_table_src(difficulty_segments.deep_view()),
{
    let ghost buckets = difficulty_segments.deep_view();
    let mut out = String::new();
    let mut bi: usize = 0;
    proof {
        assert(buckets.take(0) =~= Seq::<Seq<Seq<char>>>::empty());
    }
    while bi < difficulty_segments.len()
        invariant
            buckets == difficulty_segments.deep_view(),
            forall|b: int| 0 <= b < buckets.len() ==> distinct_seqs(#[trigger] buckets[b]),
            bi <= difficulty_segments.len(),
            out@ == segment_table_src(buckets.take(bi as int)),
        decreases difficulty_segments.len() - bi,
    {
        if bi > 0 {
            out.append(", ");
        }
        proof {
            assert(difficulty_segments@[bi as int].deep_view() == buckets[bi as int]);
        }
        let piece = render_ordered_bucket(&difficulty_segments[bi]);
        out.append(piece.as_str());
        proof {
            assert(buckets.take(bi + 1).drop_last() =~= buckets.take(bi as int));
            assert(buckets.take(bi + 1).last() == buckets[bi as int]);
            if bi == 0 {
                assert(out@ =~= segment_table_src(buckets.take(bi + 1)));
            } else {
                assert(out@ =~= segment_table_src(buckets.take(bi as int)) + ", "@
                    + phf_ordered_set_src(buckets[bi as int]));
            }
        }
        bi += 1;
    }
    proof {
        assert(buckets.take(difficulty_segments.len() as int) =~= buckets);
    }
    out
}

/// Frames the rendered word table as the text of a complete source file: a
/// static `phf::Set` under the given variable name.
pub fn save_word_table(variable_name: &str, word_table_build: String) -> (r: String)
    ensures
        r@ == "static "@ + variable_name@ + ": phf::Set<&'static str> = "@ + word_table_build@
            + ";\n"@,
{
    let mut out = String::from_str("static ");
    out.append(variable_name);
    out.append(": phf::Set<&'static str> = ");
    out.append(word_table_build.as_str());
    out.append(";\n");
    proof {
        assert(out@ =~= "static "@ + variable_name@ + ": phf::Set<&'static str> = "@
            + word_table_build@ + ";\n"@);
    }
    out
}

/// Frames the rendered segment table as the text of a complete source file:
/// a static slice of `phf::OrderedSet`, one per bucket, under the given
/// variable name.
pub fn save_segment_table(variable_name: &str, segment_table_build: String) -> (r: String)
    ensures
        r@ == "static "@ + variable_name@ + ": &'static [phf::OrderedSet<&'static str>] = &["@
            + segment_table_build@ + "];\n"@,
{
    let mut out = String::from_str("static ");
    out.append(variable_name);
    out.append(": &'static [phf::OrderedSet<&'static str>] = &[");
    out.append(segment_table_build.as_str());
    out.append("];\n");
    proof {
        assert(out@ =~= "static "@ + variable_name@
            + ": &'static [phf::OrderedSet<&'static str>] = &["@ + segment_table_build@
            + "];\n"@);
    }
    out
}

} // verus!
