//! The word list: one word per line of the raw source text, in source
//! order, kept exactly as written.
use vstd::prelude::*;
use vstd::string::StrSliceExecFns;

verus! {

/// A line as the reader hands it out: the terminator gone, and a carriage
/// return directly before it gone with it.
pub open spec fn strip_cr(l: Seq<char>) -> Seq<char> {
    if l.len() > 0 && l.last() == '\r' {
        l.drop_last()
    } else {
        l
    }
}

/// The lines already closed by a line feed, and the partial line still open.
pub open spec fn lines_state(s: Seq<char>) -> (Seq<Seq<char>>, Seq<char>)
    decreases s.len(),
{
    if s.len() == 0 {
        (Seq::empty(), Seq::empty())
    } else {
        let (done, cur) = lines_state(s.drop_last());
        if s.last() == '\n' {
            (done.push(strip_cr(cur)), Seq::empty())
        } else {
            (done, cur.push(s.last()))
        }
    }
}

/// The lines of a text: terminators are dropped, a final line without one
/// still counts, and nothing follows a final line feed.
pub open spec fn lines_of(s: Seq<char>) -> Seq<Seq<char>> {
    let (done, cur) = lines_state(s);
    if cur.len() == 0 {
        done
    } else {
        done.push(cur)
    }
}

/// Splits the raw word list text into its words, one per line, preserving
/// order and content.
pub fn build_word_list(contents: &str) -> (r: Vec<String>)
    ensures
        r.deep_view() == lines_of(contents@),
{
    let n = contents.unicode_len();
    let mut out: Vec<String> = Vec::new();
    let mut start: usize = 0;
    let mut i: usize = 0;
    while i < n
        invariant
            n == contents@.len(),
            start <= i <= n,
            out.deep_view() == lines_state(contents@.take(i as int)).0,
            contents@.subrange(start as int, i as int) == lines_state(contents@.take(i as int)).1,
        decreases n - i,
    {
        let c = contents.get_char(i);
        proof {
            assert(contents@.take(i + 1).drop_last() =~= contents@.take(i as int));
            assert(contents@.take(i + 1).last() == contents@[i as int]);
        }
        if c == '\n' {
            let ghost cur = contents@.subrange(start as int, i as int);
            let end = if i > start && contents.get_char(i - 1) == '\r' {
                proof {
                    assert(cur.last() == contents@[i - 1]);
                    assert(strip_cr(cur) =~= contents@.subrange(start as int, i - 1));
                }
                i - 1
            } else {
                proof {
                    assert(strip_cr(cur) == cur);
                }
                i
            };
            let piece = contents.substring_char(start, end);
            let ghost old_deep = out.deep_view();
            out.push(piece.to_owned());
            proof {
                assert(out.deep_view() =~= old_deep.push(piece@));
            }
            start = i + 1;
            proof {
                assert(contents@.subrange(start as int, i + 1) =~= Seq::<char>::empty());
            }
        } else {
            proof {
                assert(contents@.subrange(start as int, i + 1) =~= contents@.subrange(
                    start as int,
                    i as int,
                ).push(contents@[i as int]));
            }
        }
        i += 1;
    }
    proof {
        assert(contents@.take(n as int) =~= contents@);
    }
    if start < n {
        let piece = contents.substring_char(start, n);
        let ghost old_deep = out.deep_view();
        out.push(piece.to_owned());
        proof {
            assert(out.deep_view() =~= old_deep.push(piece@));
        }
    } else {
        proof {
            assert(lines_state(contents@).1 =~= Seq::<char>::empty());
        }
    }
    out
}

} // verus!
