//! Character-level helpers shared by the pipeline: string equality,
//! separator splitting, and decimal digit parsing.
use vstd::prelude::*;
use vstd::string::StrSliceExecFns;

verus! {

/// Compares two strings character by character.
pub fn str_eq(a: &str, b: &str) -> (r: bool)
    ensures
        r == (a@ == b@),
{
    let alen = a.unicode_len();
    let blen = b.unicode_len();
    if alen != blen {
        return false;
    }
    let mut i: usize = 0;
    while i < alen
        invariant
            alen == a@.len(),
            blen == b@.len(),
            alen == blen,
            i <= alen,
            forall|j: int| 0 <= j < i ==> a@[j] == b@[j],
        decreases alen - i,
    {
        if a.get_char(i) != b.get_char(i) {
            return false;
        }
        i += 1;
    }
    proof {
        assert(a@ =~= b@);
    }
    true
}

/// The pieces of `s` already closed by a separator, and the piece still open,
/// reading `s` left to right and cutting at every occurrence of `sep`.
pub open spec fn split_state(s: Seq<char>, sep: char) -> (Seq<Seq<char>>, Seq<char>)
    decreases s.len(),
{
    if s.len() == 0 {
        (Seq::empty(), Seq::empty())
    } else {
        let (done, cur) = split_state(s.drop_last(), sep);
        if s.last() == sep {
            (done.push(cur), Seq::empty())
        } else {
            (done, cur.push(s.last()))
        }
    }
}

/// `s` cut at every occurrence of `sep`: one piece more than there are
/// separators, empty pieces kept.
pub open spec fn fields_of(s: Seq<char>, sep: char) -> Seq<Seq<char>> {
    split_state(s, sep).0.push(split_state(s, sep).1)
}

/// Cuts `s` at every occurrence of `sep`, keeping empty pieces.
pub fn split_fields(s: &str, sep: char) -> (r: Vec<String>)
    ensures
        r.deep_view() == fields_of(s@, sep),
{
    let n = s.unicode_len();
    let mut out: Vec<String> = Vec::new();
    let mut start: usize = 0;
    let mut i: usize = 0;
    while i < n
        invariant
            n == s@.len(),
            start <= i <= n,
            out.deep_view() == split_state(s@.take(i as int), sep).0,
            s@.subrange(start as int, i as int) == split_state(s@.take(i as int), sep).1,
        decreases n - i,
    {
        let c = s.get_char(i);
        proof {
            assert(s@.take(i + 1).drop_last() =~= s@.take(i as int));
            assert(s@.take(i + 1).last() == s@[i as int]);
        }
        if c == sep {
            let piece = s.substring_char(start, i);
            let ghost old_deep = out.deep_view();
            out.push(piece.to_owned());
            proof {
                assert(out.deep_view() =~= old_deep.push(piece@));
            }
            start = i + 1;
            proof {
                assert(s@.subrange(start as int, i + 1) =~= Seq::<char>::empty());
            }
        } else {
            proof {
                assert(s@.subrange(start as int, i + 1) =~= s@.subrange(
                    start as int,
                    i as int,
                ).push(s@[i as int]));
            }
        }
        i += 1;
    }
    let piece = s.substring_char(start, n);
    let ghost old_deep = out.deep_view();
    out.push(piece.to_owned());
    proof {
        assert(s@.take(n as int) =~= s@);
        assert(out.deep_view() =~= old_deep.push(piece@));
        assert(out.deep_view() == fields_of(s@, sep));
    }
    out
}

/// A decimal digit.
pub open spec fn is_digit(c: char) -> bool {
    48 <= c as int <= 57
}

pub open spec fn all_digits(f: Seq<char>) -> bool {
    forall|i: int| 0 <= i < f.len() ==> is_digit(#[trigger] f[i])
}

pub open spec fn digit_val(c: char) -> nat {
    (c as int - 48) as nat
}

/// The number that a sequence of decimal digits denotes.
pub open spec fn digits_val(f: Seq<char>) -> nat
    decreases f.len(),
{
    if f.len() == 0 {
        0
    } else {
        digits_val(f.drop_last()) * 10 + digit_val(f.last())
    }
}

/// Every prefix of a digit string denotes no more than the whole string.
proof fn lemma_digits_val_take_le(f: Seq<char>, j: int)
    requires
        0 <= j <= f.len(),
    ensures
        digits_val(f.take(j)) <= digits_val(f),
    decreases f.len() - j,
{
    if j == f.len() {
        assert(f.take(j) =~= f);
    } else {
        assert(f.take(j + 1).drop_last() =~= f.take(j));
        assert(digits_val(f.take(j)) <= digits_val(f.take(j + 1)));
        lemma_digits_val_take_le(f, j + 1);
    }
}

/// Reads a string of decimal digits as an unsigned number.
pub fn parse_usize(f: &str) -> (r: usize)
    requires
        all_digits(f@),
        digits_val(f@) <= usize::MAX,
    ensures
        r == digits_val(f@),
{
    let n = f.unicode_len();
    let mut val: usize = 0;
    let mut i: usize = 0;
    while i < n
        invariant
            n == f@.len(),
            i <= n,
            all_digits(f@),
            digits_val(f@) <= usize::MAX,
            val == digits_val(f@.take(i as int)),
        decreases n - i,
    {
        let c = f.get_char(i);
        let d = (c as u32) - 48;
        proof {
            assert(f@.take(i + 1).drop_last() =~= f@.take(i as int));
            assert(f@.take(i + 1).last() == f@[i as int]);
            lemma_digits_val_take_le(f@, i + 1);
        }
        val = val * 10 + (d as usize);
        i += 1;
    }
    proof {
        assert(f@.take(n as int) =~= f@);
    }
    val
}

} // verus!
