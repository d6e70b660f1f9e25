//! Sort keys: every column a table sorts by is turned into a sequence of integers whose
//! lexicographic order is the column's order.
use crate::text::to_chars;
use vstd::prelude::*;

verus! {

/// A `usize` as a mathematical integer.
pub open spec fn ix(u: usize) -> int {
    u as int
}

/// The key of a text: each character's code point plus one, then a terminating 0. Comparing
/// two such keys lexicographically compares the texts character by character, a text sorting
/// before every longer text it is a prefix of (the order of `str`'s `Ord`).
pub open spec fn text_key(s: Seq<char>) -> Seq<u64> {
    s.map_values(|c: char| ((c as u32) as u64 + 1) as u64).push(0)
}

/// The keys of a list of items.
pub open spec fn key_views(keys: Seq<Vec<u64>>) -> Seq<Seq<u64>> {
    Seq::new(keys.len(), |i: int| keys[i]@)
}

/// The key of an optional text: absent sorts first.
pub open spec fn opt_text_key(s: Option<Seq<char>>) -> Seq<u64> {
    match s {
        None => seq![0],
        Some(t) => seq![1] + text_key(t),
    }
}

/// Appends the key of a text.
pub fn push_text_key(k: &mut Vec<u64>, s: &str)
    ensures
        final(k)@ == old(k)@ + text_key(s@),
{
    let cs = to_chars(s);
    let mut i: usize = 0;
    while i < cs.len()
        invariant
            i <= cs.len(),
            cs@ == s@,
            k@ == old(k)@ + cs@.subrange(0, i as int).map_values(|c: char| ((c as u32) as u64 + 1) as u64),
        decreases cs.len() - i,
    {
        let c = cs[i];
        let v: u64 = (c as u32) as u64 + 1;
        k.push(v);
        i = i + 1;
        proof {
            assert(cs@.subrange(0, i as int).map_values(|c: char| ((c as u32) as u64 + 1) as u64)
                =~= cs@.subrange(0, i - 1).map_values(|c: char| ((c as u32) as u64 + 1) as u64).push(v));
        }
    }
    k.push(0);
    proof {
        assert(cs@.subrange(0, cs.len() as int) =~= cs@);
        assert(k@ =~= old(k)@ + text_key(s@));
    }
}

/// Appends the key of an optional text.
pub fn push_opt_text_key(k: &mut Vec<u64>, s: &Option<String>)
    ensures
        final(k)@ == old(k)@ + opt_text_key(
            match s {
                None => None,
                Some(t) => Some(t@),
            },
        ),
{
    match s {
        None => {
            k.push(0);
            proof {
                assert(k@ =~= old(k)@ + seq![0u64]);
            }
        },
        Some(t) => {
            k.push(1);
            push_text_key(k, t.as_str());
            proof {
                assert(k@ =~= old(k)@ + (seq![1u64] + text_key(t@)));
            }
        },
    }
}

/// Different texts have different keys.
pub proof fn lemma_text_key_injective(x: Seq<char>, y: Seq<char>)
    requires
        text_key(x) == text_key(y),
    ensures
        x == y,
{
    assert(text_key(x).len() == x.len() + 1);
    assert(text_key(y).len() == y.len() + 1);
    assert forall|i: int| 0 <= i < x.len() implies x[i] == y[i] by {
        let (a, b) = (x[i], y[i]);
        assert(text_key(x)[i] == ((a as u32) as u64 + 1) as u64);
        assert(text_key(y)[i] == ((b as u32) as u64 + 1) as u64);
        let (ua, ub) = (a as u32, b as u32);
        assert(((ua as u64 + 1) as u64 == (ub as u64 + 1) as u64) ==> ua == ub) by (bit_vector);
        assert(ua == ub);
        vstd::utf8::char_u32_cast(a, ua);
        vstd::utf8::char_u32_cast(b, ub);
    }
    assert(x =~= y);
}

} // verus!
