//! Bounded sample buffers for the performance graphs, and the repeatable pseudo-random
//! sequence the demo screens are drawn from.
use crate::app::HISTORY_LEN;
use std::collections::VecDeque;
use vstd::prelude::*;

verus! {

/// The last `n` items of `s` (all of them when there are fewer).
pub open spec fn last_n<T>(s: Seq<T>, n: nat) -> Seq<T> {
    if s.len() > n {
        s.skip(s.len() - n)
    } else {
        s
    }
}

/// Appends a sample and drops the oldest ones beyond `HISTORY_LEN`.
pub fn push_capped<T>(buf: &mut VecDeque<T>, value: T)
    requires
        old(buf)@.len() < usize::MAX,
    ensures
        final(buf)@ == last_n(old(buf)@.push(value), HISTORY_LEN as nat),
        final(buf)@.len() <= HISTORY_LEN,
{
    buf.push_back(value);
    let ghost full = old(buf)@.push(value);
    proof {
        assert(full.skip(0) =~= full);
    }
    while buf.len() > HISTORY_LEN
        invariant
            full == old(buf)@.push(value),
            buf@.len() <= full.len(),
            full.len() > HISTORY_LEN ==> buf@.len() >= HISTORY_LEN,
            full.len() <= HISTORY_LEN ==> buf@.len() == full.len(),
            buf@ == full.skip(full.len() - buf@.len()),
        decreases buf@.len(),
    {
        let ghost before = buf@;
        let _ = buf.pop_front();
        proof {
            assert(buf@ =~= full.skip(full.len() - buf@.len())) by {
                assert forall|k: int| 0 <= k < buf@.len() implies buf@[k] == full.skip(full.len() - buf@.len())[k] by {
                    assert(buf@[k] == before[k + 1]);
                }
            }
        }
    }
    proof {
        if full.len() > HISTORY_LEN {
            assert(buf@ =~= last_n(full, HISTORY_LEN as nat));
        }
    }
}

/// A tiny linear congruential generator: the same seed always gives the same sequence.
pub struct Lcg(pub u64);

pub open spec fn lcg_step(state: u64) -> u64 {
    state.wrapping_mul(6364136223846793005u64).wrapping_add(1442695040888963407u64)
}

impl Lcg {
    /// Advances the generator and returns its top 53 bits; divided by 2^53 they give a
    /// number in [0, 1).
    pub fn next_bits(&mut self) -> (bits: u64)
        ensures
            final(self).0 == lcg_step(old(self).0),
            bits == final(self).0 / 2048,
            bits < 9007199254740992,
    {
        self.0 = self.0.wrapping_mul(6364136223846793005).wrapping_add(1442695040888963407);
        let s = self.0;
        let bits = s >> 11;
        proof {
            assert(s >> 11 == s / 2048) by (bit_vector);
            assert(s / 2048 < 9007199254740992) by (bit_vector);
        }
        bits
    }
}

} // verus!
