//! The hash of a word, by which the store finds it again.

use vstd::prelude::*;

verus! {

/// Folds one more byte into a hash.
pub open spec fn mix(h: u64, b: u8) -> u64 {
    (h ^ (b as u64)).wrapping_mul(0x0000_0100_0000_01b3)
}

/// The hash of a sequence of bytes: the bytes folded, from first to last,
/// into a fixed starting value.
pub open spec fn hash_of(s: Seq<u8>) -> u64
    decreases s.len(),
{
    if s.len() == 0 {
        0xcbf2_9ce4_8422_2325
    } else {
        mix(hash_of(s.drop_last()), s.last())
    }
}

/// The slot, out of `slots` many, into which a word falls.
pub open spec fn slot_of(word: Seq<u8>, slots: nat) -> int {
    hash_of(word) as int % slots as int
}

/// Computes the slot into which `word` falls.
pub fn slot_index(word: &[u8], slots: usize) -> (slot: usize)
    requires
        slots > 0,
    ensures
        slot == slot_of(word@, slots as nat),
        slot < slots,
{
    let mut h: u64 = 0xcbf2_9ce4_8422_2325;
    let mut i: usize = 0;
    while i < word.len()
        invariant
            i <= word.len(),
            h == hash_of(word@.take(i as int)),
        decreases word.len() - i,
    {
        proof {
            assert(word@.take(i + 1).drop_last() =~= word@.take(i as int));
        }
        h = (h ^ (word[i] as u64)).wrapping_mul(0x0000_0100_0000_01b3);
        i += 1;
    }
    proof {
        assert(word@.take(i as int) =~= word@);
    }
    (h % (slots as u64)) as usize
}

} // verus!
