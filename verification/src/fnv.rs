//! 64-bit FNV-1a hashing, used for deterministic cache identities.

use vstd::prelude::*;

verus! {

/// FNV-1a 64-bit offset basis.
pub const FNV_OFFSET_BASIS: u64 = 0xcbf2_9ce4_8422_2325u64;

/// FNV-1a 64-bit prime.
pub const FNV_PRIME: u64 = 0x0100_0000_01b3u64;

/// One FNV-1a round: xor the byte into the state, then multiply by the
/// prime modulo 2^64.
pub open spec fn fnv1a_step(hash: u64, byte: u8) -> u64 {
    (((hash ^ (byte as u64)) as nat * FNV_PRIME as nat) % 0x1_0000_0000_0000_0000nat) as u64
}

/// The FNV-1a state after absorbing `bytes`, in order, starting from `hash`.
pub open spec fn fnv1a_fold(hash: u64, bytes: Seq<u8>) -> u64
    decreases bytes.len(),
{
    if bytes.len() == 0 {
        hash
    } else {
        fnv1a_step(fnv1a_fold(hash, bytes.drop_last()), bytes.last())
    }
}

/// Continue an FNV-1a hash over more bytes.
pub fn fnv1a64_update(hash: u64, bytes: &[u8]) -> (result: u64)
    ensures
        result == fnv1a_fold(hash, bytes@),
{
    let mut state = hash;
    let mut index: usize = 0;
    while index < bytes.len()
        invariant
            index <= bytes.len(),
            state == fnv1a_fold(hash, bytes@.take(index as int)),
        decreases bytes.len() - index,
    {
        proof {
            assert(bytes@.take(index + 1).drop_last() =~= bytes@.take(index as int));
        }
        state = (state ^ (bytes[index] as u64)).wrapping_mul(FNV_PRIME);
        index += 1;
    }
    proof {
        assert(bytes@.take(bytes.len() as int) =~= bytes@);
    }
    state
}

/// FNV-1a hash of `bytes` from the standard offset basis.
pub fn fnv1a64(bytes: &[u8]) -> (result: u64)
    ensures
        result == fnv1a_fold(FNV_OFFSET_BASIS, bytes@),
{
    fnv1a64_update(FNV_OFFSET_BASIS, bytes)
}

/// Hashing two byte strings in turn is hashing their concatenation.
pub proof fn lemma_fnv1a_fold_concat(hash: u64, first: Seq<u8>, second: Seq<u8>)
    ensures
        fnv1a_fold(fnv1a_fold(hash, first), second) == fnv1a_fold(hash, first + second),
    decreases second.len(),
{
    if second.len() == 0 {
        assert(first + second =~= first);
    } else {
        lemma_fnv1a_fold_concat(hash, first, second.drop_last());
        assert((first + second).drop_last() =~= first + second.drop_last());
        assert((first + second).last() == second.last());
    }
}

} // verus!
