use vstd::prelude::*;

use core::hash::Hasher;

verus! {

/// Hash-builder state for the keyed, DoS-resistant hash function: a pair of
/// 64-bit secret keys for SipHash-1-3.
///
/// A particular state hashes a given word the same way on every call, but the
/// hashes produced by two states with different keys are unrelated.
#[derive(Clone, Copy)]
pub struct SipHashState {
    pub(crate) k0: u64,
    pub(crate) k1: u64,
}

/// SipHash-1-3 of the eight little-endian bytes of a 64-bit word under a pair
/// of secret keys. The outside routine computes it; this library only names
/// the value, which is a function of the three arguments alone.
pub uninterp spec fn sip13_of(k0: u64, k1: u64, word: u64) -> u64;

/// Relies on `siphasher::sip::SipHasher13` (`new_with_keys`, `Hasher::write`,
/// `Hasher::finish`): SipHash-1-3 is a pure function of the two keys and the
/// written bytes, so the same arguments always give the same result.
#[verifier::external_body]
pub(crate) fn sip13_word(k0: u64, k1: u64, word: u64) -> (r: u64)
    ensures
        r == sip13_of(k0, k1, word),
{
    let mut hasher = siphasher::sip::SipHasher13::new_with_keys(k0, k1);
    hasher.write(&word.to_le_bytes());
    hasher.finish()
}

/// Relies on `rand::random::<u64>`: a value from the thread-local generator,
/// seeded by the operating system. Nothing is assumed of the values drawn;
/// the call aborts only if the operating system cannot supply entropy.
#[verifier::external_body]
fn draw_secret_keys() -> (r: (u64, u64)) {
    (rand::random::<u64>(), rand::random::<u64>())
}

impl SipHashState {
    /// Constructs a state with freshly drawn secret keys.
    pub fn new() -> SipHashState {
        let keys = draw_secret_keys();
        SipHashState { k0: keys.0, k1: keys.1 }
    }

    /// Keyed hash of one 64-bit word under this state.
    pub(crate) fn hash_word(&self, word: u64) -> (r: u64)
        ensures
            r == sip13_of(self.k0, self.k1, word),
    {
        sip13_word(self.k0, self.k1, word)
    }
}

} // verus!
