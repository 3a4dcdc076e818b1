use vstd::prelude::*;

use crate::sip_hash_state::{sip13_of, SipHashState};
use crate::table::SAFE_HASH_BIT;

verus! {

// Primes used in xxHash's finaliser.
pub const PRIME_2: u64 = 14029467366897019727;
pub const PRIME_3: u64 = 1609587929392839161;

/// The value of the fast one-shot mixer on a 64-bit word (xxHash's finaliser).
pub open spec fn mix_spec(data: u64) -> u64 {
    let a = data ^ (data >> 33u64);
    let b = vstd::wrapping::u64_specs::wrapping_mul(a, PRIME_2);
    let c = b ^ (b >> 29u64);
    let d = vstd::wrapping::u64_specs::wrapping_mul(c, PRIME_3);
    d ^ (d >> 32u64)
}

/// xxHash's finaliser: mixes one 64-bit word so that nearby inputs scatter.
pub fn mix(data: u64) -> (r: u64)
    ensures
        r == mix_spec(data),
{
    let mut hash = data;
    hash = hash ^ (hash >> 33u64);
    hash = hash.wrapping_mul(PRIME_2);
    hash = hash ^ (hash >> 29u64);
    hash = hash.wrapping_mul(PRIME_3);
    hash = hash ^ (hash >> 32u64);
    hash
}

/// Hash-builder state for the adaptive map: either the fast one-shot mixer
/// (`Fast`, no state) or the keyed safe hasher (`Safe`, two secret keys).
/// A state moves from fast to safe at most once and never back.
#[derive(Clone, Copy)]
pub struct AdaptiveState {
    inner: Option<SipHashState>,
}

impl AdaptiveState {
    /// True when the keyed safe hasher is in use.
    pub closed spec fn is_safe(self) -> bool {
        self.inner is Some
    }

    /// The raw 64-bit hash this state gives to a one-shot word.
    pub closed spec fn spec_raw_hash(self, word: u64) -> u64 {
        match self.inner {
            Option::None => mix_spec(word),
            Option::Some(s) => sip13_of(s.k0, s.k1, word),
        }
    }

    /// The safe hash this state gives to a one-shot word: the raw hash with
    /// the high bit forced on, so that it is never the zero "empty" marker.
    pub open spec fn spec_hash(self, word: u64) -> u64 {
        self.spec_raw_hash(word) | SAFE_HASH_BIT
    }

    pub fn new() -> (s: Self)
        ensures
            s.is_safe(),
    {
        AdaptiveState::new_for_safe_hashing()
    }

    pub fn new_for_fast_hashing() -> (s: Self)
        ensures
            !s.is_safe(),
    {
        AdaptiveState { inner: None }
    }

    pub fn new_for_safe_hashing() -> (s: Self)
        ensures
            s.is_safe(),
    {
        AdaptiveState { inner: Some(SipHashState::new()) }
    }

    /// Replaces this state by a safe one with freshly drawn keys.
    pub fn switch_to_safe_hashing(&mut self)
        ensures
            final(self).is_safe(),
    {
        *self = AdaptiveState::new_for_safe_hashing();
    }

    pub fn uses_safe_hashing(&self) -> (b: bool)
        ensures
            b == self.is_safe(),
    {
        self.inner.is_some()
    }

    /// Starts a one-shot hasher owned by this state.
    pub fn build_hasher(&self) -> (h: AdaptiveHasher)
        ensures
            h.state_of() == *self,
            h.word_of() == 0,
    {
        AdaptiveHasher { inner: self.inner, word: 0 }
    }

    /// The safe hash of one one-shot word under this state.
    pub fn make_word_hash(&self, word: u64) -> (h: u64)
        ensures
            h == self.spec_hash(word),
            h >= SAFE_HASH_BIT,
    {
        let mut hasher = self.build_hasher();
        hasher.write_word(word);
        let raw = hasher.finish();
        proof {
            lemma_high_bit_or(raw);
        }
        raw | SAFE_HASH_BIT
    }
}

// For creating maps over keys without the one-shot guarantee: the default
// state hashes safely from the start.
impl Default for AdaptiveState {
    fn default() -> (s: Self)
        ensures
            s.is_safe(),
    {
        AdaptiveState::new_for_safe_hashing()
    }
}

/// Setting the high bit yields a value at least as large as the high bit.
proof fn lemma_high_bit_or(x: u64)
    ensures
        (x | 0x8000_0000_0000_0000u64) >= 0x8000_0000_0000_0000u64,
{
    assert((x | 0x8000_0000_0000_0000u64) >= 0x8000_0000_0000_0000u64) by (bit_vector);
}

/// One-shot hasher produced by an `AdaptiveState`: it accepts a single 64-bit
/// word (a one-shot key's hash input is one chunk of at most eight bytes,
/// read as a little-endian word) and hashes it under the owning state.
pub struct AdaptiveHasher {
    inner: Option<SipHashState>,
    word: u64,
}

impl AdaptiveHasher {
    /// The state that built this hasher.
    pub closed spec fn state_of(self) -> AdaptiveState {
        AdaptiveState { inner: self.inner }
    }

    /// The word written so far (zero before any write).
    pub closed spec fn word_of(self) -> u64 {
        self.word
    }

    /// Records the single one-shot word to hash. A later write replaces an
    /// earlier one; one-shot keys write exactly once.
    pub fn write_word(&mut self, w: u64)
        ensures
            final(self).word_of() == w,
            final(self).state_of() == old(self).state_of(),
    {
        self.word = w;
    }

    /// The raw 64-bit hash of the written word under the owning state.
    pub fn finish(&self) -> (r: u64)
        ensures
            r == self.state_of().spec_raw_hash(self.word_of()),
    {
        match &self.inner {
            Option::Some(s) => s.hash_word(self.word),
            Option::None => mix(self.word),
        }
    }
}

} // verus!
