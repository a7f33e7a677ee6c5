//! A deterministic stream generator with exact save/restore.
//!
//! The generator is a counter construction: the value drawn at any point is a
//! pure function of the 32-byte seed and the 128-bit word cursor, so the state
//! is exactly the pair (seed, cursor). Restoring a saved pair reconstructs, in
//! constant time, a generator indistinguishable from one that had genuinely
//! drawn its way to that cursor. The words themselves are computed by the
//! ChaCha20 keystream, reached through one trusted wrapper.

use vstd::prelude::*;

verus! {

/// The 32-bit word of the ChaCha20 keystream for `seed` at word position
/// `pos`: a pure function of its two arguments, identical on every machine.
/// The generator cycles, so positions are taken modulo its period.
pub uninterp spec fn chacha_word(seed: Seq<u8>, pos: u128) -> u32;

/// The 32-byte seed that the standard expansion derives from a 64-bit state:
/// a pure function of its argument.
pub uninterp spec fn seed_of_u64(state: u64) -> Seq<u8>;

/// Relies on rand_chacha's `ChaCha20Rng`: after `from_seed` and
/// `set_word_pos(pos)`, `next_u32` returns the keystream word at `pos`
/// (modulo the generator's period), a function of `(seed, pos)` alone.
#[verifier::external_body]
fn chacha_word_at(seed: &[u8; 32], pos: u128) -> (r: u32)
    ensures
        r == chacha_word(seed@, pos),
{
    let mut rng: rand_chacha::ChaCha20Rng = rand::SeedableRng::from_seed(*seed);
    rng.set_word_pos(pos);
    rand::RngCore::next_u32(&mut rng)
}

/// Relies on rand's `SeedableRng::seed_from_u64` together with
/// `ChaCha20Rng::get_seed`: the expanded seed bytes are a function of the
/// 64-bit state alone.
#[verifier::external_body]
fn seed_bytes_of_u64(state: u64) -> (r: [u8; 32])
    ensures
        r@ == seed_of_u64(state),
{
    let rng: rand_chacha::ChaCha20Rng = rand::SeedableRng::seed_from_u64(state);
    rng.get_seed()
}

/// The word cursor `k` draws past `p`, wrapping at the end of the cursor
/// space.
pub open spec fn pos_plus(p: u128, k: int) -> u128 {
    ((p + k) % (u128::MAX as int + 1)) as u128
}

/// A seeded counter-based stream generator with an explicit, settable
/// position. Equal seed and equal cursor give bit-identical future output.
#[derive(Copy, Clone, Debug, PartialEq, Eq)]
pub struct SerializableChaCha20 {
    /// The fixed 32-byte seed; drawing never changes it.
    pub seed: [u8; 32],
    /// The stream cursor: how many 32-bit words have been drawn.
    pub word_pos: u128,
}

/// What saving a generator yields: exactly its seed and cursor, not any
/// output history.
pub open spec fn spec_serialize(r: SerializableChaCha20) -> ([u8; 32], u128) {
    (r.seed, r.word_pos)
}

/// The generator a saved (seed, cursor) pair reconstructs.
pub open spec fn spec_deserialize(seed: [u8; 32], word_pos: u128) -> SerializableChaCha20 {
    SerializableChaCha20 { seed, word_pos }
}

impl SerializableChaCha20 {
    /// A fresh generator at cursor zero.
    pub fn from_seed(seed: [u8; 32]) -> (r: Self)
        ensures
            r.seed == seed,
            r.word_pos == 0,
    {
        SerializableChaCha20 { seed, word_pos: 0 }
    }

    /// A fresh generator whose seed is the standard expansion of a 64-bit
    /// state, at cursor zero.
    pub fn seed_from_u64(state: u64) -> (r: Self)
        ensures
            r.seed@ == seed_of_u64(state),
            r.word_pos == 0,
    {
        SerializableChaCha20 { seed: seed_bytes_of_u64(state), word_pos: 0 }
    }

    /// Saves the generator: its seed and cursor, from which `deserialize`
    /// reconstructs it exactly.
    pub fn serialize(&self) -> (r: ([u8; 32], u128))
        ensures
            r == spec_serialize(*self),
            r.0 == self.seed,
            r.1 == self.word_pos,
    {
        (self.seed, self.word_pos)
    }

    /// Restores a generator from a saved (seed, cursor) pair in constant
    /// time, by direct cursor assignment. Every cursor value is accepted.
    pub fn deserialize(seed: [u8; 32], word_pos: u128) -> (r: Self)
        ensures
            r == spec_deserialize(seed, word_pos),
    {
        SerializableChaCha20 { seed, word_pos }
    }

    /// Draws the next 32-bit word and advances the cursor by one.
    pub fn next_u32(&mut self) -> (r: u32)
        ensures
            r == chacha_word(old(self).seed@, old(self).word_pos),
            final(self).seed == old(self).seed,
            final(self).word_pos == pos_plus(old(self).word_pos, 1),
    {
        let r = chacha_word_at(&self.seed, self.word_pos);
        self.word_pos = if self.word_pos == u128::MAX { 0 } else { self.word_pos + 1 };
        r
    }

    /// Draws the next 64-bit value: two consecutive stream words, the first
    /// as the low half. Advances the cursor by two.
    pub fn next_u64(&mut self) -> (r: u64)
        ensures
            r == ((chacha_word(old(self).seed@, pos_plus(old(self).word_pos, 1)) as u64) << 32u64)
                | (chacha_word(old(self).seed@, old(self).word_pos) as u64),
            final(self).seed == old(self).seed,
            final(self).word_pos == pos_plus(old(self).word_pos, 2),
    {
        let lo = self.next_u32();
        let hi = self.next_u32();
        ((hi as u64) << 32u64) | (lo as u64)
    }
}

/// Advancing the cursor by `a` and then by `b` is advancing it by `a + b`.
pub proof fn lemma_pos_plus_assoc(p: u128, a: int, b: int)
    requires
        0 <= a,
        0 <= b,
        a + b <= u128::MAX,
    ensures
        pos_plus(pos_plus(p, a), b) == pos_plus(p, a + b),
{
    let m = u128::MAX as int + 1;
    vstd::arithmetic::div_mod::lemma_add_mod_noop(p + a, b, m);
    vstd::arithmetic::div_mod::lemma_small_mod(b as nat, m as nat);
    vstd::arithmetic::div_mod::lemma_mod_bound(p + a, m);
    vstd::arithmetic::div_mod::lemma_mod_bound(p + a + b, m);
}

/// Law: save/restore is exact. Restoring a saved generator yields the very
/// same (seed, cursor) state, so the next value it draws is the next value
/// the original would have drawn.
pub proof fn lemma_rng_round_trip(r: SerializableChaCha20)
    ensures
        spec_deserialize(spec_serialize(r).0, spec_serialize(r).1) == r,
        chacha_word(spec_deserialize(spec_serialize(r).0, spec_serialize(r).1).seed@, spec_deserialize(
            spec_serialize(r).0,
            spec_serialize(r).1,
        ).word_pos) == chacha_word(r.seed@, r.word_pos),
{
}

} // verus!
