use rand::{RngCore, SeedableRng};
use snake_engine::serializable_chacha::SerializableChaCha20;

#[test]
fn matches_reference_stream_from_seed() {
    let seed = [11u8; 32];
    let mut ours = SerializableChaCha20::from_seed(seed);
    let mut reference = rand_chacha::ChaCha20Rng::from_seed(seed);
    for _ in 0..40 {
        assert_eq!(ours.next_u32(), reference.next_u32());
    }
}

#[test]
fn matches_reference_after_cursor_restore() {
    let seed = [3u8; 32];
    let ours = SerializableChaCha20::deserialize(seed, 77);
    let mut ours = ours;
    let mut reference = rand_chacha::ChaCha20Rng::from_seed(seed);
    reference.set_word_pos(77);
    for _ in 0..10 {
        assert_eq!(ours.next_u32(), reference.next_u32());
    }
}

#[test]
fn matches_reference_seed_expansion() {
    let ours = SerializableChaCha20::seed_from_u64(0xdeadbeefdeadbeef);
    let reference = rand_chacha::ChaCha20Rng::seed_from_u64(0xdeadbeefdeadbeef);
    assert_eq!(ours.seed, reference.get_seed());
    let mut ours = ours;
    let mut reference = reference;
    for _ in 0..8 {
        assert_eq!(ours.next_u32(), reference.next_u32());
    }
}

#[test]
fn matches_reference_next_u64() {
    let seed = [9u8; 32];
    let mut ours = SerializableChaCha20::from_seed(seed);
    let mut reference = rand_chacha::ChaCha20Rng::from_seed(seed);
    for _ in 0..8 {
        assert_eq!(ours.next_u64(), reference.next_u64());
    }
}

#[test]
fn round_trip_preserves_future_draws() {
    // Draw a few values, save, restore, and compare the next draws with a
    // twin that was never saved.
    let mut original = SerializableChaCha20::seed_from_u64(42);
    for _ in 0..5 {
        original.next_u32();
    }
    let (seed, cursor) = original.serialize();
    let mut restored = SerializableChaCha20::deserialize(seed, cursor);
    assert_eq!(restored, original);
    for _ in 0..10 {
        assert_eq!(restored.next_u32(), original.next_u32());
    }
}

#[test]
fn arbitrary_cursor_values_are_accepted() {
    // The counter construction accepts any cursor, even one no draw
    // sequence produced; it simply cycles.
    let seed = [5u8; 32];
    let huge: u128 = 1u128 << 100;
    let mut ours = SerializableChaCha20::deserialize(seed, huge);
    let mut reference = rand_chacha::ChaCha20Rng::from_seed(seed);
    reference.set_word_pos(huge);
    for _ in 0..4 {
        assert_eq!(ours.next_u32(), reference.next_u32());
    }
}

#[test]
fn cursor_counts_draws() {
    let mut r = SerializableChaCha20::from_seed([0u8; 32]);
    assert_eq!(r.word_pos, 0);
    r.next_u32();
    assert_eq!(r.word_pos, 1);
    r.next_u64();
    assert_eq!(r.word_pos, 3);
}
