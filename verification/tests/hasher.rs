use rustc_hash::FxHasher;

const K: u64 = 0x517cc1b727220a95;

/// Hashes a byte slice in one call from a fresh accumulator.
fn fx(bytes: &[u8]) -> u64 {
    let mut hasher = FxHasher::default();
    hasher.write(bytes);
    hasher.finish()
}

/// An independent computation of the same algorithm, written directly over
/// the standard integer primitives: peel eight-byte words, then at most one
/// four-byte, one two-byte and one single-byte chunk, reading each little
/// endian, and mix each with rotate, xor and a wrapping multiply by K.
fn reference_hash(data: &[u8]) -> u64 {
    fn mix(state: u64, value: u64) -> u64 {
        (state.rotate_left(5) ^ value).wrapping_mul(K)
    }
    let mut state = 0u64;
    let mut rest = data;
    while rest.len() >= 8 {
        let (chunk, tail) = rest.split_at(8);
        state = mix(state, u64::from_le_bytes(chunk.try_into().unwrap()));
        rest = tail;
    }
    if rest.len() >= 4 {
        let (chunk, tail) = rest.split_at(4);
        state = mix(state, u32::from_le_bytes(chunk.try_into().unwrap()) as u64);
        rest = tail;
    }
    if rest.len() >= 2 {
        let (chunk, tail) = rest.split_at(2);
        state = mix(state, u16::from_le_bytes(chunk.try_into().unwrap()) as u64);
        rest = tail;
    }
    if rest.len() >= 1 {
        state = mix(state, rest[0] as u64);
    }
    state
}

/// A sample input: `len` bytes with a simple non-constant pattern.
fn sample(len: usize) -> Vec<u8> {
    (0..len).map(|i| (i as u8).wrapping_mul(31).wrapping_add(7)).collect()
}

#[test]
fn determinism_same_input_same_hash() {
    for len in [0usize, 1, 3, 8, 17, 100] {
        let data = sample(len);
        assert_eq!(fx(&data), fx(&data));
    }
}

#[test]
fn empty_input_hashes_to_zero() {
    assert_eq!(FxHasher::default().finish(), 0);
    assert_eq!(fx(&[]), 0);
}

#[test]
fn write_empty_slice_leaves_state_unchanged() {
    let mut hasher = FxHasher::default();
    hasher.write(b"some bytes");
    let before = hasher.finish();
    hasher.write(&[]);
    assert_eq!(hasher.finish(), before);
}

#[test]
fn chunk_composition_word_aligned_split() {
    let data = sample(24);
    let whole = fx(&data);
    for split in [0usize, 8, 16, 24] {
        let mut hasher = FxHasher::default();
        hasher.write(&data[..split]);
        hasher.write(&data[split..]);
        assert_eq!(hasher.finish(), whole);
    }
}

#[test]
fn chunk_composition_tail_boundaries() {
    // 13 bytes peel as 8 + 4 + 1: splitting at 8 or at 12 falls on chunk
    // boundaries the one-call peeling chooses anyway.
    let data = sample(13);
    let whole = fx(&data);
    for split in [8usize, 12] {
        let mut hasher = FxHasher::default();
        hasher.write(&data[..split]);
        hasher.write(&data[split..]);
        assert_eq!(hasher.finish(), whole);
    }
}

#[test]
fn chunk_composition_many_word_sized_calls() {
    let data = sample(1000);
    let whole = fx(&data);
    let mut hasher = FxHasher::default();
    for chunk in data.chunks(8) {
        hasher.write(chunk);
    }
    assert_eq!(hasher.finish(), whole);
}

#[test]
fn sensitivity_corpus_has_no_collisions() {
    let lengths = [0usize, 1, 2, 3, 4, 7, 8, 9, 16, 17, 1000];
    let hashes: Vec<u64> = lengths.iter().map(|&len| fx(&sample(len))).collect();
    for i in 0..hashes.len() {
        for j in (i + 1)..hashes.len() {
            assert_ne!(hashes[i], hashes[j], "lengths {} and {}", lengths[i], lengths[j]);
        }
    }
}

#[test]
fn word_width_boundary_lengths() {
    let seven: Vec<u8> = (1u8..=7).collect();
    let eight: Vec<u8> = (1u8..=8).collect();
    let nine: Vec<u8> = (1u8..=9).collect();
    assert_eq!(fx(&seven), reference_hash(&seven));
    assert_eq!(fx(&eight), reference_hash(&eight));
    assert_eq!(fx(&nine), reference_hash(&nine));
    assert_eq!(fx(&seven), 0xb72b4fe2838adfe1);
    assert_eq!(fx(&eight), 0xeebee07edef63495);
    assert_eq!(fx(&nine), 0xcd943b1153366ac4);
}

#[test]
fn eight_byte_regression_fixture() {
    let data = 0x0102030405060708u64.to_le_bytes();
    // One eight-byte chunk from state zero: rotate_left(0, 5) xor the word,
    // then one wrapping multiplication by K.
    assert_eq!(fx(&data), 0x0102030405060708u64.wrapping_mul(K));
    assert_eq!(fx(&data), 0xc0128e204fd867a8);
}

#[test]
fn add_to_hash_single_mixing_step() {
    let mut hasher = FxHasher::default();
    hasher.add_to_hash(0xdead_beef);
    assert_eq!(hasher.finish(), 0xdead_beefu64.wrapping_mul(K));
    let mut other = FxHasher::default();
    other.add_to_hash(0xdead_beef);
    other.add_to_hash(1);
    let expected = (hasher.finish().rotate_left(5) ^ 1).wrapping_mul(K);
    assert_eq!(other.finish(), expected);
}

#[test]
fn finalize_is_idempotent() {
    let mut hasher = FxHasher::default();
    hasher.write(b"idempotent");
    assert_eq!(hasher.finish(), hasher.finish());
    hasher.write(b"more");
    assert_eq!(hasher.finish(), hasher.finish());
}

#[test]
fn mixing_after_finalize_keeps_going() {
    let mut split = FxHasher::default();
    split.write(b"abcdefgh");
    let _ = split.finish();
    split.write(b"ijklmnop");
    let mut oneshot = FxHasher::default();
    oneshot.write(b"abcdefghijklmnop");
    assert_eq!(split.finish(), oneshot.finish());
}

#[test]
fn copies_evolve_independently() {
    let mut a = FxHasher::default();
    a.write(b"prefix__");
    let mut b = a;
    a.write(b"one_tail");
    b.write(b"another_");
    assert_eq!(a.finish(), fx(b"prefix__one_tail"));
    assert_eq!(b.finish(), fx(b"prefix__another_"));
}
