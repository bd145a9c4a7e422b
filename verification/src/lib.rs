//! A fast, non-cryptographic hash accumulator for hash tables whose keys are
//! not adversarial, such as a compiler's internal data structures.
//!
//! The whole state is one 64-bit word. Each chunk of input is folded in with
//! a rotate, an exclusive or, and a wrapping multiplication by a large odd
//! constant; a byte slice is consumed in decreasing power-of-two chunk
//! widths, so an `n`-byte input costs about `n / 8` mixing steps rather than
//! one per byte. Chunks are read least significant byte first.

use vstd::prelude::*;

mod words;

verus! {

use crate::words::le_value;
use crate::words::load_le;

/// The 64-bit mixing constant: a large odd number that spreads the bits of
/// each mixed word across the whole state in a single multiplication.
pub const K: u64 = 0x517cc1b727220a95;

/// `x` rotated left by five bit positions.
pub open spec fn rotate_left5(x: u64) -> u64 {
    (x << 5) | (x >> 59)
}

/// One mixing step: the state is rotated, combined with the incoming word by
/// exclusive or, and multiplied by [`K`] with wraparound.
pub open spec fn mix(state: u64, value: u64) -> u64 {
    vstd::wrapping::u64_specs::wrapping_mul(rotate_left5(state) ^ value, K)
}

/// The state after consuming `bytes` from `state`: the largest available
/// power-of-two prefix is peeled off first — eight-byte words while they
/// last, then at most one four-byte, one two-byte and one single-byte chunk
/// — and each chunk is read least significant byte first, widened to 64
/// bits, and mixed in.
pub open spec fn consume(state: u64, bytes: Seq<u8>) -> u64
    decreases bytes.len(),
{
    if bytes.len() >= 8 {
        consume(mix(state, le_value(bytes.take(8)) as u64), bytes.skip(8))
    } else if bytes.len() >= 4 {
        consume(mix(state, le_value(bytes.take(4)) as u64), bytes.skip(4))
    } else if bytes.len() >= 2 {
        consume(mix(state, le_value(bytes.take(2)) as u64), bytes.skip(2))
    } else if bytes.len() >= 1 {
        mix(state, bytes[0] as u64)
    } else {
        state
    }
}

/// A speedy hash accumulator. The state is a single 64-bit word, so an
/// accumulator is cheap to create and to copy, and two copies evolve
/// independently. Hashing the same bytes from the same starting state always
/// yields the same value.
#[derive(Copy, Clone)]
pub struct FxHasher {
    hash: u64,
}

impl View for FxHasher {
    type V = u64;

    closed spec fn view(&self) -> u64 {
        self.hash
    }
}

impl Default for FxHasher {
    /// A fresh accumulator whose state is zero.
    fn default() -> (result: FxHasher)
        ensures
            result@ == 0,
    {
        FxHasher { hash: 0 }
    }
}

impl FxHasher {
    /// Mixes one 64-bit word into the state.
    pub fn add_to_hash(&mut self, i: u64)
        ensures
            final(self)@ == mix(old(self)@, i),
    {
        let rotated = (self.hash << 5) | (self.hash >> 59);
        self.hash = (rotated ^ i).wrapping_mul(K);
    }

    /// Consumes a byte slice of any length, peeling off the largest
    /// available power-of-two chunk at each step and mixing it in.
    pub fn write(&mut self, bytes: &[u8])
        ensures
            final(self)@ == consume(old(self)@, bytes@),
    {
        let mut hash = *self;
        let ghost start: u64 = hash@;
        let len = bytes.len();
        let mut pos: usize = 0;
        proof {
            assert(bytes@.skip(0) =~= bytes@);
        }
        while len - pos >= 8
            invariant
                pos <= len,
                len == bytes@.len(),
                consume(start, bytes@) == consume(hash@, bytes@.skip(pos as int)),
            decreases len - pos,
        {
            let word = load_le(bytes, pos, 8);
            proof {
                lemma_consume_chunk(hash@, bytes@, pos as int, 8);
            }
            hash.add_to_hash(word);
            pos = pos + 8;
        }
        if len - pos >= 4 {
            let word = load_le(bytes, pos, 4);
            proof {
                lemma_consume_chunk(hash@, bytes@, pos as int, 4);
            }
            hash.add_to_hash(word);
            pos = pos + 4;
        }
        if len - pos >= 2 {
            let word = load_le(bytes, pos, 2);
            proof {
                lemma_consume_chunk(hash@, bytes@, pos as int, 2);
            }
            hash.add_to_hash(word);
            pos = pos + 2;
        }
        if len - pos >= 1 {
            proof {
                assert(bytes@.skip(pos as int).len() == 1);
                assert(bytes@.skip(pos as int)[0] == bytes@[pos as int]);
            }
            hash.add_to_hash(bytes[pos] as u64);
        }
        *self = hash;
    }

    /// The current state as a 64-bit hash value. Reading the state does not
    /// disturb it: the result depends on the state alone, so repeated calls
    /// with no mixing in between return the same value, and further mixing
    /// afterwards is permitted.
    pub fn finish(&self) -> (result: u64)
        ensures
            result == self@,
    {
        self.hash
    }
}

/// Peeling one chunk off the front of the unconsumed suffix: while at least
/// `width` bytes remain, and `width` is the chunk size the peeling strategy
/// picks there, consuming the suffix equals mixing that chunk and consuming
/// the rest.
proof fn lemma_consume_chunk(state: u64, bytes: Seq<u8>, pos: int, width: int)
    requires
        0 <= pos,
        pos + width <= bytes.len(),
        width == 8 || (width == 4 && bytes.len() - pos < 8) || (width == 2 && bytes.len() - pos
            < 4),
    ensures
        consume(state, bytes.skip(pos)) == consume(
            mix(state, le_value(bytes.subrange(pos, pos + width)) as u64),
            bytes.skip(pos + width),
        ),
{
    assert(bytes.skip(pos).take(width) =~= bytes.subrange(pos, pos + width));
    assert(bytes.skip(pos).skip(width) =~= bytes.skip(pos + width));
}

/// Determinism: consuming equal byte sequences from equal starting states
/// always yields equal states, so hashing the same input twice gives the
/// same 64-bit value.
pub proof fn lemma_deterministic(state1: u64, bytes1: Seq<u8>, state2: u64, bytes2: Seq<u8>)
    requires
        state1 == state2,
        bytes1 == bytes2,
    ensures
        consume(state1, bytes1) == consume(state2, bytes2),
{
}

/// Empty input: consuming no bytes performs no mixing step, so a fresh
/// accumulator that has seen the empty sequence still reads zero.
pub proof fn lemma_empty_input()
    ensures
        consume(0, Seq::<u8>::empty()) == 0,
{
}

/// Whether a split point `pos` falls on a boundary that the decreasing
/// power-of-two peeling of a `len`-byte input would have chosen anyway: a
/// multiple of eight within the word-sized chunks, or the edge of one of the
/// narrower tail chunks.
pub open spec fn split_aligned(pos: int, len: int) -> bool
    decreases len,
{
    if pos == 0 || pos == len {
        true
    } else if len >= 8 {
        pos >= 8 && split_aligned(pos - 8, len - 8)
    } else if len >= 4 {
        pos >= 4 && split_aligned(pos - 4, len - 4)
    } else if len >= 2 {
        pos >= 2 && split_aligned(pos - 2, len - 2)
    } else {
        false
    }
}

/// Chunk-composition equivalence: consuming `first` and then `second` equals
/// consuming their concatenation in one go, as long as the split point falls
/// on a chunk boundary the peeling strategy would have chosen for the whole
/// input.
pub proof fn lemma_chunk_composition(state: u64, first: Seq<u8>, second: Seq<u8>)
    requires
        split_aligned(first.len() as int, (first.len() + second.len()) as int),
    ensures
        consume(state, first + second) == consume(consume(state, first), second),
    decreases first.len(),
{
    let whole = first + second;
    if first.len() == 0 {
        assert(whole =~= second);
    } else if second.len() == 0 {
        assert(whole =~= first);
    } else if whole.len() >= 8 {
        assert(first.len() >= 8);
        assert(whole.take(8) =~= first.take(8));
        assert(whole.skip(8) =~= first.skip(8) + second);
        lemma_chunk_composition(mix(state, le_value(first.take(8)) as u64), first.skip(8), second);
    } else if whole.len() >= 4 {
        assert(first.len() >= 4);
        assert(whole.take(4) =~= first.take(4));
        assert(whole.skip(4) =~= first.skip(4) + second);
        lemma_chunk_composition(mix(state, le_value(first.take(4)) as u64), first.skip(4), second);
    } else {
        assert(whole.len() >= 2);
        assert(first.len() >= 2);
        assert(whole.take(2) =~= first.take(2));
        assert(whole.skip(2) =~= first.skip(2) + second);
        lemma_chunk_composition(mix(state, le_value(first.take(2)) as u64), first.skip(2), second);
    }
}

/// The concatenation of a sequence of byte sequences, in order.
pub open spec fn concat_all(parts: Seq<Seq<u8>>) -> Seq<u8>
    decreases parts.len(),
{
    if parts.len() == 0 {
        Seq::empty()
    } else {
        parts[0] + concat_all(parts.skip(1))
    }
}

/// The state after consuming each part in order, one call per part.
pub open spec fn consume_each(state: u64, parts: Seq<Seq<u8>>) -> u64
    decreases parts.len(),
{
    if parts.len() == 0 {
        state
    } else {
        consume_each(consume(state, parts[0]), parts.skip(1))
    }
}

/// Whether every call boundary falls on a chunk boundary that the peeling of
/// the input still to come would choose anyway.
pub open spec fn all_splits_aligned(parts: Seq<Seq<u8>>) -> bool {
    forall|i: int|
        0 <= i < parts.len() ==> #[trigger] split_aligned(
            parts[i].len() as int,
            concat_all(parts.skip(i)).len() as int,
        )
}

/// Chunk-composition equivalence for any number of calls: consuming the
/// parts one call at a time yields the same state as consuming their
/// concatenation in one call, as long as each call ends on a chunk boundary
/// the peeling strategy would have chosen for the input remaining there.
pub proof fn lemma_chunk_composition_many(state: u64, parts: Seq<Seq<u8>>)
    requires
        all_splits_aligned(parts),
    ensures
        consume_each(state, parts) == consume(state, concat_all(parts)),
    decreases parts.len(),
{
    if parts.len() > 0 {
        let rest = parts.skip(1);
        assert(parts.skip(0) =~= parts);
        assert(split_aligned(parts[0].len() as int, concat_all(parts).len() as int));
        lemma_chunk_composition(state, parts[0], concat_all(rest));
        assert forall|i: int| 0 <= i < rest.len() implies #[trigger] split_aligned(
            rest[i].len() as int,
            concat_all(rest.skip(i)).len() as int,
        ) by {
            assert(rest.skip(i) =~= parts.skip(i + 1));
            assert(split_aligned(
                parts[i + 1].len() as int,
                concat_all(parts.skip(i + 1)).len() as int,
            ));
        }
        lemma_chunk_composition_many(consume(state, parts[0]), rest);
    }
}

} // verus!
