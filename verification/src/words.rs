//! Reading little-endian machine words out of a byte slice.
//!
//! The accumulator consumes its input in chunks of one, two, four or eight
//! bytes; each chunk is reinterpreted as an unsigned integer with the least
//! significant byte first before it is mixed into the hash state.

use vstd::prelude::*;

verus! {

/// The unsigned integer value of a byte sequence, least significant byte
/// first.
pub open spec fn le_value(s: Seq<u8>) -> int
    decreases s.len(),
{
    if s.len() == 0 {
        0
    } else {
        s[0] + 256 * le_value(s.skip(1))
    }
}

/// 256 raised to the `n`th power: the number of distinct values of an
/// `n`-byte sequence, and so a strict upper bound for `le_value`.
pub open spec fn pow256(n: nat) -> int
    decreases n,
{
    if n == 0 {
        1
    } else {
        256 * pow256((n - 1) as nat)
    }
}

pub proof fn lemma_pow256_pos(n: nat)
    ensures
        1 <= pow256(n),
    decreases n,
{
    if n > 0 {
        lemma_pow256_pos((n - 1) as nat);
    }
}

pub proof fn lemma_pow256_monotone(a: nat, b: nat)
    requires
        a <= b,
    ensures
        pow256(a) <= pow256(b),
    decreases b,
{
    if a < b {
        lemma_pow256_monotone(a, (b - 1) as nat);
        lemma_pow256_pos((b - 1) as nat);
    }
}

/// Reads the `n` bytes starting at `pos` as a little-endian unsigned
/// integer, widened to 64 bits.
pub fn load_le(bytes: &[u8], pos: usize, n: usize) -> (r: u64)
    requires
        n <= 8,
        pos + n <= bytes@.len(),
    ensures
        r == le_value(bytes@.subrange(pos as int, pos + n)),
{
    let total = bytes.len();
    let mut r: u64 = 0;
    let mut i: usize = n;
    proof {
        assert(bytes@.subrange(pos + n, pos + n).len() == 0);
    }
    while i > 0
        invariant
            i <= n,
            n <= 8,
            pos + n <= total,
            total == bytes@.len(),
            r == le_value(bytes@.subrange(pos + i, pos + n)),
            r < pow256((n - i) as nat),
        decreases i,
    {
        i = i - 1;
        proof {
            let s = bytes@.subrange(pos + i, pos + n);
            assert(s.skip(1) =~= bytes@.subrange(pos + i + 1, pos + n));
            lemma_pow256_monotone((n - i - 1) as nat, 7);
            reveal_with_fuel(pow256, 9);
            assert(pow256(8) == 0x1_0000_0000_0000_0000);
            assert(pow256((n - i) as nat) == 256 * pow256((n - i - 1) as nat));
        }
        r = (bytes[pos + i] as u64) + 256 * r;
    }
    r
}

} // verus!
