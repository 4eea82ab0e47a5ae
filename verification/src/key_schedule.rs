//! DES-style key scheduling: normalize an arbitrary-length byte sequence to
//! an 8-byte key, pack it big-endian into 64 bits, and apply the fixed PC-1
//! bit-selection table to obtain 56 bits of derived key material.

use vstd::prelude::*;

verus! {

/// PC-1 permutation table: for each output bit slot (most-significant
/// first), the one-indexed source bit position within the 64-bit key
/// (position 1 is the most-significant bit). Parity-bit positions
/// (multiples of 8) never occur.
pub const PC1: [u8; 56] = [
    57, 49, 41, 33, 25, 17,  9,  1,
    58, 50, 42, 34, 26, 18, 10,  2,
    59, 51, 43, 35, 27, 19, 11,  3,
    60, 52, 44, 36, 63, 55, 47, 39,
    31, 23, 15,  7, 62, 54, 46, 38,
    30, 22, 14,  6, 61, 53, 45, 37,
    29, 21, 13,  5, 28, 20, 12,  4,
];

/// The 8-byte key a raw input normalizes to: truncated to its first 8
/// bytes when longer, zero-padded on the right when shorter.
pub open spec fn normalize_key(b: Seq<u8>) -> Seq<u8> {
    if b.len() >= 8 {
        b.take(8)
    } else {
        b + Seq::new((8 - b.len()) as nat, |i: int| 0u8)
    }
}

/// The first `n` bytes of an 8-byte key packed big-endian: byte `i`
/// occupies bits `63 - 8*i` down to `56 - 8*i`.
pub open spec fn pack_prefix(k: Seq<u8>, n: int) -> u64
    recommends
        0 <= n <= 8,
        k.len() == 8,
    decreases n,
{
    if n <= 0 {
        0u64
    } else {
        pack_prefix(k, n - 1) | ((k[n - 1] as u64) << ((56 - 8 * (n - 1)) as u64))
    }
}

/// An 8-byte key packed big-endian into a 64-bit value.
pub open spec fn pack64(k: Seq<u8>) -> u64
    recommends
        k.len() == 8,
{
    pack_prefix(k, 8)
}

/// The bit of `key` at one-indexed position `pos` (position 1 is the
/// most-significant bit).
pub open spec fn key_bit(key: u64, pos: u8) -> u64 {
    (key >> ((64 - pos) as u64)) & 1
}

/// The first `n` output bits of the PC-1 permutation, placed
/// most-significant-first into bit slots 55 down to `56 - n`.
pub open spec fn pc1_prefix(key: u64, n: int) -> u64
    recommends
        0 <= n <= 56,
    decreases n,
{
    if n <= 0 {
        0u64
    } else {
        pc1_prefix(key, n - 1) | (key_bit(key, PC1[n - 1]) << ((55 - (n - 1)) as u64))
    }
}

/// The full 56-bit PC-1 permutation of a 64-bit key.
pub open spec fn pc1_permute(key: u64) -> u64 {
    pc1_prefix(key, 56)
}

/// Derived key material for an arbitrary-length raw key: normalize,
/// pack big-endian, permute through PC-1.
pub open spec fn derive_key_material(b: Seq<u8>) -> u64 {
    pc1_permute(pack64(normalize_key(b)))
}

/// Every PC-1 entry selects a real bit position: between 1 and 63.
pub proof fn lemma_pc1_entry_range(i: int)
    requires
        0 <= i < 56,
    ensures
        1 <= PC1[i] <= 63,
{
}

/// Key generator holding a raw input key together with the 56-bit key
/// material derived from it.
pub struct DesKeyGenerator {
    /// Raw input key, kept as supplied.
    pub raw_key: Vec<u8>,
    /// Derived 56-bit key material (top 8 bits zero).
    pub k_plus: u64,
}

impl DesKeyGenerator {
    /// Derive key material from a raw key of any length. Total: the
    /// normalization rule absorbs every input length.
    pub fn new(input: &[u8]) -> (r: DesKeyGenerator)
        ensures
            r.raw_key@ == input@,
            r.k_plus == derive_key_material(input@),
    {
        let processed_key = Self::process_key(input);
        DesKeyGenerator { raw_key: vstd::slice::slice_to_vec(input), k_plus: processed_key }
    }

    /// Normalize the raw key to 8 bytes (pad short inputs with zero
    /// bytes, truncate long ones) and run the PC-1 stage.
    pub fn process_key(key_bytes: &[u8]) -> (r: u64)
        ensures
            r == derive_key_material(key_bytes@),
    {
        let n = key_bytes.len();
        if n == 8 {
            proof {
                assert(normalize_key(key_bytes@) =~= key_bytes@);
            }
            Self::process_standard_key(key_bytes)
        } else if n < 8 {
            let mut padded_key: Vec<u8> = Vec::new();
            let mut i: usize = 0;
            while i < n
                invariant
                    i <= n,
                    n == key_bytes@.len() < 8,
                    padded_key@ == key_bytes@.take(i as int),
                decreases n - i,
            {
                padded_key.push(key_bytes[i]);
                proof {
                    assert(padded_key@ =~= key_bytes@.take(i + 1));
                }
                i += 1;
            }
            while i < 8
                invariant
                    n == key_bytes@.len() < 8,
                    n <= i <= 8,
                    padded_key@.len() == i,
                    padded_key@.take(n as int) == key_bytes@,
                    forall|j: int| n <= j < i ==> padded_key@[j] == 0u8,
                decreases 8 - i,
            {
                padded_key.push(0u8);
                i += 1;
            }
            proof {
                assert(padded_key@ =~= normalize_key(key_bytes@));
            }
            Self::process_standard_key(padded_key.as_slice())
        } else {
            let truncated_key: Vec<u8> = prefix_to_vec(key_bytes, 8);
            proof {
                assert(truncated_key@ =~= normalize_key(key_bytes@));
            }
            Self::process_standard_key(truncated_key.as_slice())
        }
    }

    /// PC-1 stage on an exactly 8-byte key: pack big-endian into 64
    /// bits, then select the 56 table-designated bits.
    pub fn process_standard_key(key_bytes: &[u8]) -> (r: u64)
        requires
            key_bytes@.len() == 8,
        ensures
            r == pc1_permute(pack64(key_bytes@)),
    {
        let mut key_64bit: u64 = 0;
        let mut i: usize = 0;
        while i < 8
            invariant
                i <= 8,
                key_bytes@.len() == 8,
                key_64bit == pack_prefix(key_bytes@, i as int),
            decreases 8 - i,
        {
            let shift: u64 = (56 - 8 * i) as u64;
            key_64bit = key_64bit | ((key_bytes[i] as u64) << shift);
            i += 1;
        }

        let mut k_plus: u64 = 0;
        let mut j: usize = 0;
        while j < 56
            invariant
                j <= 56,
                k_plus == pc1_prefix(key_64bit, j as int),
            decreases 56 - j,
        {
            let pos: u8 = PC1[j];
            proof {
                lemma_pc1_entry_range(j as int);
            }
            let bit: u64 = (key_64bit >> ((64 - pos) as u64)) & 1;
            k_plus = k_plus | (bit << ((55 - j) as u64));
            j += 1;
        }
        k_plus
    }
}

/// Copy the first `n` bytes of a slice into a vector.
pub fn prefix_to_vec(s: &[u8], n: usize) -> (v: Vec<u8>)
    requires
        n <= s@.len(),
    ensures
        v@ == s@.take(n as int),
{
    let mut v: Vec<u8> = Vec::new();
    let mut i: usize = 0;
    while i < n
        invariant
            i <= n <= s@.len(),
            v@ == s@.take(i as int),
        decreases n - i,
    {
        v.push(s[i]);
        proof {
            assert(v@ =~= s@.take(i + 1));
        }
        i += 1;
    }
    v
}

/// Derived key material always fits in 56 bits: the top 8 bits of the
/// containing 64-bit value are zero.
pub proof fn lemma_key_material_fits_56_bits(b: Seq<u8>)
    ensures
        derive_key_material(b) < 0x100000000000000u64,
{
    lemma_pc1_prefix_bound(pack64(normalize_key(b)), 56);
}

proof fn lemma_pc1_prefix_bound(key: u64, n: int)
    requires
        0 <= n <= 56,
    ensures
        pc1_prefix(key, n) < 0x100000000000000u64,
    decreases n,
{
    if n > 0 {
        lemma_pc1_prefix_bound(key, n - 1);
        lemma_pc1_entry_range(n - 1);
        let prev = pc1_prefix(key, n - 1);
        let pos = PC1[n - 1];
        let bit = key_bit(key, pos);
        let s64 = (64 - pos) as u64;
        let sh = (55 - (n - 1)) as u64;
        assert((key >> s64) & 1 <= 1) by (bit_vector);
        assert(prev < 0x100000000000000u64 && bit <= 1 && sh <= 55 ==> (prev | (bit << sh))
            < 0x100000000000000u64) by (bit_vector);
    }
}

/// A short raw key (at most 8 bytes) derives the same key material as
/// that key zero-padded on the right to exactly 8 bytes.
pub proof fn lemma_derive_short_equals_padded(b: Seq<u8>)
    requires
        b.len() <= 8,
    ensures
        derive_key_material(b) == derive_key_material(
            b + Seq::new((8 - b.len()) as nat, |i: int| 0u8),
        ),
{
    let padded = b + Seq::new((8 - b.len()) as nat, |i: int| 0u8);
    assert(normalize_key(padded) =~= normalize_key(b));
}

/// A long raw key (more than 8 bytes) derives the same key material as
/// its first 8 bytes alone.
pub proof fn lemma_derive_long_equals_truncated(b: Seq<u8>)
    requires
        b.len() > 8,
    ensures
        derive_key_material(b) == derive_key_material(b.take(8)),
{
    assert(normalize_key(b.take(8)) =~= normalize_key(b));
}

} // verus!
