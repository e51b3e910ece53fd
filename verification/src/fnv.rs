//! FNV-1a (64-bit) hashing of byte sequences and of the little-endian
//! encodings of fixed-width integers.
use vstd::prelude::*;

verus! {

/// FNV-1a 64-bit offset basis.
pub const FNV64_OFFSET: u64 = 0xcbf29ce484222325;

/// FNV-1a 64-bit prime.
pub const FNV64_PRIME: u64 = 0x100000001b3;

/// One FNV-1a round: xor the byte in, then multiply by the prime modulo 2^64.
pub open spec fn fnv_round(hash: u64, byte: u8) -> u64 {
    (((hash ^ (byte as u64)) as nat * FNV64_PRIME as nat) % 0x1_0000_0000_0000_0000nat) as u64
}

/// FNV-1a folded over `bytes`, starting from the state `hash`.
pub open spec fn fnv(hash: u64, bytes: Seq<u8>) -> u64
    decreases bytes.len(),
{
    if bytes.len() == 0 {
        hash
    } else {
        fnv_round(fnv(hash, bytes.drop_last()), bytes.last())
    }
}

/// The little-endian encoding of a `u32`.
pub open spec fn le_bytes_u32(value: u32) -> Seq<u8> {
    seq![
        (value & 0xff) as u8,
        ((value >> 8u32) & 0xff) as u8,
        ((value >> 16u32) & 0xff) as u8,
        ((value >> 24u32) & 0xff) as u8,
    ]
}

/// The little-endian encoding of a `u64`.
pub open spec fn le_bytes_u64(value: u64) -> Seq<u8> {
    seq![
        (value & 0xff) as u8,
        ((value >> 8u64) & 0xff) as u8,
        ((value >> 16u64) & 0xff) as u8,
        ((value >> 24u64) & 0xff) as u8,
        ((value >> 32u64) & 0xff) as u8,
        ((value >> 40u64) & 0xff) as u8,
        ((value >> 48u64) & 0xff) as u8,
        ((value >> 56u64) & 0xff) as u8,
    ]
}

/// Hashing a concatenation is hashing the first part, then continuing with
/// the second part from the intermediate state.
pub proof fn lemma_fnv_concat(hash: u64, first: Seq<u8>, second: Seq<u8>)
    ensures
        fnv(fnv(hash, first), second) == fnv(hash, first + second),
    decreases second.len(),
{
    if second.len() == 0 {
        assert(first + second =~= first);
    } else {
        lemma_fnv_concat(hash, first, second.drop_last());
        assert((first + second).drop_last() =~= first + second.drop_last());
        assert((first + second).last() == second.last());
    }
}

/// Hashing a single byte is one FNV-1a round.
pub proof fn lemma_fnv_single(hash: u64, byte: u8)
    ensures
        fnv(hash, seq![byte]) == fnv_round(hash, byte),
{
    assert(seq![byte].drop_last() =~= Seq::<u8>::empty());
    assert(fnv(hash, Seq::<u8>::empty()) == hash);
}

/// Appending one byte to the input adds one FNV-1a round.
pub proof fn lemma_fnv_push(hash: u64, bytes: Seq<u8>, byte: u8)
    ensures
        fnv(hash, bytes.push(byte)) == fnv_round(fnv(hash, bytes), byte),
{
    assert(bytes.push(byte).drop_last() =~= bytes);
}

/// Feeds one byte into an FNV-1a state.
pub fn hash_u8(hash: u64, value: u8) -> (res: u64)
    ensures
        res == fnv(hash, seq![value]),
{
    proof {
        lemma_fnv_single(hash, value);
    }
    (hash ^ (value as u64)).wrapping_mul(FNV64_PRIME)
}

/// Feeds a byte slice into an FNV-1a state.
pub fn hash_bytes(hash: u64, bytes: &[u8]) -> (res: u64)
    ensures
        res == fnv(hash, bytes@),
{
    let mut state = hash;
    let mut i: usize = 0;
    while i < bytes.len()
        invariant
            i <= bytes@.len(),
            state == fnv(hash, bytes@.subrange(0, i as int)),
        decreases bytes@.len() - i,
    {
        proof {
            lemma_fnv_concat(hash, bytes@.subrange(0, i as int), seq![bytes@[i as int]]);
            assert(bytes@.subrange(0, i as int) + seq![bytes@[i as int]] =~= bytes@.subrange(
                0,
                i + 1,
            ));
        }
        state = hash_u8(state, bytes[i]);
        i = i + 1;
    }
    assert(bytes@.subrange(0, bytes@.len() as int) =~= bytes@);
    state
}

/// Feeds the little-endian encoding of a `u32` into an FNV-1a state.
pub fn hash_u32(hash: u64, value: u32) -> (res: u64)
    ensures
        res == fnv(hash, le_bytes_u32(value)),
{
    let b0 = (value & 0xff) as u8;
    let b1 = ((value >> 8u32) & 0xff) as u8;
    let b2 = ((value >> 16u32) & 0xff) as u8;
    let b3 = ((value >> 24u32) & 0xff) as u8;
    let h1 = hash_u8(hash, b0);
    let h2 = hash_u8(h1, b1);
    let h3 = hash_u8(h2, b2);
    let h4 = hash_u8(h3, b3);
    proof {
        let s0 = Seq::<u8>::empty();
        lemma_fnv_single(hash, b0);
        lemma_fnv_single(h1, b1);
        lemma_fnv_single(h2, b2);
        lemma_fnv_single(h3, b3);
        lemma_fnv_push(hash, s0, b0);
        lemma_fnv_push(hash, s0.push(b0), b1);
        lemma_fnv_push(hash, s0.push(b0).push(b1), b2);
        lemma_fnv_push(hash, s0.push(b0).push(b1).push(b2), b3);
        assert(s0.push(b0).push(b1).push(b2).push(b3) =~= le_bytes_u32(value));
    }
    h4
}

/// Feeds the little-endian encoding of a `u64` into an FNV-1a state.
pub fn hash_u64(hash: u64, value: u64) -> (res: u64)
    ensures
        res == fnv(hash, le_bytes_u64(value)),
{
    let b0 = (value & 0xff) as u8;
    let b1 = ((value >> 8u64) & 0xff) as u8;
    let b2 = ((value >> 16u64) & 0xff) as u8;
    let b3 = ((value >> 24u64) & 0xff) as u8;
    let b4 = ((value >> 32u64) & 0xff) as u8;
    let b5 = ((value >> 40u64) & 0xff) as u8;
    let b6 = ((value >> 48u64) & 0xff) as u8;
    let b7 = ((value >> 56u64) & 0xff) as u8;
    let h1 = hash_u8(hash, b0);
    let h2 = hash_u8(h1, b1);
    let h3 = hash_u8(h2, b2);
    let h4 = hash_u8(h3, b3);
    let h5 = hash_u8(h4, b4);
    let h6 = hash_u8(h5, b5);
    let h7 = hash_u8(h6, b6);
    let h8 = hash_u8(h7, b7);
    proof {
        let s0 = Seq::<u8>::empty();
        let s1 = s0.push(b0);
        let s2 = s1.push(b1);
        let s3 = s2.push(b2);
        let s4 = s3.push(b3);
        let s5 = s4.push(b4);
        let s6 = s5.push(b5);
        let s7 = s6.push(b6);
        let s8 = s7.push(b7);
        lemma_fnv_single(hash, b0);
        lemma_fnv_single(h1, b1);
        lemma_fnv_single(h2, b2);
        lemma_fnv_single(h3, b3);
        lemma_fnv_single(h4, b4);
        lemma_fnv_single(h5, b5);
        lemma_fnv_single(h6, b6);
        lemma_fnv_single(h7, b7);
        lemma_fnv_push(hash, s0, b0);
        lemma_fnv_push(hash, s1, b1);
        lemma_fnv_push(hash, s2, b2);
        lemma_fnv_push(hash, s3, b3);
        lemma_fnv_push(hash, s4, b4);
        lemma_fnv_push(hash, s5, b5);
        lemma_fnv_push(hash, s6, b6);
        lemma_fnv_push(hash, s7, b7);
        assert(s8 =~= le_bytes_u64(value));
    }
    h8
}

} // verus!

verus! {

/// The little-endian encoding of a `u32` has four bytes, least significant
/// first: they give the value back as b0 + 2^8 b1 + 2^16 b2 + 2^24 b3.
pub proof fn lemma_le_bytes_u32_value(value: u32)
    ensures
        le_bytes_u32(value).len() == 4,
        value == le_bytes_u32(value)[0] + 0x100 * le_bytes_u32(value)[1] + 0x1_0000
            * le_bytes_u32(value)[2] + 0x100_0000 * le_bytes_u32(value)[3],
{
    let b = le_bytes_u32(value);
    let b0 = b[0];
    let b1 = b[1];
    let b2 = b[2];
    let b3 = b[3];
    assert(value == (b0 as u32) + 0x100 * (b1 as u32) + 0x1_0000 * (b2 as u32) + 0x100_0000 * (
    b3 as u32)) by (bit_vector)
        requires
            b0 == (value & 0xff) as u8,
            b1 == ((value >> 8u32) & 0xff) as u8,
            b2 == ((value >> 16u32) & 0xff) as u8,
            b3 == ((value >> 24u32) & 0xff) as u8,
    ;
}

/// The little-endian encoding of a `u64` has eight bytes, least
/// significant first: they give the value back as the sum of b_k 2^(8k).
pub proof fn lemma_le_bytes_u64_value(value: u64)
    ensures
        le_bytes_u64(value).len() == 8,
        value == le_bytes_u64(value)[0] + 0x100 * le_bytes_u64(value)[1] + 0x1_0000
            * le_bytes_u64(value)[2] + 0x100_0000 * le_bytes_u64(value)[3] + 0x1_0000_0000
            * le_bytes_u64(value)[4] + 0x100_0000_0000 * le_bytes_u64(value)[5]
            + 0x1_0000_0000_0000 * le_bytes_u64(value)[6] + 0x100_0000_0000_0000 * le_bytes_u64(
            value,
        )[7],
{
    let b = le_bytes_u64(value);
    let b0 = b[0];
    let b1 = b[1];
    let b2 = b[2];
    let b3 = b[3];
    let b4 = b[4];
    let b5 = b[5];
    let b6 = b[6];
    let b7 = b[7];
    assert(value == (b0 as u64) + 0x100 * (b1 as u64) + 0x1_0000 * (b2 as u64) + 0x100_0000 * (
    b3 as u64) + 0x1_0000_0000 * (b4 as u64) + 0x100_0000_0000 * (b5 as u64) + 0x1_0000_0000_0000
        * (b6 as u64) + 0x100_0000_0000_0000 * (b7 as u64)) by (bit_vector)
        requires
            b0 == (value & 0xff) as u8,
            b1 == ((value >> 8u64) & 0xff) as u8,
            b2 == ((value >> 16u64) & 0xff) as u8,
            b3 == ((value >> 24u64) & 0xff) as u8,
            b4 == ((value >> 32u64) & 0xff) as u8,
            b5 == ((value >> 40u64) & 0xff) as u8,
            b6 == ((value >> 48u64) & 0xff) as u8,
            b7 == ((value >> 56u64) & 0xff) as u8,
    ;
}

/// One round xors the byte into the state, then multiplies by the FNV-1a
/// prime modulo 2^64.
pub proof fn lemma_fnv_one_byte(hash: u64, byte: u8)
    ensures
        fnv(hash, seq![byte]) as int == ((hash ^ (byte as u64)) as int * 0x100000001b3int)
            % 0x1_0000_0000_0000_0000int,
{
    lemma_fnv_single(hash, byte);
}

} // verus!
