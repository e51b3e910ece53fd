//! The canonical byte encodings of the values that enter the state hash:
//! strings, stable identities and IEEE-754 binary32 values, the latter
//! handled through their bit patterns.
use crate::fnv::{
    fnv, hash_bytes, hash_u32, hash_u64, hash_u8, le_bytes_u32, le_bytes_u64, lemma_fnv_concat,
    FNV64_OFFSET,
};
use vstd::prelude::*;
use vstd::string::StringSliceAdditionalSpecFns;

verus! {

/// Bit pattern of the canonical quiet NaN.
pub const CANONICAL_NAN_BITS: u32 = 0x7fc00000;

/// The binary32 value with bit pattern `bits` is +0.0 or -0.0.
pub open spec fn is_zero_bits(bits: u32) -> bool {
    bits & 0x7fff_ffff == 0
}

/// The binary32 value with bit pattern `bits` is a NaN: all exponent bits
/// set and a non-zero fraction.
pub open spec fn is_nan_bits(bits: u32) -> bool {
    bits & 0x7f80_0000 == 0x7f80_0000 && bits & 0x007f_ffff != 0
}

/// The binary32 value with bit pattern `bits` is finite: not all exponent
/// bits are set.
pub open spec fn is_finite_bits(bits: u32) -> bool {
    bits & 0x7f80_0000 != 0x7f80_0000
}

/// The binary32 value with bit pattern `bits` is strictly greater than zero
/// and finite.
pub open spec fn is_positive_finite_bits(bits: u32) -> bool {
    is_finite_bits(bits) && bits & 0x8000_0000 == 0 && !is_zero_bits(bits)
}

/// Both zeros map to +0.0, every NaN maps to the canonical quiet NaN, and
/// every other value keeps its bit pattern.
pub open spec fn canonical_bits(bits: u32) -> u32 {
    if is_zero_bits(bits) {
        0
    } else if is_nan_bits(bits) {
        CANONICAL_NAN_BITS
    } else {
        bits
    }
}

/// The bytes that a binary32 value contributes to a hash.
pub open spec fn f32_encoding(bits: u32) -> Seq<u8> {
    le_bytes_u32(canonical_bits(bits))
}

/// The bytes that a three-component vector contributes to a hash.
pub open spec fn vec3_encoding(value: [u32; 3]) -> Seq<u8> {
    f32_encoding(value[0]) + f32_encoding(value[1]) + f32_encoding(value[2])
}

/// The bytes that a quaternion (x, y, z, w) contributes to a hash.
pub open spec fn quat_encoding(value: [u32; 4]) -> Seq<u8> {
    f32_encoding(value[0]) + f32_encoding(value[1]) + f32_encoding(value[2]) + f32_encoding(
        value[3],
    )
}

/// The bytes that a string contributes to a hash: its byte length as a
/// `u32`, then its UTF-8 bytes.
pub open spec fn string_encoding(bytes: Seq<u8>) -> Seq<u8> {
    le_bytes_u32(bytes.len() as u32) + bytes
}

/// The stable hash of an identifier: FNV-1a of its UTF-8 bytes.
pub open spec fn stable_id_hash_of(bytes: Seq<u8>) -> u64 {
    fnv(FNV64_OFFSET, bytes)
}

/// The bytes that a stable identity contributes to a hash: a tag byte 1,
/// then the stable hash of the identifier.
pub open spec fn identity_encoding(bytes: Seq<u8>) -> Seq<u8> {
    seq![1u8] + le_bytes_u64(stable_id_hash_of(bytes))
}

/// Canonicalises a binary32 bit pattern.
pub fn canonical_f32_bits(bits: u32) -> (res: u32)
    ensures
        res == canonical_bits(bits),
{
    if bits & 0x7fff_ffff == 0 {
        0
    } else if bits & 0x7f80_0000 == 0x7f80_0000 && bits & 0x007f_ffff != 0 {
        CANONICAL_NAN_BITS
    } else {
        bits
    }
}

/// Canonicalising twice is canonicalising once.
pub proof fn lemma_canonical_idempotent(bits: u32)
    ensures
        canonical_bits(canonical_bits(bits)) == canonical_bits(bits),
{
    assert(is_zero_bits(0)) by (bit_vector);
    assert(!is_zero_bits(CANONICAL_NAN_BITS) && is_nan_bits(CANONICAL_NAN_BITS)) by (bit_vector);
}

/// Both zeros have the same canonical form, and so do any two NaNs.
pub proof fn lemma_canonical_collapses_zeros_and_nans(a: u32, b: u32)
    ensures
        is_zero_bits(a) && is_zero_bits(b) ==> canonical_bits(a) == canonical_bits(b),
        is_nan_bits(a) && is_nan_bits(b) ==> canonical_bits(a) == canonical_bits(b),
{
    assert(is_nan_bits(a) ==> !is_zero_bits(a)) by (bit_vector);
    assert(is_nan_bits(b) ==> !is_zero_bits(b)) by (bit_vector);
}

/// Feeds a binary32 value, given by its bit pattern, into an FNV-1a state.
pub fn hash_f32(hash: u64, bits: u32) -> (res: u64)
    ensures
        res == fnv(hash, f32_encoding(bits)),
{
    hash_u32(hash, canonical_f32_bits(bits))
}

/// Feeds a three-component vector into an FNV-1a state.
pub fn hash_vec3(hash: u64, value: &[u32; 3]) -> (res: u64)
    ensures
        res == fnv(hash, vec3_encoding(*value)),
{
    let h1 = hash_f32(hash, value[0]);
    let h2 = hash_f32(h1, value[1]);
    let h3 = hash_f32(h2, value[2]);
    proof {
        let e0 = f32_encoding(value[0]);
        let e1 = f32_encoding(value[1]);
        let e2 = f32_encoding(value[2]);
        lemma_fnv_concat(hash, e0, e1);
        lemma_fnv_concat(hash, e0 + e1, e2);
    }
    h3
}

/// Feeds a quaternion (x, y, z, w) into an FNV-1a state.
pub fn hash_quat(hash: u64, value: &[u32; 4]) -> (res: u64)
    ensures
        res == fnv(hash, quat_encoding(*value)),
{
    let h1 = hash_f32(hash, value[0]);
    let h2 = hash_f32(h1, value[1]);
    let h3 = hash_f32(h2, value[2]);
    let h4 = hash_f32(h3, value[3]);
    proof {
        let e0 = f32_encoding(value[0]);
        let e1 = f32_encoding(value[1]);
        let e2 = f32_encoding(value[2]);
        let e3 = f32_encoding(value[3]);
        lemma_fnv_concat(hash, e0, e1);
        lemma_fnv_concat(hash, e0 + e1, e2);
        lemma_fnv_concat(hash, e0 + e1 + e2, e3);
    }
    h4
}

/// Feeds a length-prefixed string into an FNV-1a state.
pub fn hash_string(hash: u64, value: &str) -> (res: u64)
    ensures
        res == fnv(hash, string_encoding(value.spec_bytes())),
{
    let bytes = value.as_bytes();
    let ghost b = bytes@;
    let prefixed = hash_u32(hash, bytes.len() as u32);
    let res = hash_bytes(prefixed, bytes);
    proof {
        lemma_fnv_concat(hash, le_bytes_u32(b.len() as u32), b);
    }
    res
}

/// The stable hash of an identifier: FNV-1a of its UTF-8 bytes.
pub fn stable_id_hash(value: &str) -> (res: u64)
    ensures
        res == stable_id_hash_of(value.spec_bytes()),
{
    hash_bytes(FNV64_OFFSET, value.as_bytes())
}

/// Feeds a stable identity (tag byte, then the identifier's stable hash)
/// into an FNV-1a state.
pub fn hash_stable_identity(hash: u64, value: &str) -> (res: u64)
    ensures
        res == fnv(hash, identity_encoding(value.spec_bytes())),
{
    let tagged = hash_u8(hash, 1);
    let res = hash_u64(tagged, stable_id_hash(value));
    proof {
        lemma_fnv_concat(hash, seq![1u8], le_bytes_u64(stable_id_hash_of(value.spec_bytes())));
    }
    res
}

} // verus!

verus! {

/// A binary32 value is finite exactly when its magnitude bits lie below
/// those of infinity; it is finite and strictly positive exactly when its
/// whole bit pattern lies strictly between those of +0.0 and +infinity.
pub proof fn lemma_float_classes_by_magnitude(bits: u32)
    ensures
        is_finite_bits(bits) <==> (bits & 0x7fff_ffff) < 0x7f80_0000,
        is_positive_finite_bits(bits) <==> 0 < bits < 0x7f80_0000,
        is_zero_bits(bits) <==> (bits == 0 || bits == 0x8000_0000),
        is_nan_bits(bits) <==> (bits & 0x7fff_ffff) > 0x7f80_0000,
{
    assert(((bits & 0x7f80_0000) != 0x7f80_0000) <==> ((bits & 0x7fff_ffff) < 0x7f80_0000))
        by (bit_vector);
    assert(((bits & 0x7f80_0000) != 0x7f80_0000 && bits & 0x8000_0000 == 0 && bits & 0x7fff_ffff
        != 0) <==> (0 < bits && bits < 0x7f80_0000)) by (bit_vector);
    assert((bits & 0x7fff_ffff == 0) <==> (bits == 0 || bits == 0x8000_0000)) by (bit_vector);
    assert(((bits & 0x7f80_0000) == 0x7f80_0000 && (bits & 0x007f_ffff) != 0) <==> ((bits
        & 0x7fff_ffff) > 0x7f80_0000)) by (bit_vector);
}

/// The canonical form keeps every finite non-zero value and every infinity,
/// turns both zeros into +0.0 and every NaN into the quiet NaN 0x7fc00000.
pub proof fn lemma_canonical_bits_cases(bits: u32)
    ensures
        (bits == 0 || bits == 0x8000_0000) ==> canonical_bits(bits) == 0,
        (bits & 0x7fff_ffff) > 0x7f80_0000 ==> canonical_bits(bits) == 0x7fc0_0000,
        (bits & 0x7fff_ffff) != 0 && (bits & 0x7fff_ffff) <= 0x7f80_0000 ==> canonical_bits(bits)
            == bits,
{
    lemma_float_classes_by_magnitude(bits);
}

} // verus!

verus! {

/// A string contributes four bytes of its byte length (little-endian `u32`)
/// followed by its bytes.
pub proof fn lemma_string_encoding_layout(bytes: Seq<u8>)
    ensures
        string_encoding(bytes).len() == 4 + bytes.len(),
        string_encoding(bytes).subrange(0, 4) == le_bytes_u32(bytes.len() as u32),
        string_encoding(bytes).subrange(4, 4 + bytes.len() as int) == bytes,
{
    assert(string_encoding(bytes).subrange(0, 4) =~= le_bytes_u32(bytes.len() as u32));
    assert(string_encoding(bytes).subrange(4, 4 + bytes.len() as int) =~= bytes);
}

/// A stable identity contributes the tag 1 followed by the little-endian
/// bytes of the FNV-1a hash of the identifier.
pub proof fn lemma_identity_encoding_layout(bytes: Seq<u8>)
    ensures
        identity_encoding(bytes).len() == 9,
        identity_encoding(bytes)[0] == 1u8,
        identity_encoding(bytes).subrange(1, 9) == le_bytes_u64(fnv(FNV64_OFFSET, bytes)),
{
    assert(identity_encoding(bytes).subrange(1, 9) =~= le_bytes_u64(fnv(FNV64_OFFSET, bytes)));
}

} // verus!
