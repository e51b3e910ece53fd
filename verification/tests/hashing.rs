use scenesync_parity::canonical::{
    canonical_f32_bits, hash_f32, hash_quat, hash_stable_identity, hash_string, hash_vec3,
    stable_id_hash,
};
use scenesync_parity::fnv::{hash_bytes, hash_u32, hash_u64, hash_u8, FNV64_OFFSET};

#[test]
fn stable_id_hash_of_empty_is_offset_basis() {
    assert_eq!(stable_id_hash(""), 0xcbf29ce484222325);
}

#[test]
fn stable_id_hash_matches_fnv1a_vectors() {
    assert_eq!(stable_id_hash("a"), 0xaf63dc4c8601ec8c);
    assert_eq!(stable_id_hash("box-1"), 0xf83c8db2668547d4);
    assert_eq!(stable_id_hash("floor"), 0xa03a74a942db43bd);
}

#[test]
fn hash_bytes_is_a_fold_of_hash_u8() {
    let bytes = b"scenesync";
    let mut expected = FNV64_OFFSET;
    for b in bytes.iter() {
        expected = hash_u8(expected, *b);
    }
    assert_eq!(hash_bytes(FNV64_OFFSET, bytes), expected);
    let split = hash_bytes(hash_bytes(FNV64_OFFSET, b"scene"), b"sync");
    assert_eq!(split, expected);
}

#[test]
fn integers_hash_little_endian() {
    assert_eq!(hash_u32(FNV64_OFFSET, 0x12345678), 0xcccfd053e47c3365);
    assert_eq!(
        hash_u32(FNV64_OFFSET, 0x12345678),
        hash_bytes(FNV64_OFFSET, &0x12345678u32.to_le_bytes())
    );
    assert_eq!(hash_u64(FNV64_OFFSET, 0x0123456789abcdef), 0x37eb3f3347761c55);
    assert_eq!(
        hash_u64(FNV64_OFFSET, 0x0123456789abcdef),
        hash_bytes(FNV64_OFFSET, &0x0123456789abcdefu64.to_le_bytes())
    );
}

#[test]
fn strings_are_length_prefixed() {
    assert_eq!(hash_string(FNV64_OFFSET, "rapier"), 0xe4e5581ad90e0dda);
    assert_ne!(hash_string(FNV64_OFFSET, "rapier"), hash_bytes(FNV64_OFFSET, b"rapier"));
}

#[test]
fn stable_identity_is_tag_then_id_hash() {
    let expected = hash_u64(hash_u8(7, 1), stable_id_hash("box-1"));
    assert_eq!(hash_stable_identity(7, "box-1"), expected);
}

#[test]
fn zeros_and_nans_are_canonicalised() {
    assert_eq!(canonical_f32_bits(0.0f32.to_bits()), 0);
    assert_eq!(canonical_f32_bits((-0.0f32).to_bits()), 0);
    assert_eq!(canonical_f32_bits(f32::NAN.to_bits()), 0x7fc00000);
    assert_eq!(canonical_f32_bits(0x7f80_0001), 0x7fc00000);
    assert_eq!(canonical_f32_bits(0xffc0_1234), 0x7fc00000);
    assert_eq!(canonical_f32_bits(1.5f32.to_bits()), 1.5f32.to_bits());
    assert_eq!(canonical_f32_bits(f32::INFINITY.to_bits()), f32::INFINITY.to_bits());
    assert_eq!(canonical_f32_bits(f32::NEG_INFINITY.to_bits()), f32::NEG_INFINITY.to_bits());
    assert_eq!(canonical_f32_bits((-2.0f32).to_bits()), (-2.0f32).to_bits());
}

#[test]
fn canonicalising_is_idempotent() {
    for bits in [0u32, 0x8000_0000, 0x7fc0_0000, 0xffff_ffff, 0x3f80_0000, 0x0000_0001] {
        let once = canonical_f32_bits(bits);
        assert_eq!(canonical_f32_bits(once), once);
    }
}

#[test]
fn float_hash_ignores_sign_of_zero() {
    assert_eq!(hash_f32(FNV64_OFFSET, 0.0f32.to_bits()), hash_f32(FNV64_OFFSET, (-0.0f32).to_bits()));
    assert_eq!(hash_f32(FNV64_OFFSET, 0.0f32.to_bits()), hash_u32(FNV64_OFFSET, 0));
    assert_eq!(hash_f32(FNV64_OFFSET, f32::NAN.to_bits()), hash_f32(FNV64_OFFSET, 0x7f80_0001));
}

#[test]
fn vectors_hash_component_by_component() {
    let v = [1.0f32.to_bits(), (-0.0f32).to_bits(), 2.5f32.to_bits()];
    let mut expected = hash_f32(FNV64_OFFSET, v[0]);
    expected = hash_f32(expected, v[1]);
    expected = hash_f32(expected, v[2]);
    assert_eq!(hash_vec3(FNV64_OFFSET, &v), expected);
    let q = [0, 0, 0, 1.0f32.to_bits()];
    let mut expected = FNV64_OFFSET;
    for c in q {
        expected = hash_f32(expected, c);
    }
    assert_eq!(hash_quat(FNV64_OFFSET, &q), expected);
}
