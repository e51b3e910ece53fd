//! What the state hash reads of one body and its collider, held as plain
//! values: binary32 quantities by their bit patterns, flags as booleans.
use crate::canonical::{
    canonical_bits, f32_encoding, hash_f32, hash_quat, hash_stable_identity, hash_vec3, identity_encoding,
    quat_encoding, vec3_encoding,
};
use crate::fnv::{fnv, hash_u64, hash_u8, le_bytes_u32, le_bytes_u64, lemma_fnv_concat, FNV64_OFFSET};
use vstd::prelude::*;
use vstd::string::StringSliceAdditionalSpecFns;

verus! {

/// Bit pattern of the binary32 value 1.0.
pub const ONE_BITS: u32 = 0x3f80_0000;

/// The collision shape of a body.
#[derive(Clone, Copy, Debug, PartialEq, Eq, Structural)]
pub enum ShapeKind {
    Sphere,
    Box,
}

/// How the friction or restitution coefficients of two colliders combine.
#[derive(Clone, Copy, Debug, PartialEq, Eq, Structural)]
pub enum CombineRule {
    Average,
    Min,
    Multiply,
    Max,
}

/// The rule that a wire code selects: 1, 2 and 3 select `Min`, `Multiply`
/// and `Max`; every other code selects `Average`.
pub open spec fn combine_rule_of(value: u8) -> CombineRule {
    if value == 1 {
        CombineRule::Min
    } else if value == 2 {
        CombineRule::Multiply
    } else if value == 3 {
        CombineRule::Max
    } else {
        CombineRule::Average
    }
}

/// The byte code of a rule: `Average` 0, `Min` 1, `Multiply` 2, `Max` 3.
pub open spec fn combine_rule_code(rule: CombineRule) -> u8 {
    match rule {
        CombineRule::Average => 0,
        CombineRule::Min => 1,
        CombineRule::Multiply => 2,
        CombineRule::Max => 3,
    }
}

/// Selects the combine rule for a wire code.
pub fn combine_rule(value: u8) -> (res: CombineRule)
    ensures
        res == combine_rule_of(value),
{
    match value {
        1 => CombineRule::Min,
        2 => CombineRule::Multiply,
        3 => CombineRule::Max,
        _ => CombineRule::Average,
    }
}

impl CombineRule {
    /// The byte code of this rule.
    pub fn code(&self) -> (res: u8)
        ensures
            res == combine_rule_code(*self),
    {
        match self {
            CombineRule::Average => 0,
            CombineRule::Min => 1,
            CombineRule::Multiply => 2,
            CombineRule::Max => 3,
        }
    }
}

/// A code names the rule that it selects exactly when it is at most 3.
pub proof fn lemma_combine_rule_code_round_trip(value: u8)
    ensures
        value <= 3 <==> combine_rule_code(combine_rule_of(value)) == value,
        combine_rule_of(combine_rule_code(combine_rule_of(value))) == combine_rule_of(value),
{
}

/// What the state hash reads of one body and its collider. Every `u32`
/// quantity is the bit pattern of a binary32 value.
#[derive(Clone, Copy, Debug)]
pub struct BodySnapshot {
    /// The body was defined as fixed.
    pub fixed: bool,
    pub gravity_scale: u32,
    pub linear_damping: u32,
    pub angular_damping: u32,
    pub additional_solver_iterations: u64,
    pub ccd_enabled: bool,
    pub soft_ccd_prediction: u32,
    /// The body was defined as allowed to sleep.
    pub can_sleep: bool,
    pub translation: [u32; 3],
    /// Quaternion components x, y, z, w.
    pub rotation: [u32; 4],
    /// Linear velocity as the engine reports it.
    pub linear_velocity: [u32; 3],
    /// Angular velocity as the engine reports it.
    pub angular_velocity: [u32; 3],
    pub sleeping: bool,
    pub enabled: bool,
    pub shape: ShapeKind,
    /// The sphere's radius, as the collider was built with it.
    pub radius: u32,
    /// The box's half extents, as the body was defined with them.
    pub half_extents: [u32; 3],
    pub density: u32,
    pub friction: u32,
    pub friction_combine_rule: u8,
    pub restitution: u32,
    pub restitution_combine_rule: u8,
    pub sensor: bool,
    pub collider_enabled: bool,
}

/// The byte that a flag contributes to a hash.
pub open spec fn flag_byte(flag: bool) -> u8 {
    if flag {
        1
    } else {
        0
    }
}

/// A fixed body reports zero velocity; any other body reports what the
/// engine holds.
pub open spec fn reported_velocity_of(fixed: bool, raw: [u32; 3]) -> [u32; 3] {
    if fixed {
        [0u32, 0u32, 0u32]
    } else {
        raw
    }
}

/// The velocity that a body reports.
pub fn reported_velocity(fixed: bool, raw: [u32; 3]) -> (res: [u32; 3])
    ensures
        res == reported_velocity_of(fixed, raw),
{
    if fixed {
        [0u32, 0u32, 0u32]
    } else {
        raw
    }
}

/// The bytes that a rigid body contributes to the state hash.
#[verifier::opaque]
pub open spec fn body_encoding(id: Seq<u8>, s: BodySnapshot) -> Seq<u8> {
    identity_encoding(id) + seq![flag_byte(s.fixed)] + f32_encoding(s.gravity_scale)
        + f32_encoding(s.linear_damping) + f32_encoding(s.angular_damping) + le_bytes_u64(
        s.additional_solver_iterations,
    ) + seq![flag_byte(s.ccd_enabled)] + f32_encoding(s.soft_ccd_prediction) + seq![
        flag_byte(s.can_sleep),
    ] + vec3_encoding(s.translation) + quat_encoding(s.rotation) + vec3_encoding(
        reported_velocity_of(s.fixed, s.linear_velocity),
    ) + vec3_encoding(reported_velocity_of(s.fixed, s.angular_velocity)) + seq![
        flag_byte(s.sleeping),
    ] + seq![flag_byte(s.enabled)]
}

/// The bytes that a collider's shape contributes to the state hash.
pub open spec fn shape_encoding(s: BodySnapshot) -> Seq<u8> {
    match s.shape {
        ShapeKind::Sphere => seq![1u8] + f32_encoding(s.radius),
        ShapeKind::Box => seq![2u8] + vec3_encoding(s.half_extents),
    }
}

/// The bytes that a collider contributes to the state hash: the body's
/// identity twice (collider and parent), an enabled parent link, the
/// identity pose, the shape and the material.
#[verifier::opaque]
pub open spec fn collider_encoding(id: Seq<u8>, s: BodySnapshot) -> Seq<u8> {
    identity_encoding(id) + identity_encoding(id) + seq![1u8] + vec3_encoding([0u32, 0u32, 0u32])
        + quat_encoding([0u32, 0u32, 0u32, ONE_BITS]) + shape_encoding(s) + f32_encoding(
        s.density,
    ) + f32_encoding(s.friction) + seq![s.friction_combine_rule] + f32_encoding(s.restitution)
        + seq![s.restitution_combine_rule] + seq![flag_byte(s.sensor)] + seq![
        flag_byte(s.collider_enabled),
    ]
}

/// The byte layout of a rigid body's contribution to the state hash: 90
/// bytes holding, in this order, the tag 1 and the identifier's stable hash,
/// the fixed flag, gravity scale, linear damping, angular damping, the
/// additional solver iterations, the CCD flag, the soft-CCD prediction, the
/// sleep permission, the translation, the rotation (x, y, z, w), the
/// reported linear and angular velocities (zero for a fixed body), and the
/// sleeping and enabled flags. Floats appear as the little-endian bytes of
/// their canonical bit patterns.
#[verifier::rlimit(100)]
pub proof fn lemma_body_encoding_layout(id: Seq<u8>, s: BodySnapshot)
    ensures
        ({
            let e = body_encoding(id, s);
            let lv = if s.fixed { [0u32, 0u32, 0u32] } else { s.linear_velocity };
            let av = if s.fixed { [0u32, 0u32, 0u32] } else { s.angular_velocity };
            &&& e.len() == 90
            &&& e[0] == 1u8
            &&& e.subrange(1, 9) == le_bytes_u64(fnv(FNV64_OFFSET, id))
            &&& e[9] == (if s.fixed { 1u8 } else { 0u8 })
            &&& e.subrange(10, 14) == le_bytes_u32(canonical_bits(s.gravity_scale))
            &&& e.subrange(14, 18) == le_bytes_u32(canonical_bits(s.linear_damping))
            &&& e.subrange(18, 22) == le_bytes_u32(canonical_bits(s.angular_damping))
            &&& e.subrange(22, 30) == le_bytes_u64(s.additional_solver_iterations)
            &&& e[30] == (if s.ccd_enabled { 1u8 } else { 0u8 })
            &&& e.subrange(31, 35) == le_bytes_u32(canonical_bits(s.soft_ccd_prediction))
            &&& e[35] == (if s.can_sleep { 1u8 } else { 0u8 })
            &&& e.subrange(36, 40) == le_bytes_u32(canonical_bits(s.translation[0]))
            &&& e.subrange(40, 44) == le_bytes_u32(canonical_bits(s.translation[1]))
            &&& e.subrange(44, 48) == le_bytes_u32(canonical_bits(s.translation[2]))
            &&& e.subrange(48, 52) == le_bytes_u32(canonical_bits(s.rotation[0]))
            &&& e.subrange(52, 56) == le_bytes_u32(canonical_bits(s.rotation[1]))
            &&& e.subrange(56, 60) == le_bytes_u32(canonical_bits(s.rotation[2]))
            &&& e.subrange(60, 64) == le_bytes_u32(canonical_bits(s.rotation[3]))
            &&& e.subrange(64, 68) == le_bytes_u32(canonical_bits(lv[0]))
            &&& e.subrange(68, 72) == le_bytes_u32(canonical_bits(lv[1]))
            &&& e.subrange(72, 76) == le_bytes_u32(canonical_bits(lv[2]))
            &&& e.subrange(76, 80) == le_bytes_u32(canonical_bits(av[0]))
            &&& e.subrange(80, 84) == le_bytes_u32(canonical_bits(av[1]))
            &&& e.subrange(84, 88) == le_bytes_u32(canonical_bits(av[2]))
            &&& e[88] == (if s.sleeping { 1u8 } else { 0u8 })
            &&& e[89] == (if s.enabled { 1u8 } else { 0u8 })
        }),
{
    reveal(body_encoding);
    let e = body_encoding(id, s);
    let lv = reported_velocity_of(s.fixed, s.linear_velocity);
    let av = reported_velocity_of(s.fixed, s.angular_velocity);
    let a1 = identity_encoding(id);
    let a2 = a1 + seq![flag_byte(s.fixed)];
    let a3 = a2 + f32_encoding(s.gravity_scale);
    let a4 = a3 + f32_encoding(s.linear_damping);
    let a5 = a4 + f32_encoding(s.angular_damping);
    let a6 = a5 + le_bytes_u64(s.additional_solver_iterations);
    let a7 = a6 + seq![flag_byte(s.ccd_enabled)];
    let a8 = a7 + f32_encoding(s.soft_ccd_prediction);
    let a9 = a8 + seq![flag_byte(s.can_sleep)];
    let a10 = a9 + vec3_encoding(s.translation);
    let a11 = a10 + quat_encoding(s.rotation);
    let a12 = a11 + vec3_encoding(lv);
    let a13 = a12 + vec3_encoding(av);
    let a14 = a13 + seq![flag_byte(s.sleeping)];
    let a15 = a14 + seq![flag_byte(s.enabled)];
    assert(e == a15);
    lemma_agree_split(e, 0, a14, seq![flag_byte(s.enabled)]);
    lemma_agree_split(e, 0, a13, seq![flag_byte(s.sleeping)]);
    lemma_agree_split(e, 0, a12, vec3_encoding(av));
    lemma_agree_vec3(e, 76, av);
    lemma_agree_split(e, 0, a11, vec3_encoding(lv));
    lemma_agree_vec3(e, 64, lv);
    lemma_agree_split(e, 0, a10, quat_encoding(s.rotation));
    lemma_agree_quat(e, 48, s.rotation);
    lemma_agree_split(e, 0, a9, vec3_encoding(s.translation));
    lemma_agree_vec3(e, 36, s.translation);
    lemma_agree_split(e, 0, a8, seq![flag_byte(s.can_sleep)]);
    lemma_agree_split(e, 0, a7, f32_encoding(s.soft_ccd_prediction));
    lemma_agree_split(e, 0, a6, seq![flag_byte(s.ccd_enabled)]);
    lemma_agree_split(e, 0, a5, le_bytes_u64(s.additional_solver_iterations));
    lemma_agree_split(e, 0, a4, f32_encoding(s.angular_damping));
    lemma_agree_split(e, 0, a3, f32_encoding(s.linear_damping));
    lemma_agree_split(e, 0, a2, f32_encoding(s.gravity_scale));
    lemma_agree_split(e, 0, a1, seq![flag_byte(s.fixed)]);
    lemma_agree_split(e, 0, seq![1u8], le_bytes_u64(fnv(FNV64_OFFSET, id)));
    assert(e[9] == e.subrange(9, 10)[0]);
    assert(e[30] == e.subrange(30, 31)[0]);
    assert(e[35] == e.subrange(35, 36)[0]);
    assert(e[88] == e.subrange(88, 89)[0]);
    assert(e[89] == e.subrange(89, 90)[0]);
    assert(e[0] == e.subrange(0, 1)[0]);
}

/// If `e` holds `x + y` from position `o` on, it holds `x` from `o` and
/// `y` right after it.
pub proof fn lemma_agree_split(e: Seq<u8>, o: int, x: Seq<u8>, y: Seq<u8>)
    requires
        0 <= o,
        o + x.len() + y.len() <= e.len(),
        forall|i: int| 0 <= i < x.len() + y.len() ==> e[o + i] == #[trigger] (x + y)[i],
    ensures
        forall|i: int| 0 <= i < x.len() ==> e[o + i] == #[trigger] x[i],
        e.subrange(o, o + x.len()) == x,
        e.subrange(o + x.len(), o + x.len() + y.len()) == y,
{
    assert forall|i: int| 0 <= i < x.len() implies e[o + i] == #[trigger] x[i] by {
        assert((x + y)[i] == x[i]);
    }
    assert(e.subrange(o, o + x.len()) =~= x);
    assert forall|i: int| 0 <= i < y.len() implies e.subrange(
        o + x.len(),
        o + x.len() + y.len(),
    )[i] == y[i] by {
        assert((x + y)[x.len() + i] == y[i]);
    }
    assert(e.subrange(o + x.len(), o + x.len() + y.len()) =~= y);
}

/// Where `e` holds a vector's bytes, it holds each component's bytes.
pub proof fn lemma_agree_vec3(e: Seq<u8>, o: int, v: [u32; 3])
    requires
        0 <= o,
        o + 12 <= e.len(),
        e.subrange(o, o + 12) == vec3_encoding(v),
    ensures
        e.subrange(o, o + 4) == le_bytes_u32(canonical_bits(v[0])),
        e.subrange(o + 4, o + 8) == le_bytes_u32(canonical_bits(v[1])),
        e.subrange(o + 8, o + 12) == le_bytes_u32(canonical_bits(v[2])),
{
    let x = f32_encoding(v[0]) + f32_encoding(v[1]);
    assert forall|i: int| 0 <= i < 12 implies e[o + i] == #[trigger] (x + f32_encoding(v[2]))[i] by {
        assert(e.subrange(o, o + 12)[i] == e[o + i]);
    }
    lemma_agree_split(e, o, x, f32_encoding(v[2]));
    lemma_agree_split(e, o, f32_encoding(v[0]), f32_encoding(v[1]));
}

/// Where `e` holds a quaternion's bytes, it holds each component's bytes.
pub proof fn lemma_agree_quat(e: Seq<u8>, o: int, v: [u32; 4])
    requires
        0 <= o,
        o + 16 <= e.len(),
        e.subrange(o, o + 16) == quat_encoding(v),
    ensures
        e.subrange(o, o + 4) == le_bytes_u32(canonical_bits(v[0])),
        e.subrange(o + 4, o + 8) == le_bytes_u32(canonical_bits(v[1])),
        e.subrange(o + 8, o + 12) == le_bytes_u32(canonical_bits(v[2])),
        e.subrange(o + 12, o + 16) == le_bytes_u32(canonical_bits(v[3])),
{
    let x = f32_encoding(v[0]) + f32_encoding(v[1]) + f32_encoding(v[2]);
    assert forall|i: int| 0 <= i < 16 implies e[o + i] == #[trigger] (x + f32_encoding(v[3]))[i] by {
        assert(e.subrange(o, o + 16)[i] == e[o + i]);
    }
    lemma_agree_split(e, o, x, f32_encoding(v[3]));
    lemma_agree_split(e, o, f32_encoding(v[0]) + f32_encoding(v[1]), f32_encoding(v[2]));
    lemma_agree_split(e, o, f32_encoding(v[0]), f32_encoding(v[1]));
}

/// The bytes that a sphere's or a box's shape contributes: the tag 1 and
/// the radius, or the tag 2 and the three half extents, each as the
/// little-endian bytes of its canonical bit pattern.
pub proof fn lemma_shape_encoding_layout(s: BodySnapshot)
    ensures
        s.shape == ShapeKind::Sphere ==> shape_encoding(s) == seq![1u8] + le_bytes_u32(
            canonical_bits(s.radius),
        ),
        s.shape == ShapeKind::Box ==> shape_encoding(s) == seq![2u8] + le_bytes_u32(
            canonical_bits(s.half_extents[0]),
        ) + le_bytes_u32(canonical_bits(s.half_extents[1])) + le_bytes_u32(
            canonical_bits(s.half_extents[2]),
        ),
{
    if s.shape == ShapeKind::Box {
        assert(shape_encoding(s) =~= seq![2u8] + le_bytes_u32(canonical_bits(s.half_extents[0]))
            + le_bytes_u32(canonical_bits(s.half_extents[1])) + le_bytes_u32(
            canonical_bits(s.half_extents[2]),
        ));
    }
}

/// The byte layout of a collider's contribution to the state hash: the
/// identity twice (tag 1 and stable hash), the tag 1, the zero translation,
/// the identity rotation (0, 0, 0, 1), the shape (tag and sizes), then
/// density, friction, friction rule, restitution, restitution rule, and the
/// sensor and enabled flags.
#[verifier::rlimit(100)]
pub proof fn lemma_collider_encoding_layout(id: Seq<u8>, s: BodySnapshot)
    ensures
        ({
            let e = collider_encoding(id, s);
            let k: int = if s.shape == ShapeKind::Sphere { 5 } else { 13 };
            let m = 47 + k;
            &&& e.len() == m + 16
            &&& e[0] == 1u8
            &&& e.subrange(1, 9) == le_bytes_u64(fnv(FNV64_OFFSET, id))
            &&& e[9] == 1u8
            &&& e.subrange(10, 18) == le_bytes_u64(fnv(FNV64_OFFSET, id))
            &&& e[18] == 1u8
            &&& e.subrange(19, 23) == le_bytes_u32(0)
            &&& e.subrange(23, 27) == le_bytes_u32(0)
            &&& e.subrange(27, 31) == le_bytes_u32(0)
            &&& e.subrange(31, 35) == le_bytes_u32(0)
            &&& e.subrange(35, 39) == le_bytes_u32(0)
            &&& e.subrange(39, 43) == le_bytes_u32(0)
            &&& e.subrange(43, 47) == le_bytes_u32(ONE_BITS)
            &&& e.subrange(47, m) == (if s.shape == ShapeKind::Sphere {
                seq![1u8] + le_bytes_u32(canonical_bits(s.radius))
            } else {
                seq![2u8] + le_bytes_u32(canonical_bits(s.half_extents[0])) + le_bytes_u32(
                    canonical_bits(s.half_extents[1]),
                ) + le_bytes_u32(canonical_bits(s.half_extents[2]))
            })
            &&& e.subrange(m, m + 4) == le_bytes_u32(canonical_bits(s.density))
            &&& e.subrange(m + 4, m + 8) == le_bytes_u32(canonical_bits(s.friction))
            &&& e[m + 8] == s.friction_combine_rule
            &&& e.subrange(m + 9, m + 13) == le_bytes_u32(canonical_bits(s.restitution))
            &&& e[m + 13] == s.restitution_combine_rule
            &&& e[m + 14] == (if s.sensor { 1u8 } else { 0u8 })
            &&& e[m + 15] == (if s.collider_enabled { 1u8 } else { 0u8 })
        }),
{
    reveal(collider_encoding);
    lemma_shape_encoding_layout(s);
    assert(canonical_bits(0) == 0) by {
        assert(0u32 & 0x7fff_ffff == 0) by (bit_vector);
    }
    assert(canonical_bits(ONE_BITS) == ONE_BITS) by {
        assert(ONE_BITS & 0x7fff_ffff != 0 && ONE_BITS & 0x7f80_0000 != 0x7f80_0000)
            by (bit_vector);
    }
    let e = collider_encoding(id, s);
    let shape = shape_encoding(s);
    let c1 = identity_encoding(id);
    let c2 = c1 + identity_encoding(id);
    let c3 = c2 + seq![1u8];
    let c4 = c3 + vec3_encoding([0u32, 0u32, 0u32]);
    let c5 = c4 + quat_encoding([0u32, 0u32, 0u32, ONE_BITS]);
    let c6 = c5 + shape;
    let c7 = c6 + f32_encoding(s.density);
    let c8 = c7 + f32_encoding(s.friction);
    let c9 = c8 + seq![s.friction_combine_rule];
    let c10 = c9 + f32_encoding(s.restitution);
    let c11 = c10 + seq![s.restitution_combine_rule];
    let c12 = c11 + seq![flag_byte(s.sensor)];
    let c13 = c12 + seq![flag_byte(s.collider_enabled)];
    assert(e == c13);
    lemma_agree_split(e, 0, c12, seq![flag_byte(s.collider_enabled)]);
    lemma_agree_split(e, 0, c11, seq![flag_byte(s.sensor)]);
    lemma_agree_split(e, 0, c10, seq![s.restitution_combine_rule]);
    lemma_agree_split(e, 0, c9, f32_encoding(s.restitution));
    lemma_agree_split(e, 0, c8, seq![s.friction_combine_rule]);
    lemma_agree_split(e, 0, c7, f32_encoding(s.friction));
    lemma_agree_split(e, 0, c6, f32_encoding(s.density));
    lemma_agree_split(e, 0, c5, shape);
    lemma_agree_split(e, 0, c4, quat_encoding([0u32, 0u32, 0u32, ONE_BITS]));
    lemma_agree_quat(e, 31, [0u32, 0u32, 0u32, ONE_BITS]);
    lemma_agree_split(e, 0, c3, vec3_encoding([0u32, 0u32, 0u32]));
    lemma_agree_vec3(e, 19, [0u32, 0u32, 0u32]);
    lemma_agree_split(e, 0, c2, seq![1u8]);
    lemma_agree_split(e, 0, c1, identity_encoding(id));
    lemma_agree_split(e, 9, seq![1u8], le_bytes_u64(fnv(FNV64_OFFSET, id)));
    lemma_agree_split(e, 0, seq![1u8], le_bytes_u64(fnv(FNV64_OFFSET, id)));
    let m: int = (c5.len() + shape.len()) as int;
    assert(e[0] == e.subrange(0, 1)[0]);
    assert(e[9] == e.subrange(9, 10)[0]);
    assert(e[18] == e.subrange(18, 19)[0]);
    assert(e[m + 8] == e.subrange(m + 8, m + 9)[0]);
    assert(e[m + 13] == e.subrange(m + 13, m + 14)[0]);
    assert(e[m + 14] == e.subrange(m + 14, m + 15)[0]);
    assert(e[m + 15] == e.subrange(m + 15, m + 16)[0]);
}

/// Linear and angular damping occupy distinct places: exchanging two
/// different damping values changes the body's bytes.
pub proof fn lemma_body_encoding_distinguishes_dampings(id: Seq<u8>, s: BodySnapshot, t: BodySnapshot)
    requires
        t == (BodySnapshot { linear_damping: s.angular_damping, angular_damping: s.linear_damping, ..s }),
        canonical_bits(s.linear_damping) != canonical_bits(s.angular_damping),
    ensures
        body_encoding(id, s) != body_encoding(id, t),
{
    lemma_body_encoding_layout(id, s);
    lemma_body_encoding_layout(id, t);
    lemma_le_bytes_u32_injective(canonical_bits(s.linear_damping), canonical_bits(s.angular_damping));
    if body_encoding(id, s) == body_encoding(id, t) {
        assert(body_encoding(id, s).subrange(14, 18) == body_encoding(id, t).subrange(14, 18));
    }
}

/// Two spheres that differ only in their (canonical) radius have different
/// collider bytes.
pub proof fn lemma_collider_encoding_distinguishes_radii(id: Seq<u8>, s: BodySnapshot, t: BodySnapshot)
    requires
        s.shape == ShapeKind::Sphere,
        t == (BodySnapshot { radius: t.radius, ..s }),
        canonical_bits(s.radius) != canonical_bits(t.radius),
    ensures
        collider_encoding(id, s) != collider_encoding(id, t),
{
    lemma_collider_encoding_layout(id, s);
    lemma_collider_encoding_layout(id, t);
    lemma_le_bytes_u32_injective(canonical_bits(s.radius), canonical_bits(t.radius));
    if collider_encoding(id, s) == collider_encoding(id, t) {
        assert(collider_encoding(id, s).subrange(48, 52) =~= collider_encoding(id, s).subrange(47, 52).subrange(1, 5));
        assert(collider_encoding(id, s).subrange(47, 52).subrange(1, 5) =~= le_bytes_u32(canonical_bits(s.radius)));
        assert(collider_encoding(id, t).subrange(47, 52).subrange(1, 5) =~= le_bytes_u32(canonical_bits(t.radius)));
    }
}

/// Distinct `u32` values have distinct little-endian encodings.
pub proof fn lemma_le_bytes_u32_injective(a: u32, b: u32)
    requires
        a != b,
    ensures
        le_bytes_u32(a) != le_bytes_u32(b),
{
    if le_bytes_u32(a) == le_bytes_u32(b) {
        assert(le_bytes_u32(a)[0] == le_bytes_u32(b)[0]);
        assert(le_bytes_u32(a)[1] == le_bytes_u32(b)[1]);
        assert(le_bytes_u32(a)[2] == le_bytes_u32(b)[2]);
        assert(le_bytes_u32(a)[3] == le_bytes_u32(b)[3]);
        assert(a == b) by (bit_vector)
            requires
                (a & 0xff) as u8 == (b & 0xff) as u8,
                ((a >> 8u32) & 0xff) as u8 == ((b >> 8u32) & 0xff) as u8,
                ((a >> 16u32) & 0xff) as u8 == ((b >> 16u32) & 0xff) as u8,
                ((a >> 24u32) & 0xff) as u8 == ((b >> 24u32) & 0xff) as u8,
        ;
    }
}

fn flag(value: bool) -> (res: u8)
    ensures
        res == flag_byte(value),
{
    if value {
        1
    } else {
        0
    }
}

/// Feeds a rigid body into an FNV-1a state.
pub fn hash_body(hash: u64, id: &str, s: &BodySnapshot) -> (res: u64)
    ensures
        res == fnv(hash, body_encoding(id.spec_bytes(), *s)),
{
    let ghost b = id.spec_bytes();
    let ghost mut acc: Seq<u8> = Seq::empty();
    let mut h = hash;
    h = hash_stable_identity(h, id);
    proof {
        acc = identity_encoding(b);
    }
    let e = flag(s.fixed);
    proof {
        lemma_fnv_concat(hash, acc, seq![e]);
        acc = acc + seq![e];
    }
    h = hash_u8(h, e);
    proof {
        lemma_fnv_concat(hash, acc, f32_encoding(s.gravity_scale));
        acc = acc + f32_encoding(s.gravity_scale);
    }
    h = hash_f32(h, s.gravity_scale);
    proof {
        lemma_fnv_concat(hash, acc, f32_encoding(s.linear_damping));
        acc = acc + f32_encoding(s.linear_damping);
    }
    h = hash_f32(h, s.linear_damping);
    proof {
        lemma_fnv_concat(hash, acc, f32_encoding(s.angular_damping));
        acc = acc + f32_encoding(s.angular_damping);
    }
    h = hash_f32(h, s.angular_damping);
    proof {
        lemma_fnv_concat(hash, acc, le_bytes_u64(s.additional_solver_iterations));
        acc = acc + le_bytes_u64(s.additional_solver_iterations);
    }
    h = hash_u64(h, s.additional_solver_iterations);
    let e = flag(s.ccd_enabled);
    proof {
        lemma_fnv_concat(hash, acc, seq![e]);
        acc = acc + seq![e];
    }
    h = hash_u8(h, e);
    proof {
        lemma_fnv_concat(hash, acc, f32_encoding(s.soft_ccd_prediction));
        acc = acc + f32_encoding(s.soft_ccd_prediction);
    }
    h = hash_f32(h, s.soft_ccd_prediction);
    let e = flag(s.can_sleep);
    proof {
        lemma_fnv_concat(hash, acc, seq![e]);
        acc = acc + seq![e];
    }
    h = hash_u8(h, e);
    proof {
        lemma_fnv_concat(hash, acc, vec3_encoding(s.translation));
        acc = acc + vec3_encoding(s.translation);
    }
    h = hash_vec3(h, &s.translation);
    proof {
        lemma_fnv_concat(hash, acc, quat_encoding(s.rotation));
        acc = acc + quat_encoding(s.rotation);
    }
    h = hash_quat(h, &s.rotation);
    let linvel = reported_velocity(s.fixed, s.linear_velocity);
    proof {
        lemma_fnv_concat(hash, acc, vec3_encoding(linvel));
        acc = acc + vec3_encoding(linvel);
    }
    h = hash_vec3(h, &linvel);
    let angvel = reported_velocity(s.fixed, s.angular_velocity);
    proof {
        lemma_fnv_concat(hash, acc, vec3_encoding(angvel));
        acc = acc + vec3_encoding(angvel);
    }
    h = hash_vec3(h, &angvel);
    let e = flag(s.sleeping);
    proof {
        lemma_fnv_concat(hash, acc, seq![e]);
        acc = acc + seq![e];
    }
    h = hash_u8(h, e);
    let e = flag(s.enabled);
    proof {
        lemma_fnv_concat(hash, acc, seq![e]);
        acc = acc + seq![e];
    }
    h = hash_u8(h, e);
    proof {
        reveal(body_encoding);
    }
    h
}

/// Feeds a body's collider into an FNV-1a state.
pub fn hash_collider(hash: u64, id: &str, s: &BodySnapshot) -> (res: u64)
    ensures
        res == fnv(hash, collider_encoding(id.spec_bytes(), *s)),
{
    let ghost b = id.spec_bytes();
    let ghost mut acc: Seq<u8> = Seq::empty();
    let mut h = hash;
    h = hash_stable_identity(h, id);
    proof {
        acc = identity_encoding(b);
        lemma_fnv_concat(hash, acc, identity_encoding(b));
        acc = acc + identity_encoding(b);
    }
    h = hash_stable_identity(h, id);
    proof {
        lemma_fnv_concat(hash, acc, seq![1u8]);
        acc = acc + seq![1u8];
    }
    h = hash_u8(h, 1);
    let origin: [u32; 3] = [0, 0, 0];
    proof {
        lemma_fnv_concat(hash, acc, vec3_encoding(origin));
        acc = acc + vec3_encoding(origin);
    }
    h = hash_vec3(h, &origin);
    let identity: [u32; 4] = [0, 0, 0, ONE_BITS];
    proof {
        lemma_fnv_concat(hash, acc, quat_encoding(identity));
        acc = acc + quat_encoding(identity);
    }
    h = hash_quat(h, &identity);
    proof {
        lemma_fnv_concat(hash, acc, shape_encoding(*s));
    }
    match s.shape {
        ShapeKind::Sphere => {
            let h1 = hash_u8(h, 1);
            let h2 = hash_f32(h1, s.radius);
            proof {
                lemma_fnv_concat(h, seq![1u8], f32_encoding(s.radius));
            }
            h = h2;
        },
        ShapeKind::Box => {
            let h1 = hash_u8(h, 2);
            let h2 = hash_vec3(h1, &s.half_extents);
            proof {
                lemma_fnv_concat(h, seq![2u8], vec3_encoding(s.half_extents));
            }
            h = h2;
        },
    }
    proof {
        acc = acc + shape_encoding(*s);
        lemma_fnv_concat(hash, acc, f32_encoding(s.density));
        acc = acc + f32_encoding(s.density);
    }
    h = hash_f32(h, s.density);
    proof {
        lemma_fnv_concat(hash, acc, f32_encoding(s.friction));
        acc = acc + f32_encoding(s.friction);
    }
    h = hash_f32(h, s.friction);
    proof {
        lemma_fnv_concat(hash, acc, seq![s.friction_combine_rule]);
        acc = acc + seq![s.friction_combine_rule];
    }
    h = hash_u8(h, s.friction_combine_rule);
    proof {
        lemma_fnv_concat(hash, acc, f32_encoding(s.restitution));
        acc = acc + f32_encoding(s.restitution);
    }
    h = hash_f32(h, s.restitution);
    proof {
        lemma_fnv_concat(hash, acc, seq![s.restitution_combine_rule]);
        acc = acc + seq![s.restitution_combine_rule];
    }
    h = hash_u8(h, s.restitution_combine_rule);
    let e = flag(s.sensor);
    proof {
        lemma_fnv_concat(hash, acc, seq![e]);
        acc = acc + seq![e];
    }
    h = hash_u8(h, e);
    let e = flag(s.collider_enabled);
    proof {
        lemma_fnv_concat(hash, acc, seq![e]);
        acc = acc + seq![e];
    }
    h = hash_u8(h, e);
    proof {
        reveal(collider_encoding);
    }
    h
}

} // verus!
