//! The rules by which the SceneSync wire format (dictionary fields and
//! signed integers of the scripting API) maps onto a world's inputs.
use crate::canonical::{
    is_finite_bits, is_positive_finite_bits, is_zero_bits, lemma_float_classes_by_magnitude,
};
use crate::snapshot::ShapeKind;
use crate::world::StepError;
use vstd::prelude::*;

verus! {

/// Why a world configuration was refused.
#[derive(Clone, Copy, Debug, PartialEq, Eq, Structural)]
pub enum ConfigError {
    /// Some gravity component is infinite or NaN.
    GravityNotFinite,
    /// The timestep is not a finite, strictly positive value.
    TimestepNotPositive,
}

impl ConfigError {
    /// The message that reports this error.
    pub fn message(&self) -> (res: &'static str)
        ensures
            *self == ConfigError::GravityNotFinite ==> res@
                == "gravity must contain only finite values"@,
            *self == ConfigError::TimestepNotPositive ==> res@
                == "timestep must be finite and positive"@,
    {
        match self {
            ConfigError::GravityNotFinite => "gravity must contain only finite values",
            ConfigError::TimestepNotPositive => "timestep must be finite and positive",
        }
    }
}

/// Why a body description was refused.
#[derive(Clone, Copy, Debug, PartialEq, Eq, Structural)]
pub enum WireError {
    /// The `id` field is missing, not a string, or empty.
    MissingId,
}

impl WireError {
    /// The message that reports this error.
    pub fn message(&self) -> (res: &'static str)
        ensures
            res@ == "stable id must be a non-empty string"@,
    {
        "stable id must be a non-empty string"
    }
}

/// Whether a configuration (gravity and timestep as binary32 bit
/// patterns) is acceptable.
pub open spec fn configuration_check(gravity: [u32; 3], timestep: u32) -> Result<(), ConfigError> {
    if !is_finite_bits(gravity[0]) || !is_finite_bits(gravity[1]) || !is_finite_bits(gravity[2]) {
        Err(ConfigError::GravityNotFinite)
    } else if !is_positive_finite_bits(timestep) {
        Err(ConfigError::TimestepNotPositive)
    } else {
        Ok(())
    }
}

/// Checks a configuration: every gravity component must be finite, and the
/// timestep finite and strictly positive.
pub fn check_configuration(gravity: [u32; 3], timestep: u32) -> (res: Result<(), ConfigError>)
    ensures
        res == configuration_check(gravity, timestep),
{
    if gravity[0] & 0x7f80_0000 == 0x7f80_0000 || gravity[1] & 0x7f80_0000 == 0x7f80_0000
        || gravity[2] & 0x7f80_0000 == 0x7f80_0000 {
        Err(ConfigError::GravityNotFinite)
    } else if timestep & 0x7f80_0000 == 0x7f80_0000 || timestep & 0x8000_0000 != 0 || timestep
        & 0x7fff_ffff == 0 {
        Err(ConfigError::TimestepNotPositive)
    } else {
        Ok(())
    }
}

/// The stable identifier of a body description: present and non-empty.
pub fn wire_id(id: Option<String>) -> (res: Result<String, WireError>)
    ensures
        match id {
            Some(s) => if s@.len() > 0 {
                res == Ok::<String, WireError>(s)
            } else {
                res == Err::<String, WireError>(WireError::MissingId)
            },
            None => res == Err::<String, WireError>(WireError::MissingId),
        },
{
    match id {
        Some(s) => {
            if s.as_str().is_empty() {
                Err(WireError::MissingId)
            } else {
                Ok(s)
            }
        },
        None => Err(WireError::MissingId),
    }
}

/// A body is fixed when its `type` is "fixed", when it is flagged
/// `static`, or when its density (a binary32 bit pattern) is zero.
pub fn is_fixed_body(body_type: &str, is_static: bool, density: u32) -> (res: bool)
    ensures
        res == (body_type@ == "fixed"@ || is_static || is_zero_bits(density)),
{
    let kind = body_type.to_owned();
    let fixed = "fixed".to_owned();
    kind == fixed || is_static || density & 0x7fff_ffff == 0
}

/// The shape that a `shape` field names: a sphere for "sphere", a box
/// otherwise.
pub fn shape_from_wire(name: Option<&str>) -> (res: ShapeKind)
    ensures
        res == (if name is Some && name->0@ == "sphere"@ {
            ShapeKind::Sphere
        } else {
            ShapeKind::Box
        }),
{
    match name {
        Some(n) => {
            let given = n.to_owned();
            let sphere = "sphere".to_owned();
            if given == sphere {
                ShapeKind::Sphere
            } else {
                ShapeKind::Box
            }
        },
        None => ShapeKind::Box,
    }
}

/// A combine-rule field, clamped to the codes 0 to 3.
pub fn combine_rule_code_from_wire(value: i64) -> (res: u8)
    ensures
        res == (if value < 0 {
            0
        } else if value > 3 {
            3
        } else {
            value
        }),
{
    if value < 0 {
        0
    } else if value > 3 {
        3
    } else {
        value as u8
    }
}

/// The additional solver iterations field: negative values count as zero;
/// others convert to `usize` as `as` does.
pub fn solver_iterations_from_wire(value: i64) -> (res: usize)
    ensures
        res == (if value < 0 {
            0usize
        } else {
            value as usize
        }),
{
    if value < 0 {
        0
    } else {
        value as usize
    }
}

/// The tick as the scripting API reports it, saturated at `i64::MAX`.
pub fn tick_as_i64(tick: u64) -> (res: i64)
    ensures
        res == (if tick <= i64::MAX as u64 {
            tick as int
        } else {
            i64::MAX as int
        }),
{
    if tick <= i64::MAX as u64 {
        tick as i64
    } else {
        i64::MAX
    }
}

/// A target tick from the scripting API: negative targets are refused.
pub fn target_tick_from_wire(target: i64) -> (res: Result<u64, StepError>)
    ensures
        target < 0 ==> res == Err::<u64, StepError>(StepError::NegativeTarget),
        target >= 0 ==> res == Ok::<u64, StepError>(target as u64),
{
    if target < 0 {
        Err(StepError::NegativeTarget)
    } else {
        Ok(target as u64)
    }
}

} // verus!

verus! {

/// A configuration is refused for its gravity exactly when some component
/// (any of the three) is infinite or NaN; otherwise it is refused for its
/// timestep exactly when the timestep is not finite and strictly positive;
/// it is accepted exactly when all three gravity components are finite and
/// the timestep is finite and strictly positive.
pub proof fn lemma_configuration_check_law(gravity: [u32; 3], timestep: u32)
    ensures
        forall|i: int|
            0 <= i < 3 && (#[trigger] gravity[i] & 0x7fff_ffff) >= 0x7f80_0000
                ==> configuration_check(gravity, timestep) == Err::<(), ConfigError>(
                ConfigError::GravityNotFinite,
            ),
        configuration_check(gravity, timestep) is Ok <==> ((gravity[0] & 0x7fff_ffff) < 0x7f80_0000
            && (gravity[1] & 0x7fff_ffff) < 0x7f80_0000 && (gravity[2] & 0x7fff_ffff) < 0x7f80_0000
            && 0 < timestep < 0x7f80_0000),
        configuration_check(gravity, timestep) == Err::<(), ConfigError>(
            ConfigError::TimestepNotPositive,
        ) <==> ((gravity[0] & 0x7fff_ffff) < 0x7f80_0000 && (gravity[1] & 0x7fff_ffff)
            < 0x7f80_0000 && (gravity[2] & 0x7fff_ffff) < 0x7f80_0000 && !(0 < timestep
            < 0x7f80_0000)),
{
    lemma_float_classes_by_magnitude(gravity[0]);
    lemma_float_classes_by_magnitude(gravity[1]);
    lemma_float_classes_by_magnitude(gravity[2]);
    lemma_float_classes_by_magnitude(timestep);
}

} // verus!
