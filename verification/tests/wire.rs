use scenesync_parity::snapshot::{combine_rule, reported_velocity, CombineRule, ShapeKind};
use scenesync_parity::wire::{
    check_configuration, combine_rule_code_from_wire, is_fixed_body, shape_from_wire,
    solver_iterations_from_wire, target_tick_from_wire, tick_as_i64, wire_id, ConfigError,
    WireError,
};
use scenesync_parity::world::StepError;

#[test]
fn combine_rule_codes() {
    assert_eq!(combine_rule(0), CombineRule::Average);
    assert_eq!(combine_rule(1), CombineRule::Min);
    assert_eq!(combine_rule(2), CombineRule::Multiply);
    assert_eq!(combine_rule(3), CombineRule::Max);
    assert_eq!(combine_rule(4), CombineRule::Average);
    assert_eq!(combine_rule(255), CombineRule::Average);
    for code in 0..=3u8 {
        assert_eq!(combine_rule(code).code(), code);
    }
    assert_eq!(combine_rule(9).code(), 0);
}

#[test]
fn wire_combine_rules_are_clamped() {
    assert_eq!(combine_rule_code_from_wire(-5), 0);
    assert_eq!(combine_rule_code_from_wire(0), 0);
    assert_eq!(combine_rule_code_from_wire(2), 2);
    assert_eq!(combine_rule_code_from_wire(3), 3);
    assert_eq!(combine_rule_code_from_wire(400), 3);
    assert_eq!(combine_rule_code_from_wire(i64::MIN), 0);
}

#[test]
fn wire_solver_iterations_are_not_negative() {
    assert_eq!(solver_iterations_from_wire(-1), 0);
    assert_eq!(solver_iterations_from_wire(0), 0);
    assert_eq!(solver_iterations_from_wire(7), 7);
}

#[test]
fn wire_shapes() {
    assert_eq!(shape_from_wire(Some("sphere")), ShapeKind::Sphere);
    assert_eq!(shape_from_wire(Some("box")), ShapeKind::Box);
    assert_eq!(shape_from_wire(Some("Sphere")), ShapeKind::Box);
    assert_eq!(shape_from_wire(None), ShapeKind::Box);
}

#[test]
fn wire_fixed_bodies() {
    let one = 1.0f32.to_bits();
    assert!(is_fixed_body("fixed", false, one));
    assert!(is_fixed_body("dynamic", true, one));
    assert!(is_fixed_body("", false, 0.0f32.to_bits()));
    assert!(is_fixed_body("", false, (-0.0f32).to_bits()));
    assert!(!is_fixed_body("dynamic", false, one));
    assert!(!is_fixed_body("Fixed", false, one));
}

#[test]
fn wire_ids() {
    assert_eq!(wire_id(Some("box-1".to_owned())), Ok("box-1".to_owned()));
    assert_eq!(wire_id(Some(String::new())), Err(WireError::MissingId));
    assert_eq!(wire_id(None), Err(WireError::MissingId));
    assert_eq!(WireError::MissingId.message(), "stable id must be a non-empty string");
}

#[test]
fn ticks_saturate_for_scripts() {
    assert_eq!(tick_as_i64(0), 0);
    assert_eq!(tick_as_i64(600), 600);
    assert_eq!(tick_as_i64(i64::MAX as u64), i64::MAX);
    assert_eq!(tick_as_i64(u64::MAX), i64::MAX);
}

#[test]
fn negative_targets_are_refused() {
    assert_eq!(target_tick_from_wire(-1), Err(StepError::NegativeTarget));
    assert_eq!(target_tick_from_wire(0), Ok(0));
    assert_eq!(target_tick_from_wire(120), Ok(120));
    assert_eq!(StepError::NegativeTarget.message(), "target tick must not be negative");
}

#[test]
fn configurations() {
    let g = [0.0f32.to_bits(), (-9.81f32).to_bits(), 0.0f32.to_bits()];
    let dt = (1.0f32 / 60.0).to_bits();
    assert_eq!(check_configuration(g, dt), Ok(()));
    let inf = [0.0f32.to_bits(), f32::NEG_INFINITY.to_bits(), 0.0f32.to_bits()];
    assert_eq!(check_configuration(inf, dt), Err(ConfigError::GravityNotFinite));
    let nan = [f32::NAN.to_bits(), 0, 0];
    assert_eq!(check_configuration(nan, dt), Err(ConfigError::GravityNotFinite));
    assert_eq!(check_configuration(g, 0.0f32.to_bits()), Err(ConfigError::TimestepNotPositive));
    assert_eq!(check_configuration(g, (-0.0f32).to_bits()), Err(ConfigError::TimestepNotPositive));
    assert_eq!(check_configuration(g, (-0.5f32).to_bits()), Err(ConfigError::TimestepNotPositive));
    assert_eq!(check_configuration(g, f32::INFINITY.to_bits()), Err(ConfigError::TimestepNotPositive));
    assert_eq!(check_configuration(g, f32::NAN.to_bits()), Err(ConfigError::TimestepNotPositive));
    assert_eq!(check_configuration(g, f32::MIN_POSITIVE.to_bits()), Ok(()));
    assert_eq!(check_configuration(g, 1.0e-45f32.to_bits()), Ok(()));
    assert_eq!(
        ConfigError::GravityNotFinite.message(),
        "gravity must contain only finite values"
    );
    assert_eq!(
        ConfigError::TimestepNotPositive.message(),
        "timestep must be finite and positive"
    );
}

#[test]
fn fixed_bodies_report_zero_velocity() {
    let v = [1, 2, 3];
    assert_eq!(reported_velocity(true, v), [0, 0, 0]);
    assert_eq!(reported_velocity(false, v), v);
}
