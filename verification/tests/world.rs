use scenesync_parity::snapshot::{BodySnapshot, ShapeKind};
use scenesync_parity::world::{
    format_hex16, AddBodyError, StepError, World, HASH_VERSION, PROFILE, RAPIER_CORE_VERSION,
};

fn bits3(v: [f32; 3]) -> [u32; 3] {
    [v[0].to_bits(), v[1].to_bits(), v[2].to_bits()]
}

fn gravity() -> [u32; 3] {
    bits3([0.0, -9.81, 0.0])
}

fn timestep() -> u32 {
    (1.0f32 / 60.0).to_bits()
}

/// The initial snapshot of a body built from a box definition with the
/// given fields and default values elsewhere.
#[allow(clippy::too_many_arguments)]
fn box_snapshot(
    fixed: bool,
    position: [f32; 3],
    linear_velocity: [f32; 3],
    angular_velocity: [f32; 3],
    damping: f32,
    can_sleep: bool,
    half_extents: [f32; 3],
    density: f32,
    friction: f32,
    restitution: f32,
) -> BodySnapshot {
    BodySnapshot {
        fixed,
        gravity_scale: 1.0f32.to_bits(),
        linear_damping: damping.to_bits(),
        angular_damping: damping.to_bits(),
        additional_solver_iterations: 0,
        ccd_enabled: false,
        soft_ccd_prediction: 0.0f32.to_bits(),
        can_sleep,
        translation: bits3(position),
        rotation: [0, 0, 0, 1.0f32.to_bits()],
        linear_velocity: bits3(linear_velocity),
        angular_velocity: bits3(angular_velocity),
        sleeping: false,
        enabled: true,
        shape: ShapeKind::Box,
        radius: 0.5f32.to_bits(),
        half_extents: bits3(half_extents),
        density: density.to_bits(),
        friction: friction.to_bits(),
        friction_combine_rule: 0,
        restitution: restitution.to_bits(),
        restitution_combine_rule: 0,
        sensor: false,
        collider_enabled: true,
    }
}

fn spinning_box() -> BodySnapshot {
    box_snapshot(
        false,
        [-0.75, 5.0, 0.0],
        [0.75, 0.0, 0.15],
        [0.35, 1.25, 0.55],
        0.02,
        false,
        [0.5; 3],
        1.0,
        0.5,
        0.2,
    )
}

fn floor(friction: f32, restitution: f32) -> BodySnapshot {
    box_snapshot(
        true,
        [0.0, -0.5, 0.0],
        [0.0; 3],
        [0.0; 3],
        0.0,
        true,
        [6.0, 0.5, 6.0],
        0.0,
        friction,
        restitution,
    )
}

fn hash_of(world: &World<u32>, snapshots: &[(&str, BodySnapshot)]) -> String {
    let bodies: Vec<BodySnapshot> = world
        .records()
        .iter()
        .map(|record| snapshots.iter().find(|(id, _)| *id == record.id).unwrap().1)
        .collect();
    world.canonical_state_hash(&bodies)
}

#[test]
fn freefall_fixture_initial_hash() {
    let mut world: World<u32> = World::new(gravity(), timestep());
    world.add_body("box-1".to_owned(), 1).unwrap();
    assert_eq!(hash_of(&world, &[("box-1", spinning_box())]), "1a8cf55faa0e4e4e");
}

#[test]
fn basic_contact_fixture_initial_hash() {
    let mut world: World<u32> = World::new(gravity(), timestep());
    world.add_body("floor".to_owned(), 1).unwrap();
    world.add_body("box-1".to_owned(), 2).unwrap();
    let falling = box_snapshot(
        false,
        [0.0, 5.0, 0.0],
        [0.0; 3],
        [0.0; 3],
        0.0,
        false,
        [0.5; 3],
        1.0,
        0.0,
        0.0,
    );
    let snapshots = [("floor", floor(0.0, 0.0)), ("box-1", falling)];
    assert_eq!(hash_of(&world, &snapshots), "717960f5748ebc9b");
}

#[test]
fn rotating_contact_fixture_initial_hash() {
    let mut world: World<u32> = World::new(gravity(), timestep());
    world.add_body("floor".to_owned(), 1).unwrap();
    world.add_body("box-1".to_owned(), 2).unwrap();
    let snapshots = [("floor", floor(0.5, 0.2)), ("box-1", spinning_box())];
    assert_eq!(hash_of(&world, &snapshots), "43af70bb0d584167");
}

#[test]
fn hash_does_not_depend_on_insertion_order() {
    let snapshots = [("floor", floor(0.5, 0.2)), ("box-1", spinning_box())];
    let mut forward: World<u32> = World::new(gravity(), timestep());
    forward.add_body("floor".to_owned(), 1).unwrap();
    forward.add_body("box-1".to_owned(), 2).unwrap();
    let mut backward: World<u32> = World::new(gravity(), timestep());
    backward.add_body("box-1".to_owned(), 20).unwrap();
    backward.add_body("floor".to_owned(), 10).unwrap();
    assert_eq!(hash_of(&forward, &snapshots), hash_of(&backward, &snapshots));
    assert_eq!(hash_of(&backward, &snapshots), "43af70bb0d584167");
}

#[test]
fn hash_does_not_depend_on_tick() {
    let snapshots = [("box-1", spinning_box())];
    let mut world: World<u32> = World::new(gravity(), timestep());
    world.add_body("box-1".to_owned(), 1).unwrap();
    let before = hash_of(&world, &snapshots);
    world.step();
    world.step();
    assert_eq!(hash_of(&world, &snapshots), before);
}

#[test]
fn fixed_bodies_hash_zero_velocity() {
    let mut world: World<u32> = World::new(gravity(), timestep());
    world.add_body("floor".to_owned(), 1).unwrap();
    let mut moving = floor(0.5, 0.2);
    moving.linear_velocity = bits3([3.0, 2.0, 1.0]);
    moving.angular_velocity = bits3([1.0, 2.0, 3.0]);
    let still = floor(0.5, 0.2);
    assert_eq!(hash_of(&world, &[("floor", moving)]), hash_of(&world, &[("floor", still)]));
}

#[test]
fn hash_changes_with_gravity() {
    let snapshots = [("box-1", spinning_box())];
    let mut a: World<u32> = World::new(gravity(), timestep());
    a.add_body("box-1".to_owned(), 1).unwrap();
    let mut b: World<u32> = World::new(bits3([0.0, -1.0, 0.0]), timestep());
    b.add_body("box-1".to_owned(), 1).unwrap();
    assert_ne!(hash_of(&a, &snapshots), hash_of(&b, &snapshots));
}

#[test]
fn empty_world_hash_is_sixteen_hex_digits() {
    let world: World<u32> = World::new(gravity(), timestep());
    let hash = world.canonical_state_hash(&[]);
    assert_eq!(hash.len(), 16);
    assert!(hash.chars().all(|c| c.is_ascii_hexdigit() && !c.is_ascii_uppercase()));
    assert_eq!(hash, format_hex16(world.canonical_state_hash_u64(&[])));
}

#[test]
fn hex_formatting_pads_with_zeros() {
    assert_eq!(format_hex16(0), "0000000000000000");
    assert_eq!(format_hex16(1), "0000000000000001");
    assert_eq!(format_hex16(0x1a8cf55faa0e4e4e), "1a8cf55faa0e4e4e");
    assert_eq!(format_hex16(u64::MAX), "ffffffffffffffff");
    assert_eq!(format_hex16(0xabc), format!("{:016x}", 0xabcu64));
}

#[test]
fn new_world_is_empty_at_tick_zero() {
    let world: World<u32> = World::new(gravity(), timestep());
    assert_eq!(world.tick(), 0);
    assert!(world.records().is_empty());
    assert_eq!(world.gravity(), gravity());
    assert_eq!(world.timestep(), timestep());
}

#[test]
fn empty_id_is_refused() {
    let mut world: World<u32> = World::new(gravity(), timestep());
    assert_eq!(world.check_new_body(""), Err(AddBodyError::EmptyId));
    assert_eq!(world.add_body(String::new(), 1), Err(AddBodyError::EmptyId));
    assert!(world.records().is_empty());
    assert_eq!(AddBodyError::EmptyId.message(), "stable id must not be empty");
}

#[test]
fn duplicate_id_is_refused() {
    let mut world: World<u32> = World::new(gravity(), timestep());
    assert_eq!(world.add_body("box-1".to_owned(), 1), Ok(()));
    assert_eq!(world.check_new_body("box-1"), Err(AddBodyError::DuplicateId));
    assert_eq!(world.add_body("box-1".to_owned(), 2), Err(AddBodyError::DuplicateId));
    assert_eq!(world.records().len(), 1);
    assert_eq!(world.body("box-1"), Some(&1));
    assert_eq!(AddBodyError::DuplicateId.message(), "stable id must be unique");
}

#[test]
fn add_then_lookup_finds_payload() {
    let mut world: World<u32> = World::new(gravity(), timestep());
    world.add_body("a".to_owned(), 10).unwrap();
    world.add_body("b".to_owned(), 20).unwrap();
    assert_eq!(world.body("a"), Some(&10));
    assert_eq!(world.body("b"), Some(&20));
    assert_eq!(world.body("c"), None);
    let ids: Vec<&str> = world.records().iter().map(|r| r.id.as_str()).collect();
    assert_eq!(ids, vec!["a", "b"]);
}

#[test]
fn remove_returns_payload_and_frees_id() {
    let mut world: World<u32> = World::new(gravity(), timestep());
    world.add_body("a".to_owned(), 10).unwrap();
    world.add_body("b".to_owned(), 20).unwrap();
    world.add_body("c".to_owned(), 30).unwrap();
    assert_eq!(world.remove_body("b"), Some(20));
    assert_eq!(world.body("b"), None);
    assert_eq!(world.remove_body("b"), None);
    let ids: Vec<&str> = world.records().iter().map(|r| r.id.as_str()).collect();
    assert_eq!(ids, vec!["a", "c"]);
    assert_eq!(world.check_new_body("b"), Ok(()));
    world.add_body("b".to_owned(), 21).unwrap();
    assert_eq!(world.body("b"), Some(&21));
}

#[test]
fn add_then_remove_restores_world() {
    let mut world: World<u32> = World::new(gravity(), timestep());
    world.add_body("a".to_owned(), 10).unwrap();
    world.add_body("z".to_owned(), 99).unwrap();
    assert_eq!(world.remove_body("z"), Some(99));
    let ids: Vec<&str> = world.records().iter().map(|r| r.id.as_str()).collect();
    assert_eq!(ids, vec!["a"]);
    assert_eq!(world.body("a"), Some(&10));
}

#[test]
fn steps_until_plans_forward_steps() {
    let mut world: World<u32> = World::new(gravity(), timestep());
    assert_eq!(world.steps_until(0), Ok(0));
    assert_eq!(world.steps_until(5), Ok(5));
    let n = world.steps_until(5).unwrap();
    for _ in 0..n {
        world.step();
    }
    assert_eq!(world.tick(), 5);
    assert_eq!(world.steps_until(5), Ok(0));
    assert_eq!(world.steps_until(4), Err(StepError::Backwards));
    assert_eq!(StepError::Backwards.message(), "cannot step backwards");
}

#[test]
fn profile_constants() {
    assert_eq!(PROFILE, "SceneSyncRapierParity-0.30");
    assert_eq!(RAPIER_CORE_VERSION, "0.30.0");
    assert_eq!(HASH_VERSION, "SceneSyncCanonicalPhysicsHashV1");
}
