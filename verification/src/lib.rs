//! Canonical state hashing and body bookkeeping for the SceneSync
//! deterministic physics profile.

pub mod canonical;
pub mod fnv;
pub mod order;
pub mod snapshot;
pub mod wire;
pub mod world;
