//! Kinematic model, joint-state bookkeeping and collision-pair bookkeeping for
//! articulated robots.
//!
//! The crate is scalar-agnostic: joint values, distances and pose coefficients are
//! carried as values of a type parameter `T`, moved and stored but never inspected.
//! Where an operation needs arithmetic on them, the caller hands it in as a
//! function, and the contract of the operation says what is done with the results.
//! Everything that is decided on indices, tags and counters is proved here.

pub mod robot_modules;
pub mod utils;
