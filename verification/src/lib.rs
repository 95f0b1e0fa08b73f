//! Distributed spatial perception core: temporal fusion with out-of-sequence
//! measurement support, hex + voxel spatial indexing, signed-packet trust, and
//! deterministic track association and merging.
//!
//! All geometry and filter arithmetic is carried out in fixed-point integers
//! (see [`fixed`]) so that every state transition is an exact, machine-checked
//! function of its inputs.

pub mod fixed;
pub mod matrix;
pub mod order;
pub mod godview_time;
pub mod godview_trust;
pub mod godview_space;
pub mod godview_tracking;

pub use fixed::FX_ONE;
