//! Planar inverse kinematics on a chain of revolute joints, in fixed-point
//! arithmetic.
//!
//! Positions, angles and rotation components are integers in units of
//! `1 / SCALE` (micro-units). Joints are held in one ordered vector: a joint's
//! descendants are exactly the joints after it.

pub mod geometry;
pub mod chain;
pub mod path;
