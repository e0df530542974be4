//! Verified 2D inverse-kinematics kernel for articulated chains.
//!
//! A kinematic chain is an ordered sequence of rigid links anchored at a
//! root point. Given a target point, the solvers compute joint positions
//! (FABRIK, position based) or joint orientations (CCD, rotation based)
//! that bring the end effector toward the target.
//!
//! All coordinates are fixed-point integers: a caller picks a scale (for
//! example thousandths of a world unit) and passes every position, length
//! and tolerance in those units. Integer arithmetic keeps every operation
//! exact enough to verify and rules out `NaN` and infinities by
//! construction.

pub mod ccd;
pub mod chain;
pub mod fabrik;
pub mod geom;
pub mod orient;
pub mod rot;

pub use geom::Point;
pub use chain::{Chain, Joint, BuildError};
pub use fabrik::SolveResult;
pub use rot::Rotor;
