//! A cloth simulation: grids of point masses joined by distance links,
//! stored in one flat array that the instances partition, advanced by
//! Verlet integration, a soft boundary and one relaxation pass per
//! sub-step, and dragged by picking particles near a cursor.
//!
//! The library is generic in its point and scalar types: it decides which
//! particles move, in which order and within which range, and a
//! `physics::Kinematics` implementation supplies the arithmetic.
use vstd::prelude::*;

pub mod control;
pub mod grid;
pub mod partition;
pub mod physics;

verus! {

} // verus!
