//! The decisions of rigid-body dynamics: which bodies move, which sleep, which
//! are woken, and which contact points carry an impulse from one tick to the
//! next. Positions, velocities and impulses are the caller's arithmetic.

pub mod body;
pub mod solver;
