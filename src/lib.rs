//! A two-dimensional simulation of equal-density circular particles in a
//! square box, on integer fixed-point coordinates.
//!
//! Each tick moves every particle, reflects it off the walls of the box,
//! buckets the particles into a uniform grid to find candidate pairs, and
//! resolves the pairs that truly collide by an elastic exchange of the
//! velocity components along the line of impact.
//!
//! Masses are kept in units of pi: a particle of radius `r` has mass `r * r`.
pub mod particle;
pub mod grid;
pub mod collision;
pub mod simulation;
pub mod diagnostics;
mod sampling;
