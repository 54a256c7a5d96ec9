//! A falling-particle simulation in fixed-point arithmetic: kinematics with
//! floor recycling, proximity merging inside fixed-size partitions, and
//! clamped thermal decay. One unit of length, speed, mass or temperature is
//! `1 / SCALE` of the quantity it measures.
pub mod config;
pub mod arith;
mod rng;
pub mod particle;
pub mod system;
pub mod laws;
