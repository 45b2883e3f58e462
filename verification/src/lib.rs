//! A stochastic color-spreading simulation on a bordered 2D grid.
//!
//! Live cells carry an RGB color and probabilistically convert one dead
//! neighbor per sweep, handing down a randomly perturbed copy of their
//! color. The driver repeats full sweeps until one commits no spread,
//! which detects both a fully alive interior and a permanently stuck
//! configuration.

pub mod color;
pub mod grid;
pub mod rng;
pub mod sim;
