//! A flock of boids on a wrapping screen, in fixed-point arithmetic.
//!
//! Lengths count thousandths of a pixel, speeds thousandths of a pixel per
//! second, and frame times microseconds. Each boid steers by three local rules
//! (alignment, cohesion, separation) over its neighbours, then moves and is
//! teleported across the screen's edges. Distances between boids are measured
//! straight across the screen, not around its wrapped edges, so two boids near
//! opposite edges are not neighbours.
pub mod vec2;
pub mod boid;
pub mod sim;
