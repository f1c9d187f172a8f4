//! Simulation core of a brick-breaker arcade game: launch angle, projectile
//! motion and collision, brick waves, and the round controller.
//!
//! Positions of projectiles are kept in milli-pixels (`SUBPIXELS` per pixel) so
//! that the physics runs on integers; bricks and the arena are laid out in whole
//! pixels.

pub mod config;
pub mod geometry;
pub mod angle;
pub mod ball;
pub mod brick;
pub mod wave;
pub mod game;
pub mod level;
