//! The discrete core of a Monte Carlo path tracer.
//!
//! A path tracer estimates the light that reaches a camera by following random
//! light paths through a scene.  The arithmetic of that estimate is done in
//! floating point by whoever uses this library.  What is decided along the way
//! is decided here, over integers, and proved:
//!
//! - `scene`: which primitive a ray reaches first, whether a ray aimed at a
//!   light reaches it, and which lights there are to aim at;
//! - `distance`: the keys by which distances are compared;
//! - `integrator`: when a path ends and which rays continue it;
//! - `sampler`: the generator of each row's samples;
//! - `schedule`: how the rows that workers hand in make up an image,
//!   whatever the order in which they come;
//! - `film`: the image in the making, and how partial renders are merged;
//! - `partial`: the text that a partial render is written to and read from;
//! - `tone` and `raster`: the bytes of the finished image;
//! - `config`: what a render is to do when it is told no more.

pub mod config;
pub mod distance;
pub mod film;
pub mod integrator;
pub mod material;
pub mod partial;
pub mod raster;
pub mod sampler;
pub mod scene;
pub mod schedule;
pub mod tone;

pub use crate::material::Material;
pub use crate::scene::{
    is_nearest, nearest, no_hit, picks, reaches, Entry, LightSample, Nearest, Scene,
};
pub use crate::tone::{to_int, Clamp, Level, MAX_LEVEL};
