//! A grid ray-casting renderer core: a tile map with a baked light table, a
//! digital-differential-analyzer ray stepper over the grid lines, perspective
//! wall projection, inverse-perspective floor and ceiling sampling, and a
//! distance-banded lighting model. All world coordinates and angles are kept
//! in Q16.16 fixed point so that every geometric step carries an exact
//! contract; the trigonometric values of each ray are supplied by the caller
//! as precomputed tables, as the classic renderers did.

pub mod fixed;
pub mod light;
pub mod line;
pub mod map;
pub mod ray;
pub mod render;
pub mod rng;
pub mod texture;
pub mod input;
pub mod rotation;
