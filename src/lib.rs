//! Spectral path-tracing core: samplers and hero wavelengths, the scene's
//! primitive/light/material links, the path tracer's control flow and the
//! tile scheduler.

pub mod bsdf;
pub mod frame;
pub mod integrator;
pub mod math;
pub mod sampling;
pub mod scene;
pub mod shape;
pub mod spectrum;
pub mod tile;
