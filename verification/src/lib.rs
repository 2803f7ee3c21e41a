//! Density-driven Poisson-disk stippling: the integer core of the sampler,
//! the spatial grid, the frame plan and the pixel-level renderers.

pub mod config;
pub mod density;
pub mod renderer;
pub mod sampler;
