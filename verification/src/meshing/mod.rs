//! Turning sections of blocks into faces.
pub mod bmp;
pub mod coverage;
pub mod cpu_mesh;
pub mod face;
pub mod gpu_types;
pub mod mesher;
pub mod numbers;
pub mod render;
pub mod sweep;
pub mod world;
