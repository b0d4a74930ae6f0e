//! Lighting a world of blocks: block light and sky light as flood fills, ambient
//! occlusion per face corner, and the sections an edit touches.
pub mod block_light;
pub mod cpu_light;
pub mod cpu_mesh;
pub mod exactness;
pub mod face;
pub mod falloff;
pub mod formats;
pub mod gpu;
pub mod gpu_types;
pub mod light;
pub mod light_cpu;
pub mod light_model;
pub mod mesher;
pub mod png;
pub mod reach;
pub mod relight;
pub mod render;
pub mod scene;
pub mod terrain;
pub mod world;
