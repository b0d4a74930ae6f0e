//! The verified parts of the Scarlet toolchain.
pub mod core_ir;
pub mod dis;
pub mod embed;
pub mod host;
pub mod lighting;
pub mod listings;
pub mod lsp;
pub mod meshing;
pub mod paths;
pub mod text;
pub mod version;
pub mod vm;
pub mod voxel;
pub mod window;
