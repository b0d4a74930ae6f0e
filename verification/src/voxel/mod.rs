//! What worlds of blocks have in common: where each cell is stored, which cells
//! touch, and how a value floods from cell to cell.
pub mod flood;
pub mod frames;
pub mod ground;
pub mod layout;
pub mod nibble;
pub mod shape;
pub mod slots;
pub mod sorted;
