//! Hexagonal tactical-grid core: axial/cube coordinates, pixel transforms,
//! obstacle-aware movement-range search, and the unit movement lifecycle.

pub mod board;
pub mod hex;
pub mod movement;
pub mod pixel;
pub mod range;
pub mod rings;

pub use hex::Axial;
pub use hex::Cube;
pub use hex::HexDistance;
