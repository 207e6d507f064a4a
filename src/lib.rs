//! Reassembles a rectangular picture from an unordered set of tiles, using
//! only the pixel content of the tiles' borders.

pub mod config;
pub mod fingerprint;
pub mod piece;
pub mod index;
pub mod assemble;
pub mod layout;
pub mod compose;
pub mod ingest;
