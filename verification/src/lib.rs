//! Core of a nearest-road service: turns a stream of map records (geographic
//! nodes and named ways) into an immutable pair of a tagged-segment list and a
//! way-name table, and gives that pair a versioned binary cache format.
//!
//! The geometric nearest-neighbor search itself runs in an unverified spatial
//! structure outside this crate; the core hands it the segment list and
//! resolves the way identifier it returns to a display name.

pub mod model;
pub mod coords;
pub mod names;
pub mod bytes;
pub mod extract;
pub mod geo;
pub mod codec;
