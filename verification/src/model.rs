//! The data model of the ingestion stream and of the built index.

use vstd::prelude::*;

verus! {

/// A geographic coordinate, carried as the bit patterns of two IEEE 754
/// single-precision values (latitude, longitude). The core stores and copies
/// coordinates without ever interpreting them numerically: range validation is
/// deliberately not performed, and out-of-range source data is indexed as-is.
/// Only the external spatial structure reads the numeric values back.
#[derive(Clone, Copy, PartialEq, Eq, Structural, Debug)]
pub struct Coord {
    pub lat_bits: u32,
    pub lon_bits: u32,
}

/// A straight line between two consecutive resolved coordinates of a way.
#[derive(Clone, Copy, PartialEq, Eq, Structural, Debug)]
pub struct Segment {
    pub a: Coord,
    pub b: Coord,
}

/// A segment tagged with the identifier of the way it was derived from. The
/// name string itself is kept once, in the name table, not in each segment.
#[derive(Clone, Copy, PartialEq, Eq, Structural, Debug)]
pub struct TaggedSegment {
    pub seg: Segment,
    pub way: u64,
}

/// One record of the forward-only ingestion stream, as delivered by the
/// external map-extract decoder: a node fixing a coordinate for an
/// identifier, or a way with an optional display name and an ordered list of
/// node identifiers.
pub enum Record {
    Node { id: u64, coord: Coord },
    Way { id: u64, name: Option<String>, nodes: Vec<u64> },
}

} // verus!
