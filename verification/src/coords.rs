//! The coordinate table: a transient map from node identifier to coordinate,
//! populated node-by-node during the build pass and dropped afterwards.

use std::collections::HashMap;
use vstd::prelude::*;

use crate::model::Coord;

verus! {

broadcast use vstd::std_specs::hash::group_hash_axioms;

/// Transient node-identifier-to-coordinate mapping used while building the
/// index. Recording is an unconditional insert/overwrite; lookup of an
/// identifier that was never recorded returns nothing.
pub struct CoordTable {
    map: HashMap<u64, Coord>,
}

impl View for CoordTable {
    type V = Map<u64, Coord>;

    closed spec fn view(&self) -> Map<u64, Coord> {
        self.map@
    }
}

impl CoordTable {
    /// An empty table, as created at the start of a build pass.
    pub fn new() -> (t: CoordTable)
        ensures
            t@ == Map::<u64, Coord>::empty(),
    {
        CoordTable { map: HashMap::new() }
    }

    /// Record the coordinate of a node, overwriting any earlier record.
    pub fn record(&mut self, id: u64, c: Coord)
        ensures
            final(self)@ == old(self)@.insert(id, c),
    {
        self.map.insert(id, c);
    }

    /// Resolve a node identifier to its most recently recorded coordinate.
    pub fn lookup(&self, id: u64) -> (r: Option<Coord>)
        ensures
            r == if self@.contains_key(id) {
                Some(self@[id])
            } else {
                None::<Coord>
            },
    {
        match self.map.get(&id) {
            Some(c) => Some(*c),
            None => None,
        }
    }
}

} // verus!
