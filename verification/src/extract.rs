//! The segment extractor: turns a way's ordered node-identifier list into the
//! line segments between consecutive resolvable nodes.
//!
//! A node whose coordinate is unknown is skipped without resetting the
//! previously resolved coordinate, so a gap in the data is bridged by a
//! single segment between its two nearest resolvable neighbors rather than
//! splitting the way. A way with fewer than two resolvable nodes yields no
//! segments.

use vstd::prelude::*;

use crate::coords::CoordTable;
use crate::model::{Coord, Segment};

verus! {

/// The segments extracted from `nodes` under the coordinate map `coords`,
/// starting with `prev` as the last resolved coordinate (none at the start of
/// a way).
pub open spec fn extract_spec(nodes: Seq<u64>, coords: Map<u64, Coord>, prev: Option<Coord>) -> Seq<
    Segment,
>
    decreases nodes.len(),
{
    if nodes.len() == 0 {
        Seq::empty()
    } else {
        let rest = nodes.drop_first();
        if coords.contains_key(nodes[0]) {
            let c = coords[nodes[0]];
            match prev {
                Some(p) => seq![Segment { a: p, b: c }] + extract_spec(rest, coords, Some(c)),
                None => extract_spec(rest, coords, Some(c)),
            }
        } else {
            extract_spec(rest, coords, prev)
        }
    }
}

/// How many of the listed nodes resolve to a coordinate.
pub open spec fn resolved_count(nodes: Seq<u64>, coords: Map<u64, Coord>) -> nat
    decreases nodes.len(),
{
    if nodes.len() == 0 {
        0
    } else {
        (if coords.contains_key(nodes[0]) {
            1nat
        } else {
            0nat
        }) + resolved_count(nodes.drop_first(), coords)
    }
}

/// A way emits one segment per resolvable node after the first resolvable
/// one: with a coordinate already in hand, as many segments as resolvable
/// nodes; from a fresh start, one fewer (and none from fewer than two).
pub proof fn lemma_extract_len(nodes: Seq<u64>, coords: Map<u64, Coord>, prev: Option<Coord>)
    ensures
        extract_spec(nodes, coords, prev).len() == if prev is Some {
            resolved_count(nodes, coords) as int
        } else if resolved_count(nodes, coords) > 0 {
            resolved_count(nodes, coords) - 1
        } else {
            0
        },
    decreases nodes.len(),
{
    if nodes.len() > 0 {
        let rest = nodes.drop_first();
        if coords.contains_key(nodes[0]) {
            lemma_extract_len(rest, coords, Some(coords[nodes[0]]));
        } else {
            lemma_extract_len(rest, coords, prev);
        }
    }
}

/// Extract the segments of one way. See `extract_spec` for the exact result.
pub fn extract_segments(nodes: &Vec<u64>, coords: &CoordTable) -> (segs: Vec<Segment>)
    ensures
        segs@ == extract_spec(nodes@, coords@, None),
{
    let mut segs: Vec<Segment> = Vec::new();
    let mut prev: Option<Coord> = None;
    let mut i: usize = 0;
    proof {
        assert(nodes@.skip(0) =~= nodes@);
        assert(segs@ + extract_spec(nodes@, coords@, None) =~= extract_spec(
            nodes@,
            coords@,
            None,
        ));
    }
    while i < nodes.len()
        invariant
            0 <= i <= nodes@.len(),
            extract_spec(nodes@, coords@, None) == segs@ + extract_spec(
                nodes@.skip(i as int),
                coords@,
                prev,
            ),
        decreases nodes@.len() - i,
    {
        proof {
            assert(nodes@.skip(i as int).len() > 0);
            assert(nodes@.skip(i as int)[0] == nodes@[i as int]);
            assert(nodes@.skip(i as int).drop_first() =~= nodes@.skip(i as int + 1));
        }
        match coords.lookup(nodes[i]) {
            Some(c) => {
                match prev {
                    Some(p) => {
                        segs.push(Segment { a: p, b: c });
                        proof {
                            assert(segs@.drop_last() + (seq![Segment { a: p, b: c }]
                                + extract_spec(nodes@.skip(i as int + 1), coords@, Some(c))) =~=
                            segs@ + extract_spec(nodes@.skip(i as int + 1), coords@, Some(c)));
                        }
                    },
                    None => {},
                }
                prev = Some(c);
            },
            None => {},
        }
        i = i + 1;
    }
    proof {
        assert(nodes@.skip(nodes@.len() as int) =~= Seq::<u64>::empty());
        assert(segs@ + extract_spec(Seq::empty(), coords@, prev) =~= segs@);
    }
    segs
}

} // verus!
