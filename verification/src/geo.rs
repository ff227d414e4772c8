//! The index: a single build pass over the record stream produces an
//! immutable pair of a tagged-segment list and a way-name table, which is
//! then only queried (or serialized) and never mutated again.

use vstd::prelude::*;

use crate::coords::CoordTable;
use crate::extract::{extract_segments, extract_spec, resolved_count};
use crate::extract::lemma_extract_len;
use crate::model::{Coord, Record, Segment, TaggedSegment};
use crate::names::NameTable;

verus! {

/// The state carried through the build pass: the transient coordinate table,
/// and the name map and segment list under construction.
pub ghost struct BuildState {
    pub coords: Map<u64, Coord>,
    pub names: Map<u64, Seq<char>>,
    pub segs: Seq<TaggedSegment>,
}

/// The segments of one way, each tagged with the way's identifier.
pub open spec fn tag_all(segs: Seq<Segment>, way: u64) -> Seq<TaggedSegment> {
    Seq::new(segs.len(), |i: int| TaggedSegment { seg: segs[i], way })
}

/// How one record advances the build state: a node updates the coordinate
/// table; a named way is recorded in the name map and contributes its
/// extracted segments; an unnamed way is ignored entirely.
pub open spec fn step(s: BuildState, r: Record) -> BuildState {
    match r {
        Record::Node { id, coord } => (BuildState { coords: s.coords.insert(id, coord), ..s }),
        Record::Way { id, name, nodes } => match name {
            Some(n) => (BuildState {
                names: s.names.insert(id, n@),
                segs: s.segs + tag_all(extract_spec(nodes@, s.coords, None), id),
                ..s
            }),
            None => s,
        },
    }
}

/// The build state after consuming a record stream, front to back.
pub open spec fn run(s: BuildState, rs: Seq<Record>) -> BuildState
    decreases rs.len(),
{
    if rs.len() == 0 {
        s
    } else {
        run(step(s, rs[0]), rs.drop_first())
    }
}

/// The state a build pass starts from: an empty coordinate table beside
/// whatever names and segments the index already holds.
pub open spec fn init_state(names: Map<u64, Seq<char>>, segs: Seq<TaggedSegment>) -> BuildState {
    BuildState { coords: Map::empty(), names, segs }
}

/// The state built from a record stream on a fresh index.
pub open spec fn built(rs: Seq<Record>) -> BuildState {
    run(init_state(Map::empty(), Seq::empty()), rs)
}

/// What resolving a nearest-way identifier against a name map returns.
pub open spec fn find_spec(names: Map<u64, Seq<char>>, nearest: Option<u64>) -> Option<Seq<char>> {
    match nearest {
        Some(id) => if names.contains_key(id) {
            Some(names[id])
        } else {
            None
        },
        None => None,
    }
}

/// The queryable pair of the tagged-segment list and the way-name table.
pub struct GeoIndex {
    pub(crate) segments: Vec<TaggedSegment>,
    pub(crate) names: NameTable,
}

impl GeoIndex {
    /// The name table's bookkeeping is intact.
    pub closed spec fn wf(&self) -> bool {
        self.names.wf()
    }

    /// The tagged segments held by the index.
    pub closed spec fn segs(&self) -> Seq<TaggedSegment> {
        self.segments@
    }

    /// The way-identifier-to-name mapping held by the index.
    pub closed spec fn names_map(&self) -> Map<u64, Seq<char>> {
        self.names@
    }

    /// An empty index, ready to be built.
    pub fn new() -> (t: GeoIndex)
        ensures
            t.wf(),
            t.segs() == Seq::<TaggedSegment>::empty(),
            t.names_map() == Map::<u64, Seq<char>>::empty(),
    {
        GeoIndex { segments: Vec::new(), names: NameTable::new() }
    }

    /// The segment list, for the external spatial structure to ingest.
    pub fn segments(&self) -> (r: &Vec<TaggedSegment>)
        ensures
            r@ == self.segs(),
    {
        &self.segments
    }

    /// Consume a record stream in one forward pass: nodes fill a fresh
    /// coordinate table, named ways contribute their name and their
    /// extracted segments, unnamed ways are skipped. A way referencing a
    /// node that has not appeared yet in the stream simply fails to resolve
    /// that node.
    pub fn build(&mut self, records: &Vec<Record>)
        requires
            old(self).wf(),
        ensures
            final(self).wf(),
            final(self).segs() == run(
                init_state(old(self).names_map(), old(self).segs()),
                records@,
            ).segs,
            final(self).names_map() == run(
                init_state(old(self).names_map(), old(self).segs()),
                records@,
            ).names,
    {
        let ghost init = init_state(old(self).names_map(), old(self).segs());
        let mut table = CoordTable::new();
        let mut i: usize = 0;
        proof {
            assert(records@.skip(0) =~= records@);
        }
        while i < records.len()
            invariant
                0 <= i <= records@.len(),
                self.wf(),
                run(init, records@) == run(
                    BuildState { coords: table@, names: self.names_map(), segs: self.segs() },
                    records@.skip(i as int),
                ),
            decreases records@.len() - i,
        {
            proof {
                assert(records@.skip(i as int)[0] == records@[i as int]);
                assert(records@.skip(i as int).drop_first() =~= records@.skip(i as int + 1));
            }
            let ghost pre = BuildState {
                coords: table@,
                names: self.names_map(),
                segs: self.segs(),
            };
            match &records[i] {
                Record::Node { id, coord } => {
                    table.record(*id, *coord);
                },
                Record::Way { id, name, nodes } => {
                    match name {
                        Some(n) => {
                            self.names.set(*id, n.clone());
                            let segs = extract_segments(nodes, &table);
                            push_tagged(&mut self.segments, &segs, *id);
                        },
                        None => {},
                    }
                },
            }
            proof {
                assert(BuildState { coords: table@, names: self.names_map(), segs: self.segs() }
                    == step(pre, records@[i as int]));
            }
            i = i + 1;
        }
        proof {
            assert(records@.skip(records@.len() as int) =~= Seq::<Record>::empty());
        }
    }

    /// Resolve the way identifier produced by the external nearest-neighbor
    /// search (or nothing, when the spatial structure holds no segment) to
    /// the way's display name. Always returns a definite found/not-found
    /// outcome, never a fault.
    pub fn find(&self, nearest: Option<u64>) -> (r: Option<String>)
        ensures
            (match r {
                Some(s) => find_spec(self.names_map(), nearest) == Some(s@),
                None => find_spec(self.names_map(), nearest) is None,
            }),
    {
        match nearest {
            Some(id) => match self.names.get(id) {
                Some(s) => Some(s.clone()),
                None => None,
            },
            None => None,
        }
    }
}

/// Crate-internal bridge between the index's abstract view and its fields,
/// for the codec, which lives in another module.
pub(crate) proof fn lemma_geo_view(x: &GeoIndex)
    ensures
        x.wf() <==> x.names.wf(),
        x.segs() == x.segments@,
        x.names_map() == x.names@,
{
}

/// Consuming a stream is consuming its first part, then the rest.
pub proof fn lemma_run_decompose(s: BuildState, rs: Seq<Record>, i: int)
    requires
        0 <= i <= rs.len(),
    ensures
        run(s, rs) == run(run(s, rs.take(i)), rs.skip(i)),
    decreases i,
{
    if i == 0 {
        assert(rs.take(0) =~= Seq::<Record>::empty());
        assert(rs.skip(0) =~= rs);
    } else {
        lemma_run_decompose(step(s, rs[0]), rs.drop_first(), i - 1);
        assert(rs.drop_first().take(i - 1) =~= rs.take(i).drop_first());
        assert(rs.drop_first().skip(i - 1) =~= rs.skip(i));
        assert(rs.take(i)[0] == rs[0]);
    }
}

/// A build pass only appends segments: what is in the list stays, in place.
pub proof fn lemma_run_segs_grow(s: BuildState, rs: Seq<Record>)
    ensures
        run(s, rs).segs.len() >= s.segs.len(),
        forall|j: int| 0 <= j < s.segs.len() ==> run(s, rs).segs[j] == s.segs[j],
    decreases rs.len(),
{
    if rs.len() > 0 {
        let s1 = step(s, rs[0]);
        assert(s1.segs.len() >= s.segs.len());
        lemma_run_segs_grow(s1, rs.drop_first());
        assert(run(s, rs) == run(s1, rs.drop_first()));
        assert forall|j: int| 0 <= j < s.segs.len() implies run(s, rs).segs[j] == s.segs[j] by {
            assert(s1.segs[j] == s.segs[j]);
            assert(run(s1, rs.drop_first()).segs[j] == s1.segs[j]);
        }
    }
}

/// Law: a way record carrying a name and at least two nodes resolvable at
/// the moment it is processed contributes at least one segment tagged with
/// its identifier to the built index.
pub proof fn lemma_named_way_contributes(
    rs: Seq<Record>,
    i: int,
    id: u64,
    name: String,
    nodes: Vec<u64>,
)
    requires
        0 <= i < rs.len(),
        rs[i] == (Record::Way { id, name: Some(name), nodes }),
        name@.len() > 0,
        resolved_count(nodes@, run(init_state(Map::empty(), Seq::empty()), rs.take(i)).coords)
            >= 2,
    ensures
        exists|j: int| 0 <= j < built(rs).segs.len() && #[trigger] built(rs).segs[j].way == id,
{
    let s0 = init_state(Map::empty(), Seq::empty());
    lemma_run_decompose(s0, rs, i);
    let mid = run(s0, rs.take(i));
    assert(rs.skip(i)[0] == rs[i]);
    assert(rs.skip(i).drop_first() =~= rs.skip(i + 1));
    let stepped = step(mid, rs[i]);
    lemma_extract_len(nodes@, mid.coords, None);
    let j = mid.segs.len() as int;
    assert(stepped.segs[j].way == id);
    lemma_run_segs_grow(stepped, rs.skip(i + 1));
    assert(built(rs).segs[j].way == id);
}

/// Whether a record is a way that carries a name and this identifier.
pub open spec fn is_named_way(r: Record, id: u64) -> bool {
    match r {
        Record::Way { id: wid, name, nodes: _ } => wid == id && name is Some,
        _ => false,
    }
}

proof fn lemma_run_excludes(s: BuildState, rs: Seq<Record>, id: u64)
    requires
        !s.names.contains_key(id),
        forall|j: int| 0 <= j < s.segs.len() ==> #[trigger] s.segs[j].way != id,
        forall|i: int| 0 <= i < rs.len() ==> !is_named_way(#[trigger] rs[i], id),
    ensures
        !run(s, rs).names.contains_key(id),
        forall|j: int| 0 <= j < run(s, rs).segs.len() ==> #[trigger] run(s, rs).segs[j].way != id,
    decreases rs.len(),
{
    if rs.len() > 0 {
        let s1 = step(s, rs[0]);
        assert(!is_named_way(rs[0], id));
        assert(!s1.names.contains_key(id));
        assert(forall|j: int| 0 <= j < s1.segs.len() ==> #[trigger] s1.segs[j].way != id);
        assert(forall|i: int|
            0 <= i < rs.drop_first().len() ==> !is_named_way(#[trigger] rs.drop_first()[i], id));
        lemma_run_excludes(s1, rs.drop_first(), id);
    }
}

/// Law: an identifier that no named way record carries ends up with no
/// segment tagged with it and no entry in the name table. In particular a
/// way whose name tag is missing contributes nothing at all.
pub proof fn lemma_unnamed_way_excluded(rs: Seq<Record>, id: u64)
    requires
        forall|i: int| 0 <= i < rs.len() ==> !is_named_way(#[trigger] rs[i], id),
    ensures
        !built(rs).names.contains_key(id),
        forall|j: int| 0 <= j < built(rs).segs.len() ==> #[trigger] built(rs).segs[j].way != id,
{
    lemma_run_excludes(init_state(Map::empty(), Seq::empty()), rs, id);
}

/// Law: building is a pure function of the record stream. Two indices built
/// from the same stream hold the same segments and answer every lookup the
/// same way; any variation across runs can only come from the external
/// spatial structure's tie-breaking, never from the core.
pub proof fn lemma_build_deterministic(a: GeoIndex, b: GeoIndex, rs: Seq<Record>)
    requires
        a.segs() == built(rs).segs,
        a.names_map() == built(rs).names,
        b.segs() == built(rs).segs,
        b.names_map() == built(rs).names,
    ensures
        a.segs() == b.segs(),
        forall|w: Option<u64>| find_spec(a.names_map(), w) == find_spec(b.names_map(), w),
{
}

/// Append every segment of one way, tagged with the way's identifier.
fn push_tagged(dst: &mut Vec<TaggedSegment>, segs: &Vec<Segment>, way: u64)
    ensures
        final(dst)@ == old(dst)@ + tag_all(segs@, way),
{
    let mut j: usize = 0;
    proof {
        assert(dst@ =~= old(dst)@ + tag_all(segs@, way).take(0));
    }
    while j < segs.len()
        invariant
            0 <= j <= segs@.len(),
            dst@ == old(dst)@ + tag_all(segs@, way).take(j as int),
        decreases segs@.len() - j,
    {
        dst.push(TaggedSegment { seg: segs[j], way });
        proof {
            assert(dst@ =~= old(dst)@ + tag_all(segs@, way).take(j as int + 1));
        }
        j = j + 1;
    }
    proof {
        assert(old(dst)@ + tag_all(segs@, way).take(segs@.len() as int) =~= old(dst)@ + tag_all(
            segs@,
            way,
        ));
    }
}

} // verus!
