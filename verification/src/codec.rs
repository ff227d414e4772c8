//! The persistence codec: a versioned binary layout of the (segment list,
//! name table) pair, so a later startup can skip re-ingesting the source.
//!
//! Layout: a four-byte magic (which carries the format version), the total
//! byte length, the segment count and the name count, each as eight
//! little-endian bytes; then each segment as four coordinate words and the
//! way identifier; then each name entry as the way identifier, the UTF-8
//! byte length, and the UTF-8 bytes. Any deviation — wrong magic, wrong
//! total length, counts that overrun the bytes, invalid UTF-8, trailing
//! garbage — is a decode failure, never a partial structure.

use vstd::prelude::*;

use crate::bytes::{
    lemma_u32_round_trip, lemma_u64_round_trip, push_u32_le, push_u64_le, read_u32_le,
    read_u64_le, u32_from, u32_le, u64_from, u64_le,
};
use crate::geo::GeoIndex;
use crate::model::{Coord, Segment, TaggedSegment};
use crate::names::NameTable;
use vstd::utf8::{decode_utf8, encode_utf8, valid_utf8};

verus! {

broadcast use vstd::utf8::encode_utf8_valid_utf8, vstd::utf8::encode_utf8_decode_utf8;

/// Decoding failed: the bytes are not a well-formed encoding of an index.
#[derive(Clone, Copy, PartialEq, Eq, Structural, Debug)]
pub struct CorruptCache;

/// The magic that opens every encoding; its last byte is the format version.
pub open spec fn magic() -> Seq<u8> {
    seq![0x70u8, 0x62u8, 0x67u8, 0x31u8]
}

/// The 24-byte layout of one tagged segment.
pub open spec fn seg_bytes(t: TaggedSegment) -> Seq<u8> {
    u32_le(t.seg.a.lat_bits) + u32_le(t.seg.a.lon_bits) + u32_le(t.seg.b.lat_bits) + u32_le(
        t.seg.b.lon_bits,
    ) + u64_le(t.way)
}

/// The concatenated layout of a segment list.
pub open spec fn segs_bytes(s: Seq<TaggedSegment>) -> Seq<u8>
    decreases s.len(),
{
    if s.len() == 0 {
        Seq::empty()
    } else {
        seg_bytes(s[0]) + segs_bytes(s.drop_first())
    }
}

/// The layout of one name entry: way identifier, UTF-8 length, UTF-8 bytes.
pub open spec fn pair_bytes(id: u64, name: Seq<char>) -> Seq<u8> {
    u64_le(id) + u64_le(encode_utf8(name).len() as u64) + encode_utf8(name)
}

/// The concatenated layout of a name list.
pub open spec fn pairs_bytes(ps: Seq<(u64, Seq<char>)>) -> Seq<u8>
    decreases ps.len(),
{
    if ps.len() == 0 {
        Seq::empty()
    } else {
        pair_bytes(ps[0].0, ps[0].1) + pairs_bytes(ps.drop_first())
    }
}

/// The total length of an encoding: a 28-byte header plus both payloads.
pub open spec fn body_len(segs: Seq<TaggedSegment>, ps: Seq<(u64, Seq<char>)>) -> int {
    28 + segs_bytes(segs).len() as int + pairs_bytes(ps).len() as int
}

/// The counts and the total length fit the fixed-width header fields.
pub open spec fn encodable(segs: Seq<TaggedSegment>, ps: Seq<(u64, Seq<char>)>) -> bool {
    &&& body_len(segs, ps) < 0x1_0000_0000_0000_0000
    &&& segs.len() < 0x1_0000_0000_0000_0000
    &&& ps.len() < 0x1_0000_0000_0000_0000
    &&& forall|k: int|
        0 <= k < ps.len() ==> encode_utf8(#[trigger] ps[k].1).len() < 0x1_0000_0000_0000_0000
}

/// The whole encoding of a segment list and a name list.
pub open spec fn encode_bytes(segs: Seq<TaggedSegment>, ps: Seq<(u64, Seq<char>)>) -> Seq<u8> {
    magic() + u64_le(body_len(segs, ps) as u64) + u64_le(segs.len() as u64) + u64_le(
        ps.len() as u64,
    ) + segs_bytes(segs) + pairs_bytes(ps)
}

/// A name list enumerates a name map exactly: distinct identifiers, each
/// mapped to its listed name, and none missing.
pub open spec fn pairs_corr(ps: Seq<(u64, Seq<char>)>, m: Map<u64, Seq<char>>) -> bool {
    &&& ps.map_values(|p: (u64, Seq<char>)| p.0).no_duplicates()
    &&& forall|k: int|
        0 <= k < ps.len() ==> m.contains_key(#[trigger] ps[k].0) && m[ps[k].0] == ps[k].1
    &&& forall|id: u64| #[trigger] m.contains_key(id) ==> exists|k: int|
            0 <= k < ps.len() && ps[k].0 == id
}

/// The map a name list builds up, later entries overwriting earlier ones.
pub open spec fn map_of_pairs(ps: Seq<(u64, Seq<char>)>) -> Map<u64, Seq<char>>
    decreases ps.len(),
{
    if ps.len() == 0 {
        Map::empty()
    } else {
        map_of_pairs(ps.drop_last()).insert(ps.last().0, ps.last().1)
    }
}

/// The tagged segment read back from its 24-byte layout.
pub open spec fn seg_of(b: Seq<u8>) -> TaggedSegment
    recommends
        b.len() == 24,
{
    TaggedSegment {
        seg: Segment {
            a: Coord { lat_bits: u32_from(b.subrange(0, 4)), lon_bits: u32_from(b.subrange(4, 8)) },
            b: Coord {
                lat_bits: u32_from(b.subrange(8, 12)),
                lon_bits: u32_from(b.subrange(12, 16)),
            },
        },
        way: u64_from(b.subrange(16, 24)),
    }
}

/// Parse `n` segments at an offset; nothing if the bytes run out.
pub open spec fn parse_segs(b: Seq<u8>, off: int, n: nat) -> Option<Seq<TaggedSegment>>
    decreases n,
{
    if n == 0 {
        Some(Seq::empty())
    } else if off + 24 <= b.len() {
        match parse_segs(b, off + 24, (n - 1) as nat) {
            Some(rest) => Some(seq![seg_of(b.subrange(off, off + 24))] + rest),
            None => None,
        }
    } else {
        None
    }
}

/// Parse `n` name entries at an offset, also yielding the end offset;
/// nothing if the bytes run out or a name is not valid UTF-8.
pub open spec fn parse_pairs(b: Seq<u8>, off: int, n: nat) -> Option<
    (Seq<(u64, Seq<char>)>, int),
>
    decreases n,
{
    if n == 0 {
        Some((Seq::empty(), off))
    } else if off + 16 <= b.len() {
        let id = u64_from(b.subrange(off, off + 8));
        let l = u64_from(b.subrange(off + 8, off + 16)) as int;
        if off + 16 + l <= b.len() && valid_utf8(b.subrange(off + 16, off + 16 + l)) {
            match parse_pairs(b, off + 16 + l, (n - 1) as nat) {
                Some((rest, end)) => Some(
                    (seq![(id, decode_utf8(b.subrange(off + 16, off + 16 + l)))] + rest, end),
                ),
                None => None,
            }
        } else {
            None
        }
    } else {
        None
    }
}

/// Parse a whole encoding: header, segments, names, and nothing left over.
pub open spec fn parse_index(b: Seq<u8>) -> Option<(Seq<TaggedSegment>, Seq<(u64, Seq<char>)>)> {
    if b.len() >= 28 && b.subrange(0, 4) == magic() && u64_from(b.subrange(4, 12)) as int
        == b.len() as int {
        let ns = u64_from(b.subrange(12, 20));
        let np = u64_from(b.subrange(20, 28));
        match parse_segs(b, 28, ns as nat) {
            Some(segs) => match parse_pairs(b, 28 + 24 * (ns as int), np as nat) {
                Some((ps, end)) => if end == b.len() as int {
                    Some((segs, ps))
                } else {
                    None
                },
                None => None,
            },
            None => None,
        }
    } else {
        None
    }
}

/// One segment's layout is 24 bytes long.
pub proof fn lemma_seg_bytes_len(t: TaggedSegment)
    ensures
        seg_bytes(t).len() == 24,
{
}

/// A segment list's layout is 24 bytes per segment.
pub proof fn lemma_segs_bytes_len(s: Seq<TaggedSegment>)
    ensures
        segs_bytes(s).len() == 24 * s.len(),
    decreases s.len(),
{
    if s.len() > 0 {
        lemma_segs_bytes_len(s.drop_first());
    }
}

/// Appending one segment appends its layout.
pub proof fn lemma_segs_bytes_snoc(s: Seq<TaggedSegment>, x: TaggedSegment)
    ensures
        segs_bytes(s.push(x)) == segs_bytes(s) + seg_bytes(x),
    decreases s.len(),
{
    if s.len() == 0 {
        assert(s.push(x)[0] == x);
        assert(s.push(x).drop_first() =~= Seq::<TaggedSegment>::empty());
        assert(s =~= Seq::<TaggedSegment>::empty());
        assert(segs_bytes(Seq::<TaggedSegment>::empty()) == Seq::<u8>::empty());
        assert(segs_bytes(s.push(x)) == seg_bytes(x) + Seq::<u8>::empty());
        assert(seg_bytes(x) + Seq::<u8>::empty() =~= Seq::<u8>::empty() + seg_bytes(x));
    } else {
        assert(s.push(x)[0] == s[0]);
        assert(s.push(x).drop_first() =~= s.drop_first().push(x));
        lemma_segs_bytes_snoc(s.drop_first(), x);
        assert(segs_bytes(s.push(x)) == seg_bytes(s[0]) + segs_bytes(s.drop_first().push(x)));
        assert(segs_bytes(s) == seg_bytes(s[0]) + segs_bytes(s.drop_first()));
        assert(seg_bytes(s[0]) + (segs_bytes(s.drop_first()) + seg_bytes(x)) =~= (seg_bytes(s[0])
            + segs_bytes(s.drop_first())) + seg_bytes(x));
    }
}

/// Appending one name entry appends its layout.
pub proof fn lemma_pairs_bytes_snoc(ps: Seq<(u64, Seq<char>)>, id: u64, name: Seq<char>)
    ensures
        pairs_bytes(ps.push((id, name))) == pairs_bytes(ps) + pair_bytes(id, name),
    decreases ps.len(),
{
    if ps.len() == 0 {
        assert(ps.push((id, name))[0] == (id, name));
        assert(ps.push((id, name)).drop_first() =~= Seq::<(u64, Seq<char>)>::empty());
        assert(ps =~= Seq::<(u64, Seq<char>)>::empty());
        assert(pairs_bytes(Seq::<(u64, Seq<char>)>::empty()) == Seq::<u8>::empty());
        assert(pairs_bytes(ps.push((id, name))) == pair_bytes(id, name) + Seq::<u8>::empty());
        assert(pair_bytes(id, name) + Seq::<u8>::empty() =~= Seq::<u8>::empty() + pair_bytes(
            id,
            name,
        ));
    } else {
        assert(ps.push((id, name))[0] == ps[0]);
        assert(ps.push((id, name)).drop_first() =~= ps.drop_first().push((id, name)));
        lemma_pairs_bytes_snoc(ps.drop_first(), id, name);
        assert(pairs_bytes(ps.push((id, name))) == pair_bytes(ps[0].0, ps[0].1) + pairs_bytes(
            ps.drop_first().push((id, name)),
        ));
        assert(pairs_bytes(ps) == pair_bytes(ps[0].0, ps[0].1) + pairs_bytes(ps.drop_first()));
        assert(pair_bytes(ps[0].0, ps[0].1) + (pairs_bytes(ps.drop_first()) + pair_bytes(
            id,
            name,
        )) =~= (pair_bytes(ps[0].0, ps[0].1) + pairs_bytes(ps.drop_first())) + pair_bytes(
            id,
            name,
        ));
    }
}

/// Reading back one segment's layout yields the segment.
pub proof fn lemma_seg_of_seg_bytes(t: TaggedSegment)
    ensures
        seg_of(seg_bytes(t)) == t,
{
    let b = seg_bytes(t);
    assert(b.subrange(0, 4) =~= u32_le(t.seg.a.lat_bits));
    assert(b.subrange(4, 8) =~= u32_le(t.seg.a.lon_bits));
    assert(b.subrange(8, 12) =~= u32_le(t.seg.b.lat_bits));
    assert(b.subrange(12, 16) =~= u32_le(t.seg.b.lon_bits));
    assert(b.subrange(16, 24) =~= u64_le(t.way));
    lemma_u32_round_trip(t.seg.a.lat_bits);
    lemma_u32_round_trip(t.seg.a.lon_bits);
    lemma_u32_round_trip(t.seg.b.lat_bits);
    lemma_u32_round_trip(t.seg.b.lon_bits);
    lemma_u64_round_trip(t.way);
}

/// Parsing a segment list's layout back out of a larger byte string yields
/// the list.
pub proof fn lemma_parse_segs_at(b: Seq<u8>, off: int, s: Seq<TaggedSegment>)
    requires
        0 <= off,
        off + 24 * s.len() <= b.len(),
        b.subrange(off, off + 24 * s.len()) == segs_bytes(s),
    ensures
        parse_segs(b, off, s.len() as nat) == Some(s),
    decreases s.len(),
{
    lemma_segs_bytes_len(s);
    if s.len() == 0 {
        assert(s =~= Seq::<TaggedSegment>::empty());
    } else {
        let head = s[0];
        let rest = s.drop_first();
        lemma_seg_bytes_len(head);
        lemma_segs_bytes_len(rest);
        assert(b.subrange(off, off + 24) =~= segs_bytes(s).subrange(0, 24)) by {
            assert forall|k: int| 0 <= k < 24 implies b.subrange(off, off + 24)[k] == segs_bytes(
                s,
            ).subrange(0, 24)[k] by {
                assert(b.subrange(off, off + 24)[k] == b.subrange(off, off + 24 * s.len())[k]);
            }
        }
        assert(segs_bytes(s).subrange(0, 24) =~= seg_bytes(head));
        lemma_seg_of_seg_bytes(head);
        assert(seg_of(b.subrange(off, off + 24)) == head);
        assert(b.subrange(off + 24, off + 24 + 24 * rest.len()) =~= segs_bytes(rest)) by {
            assert forall|k: int| 0 <= k < 24 * rest.len() implies b.subrange(
                off + 24,
                off + 24 + 24 * rest.len(),
            )[k] == segs_bytes(rest)[k] by {
                assert(b.subrange(off + 24, off + 24 + 24 * rest.len())[k] == b.subrange(
                    off,
                    off + 24 * s.len(),
                )[24 + k]);
                assert(segs_bytes(s)[24 + k] == (seg_bytes(head) + segs_bytes(rest))[24 + k]);
            }
        }
        lemma_parse_segs_at(b, off + 24, rest);
        assert(seq![seg_of(b.subrange(off, off + 24))] + rest =~= s);
    }
}

/// Parsing a name list's layout back out of a larger byte string yields the
/// list and ends where the layout ends.
pub proof fn lemma_parse_pairs_at(b: Seq<u8>, off: int, ps: Seq<(u64, Seq<char>)>)
    requires
        0 <= off,
        off + pairs_bytes(ps).len() <= b.len(),
        b.subrange(off, off + pairs_bytes(ps).len()) == pairs_bytes(ps),
        forall|k: int|
            0 <= k < ps.len() ==> encode_utf8(#[trigger] ps[k].1).len() < 0x1_0000_0000_0000_0000,
    ensures
        parse_pairs(b, off, ps.len() as nat) == Some((ps, off + pairs_bytes(ps).len())),
    decreases ps.len(),
{
    if ps.len() == 0 {
        assert(ps =~= Seq::<(u64, Seq<char>)>::empty());
    } else {
        let id = ps[0].0;
        let name = ps[0].1;
        let rest = ps.drop_first();
        let nb = encode_utf8(name);
        let el = nb.len() as int;
        let hb = pair_bytes(id, name);
        assert(hb.len() == 16 + el);
        let total = pairs_bytes(ps).len();
        assert(pairs_bytes(ps) == hb + pairs_bytes(rest));
        assert(total == hb.len() + pairs_bytes(rest).len());
        assert forall|k: int| 0 <= k < hb.len() implies b.subrange(off, off + hb.len())[k]
            == hb[k] by {
            assert(b.subrange(off, off + hb.len())[k] == b.subrange(off, off + total)[k]);
            assert(pairs_bytes(ps)[k] == hb[k]);
        }
        assert(b.subrange(off, off + hb.len()) =~= hb);
        assert(b.subrange(off, off + 8) =~= u64_le(id)) by {
            assert forall|k: int| 0 <= k < 8 implies b.subrange(off, off + 8)[k] == u64_le(
                id,
            )[k] by {
                assert(b.subrange(off, off + 8)[k] == b.subrange(off, off + hb.len())[k]);
                assert(hb[k] == u64_le(id)[k]);
            }
        }
        assert(b.subrange(off + 8, off + 16) =~= u64_le(el as u64)) by {
            assert forall|k: int| 0 <= k < 8 implies #[trigger] b.subrange(off + 8, off + 16)[k]
                == u64_le(el as u64)[k] by {
                assert(b.subrange(off + 8, off + 16)[k] == b.subrange(off, off + hb.len())[8 + k]);
                assert(hb[8 + k] == u64_le(el as u64)[k]);
            }
        }
        assert(b.subrange(off + 16, off + 16 + el) =~= nb) by {
            assert forall|k: int| 0 <= k < el implies b.subrange(off + 16, off + 16 + el)[k]
                == nb[k] by {
                assert(b.subrange(off + 16, off + 16 + el)[k] == b.subrange(
                    off,
                    off + hb.len(),
                )[16 + k]);
                assert(hb[16 + k] == nb[k]);
            }
        }
        lemma_u64_round_trip(id);
        lemma_u64_round_trip(el as u64);
        assert(valid_utf8(b.subrange(off + 16, off + 16 + el)));
        assert(decode_utf8(b.subrange(off + 16, off + 16 + el)) == name);
        assert forall|k: int| 0 <= k < pairs_bytes(rest).len() implies b.subrange(
            off + 16 + el,
            off + 16 + el + pairs_bytes(rest).len(),
        )[k] == pairs_bytes(rest)[k] by {
            assert(b.subrange(off + 16 + el, off + 16 + el + pairs_bytes(rest).len())[k]
                == b.subrange(off, off + total)[16 + el + k]);
            assert(pairs_bytes(ps)[16 + el + k] == pairs_bytes(rest)[k]);
        }
        assert(b.subrange(off + 16 + el, off + 16 + el + pairs_bytes(rest).len()) =~= pairs_bytes(
            rest,
        ));
        lemma_parse_pairs_at(b, off + 16 + el, rest);
        assert(seq![(id, name)] + rest =~= ps);
    }
}

/// Law (round trip, bytes side): parsing an encoding yields exactly the
/// segment list and name list it was made from — for any encodable pair,
/// including the empty one.
pub proof fn lemma_round_trip(segs: Seq<TaggedSegment>, ps: Seq<(u64, Seq<char>)>)
    requires
        encodable(segs, ps),
    ensures
        parse_index(encode_bytes(segs, ps)) == Some((segs, ps)),
{
    let b = encode_bytes(segs, ps);
    lemma_segs_bytes_len(segs);
    let sb = segs_bytes(segs);
    let pb = pairs_bytes(ps);
    let total = body_len(segs, ps);
    assert(b.len() == total);
    assert(b.subrange(0, 4) =~= magic());
    assert(b.subrange(4, 12) =~= u64_le(total as u64));
    assert(b.subrange(12, 20) =~= u64_le(segs.len() as u64));
    assert(b.subrange(20, 28) =~= u64_le(ps.len() as u64));
    lemma_u64_round_trip(total as u64);
    lemma_u64_round_trip(segs.len() as u64);
    lemma_u64_round_trip(ps.len() as u64);
    assert(b.subrange(28, 28 + sb.len() as int) =~= sb);
    assert(b.subrange(28 + sb.len() as int, 28 + sb.len() as int + pb.len() as int) =~= pb);
    lemma_parse_segs_at(b, 28, segs);
    lemma_parse_pairs_at(b, 28 + 24 * segs.len() as int, ps);
}

/// Law (round trip, map side): a name list that enumerates a map rebuilds
/// exactly that map.
pub proof fn lemma_pairs_corr_map(ps: Seq<(u64, Seq<char>)>, m: Map<u64, Seq<char>>)
    requires
        pairs_corr(ps, m),
    ensures
        map_of_pairs(ps) == m,
    decreases ps.len(),
{
    let f = |p: (u64, Seq<char>)| p.0;
    if ps.len() == 0 {
        assert forall|id: u64| !(#[trigger] m.contains_key(id)) by {
            if m.contains_key(id) {
                let k = choose|k: int| 0 <= k < ps.len() && ps[k].0 == id;
                assert(false);
            }
        }
        assert(map_of_pairs(ps) =~= m);
    } else {
        let last = ps.last();
        let rest = ps.drop_last();
        let m2 = m.remove(last.0);
        assert(ps.map_values(f)[ps.len() - 1] == last.0);
        assert forall|i: int, j: int|
            0 <= i < j < rest.len() implies #[trigger] rest.map_values(f)[i]
            != #[trigger] rest.map_values(f)[j] by {
            assert(rest.map_values(f)[i] == ps.map_values(f)[i]);
            assert(rest.map_values(f)[j] == ps.map_values(f)[j]);
        }
        assert(rest.map_values(f).no_duplicates());
        assert forall|k: int|
            0 <= k < rest.len() implies m2.contains_key(#[trigger] rest[k].0) && m2[rest[k].0]
            == rest[k].1 by {
            assert(rest[k] == ps[k]);
            assert(ps.map_values(f)[k] == ps[k].0);
            assert(ps[k].0 != last.0);
        }
        assert forall|id: u64| #[trigger] m2.contains_key(id) implies exists|k: int|
            0 <= k < rest.len() && rest[k].0 == id by {
            let k = choose|k: int| 0 <= k < ps.len() && ps[k].0 == id;
            assert(ps.map_values(f)[k] == ps[k].0);
            assert(k != ps.len() - 1);
            assert(rest[k].0 == id);
        }
        lemma_pairs_corr_map(rest, m2);
        assert(m.contains_key(last.0) && m[last.0] == last.1);
        assert(m2.insert(last.0, last.1) =~= m);
    }
}

impl GeoIndex {
    /// Serialize the index. The result is an encoding of the segment list
    /// together with some enumeration of the name map.
    pub fn encode(&self) -> (r: Vec<u8>)
        requires
            self.wf(),
        ensures
            exists|ps: Seq<(u64, Seq<char>)>|
                {
                    &&& pairs_corr(ps, self.names_map())
                    &&& encodable(self.segs(), ps)
                    &&& r@ == encode_bytes(self.segs(), ps)
                },
    {
        proof {
            crate::geo::lemma_geo_view(self);
        }
        let ns = self.segments.len();
        let np = self.names.len();
        let ghost header = magic() + u64_le(0u64) + u64_le(ns as u64) + u64_le(np as u64);
        let mut out: Vec<u8> = Vec::new();
        out.push(0x70u8);
        out.push(0x62u8);
        out.push(0x67u8);
        out.push(0x31u8);
        push_u64_le(&mut out, 0u64);
        push_u64_le(&mut out, ns as u64);
        push_u64_le(&mut out, np as u64);
        proof {
            assert(out@ =~= header + segs_bytes(self.segs().take(0)));
        }
        let mut i: usize = 0;
        while i < ns
            invariant
                0 <= i <= ns,
                ns == self.segs().len(),
                out@ == header + segs_bytes(self.segs().take(i as int)),
            decreases ns - i,
        {
            proof {
                crate::geo::lemma_geo_view(self);
            }
            let t = self.segments[i];
            push_u32_le(&mut out, t.seg.a.lat_bits);
            push_u32_le(&mut out, t.seg.a.lon_bits);
            push_u32_le(&mut out, t.seg.b.lat_bits);
            push_u32_le(&mut out, t.seg.b.lon_bits);
            push_u64_le(&mut out, t.way);
            proof {
                lemma_segs_bytes_snoc(self.segs().take(i as int), t);
                assert(self.segs().take(i as int + 1) =~= self.segs().take(i as int).push(t));
                assert(out@ =~= header + segs_bytes(self.segs().take(i as int + 1)));
            }
            i = i + 1;
        }
        proof {
            assert(self.segs().take(ns as int) =~= self.segs());
            self.names.lemma_ids_in_dom();
        }
        let ghost mut ps: Seq<(u64, Seq<char>)> = Seq::empty();
        proof {
            assert(out@ =~= header + segs_bytes(self.segs()) + pairs_bytes(ps));
        }
        let mut k: usize = 0;
        while k < np
            invariant
                0 <= k <= np,
                np == self.names.id_list().len(),
                self.names.wf(),
                self.names_map() == self.names@,
                out@ == header + segs_bytes(self.segs()) + pairs_bytes(ps),
                ps.len() == k,
                forall|t: int|
                    0 <= t < k ==> (#[trigger] ps[t]).0 == self.names.id_list()[t] && ps[t].1
                        == self.names_map()[ps[t].0],
                forall|t: int|
                    0 <= t < k ==> encode_utf8(#[trigger] ps[t].1).len()
                        < 0x1_0000_0000_0000_0000,
            decreases np - k,
        {
            let id = self.names.id_at(k);
            proof {
                self.names.lemma_ids_in_dom();
            }
            let name = match self.names.get(id) {
                Some(s) => s,
                None => vstd::pervasive::unreached(),
            };
            let bs = name.as_str().as_bytes();
            let bl = bs.len();
            push_u64_le(&mut out, id);
            push_u64_le(&mut out, bl as u64);
            out.extend_from_slice(bs);
            proof {
                assert(bs@ == encode_utf8(name@));
                lemma_pairs_bytes_snoc(ps, id, name@);
                assert(pair_bytes(id, name@) == u64_le(id) + u64_le(bl as u64) + encode_utf8(
                    name@,
                ));
                crate::geo::lemma_geo_view(self);
                ps = ps.push((id, name@));
                assert(out@ =~= header + segs_bytes(self.segs()) + pairs_bytes(ps));
                assert(ps[k as int].0 == self.names.id_list()[k as int]);
                assert(ps[k as int].1 == self.names_map()[ps[k as int].0]);
                assert(forall|t: int| 0 <= t < k ==> #[trigger] ps[t] == ps.drop_last()[t]);
            }
            k = k + 1;
        }
        let total = out.len();
        crate::bytes::set_u64_le(&mut out, 4, total as u64);
        proof {
            self.names.lemma_ids_in_dom();
            let f = |p: (u64, Seq<char>)| p.0;
            assert forall|a: int, b: int|
                0 <= a < b < ps.len() implies #[trigger] ps.map_values(f)[a]
                != #[trigger] ps.map_values(f)[b] by {
                assert(ps.map_values(f)[a] == self.names.id_list()[a]);
                assert(ps.map_values(f)[b] == self.names.id_list()[b]);
            }
            assert forall|id: u64| #[trigger] self.names_map().contains_key(id) implies exists|
                t: int,
            | 0 <= t < ps.len() && ps[t].0 == id by {
                assert(self.names.id_list().contains(id));
                let t = choose|t: int|
                    0 <= t < self.names.id_list().len() && self.names.id_list()[t] == id;
                assert(ps[t].0 == id);
            }
            assert(pairs_corr(ps, self.names_map()));
            assert(total == body_len(self.segs(), ps));
            assert(encodable(self.segs(), ps));
            let target = encode_bytes(self.segs(), ps);
            let pre = header + segs_bytes(self.segs()) + pairs_bytes(ps);
            assert forall|x: int| 0 <= x < out@.len() implies #[trigger] out@[x] == target[x] by {
                if 4 <= x < 12 {
                    assert(out@[x] == u64_le(total as u64)[x - 4]);
                    assert(target[x] == u64_le(body_len(self.segs(), ps) as u64)[x - 4]);
                } else {
                    assert(out@[x] == pre[x]);
                }
            }
            assert(out@ =~= target);
        }
        out
    }
}

/// A parse result with a list of already-parsed segments put back in front.
pub open spec fn prepend_segs(p: Seq<TaggedSegment>, o: Option<Seq<TaggedSegment>>) -> Option<
    Seq<TaggedSegment>,
> {
    match o {
        Some(r) => Some(p + r),
        None => None,
    }
}

/// A parse result with a list of already-parsed name entries put back in
/// front.
pub open spec fn prepend_pairs(
    p: Seq<(u64, Seq<char>)>,
    o: Option<(Seq<(u64, Seq<char>)>, int)>,
) -> Option<(Seq<(u64, Seq<char>)>, int)> {
    match o {
        Some((r, end)) => Some((p + r, end)),
        None => None,
    }
}

/// Copy a range of bytes out of a larger byte string.
fn read_bytes(b: &Vec<u8>, start: usize, len: usize) -> (r: Vec<u8>)
    requires
        start + len <= b@.len(),
    ensures
        r@ == b@.subrange(start as int, start as int + len as int),
{
    let _n = b.len();  // bounds b@.len() by usize::MAX for the offset arithmetic
    let mut r: Vec<u8> = Vec::new();
    let mut j: usize = 0;
    proof {
        assert(r@ =~= b@.subrange(start as int, start as int));
    }
    while j < len
        invariant
            0 <= j <= len,
            start + len <= b@.len(),
            r@ == b@.subrange(start as int, start as int + j as int),
        decreases len - j,
    {
        let _m = b.len();  // bounds b@.len() by usize::MAX for the index arithmetic
        r.push(b[start + j]);
        proof {
            assert(r@ =~= b@.subrange(start as int, start as int + j as int + 1));
        }
        j = j + 1;
    }
    r
}

/// Relies on String::from_utf8: it succeeds exactly on valid UTF-8 input and
/// returns the string whose UTF-8 encoding is that input.
#[verifier::external_body]
fn string_from_utf8(v: Vec<u8>) -> (r: Option<String>)
    ensures
        r is Some <==> valid_utf8(v@),
        r matches Some(s) ==> encode_utf8(s@) == v@,
{
    String::from_utf8(v).ok()
}

impl GeoIndex {
    /// Deserialize an index. Returns the segments and names the bytes
    /// encode, or reports corruption on any deviation from the format —
    /// never a partial structure and never a fault.
    pub fn decode(bytes: &Vec<u8>) -> (r: Result<GeoIndex, CorruptCache>)
        ensures
            r matches Ok(idx) ==> {
                &&& idx.wf()
                &&& parse_index(bytes@) matches Some(px) && idx.segs() == px.0
                    && idx.names_map() == map_of_pairs(px.1)
            },
            r is Err <==> parse_index(bytes@) is None,
    {
        let n = bytes.len();
        if n < 28 {
            return Err(CorruptCache);
        }
        if bytes[0] != 0x70u8 || bytes[1] != 0x62u8 || bytes[2] != 0x67u8 || bytes[3] != 0x31u8 {
            proof {
                if bytes@.subrange(0, 4) == magic() {
                    assert(bytes@[0] == magic()[0] && bytes@[1] == magic()[1] && bytes@[2]
                        == magic()[2] && bytes@[3] == magic()[3]) by {
                        assert(bytes@.subrange(0, 4)[0] == bytes@[0]);
                        assert(bytes@.subrange(0, 4)[1] == bytes@[1]);
                        assert(bytes@.subrange(0, 4)[2] == bytes@[2]);
                        assert(bytes@.subrange(0, 4)[3] == bytes@[3]);
                    }
                }
            }
            return Err(CorruptCache);
        }
        proof {
            assert(bytes@.subrange(0, 4) =~= magic());
        }
        let total = read_u64_le(bytes, 4);
        if total != n as u64 {
            return Err(CorruptCache);
        }
        let ns64 = read_u64_le(bytes, 12);
        let np64 = read_u64_le(bytes, 20);
        let mut segs: Vec<TaggedSegment> = Vec::new();
        let mut off: usize = 28;
        let mut i: u64 = 0;
        proof {
            assert(prepend_segs(segs@, parse_segs(bytes@, 28, ns64 as nat)) == parse_segs(
                bytes@,
                28,
                ns64 as nat,
            )) by {
                match parse_segs(bytes@, 28, ns64 as nat) {
                    Some(r) => {
                        assert(segs@ + r =~= r);
                    },
                    None => {},
                }
            }
        }
        while i < ns64
            invariant
                0 <= i <= ns64,
                off as int == 28 + 24 * (i as int),
                off <= n,
                n == bytes@.len(),
                n >= 28,
                bytes@.subrange(0, 4) == magic(),
                u64_from(bytes@.subrange(4, 12)) as int == n as int,
                u64_from(bytes@.subrange(12, 20)) == ns64,
                u64_from(bytes@.subrange(20, 28)) == np64,
                segs@.len() == i,
                parse_segs(bytes@, 28, ns64 as nat) == prepend_segs(
                    segs@,
                    parse_segs(bytes@, off as int, (ns64 - i) as nat),
                ),
            decreases ns64 - i,
        {
            if n - off < 24 {
                proof {
                    assert(parse_segs(bytes@, off as int, (ns64 - i) as nat) is None);
                    assert(parse_index(bytes@) is None);
                }
                return Err(CorruptCache);
            }
            let a_lat = read_u32_le(bytes, off);
            let a_lon = read_u32_le(bytes, off + 4);
            let b_lat = read_u32_le(bytes, off + 8);
            let b_lon = read_u32_le(bytes, off + 12);
            let way = read_u64_le(bytes, off + 16);
            let t = TaggedSegment {
                seg: Segment {
                    a: Coord { lat_bits: a_lat, lon_bits: a_lon },
                    b: Coord { lat_bits: b_lat, lon_bits: b_lon },
                },
                way,
            };
            proof {
                let sb = bytes@.subrange(off as int, off as int + 24);
                assert(sb.subrange(0, 4) =~= bytes@.subrange(off as int, off as int + 4));
                assert(sb.subrange(4, 8) =~= bytes@.subrange(off as int + 4, off as int + 8));
                assert(sb.subrange(8, 12) =~= bytes@.subrange(off as int + 8, off as int + 12));
                assert(sb.subrange(12, 16) =~= bytes@.subrange(off as int + 12, off as int + 16));
                assert(sb.subrange(16, 24) =~= bytes@.subrange(off as int + 16, off as int + 24));
                assert(t == seg_of(sb));
            }
            segs.push(t);
            proof {
                let rest = parse_segs(bytes@, off as int + 24, (ns64 - i - 1) as nat);
                match rest {
                    Some(r) => {
                        assert(segs@.drop_last() + (seq![t] + r) =~= segs@ + r);
                    },
                    None => {},
                }
                assert(parse_segs(bytes@, 28, ns64 as nat) == prepend_segs(
                    segs@,
                    parse_segs(bytes@, off as int + 24, (ns64 - i - 1) as nat),
                ));
            }
            off = off + 24;
            i = i + 1;
        }
        proof {
            assert(parse_segs(bytes@, off as int, 0) == Some(Seq::<TaggedSegment>::empty()));
            assert(segs@ + Seq::<TaggedSegment>::empty() =~= segs@);
            assert(parse_segs(bytes@, 28, ns64 as nat) == Some(segs@));
        }
        let mut names = NameTable::new();
        let ghost mut ps: Seq<(u64, Seq<char>)> = Seq::empty();
        let mut k: u64 = 0;
        proof {
            assert(prepend_pairs(ps, parse_pairs(bytes@, off as int, np64 as nat)) == parse_pairs(
                bytes@,
                off as int,
                np64 as nat,
            )) by {
                match parse_pairs(bytes@, off as int, np64 as nat) {
                    Some((r, end)) => {
                        assert(ps + r =~= r);
                    },
                    None => {},
                }
            }
        }
        while k < np64
            invariant
                0 <= k <= np64,
                off <= n,
                n == bytes@.len(),
                n >= 28,
                bytes@.subrange(0, 4) == magic(),
                u64_from(bytes@.subrange(4, 12)) as int == n as int,
                u64_from(bytes@.subrange(12, 20)) == ns64,
                u64_from(bytes@.subrange(20, 28)) == np64,
                parse_segs(bytes@, 28, ns64 as nat) == Some(segs@),
                names.wf(),
                names@ == map_of_pairs(ps),
                parse_pairs(bytes@, 28 + 24 * (ns64 as int), np64 as nat) == prepend_pairs(
                    ps,
                    parse_pairs(bytes@, off as int, (np64 - k) as nat),
                ),
            decreases np64 - k,
        {
            if n - off < 16 {
                proof {
                    assert(parse_pairs(bytes@, off as int, (np64 - k) as nat) is None);
                }
                return Err(CorruptCache);
            }
            let id = read_u64_le(bytes, off);
            let l64 = read_u64_le(bytes, off + 8);
            if l64 > (n - (off + 16)) as u64 {
                proof {
                    assert(parse_pairs(bytes@, off as int, (np64 - k) as nat) is None);
                }
                return Err(CorruptCache);
            }
            let l = l64 as usize;
            let nb = read_bytes(bytes, off + 16, l);
            let ghost nbv = nb@;
            match string_from_utf8(nb) {
                Some(s) => {
                    let ghost sv = s@;
                    let ghost ps_old = ps;
                    proof {
                        assert(decode_utf8(nbv) == sv);
                        ps = ps.push((id, sv));
                        assert(ps.drop_last() =~= ps_old);
                        assert(ps.last() == (id, sv));
                    }
                    names.set(id, s);
                    proof {
                        assert(names@ == map_of_pairs(ps_old).insert(id, sv));
                        assert(map_of_pairs(ps) == map_of_pairs(ps.drop_last()).insert(
                            ps.last().0,
                            ps.last().1,
                        ));
                        assert(names@ == map_of_pairs(ps));
                        let rest = parse_pairs(
                            bytes@,
                            off as int + 16 + l as int,
                            (np64 - k - 1) as nat,
                        );
                        match rest {
                            Some((r, end)) => {
                                assert(ps.drop_last() + (seq![(id, decode_utf8(nbv))] + r) =~= ps
                                    + r);
                            },
                            None => {},
                        }
                        assert(parse_pairs(bytes@, 28 + 24 * (ns64 as int), np64 as nat)
                            == prepend_pairs(
                            ps,
                            parse_pairs(bytes@, off as int + 16 + l as int, (np64 - k - 1) as nat),
                        ));
                    }
                },
                None => {
                    proof {
                        assert(parse_pairs(bytes@, off as int, (np64 - k) as nat) is None);
                    }
                    return Err(CorruptCache);
                },
            }
            off = off + 16 + l;
            k = k + 1;
        }
        proof {
            assert(parse_pairs(bytes@, off as int, 0) == Some(
                (Seq::<(u64, Seq<char>)>::empty(), off as int),
            ));
            assert(ps + Seq::<(u64, Seq<char>)>::empty() =~= ps);
            assert(parse_pairs(bytes@, 28 + 24 * (ns64 as int), np64 as nat) == Some(
                (ps, off as int),
            ));
        }
        if off != n {
            return Err(CorruptCache);
        }
        let idx = GeoIndex { segments: segs, names };
        proof {
            crate::geo::lemma_geo_view(&idx);
            assert(parse_index(bytes@) == Some((segs@, ps)));
        }
        Ok(idx)
    }
}

/// Law: decoding an encoding gives back the very structure that was encoded
/// — the same segment list, and a name list that rebuilds exactly the name
/// map the encoder enumerated. With `encode`'s and `decode`'s contracts this
/// says that decoding the bytes of any index, the empty one included, yields
/// an index with the same segments and the same name mapping.
pub proof fn lemma_encode_decode_identity(
    segs: Seq<TaggedSegment>,
    ps: Seq<(u64, Seq<char>)>,
    m: Map<u64, Seq<char>>,
)
    requires
        encodable(segs, ps),
        pairs_corr(ps, m),
    ensures
        parse_index(encode_bytes(segs, ps)) == Some((segs, ps)),
        map_of_pairs(ps) == m,
{
    lemma_round_trip(segs, ps);
    lemma_pairs_corr_map(ps, m);
}

/// Law: no strict prefix of a well-formed encoding parses — a cache file
/// corrupted by truncation is always detected as corrupt, never read as a
/// partial index.
pub proof fn lemma_truncation_rejected(b: Seq<u8>, n: int)
    requires
        parse_index(b) is Some,
        0 <= n < b.len(),
    ensures
        parse_index(b.take(n)) is None,
{
    let t = b.take(n);
    if n >= 28 {
        assert(t.subrange(4, 12) =~= b.subrange(4, 12));
        assert(u64_from(t.subrange(4, 12)) as int == b.len() as int);
        assert(t.len() != b.len());
    }
}

} // verus!
