use pbf_geo::geo::GeoIndex;
use pbf_geo::model::{Coord, Record};

fn c(lat: f32, lon: f32) -> Coord {
    Coord { lat_bits: lat.to_bits(), lon_bits: lon.to_bits() }
}

fn node(id: u64, lat: f32, lon: f32) -> Record {
    Record::Node { id, coord: c(lat, lon) }
}

fn way(id: u64, name: &str, nodes: &[u64]) -> Record {
    Record::Way { id, name: Some(name.to_string()), nodes: nodes.to_vec() }
}

fn unnamed_way(id: u64, nodes: &[u64]) -> Record {
    Record::Way { id, name: None, nodes: nodes.to_vec() }
}

#[test]
fn named_way_contributes_segments() {
    let records = vec![
        node(1, 0.0, 0.0),
        node(2, 0.0, 1.0),
        node(3, 0.0, 2.0),
        way(10, "Main St", &[1, 2, 3]),
    ];
    let mut idx = GeoIndex::new();
    idx.build(&records);
    let segs = idx.segments();
    assert_eq!(segs.len(), 2);
    assert_eq!(segs[0].way, 10);
    assert_eq!(segs[1].way, 10);
    assert_eq!(segs[0].seg.a, c(0.0, 0.0));
    assert_eq!(segs[0].seg.b, c(0.0, 1.0));
    assert_eq!(segs[1].seg.a, c(0.0, 1.0));
    assert_eq!(segs[1].seg.b, c(0.0, 2.0));
    assert_eq!(idx.find(Some(10)), Some("Main St".to_string()));
}

#[test]
fn unnamed_way_is_fully_excluded() {
    let records = vec![node(1, 0.0, 0.0), node(2, 0.0, 1.0), unnamed_way(10, &[1, 2])];
    let mut idx = GeoIndex::new();
    idx.build(&records);
    assert_eq!(idx.segments().len(), 0);
    assert_eq!(idx.find(Some(10)), None);
}

#[test]
fn missing_interior_node_is_bridged() {
    // X (node 2) has no recorded coordinate: exactly one segment A-B.
    let records = vec![node(1, 10.0, 20.0), node(3, 0.5, 0.75), way(7, "Gap Rd", &[1, 2, 3])];
    let mut idx = GeoIndex::new();
    idx.build(&records);
    let segs = idx.segments();
    assert_eq!(segs.len(), 1);
    assert_eq!(segs[0].way, 7);
    assert_eq!(segs[0].seg.a, c(10.0, 20.0));
    assert_eq!(segs[0].seg.b, c(0.5, 0.75));
}

#[test]
fn fewer_than_two_resolvable_nodes_yield_no_segment() {
    let records = vec![node(5, 1.0, 1.0), way(8, "Lone Way", &[5, 6])];
    let mut idx = GeoIndex::new();
    idx.build(&records);
    assert_eq!(idx.segments().len(), 0);
    // The name is still recorded: the way was named.
    assert_eq!(idx.find(Some(8)), Some("Lone Way".to_string()));
}

#[test]
fn node_after_way_is_not_resolvable() {
    // The way references nodes that only appear later in the stream.
    let records = vec![way(3, "Early Rd", &[1, 2]), node(1, 0.0, 0.0), node(2, 1.0, 1.0)];
    let mut idx = GeoIndex::new();
    idx.build(&records);
    assert_eq!(idx.segments().len(), 0);
}

#[test]
fn latest_coordinate_wins() {
    let records = vec![
        node(1, 0.0, 0.0),
        node(2, 5.0, 5.0),
        node(1, 9.0, 9.0),
        way(4, "Moved St", &[1, 2]),
    ];
    let mut idx = GeoIndex::new();
    idx.build(&records);
    let segs = idx.segments();
    assert_eq!(segs.len(), 1);
    assert_eq!(segs[0].seg.a, c(9.0, 9.0));
    assert_eq!(segs[0].seg.b, c(5.0, 5.0));
}

#[test]
fn out_of_range_coordinates_are_indexed_as_is() {
    // No range validation: garbage in, garbage out, but never a fault.
    let records = vec![node(1, 400.0, -720.5), node(2, f32::NAN, 1.0e30), way(2, "Odd", &[1, 2])];
    let mut idx = GeoIndex::new();
    idx.build(&records);
    assert_eq!(idx.segments().len(), 1);
    assert_eq!(idx.segments()[0].seg.a, c(400.0, -720.5));
}

#[test]
fn find_without_candidate_is_not_found() {
    let mut idx = GeoIndex::new();
    idx.build(&vec![node(1, 0.0, 0.0)]);
    assert_eq!(idx.find(None), None);
    assert_eq!(idx.find(Some(42)), None);
}
