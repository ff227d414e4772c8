use pbf_geo::geo::GeoIndex;
use pbf_geo::model::{Coord, Record};
use rstar::primitives::{GeomWithData, Line};
use rstar::RTree;

fn node(id: u64, lat: f32, lon: f32) -> Record {
    Record::Node { id, coord: Coord { lat_bits: lat.to_bits(), lon_bits: lon.to_bits() } }
}

fn way(id: u64, name: &str, nodes: &[u64]) -> Record {
    Record::Way { id, name: Some(name.to_string()), nodes: nodes.to_vec() }
}

// The same glue the server uses: feed the index's segments to the spatial
// structure, query it for the nearest way identifier, resolve the name.
fn build_tree(idx: &GeoIndex) -> RTree<GeomWithData<Line<[f32; 2]>, u64>> {
    let mut items = Vec::new();
    for t in idx.segments() {
        let a = [f32::from_bits(t.seg.a.lat_bits), f32::from_bits(t.seg.a.lon_bits)];
        let b = [f32::from_bits(t.seg.b.lat_bits), f32::from_bits(t.seg.b.lon_bits)];
        items.push(GeomWithData::new(Line::new(a, b), t.way));
    }
    RTree::bulk_load(items)
}

fn lookup(
    idx: &GeoIndex,
    tree: &RTree<GeomWithData<Line<[f32; 2]>, u64>>,
    lat: f32,
    lon: f32,
) -> Option<String> {
    idx.find(tree.nearest_neighbor([lat, lon]).map(|g| g.data))
}

#[test]
fn nearest_on_single_way_returns_its_name() {
    let records = vec![
        node(1, 0.0, 0.0),
        node(2, 0.0, 1.0),
        node(3, 1.0, 1.0),
        way(1, "Main St", &[1, 2, 3]),
    ];
    let mut idx = GeoIndex::new();
    idx.build(&records);
    let tree = build_tree(&idx);
    assert_eq!(lookup(&idx, &tree, 0.1, 0.5), Some("Main St".to_string()));
    assert_eq!(lookup(&idx, &tree, 0.9, 1.05), Some("Main St".to_string()));
    assert_eq!(lookup(&idx, &tree, -50.0, 80.0), Some("Main St".to_string()));
}

#[test]
fn nearest_on_empty_index_is_not_found() {
    let idx = GeoIndex::new();
    let tree = build_tree(&idx);
    assert_eq!(lookup(&idx, &tree, 0.0, 0.0), None);
}

#[test]
fn nearest_distinguishes_two_ways() {
    let records = vec![
        node(1, 0.0, 0.0),
        node(2, 0.0, 10.0),
        node(3, 5.0, 0.0),
        node(4, 5.0, 10.0),
        way(1, "North Rd", &[1, 2]),
        way(2, "South Rd", &[3, 4]),
    ];
    let mut idx = GeoIndex::new();
    idx.build(&records);
    let tree = build_tree(&idx);
    assert_eq!(lookup(&idx, &tree, 0.5, 5.0), Some("North Rd".to_string()));
    assert_eq!(lookup(&idx, &tree, 4.5, 5.0), Some("South Rd".to_string()));
}

#[test]
fn building_twice_answers_queries_identically() {
    let records = || {
        vec![
            node(1, 0.0, 0.0),
            node(2, 0.0, 1.0),
            node(3, 2.0, 2.0),
            node(4, 2.0, 3.0),
            way(1, "One St", &[1, 2]),
            way(2, "Two St", &[3, 4]),
        ]
    };
    let mut a = GeoIndex::new();
    a.build(&records());
    let mut b = GeoIndex::new();
    b.build(&records());
    assert_eq!(a.segments(), b.segments());
    let ta = build_tree(&a);
    let tb = build_tree(&b);
    let points = [(0.0f32, 0.5f32), (2.1, 2.4), (1.0, 1.5), (-3.0, 7.0)];
    for (lat, lon) in points {
        assert_eq!(lookup(&a, &ta, lat, lon), lookup(&b, &tb, lat, lon));
    }
}
