use pbf_geo::geo::GeoIndex;
use pbf_geo::model::{Coord, Record};

fn node(id: u64, lat: f32, lon: f32) -> Record {
    Record::Node { id, coord: Coord { lat_bits: lat.to_bits(), lon_bits: lon.to_bits() } }
}

fn way(id: u64, name: &str, nodes: &[u64]) -> Record {
    Record::Way { id, name: Some(name.to_string()), nodes: nodes.to_vec() }
}

fn sample_records() -> Vec<Record> {
    vec![
        node(1, 45.8, 15.97),
        node(2, 45.81, 15.98),
        node(3, 45.82, 15.99),
        node(4, -3.5, 101.25),
        way(100, "Main St", &[1, 2, 3]),
        way(200, "Ulica Čučerska", &[3, 4]),
        way(300, "", &[1, 4]),
        Record::Way { id: 400, name: None, nodes: vec![1, 2] },
    ]
}

#[test]
fn round_trip_preserves_segments_and_names() {
    let mut idx = GeoIndex::new();
    idx.build(&sample_records());
    let bytes = idx.encode();
    let back = GeoIndex::decode(&bytes).expect("a fresh encoding must decode");
    assert_eq!(back.segments(), idx.segments());
    assert_eq!(back.find(Some(100)), Some("Main St".to_string()));
    assert_eq!(back.find(Some(200)), Some("Ulica Čučerska".to_string()));
    assert_eq!(back.find(Some(300)), Some("".to_string()));
    assert_eq!(back.find(Some(400)), None);
}

#[test]
fn round_trip_of_empty_index() {
    let idx = GeoIndex::new();
    let bytes = idx.encode();
    let back = GeoIndex::decode(&bytes).expect("the empty encoding must decode");
    assert_eq!(back.segments().len(), 0);
    assert_eq!(back.find(Some(1)), None);
}

#[test]
fn every_truncation_is_rejected() {
    let mut idx = GeoIndex::new();
    idx.build(&sample_records());
    let bytes = idx.encode();
    for n in 0..bytes.len() {
        let cut = bytes[..n].to_vec();
        assert!(GeoIndex::decode(&cut).is_err(), "truncation at {} must be rejected", n);
    }
}

#[test]
fn corrupt_magic_and_trailing_garbage_are_rejected() {
    let mut idx = GeoIndex::new();
    idx.build(&sample_records());
    let bytes = idx.encode();

    let mut wrong_magic = bytes.clone();
    wrong_magic[0] = 0x00;
    assert!(GeoIndex::decode(&wrong_magic).is_err());

    let mut longer = bytes.clone();
    longer.push(0x00);
    assert!(GeoIndex::decode(&longer).is_err());
}

#[test]
fn corrupt_name_bytes_are_rejected() {
    let mut idx = GeoIndex::new();
    idx.build(&vec![node(1, 0.0, 0.0), node(2, 1.0, 1.0), way(9, "Main St", &[1, 2])]);
    let bytes = idx.encode();
    // The name's UTF-8 bytes sit at the very end; 0xFF is never valid UTF-8.
    let mut mangled = bytes.clone();
    let last = mangled.len() - 1;
    mangled[last] = 0xFF;
    assert!(GeoIndex::decode(&mangled).is_err());
}

#[test]
fn corrupt_cache_falls_back_to_rebuild() {
    // A truncated cache must not stop startup: decoding fails cleanly and a
    // full rebuild from the source records still yields a working index.
    let mut idx = GeoIndex::new();
    idx.build(&sample_records());
    let bytes = idx.encode();
    let cut = bytes[..bytes.len() / 2].to_vec();
    let loaded = GeoIndex::decode(&cut);
    assert!(loaded.is_err());
    let mut rebuilt = GeoIndex::new();
    rebuilt.build(&sample_records());
    assert_eq!(rebuilt.find(Some(100)), Some("Main St".to_string()));
    assert_eq!(rebuilt.segments(), idx.segments());
}
