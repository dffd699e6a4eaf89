use ch_matrix::coordinates::{Coordinate, FixedLatitude, FixedLongitude, squared_euclidian_distance};
use ch_matrix::geometry::{Geometry, PackedVector};
use ch_matrix::graph::{bits_from_bytes, edge_usable, Direction, Edge, Graph, GraphError};
use ch_matrix::rectangle::RectangleInt2D;

fn edge(target: u32, weight: i32, duration: i32, forward: bool, backward: bool) -> Edge {
    Edge { target, weight, duration, forward, backward }
}

#[test]
fn direction_opposite_swaps() {
    assert_eq!(Direction::Forward.opposite(), Direction::Backward);
    assert_eq!(Direction::Backward.opposite(), Direction::Forward);
    assert_eq!(Direction::Forward.opposite().opposite(), Direction::Forward);
}

#[test]
fn graph_new_rejects_missing_sentinel() {
    let r = Graph::new(vec![], vec![], vec![]);
    assert_eq!(r.err(), Some(GraphError::MissingSentinel));
}

#[test]
fn graph_new_rejects_non_monotone_offsets() {
    let edges = vec![edge(0, 1, 1, true, true), edge(1, 1, 1, true, true)];
    let r = Graph::new(vec![0, 2, 1], edges, vec![true, true]);
    assert_eq!(r.err(), Some(GraphError::NonMonotoneOffsets));
}

#[test]
fn graph_new_rejects_bad_sentinel() {
    let edges = vec![edge(0, 1, 1, true, true)];
    let r = Graph::new(vec![0, 0, 2], edges, vec![true]);
    assert_eq!(r.err(), Some(GraphError::BadSentinel));
}

#[test]
fn graph_new_rejects_filter_length_mismatch() {
    let edges = vec![edge(0, 1, 1, true, true)];
    let r = Graph::new(vec![0, 1, 1], edges, vec![true, false]);
    assert_eq!(r.err(), Some(GraphError::FilterLengthMismatch));
}

#[test]
fn graph_new_rejects_target_out_of_range() {
    let edges = vec![edge(7, 1, 1, true, true)];
    let r = Graph::new(vec![0, 1, 1], edges, vec![true]);
    assert_eq!(r.err(), Some(GraphError::TargetOutOfRange));
}

#[test]
fn adjacency_filters_by_bit_and_direction_in_stored_order() {
    // Node 0 has four edges: one disabled by the include bit, one
    // forward-only, one backward-only, one usable in neither direction.
    let edges = vec![
        edge(1, 10, 10, true, true),   // disabled by the filter bit
        edge(1, 20, 20, true, false),  // forward only
        edge(1, 30, 30, false, true),  // backward only
        edge(1, 40, 40, false, false), // usable in neither direction
        edge(1, 50, 50, true, true),   // both directions
    ];
    let filter = vec![false, true, true, true, true];
    let graph = Graph::new(vec![0, 5, 5], edges, filter).unwrap();

    let forward: Vec<i32> = graph
        .get_adjacent_edges(0, Direction::Forward)
        .iter()
        .map(|e| e.weight)
        .collect();
    assert_eq!(forward, vec![20, 50]);

    let backward: Vec<i32> = graph
        .get_adjacent_edges(0, Direction::Backward)
        .iter()
        .map(|e| e.weight)
        .collect();
    assert_eq!(backward, vec![30, 50]);
}

#[test]
fn edge_usable_reads_the_matching_flag() {
    let e = edge(0, 1, 1, true, false);
    assert!(edge_usable(&e, Direction::Forward));
    assert!(!edge_usable(&e, Direction::Backward));
}

#[test]
fn bits_from_bytes_reads_lsb_first_and_truncates() {
    // 0xA5 = 1010_0101: bits 0,2,5,7 are set, least significant first.
    let bytes = vec![0xA5u8, 0xFF];
    let bits = bits_from_bytes(&bytes, 6).unwrap();
    assert_eq!(bits, vec![true, false, true, false, false, true]);

    // The count is authoritative: the whole second byte can be dropped.
    let bits = bits_from_bytes(&bytes, 9).unwrap();
    assert_eq!(bits.len(), 9);
    assert!(bits[8]);

    // A count beyond the stored bits is refused.
    assert!(bits_from_bytes(&bytes, 17).is_none());
}

#[test]
fn packed_vector_extracts_22_bit_elements_across_word_boundaries() {
    // Five elements packed back to back: the third one crosses the first
    // word boundary.
    let bytes = vec![
        222u8, 188, 106, 0, 0, 240, 255, 255, 87, 85, 85, 7, 0, 0, 0, 0,
    ];
    let pv = PackedVector::new(bytes, 5).unwrap();
    assert_eq!(pv.get(0), 0x2ABCDE);
    assert_eq!(pv.get(1), 1);
    assert_eq!(pv.get(2), 0x3FFFFF);
    assert_eq!(pv.get(3), 0x155555);
    assert_eq!(pv.get(4), 7);
}

#[test]
fn packed_vector_rejects_malformed_input() {
    // Not whole words.
    assert!(PackedVector::new(vec![0u8; 12], 1).is_none());
    // Too many elements for the stored bits: 8 bytes hold 64 bits, at most
    // two 22-bit elements.
    assert!(PackedVector::new(vec![0u8; 8], 3).is_none());
    assert!(PackedVector::new(vec![0u8; 8], 2).is_some());
}

#[test]
fn geometry_weights_follow_the_offset_index() {
    // Three elements: 10, 20, 30 forward; 11, 21, 31 reverse.
    let forward = pack(&[10, 20, 30]);
    let reverse = pack(&[11, 21, 31]);
    let fw = PackedVector::new(forward, 3).unwrap();
    let rw = PackedVector::new(reverse, 3).unwrap();
    let geom = Geometry::new(vec![0, 2, 3], fw, rw).unwrap();
    assert_eq!(geom.forward_weights(0), vec![10, 20]);
    assert_eq!(geom.forward_weights(1), vec![30]);
    assert_eq!(geom.reverse_weights(0), vec![11, 21]);
    assert_eq!(geom.reverse_weights(1), vec![31]);
}

#[test]
fn geometry_rejects_out_of_range_offsets() {
    let fw = PackedVector::new(pack(&[1]), 1).unwrap();
    let rw = PackedVector::new(pack(&[1]), 1).unwrap();
    assert!(Geometry::new(vec![0, 2], fw, rw).is_none());
}

fn pack(elems: &[u64]) -> Vec<u8> {
    let total_bits = 22 * elems.len();
    let words = (total_bits + 63) / 64;
    let mut data = vec![0u64; words];
    for (i, &e) in elems.iter().enumerate() {
        assert!(e < (1 << 22));
        let pos = 22 * i;
        let w = pos / 64;
        let lo = pos % 64;
        data[w] |= e << lo;
        if lo + 22 > 64 {
            data[w + 1] |= e >> (64 - lo);
        }
    }
    let mut bytes = Vec::new();
    for w in data {
        bytes.extend_from_slice(&w.to_le_bytes());
    }
    bytes
}

#[test]
fn squared_distance_is_exact() {
    let a = Coordinate { longitude: FixedLongitude(3), latitude: FixedLatitude(-4) };
    let b = Coordinate { longitude: FixedLongitude(0), latitude: FixedLatitude(0) };
    assert_eq!(squared_euclidian_distance(&a, &b), 25);
    assert_eq!(squared_euclidian_distance(&a, &a), 0);

    let c = Coordinate { longitude: FixedLongitude(-180_000_000), latitude: FixedLatitude(-90_000_000) };
    let d = Coordinate { longitude: FixedLongitude(180_000_000), latitude: FixedLatitude(90_000_000) };
    let dlon: i64 = 360_000_000;
    let dlat: i64 = 180_000_000;
    assert_eq!(
        squared_euclidian_distance(&c, &d),
        (dlon * dlon + dlat * dlat) as u64
    );
}

#[test]
fn rectangle_contains_its_borders() {
    let rect = RectangleInt2D { min_lon: -10, max_lon: 10, min_lat: 0, max_lat: 5 };
    let inside = Coordinate { longitude: FixedLongitude(10), latitude: FixedLatitude(0) };
    let outside = Coordinate { longitude: FixedLongitude(11), latitude: FixedLatitude(0) };
    assert!(rect.contains(&inside));
    assert!(!rect.contains(&outside));
    assert_eq!(rect.min_longitude(), FixedLongitude(-10));
    assert_eq!(rect.max_longitude(), FixedLongitude(10));
    assert_eq!(rect.min_latitude(), FixedLatitude(0));
    assert_eq!(rect.max_latitude(), FixedLatitude(5));
}

#[test]
fn rectangle_min_squared_dist_clamps_per_axis() {
    let rect = RectangleInt2D { min_lon: 0, max_lon: 10, min_lat: 0, max_lat: 10 };
    let inside = Coordinate { longitude: FixedLongitude(5), latitude: FixedLatitude(5) };
    assert_eq!(rect.get_min_squared_dist(&inside), 0);
    // Due north: only the latitude axis contributes.
    let north = Coordinate { longitude: FixedLongitude(5), latitude: FixedLatitude(14) };
    assert_eq!(rect.get_min_squared_dist(&north), 16);
    // North-east corner: both axes contribute.
    let corner = Coordinate { longitude: FixedLongitude(13), latitude: FixedLatitude(14) };
    assert_eq!(rect.get_min_squared_dist(&corner), 9 + 16);
}
