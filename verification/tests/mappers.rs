use cost::compressed::DeltaCompressedReaderMapper;
use cost::error::DecodeError;
use cost::error::FormatError;
use cost::graph_iterator::collect_edges;
use cost::graph_iterator::NodesEdgesMemMapper;
use cost::hilbert_curve::BytewiseHilbert;
use cost::stats::stats;
use cost::two_tier::TwoTier;
use cost::two_tier::Upper;
use cost::two_tier::UpperLowerMemMapper;
use cost::typedrw::get_u16;
use cost::typedrw::get_u32;
use cost::typedrw::put_u16;
use cost::typedrw::put_u32;
use cost::varint::encode_deltas;

fn words(values: &[u32]) -> Vec<u8> {
    let mut out: Vec<u8> = Vec::new();
    for v in values {
        out.extend_from_slice(&v.to_le_bytes());
    }
    out
}

#[test]
fn typed_writes_are_little_endian() {
    let mut out: Vec<u8> = Vec::new();
    put_u16(&mut out, 0x1234);
    put_u32(&mut out, 0xA1B2C3D4);
    assert_eq!(out, vec![0x34, 0x12, 0xD4, 0xC3, 0xB2, 0xA1]);
}

#[test]
fn typed_reads_are_little_endian() {
    let bytes: Vec<u8> = vec![0x34, 0x12, 0x78, 0x56, 0xD4, 0xC3, 0xB2, 0xA1];
    assert_eq!(get_u16(&bytes, 0), 0x1234);
    assert_eq!(get_u16(&bytes, 1), 0x5678);
    assert_eq!(get_u32(&bytes, 0), 0x56781234);
    assert_eq!(get_u32(&bytes, 1), 0xA1B2C3D4);
}

#[test]
fn vertex_mapper_tiny_graph() {
    let nodes = words(&[0, 1, 2, 3]);
    let edges = words(&[1, 2, 0]);
    let graph = NodesEdgesMemMapper::new(&nodes, &edges).unwrap();
    assert_eq!(collect_edges(&graph), vec![(0, 1), (1, 2), (2, 0)]);
}

#[test]
fn vertex_mapper_walks_by_vertex() {
    let nodes = words(&[0, 2, 2, 5]);
    let edges = words(&[7, 8, 1, 0, 2]);
    let graph = NodesEdgesMemMapper::new(&nodes, &edges).unwrap();
    assert_eq!(collect_edges(&graph), vec![(0, 7), (0, 8), (2, 1), (2, 0), (2, 2)]);
}

#[test]
fn vertex_mapper_same_order_on_each_pass() {
    let nodes = words(&[0, 2, 2, 5]);
    let edges = words(&[7, 8, 1, 0, 2]);
    let graph = NodesEdgesMemMapper::new(&nodes, &edges).unwrap();
    assert_eq!(collect_edges(&graph), collect_edges(&graph));
}

#[test]
fn vertex_mapper_empty_graph() {
    let graph = NodesEdgesMemMapper::new(&[], &[]).unwrap();
    assert_eq!(collect_edges(&graph), vec![]);
    let nodes = words(&[0]);
    let graph = NodesEdgesMemMapper::new(&nodes, &[]).unwrap();
    assert_eq!(collect_edges(&graph), vec![]);
}

#[test]
fn vertex_mapper_refuses_ragged_files() {
    let nodes = words(&[0, 1]);
    let edges = words(&[1]);
    assert!(matches!(NodesEdgesMemMapper::new(&nodes[..7], &edges), Err(FormatError::Ragged)));
    assert!(matches!(NodesEdgesMemMapper::new(&nodes, &edges[..3]), Err(FormatError::Ragged)));
}

#[test]
fn vertex_mapper_refuses_wrong_counts() {
    let edges = words(&[1, 2, 0]);
    // offsets that fall
    assert!(matches!(
        NodesEdgesMemMapper::new(&words(&[0, 2, 1, 3]), &edges),
        Err(FormatError::Counts)
    ));
    // offsets that do not start at zero
    assert!(matches!(
        NodesEdgesMemMapper::new(&words(&[1, 2, 3]), &edges),
        Err(FormatError::Counts)
    ));
    // offsets that end before or behind the edges
    assert!(matches!(
        NodesEdgesMemMapper::new(&words(&[0, 1, 2]), &edges),
        Err(FormatError::Counts)
    ));
    assert!(matches!(
        NodesEdgesMemMapper::new(&words(&[0, 1, 4]), &edges),
        Err(FormatError::Counts)
    ));
    // edges without offsets
    assert!(matches!(NodesEdgesMemMapper::new(&[], &edges), Err(FormatError::Counts)));
}

#[test]
fn stats_tiny_graph() {
    let nodes = words(&[0, 1, 2, 3]);
    let edges = words(&[1, 2, 0]);
    let graph = NodesEdgesMemMapper::new(&nodes, &edges).unwrap();
    let found = stats(&graph);
    assert_eq!(found.max_x, 2);
    assert_eq!(found.max_y, 2);
    assert_eq!(found.edges, 3);
    assert_eq!(found.nodes(), Some(3));
}

#[test]
fn stats_of_empty_graph() {
    let graph = NodesEdgesMemMapper::new(&[], &[]).unwrap();
    let found = stats(&graph);
    assert_eq!((found.max_x, found.max_y, found.edges), (0, 0, 0));
    assert_eq!(found.nodes(), Some(1));
}

#[test]
fn stats_vertex_bound_beyond_32_bits() {
    let nodes = words(&[0, 1]);
    let edges = words(&[u32::MAX]);
    let graph = NodesEdgesMemMapper::new(&nodes, &edges).unwrap();
    let found = stats(&graph);
    assert_eq!(found.max_x, 0);
    assert_eq!(found.max_y, u32::MAX);
    assert_eq!(found.nodes(), None);
}

#[test]
fn tile_mapper_joins_upper_and_lower_halves() {
    let layout = TwoTier {
        uppers: vec![Upper { ux: 0, uy: 0, count: 2 }, Upper { ux: 1, uy: 2, count: 1 }],
        lowers: vec![(1, 0), (0, 1), (3, 4)],
    };
    let upper = layout.upper_file();
    let lower = layout.lower_file();
    assert_eq!(
        upper,
        vec![0, 0, 0, 0, 2, 0, 0, 0, 1, 0, 2, 0, 1, 0, 0, 0]
    );
    assert_eq!(lower, vec![1, 0, 0, 0, 0, 0, 1, 0, 3, 0, 4, 0]);
    let graph = UpperLowerMemMapper::new(&upper, &lower).unwrap();
    assert_eq!(collect_edges(&graph), vec![(1, 0), (0, 1), (0x1_0003, 0x2_0004)]);
}

#[test]
fn tile_mapper_refuses_ragged_files() {
    let upper: Vec<u8> = vec![0; 8];
    let lower: Vec<u8> = vec![0; 4];
    assert!(matches!(UpperLowerMemMapper::new(&upper[..7], &lower), Err(FormatError::Ragged)));
    assert!(matches!(UpperLowerMemMapper::new(&upper, &lower[..2]), Err(FormatError::Ragged)));
}

#[test]
fn tile_mapper_refuses_wrong_counts() {
    let layout = TwoTier { uppers: vec![Upper { ux: 0, uy: 0, count: 2 }], lowers: vec![(1, 0)] };
    let upper = layout.upper_file();
    let lower = layout.lower_file();
    assert!(matches!(UpperLowerMemMapper::new(&upper, &lower), Err(FormatError::Counts)));
    let layout = TwoTier {
        uppers: vec![Upper { ux: 0, uy: 0, count: 1 }],
        lowers: vec![(1, 0), (2, 0)],
    };
    let upper = layout.upper_file();
    let lower = layout.lower_file();
    assert!(matches!(UpperLowerMemMapper::new(&upper, &lower), Err(FormatError::Counts)));
    let layout = TwoTier {
        uppers: vec![Upper { ux: 0, uy: 0, count: u32::MAX }, Upper { ux: 0, uy: 1, count: 2 }],
        lowers: vec![(1, 0)],
    };
    let upper = layout.upper_file();
    let lower = layout.lower_file();
    assert!(matches!(UpperLowerMemMapper::new(&upper, &lower), Err(FormatError::Counts)));
}

#[test]
fn compressed_mapper_detangles_rising_indices() {
    let hilbert = BytewiseHilbert::new();
    let mut zs: Vec<u64> = vec![
        hilbert.entangle((0, 1)),
        hilbert.entangle((1, 2)),
        hilbert.entangle((2, 0)),
        hilbert.entangle((70000, 5)),
    ];
    zs.sort();
    let bytes = encode_deltas(&zs);
    let graph = DeltaCompressedReaderMapper::new(&bytes).unwrap();
    let mut edges = collect_edges(&graph);
    let in_order: Vec<u64> = edges.iter().map(|e| hilbert.entangle(*e)).collect();
    assert_eq!(in_order, zs);
    edges.sort();
    assert_eq!(edges, vec![(0, 1), (1, 2), (2, 0), (70000, 5)]);
}

#[test]
fn compressed_mapper_first_edges_of_the_curve() {
    let bytes: Vec<u8> = vec![0x01, 0x01, 0x01];
    let graph = DeltaCompressedReaderMapper::new(&bytes).unwrap();
    assert_eq!(collect_edges(&graph), vec![(1, 0), (1, 1), (0, 1)]);
}

#[test]
fn compressed_mapper_refuses_broken_streams() {
    assert!(matches!(DeltaCompressedReaderMapper::new(&[0x01, 0x80]), Err(DecodeError::Truncated)));
    assert!(matches!(
        DeltaCompressedReaderMapper::new(&[0x01, 0x00]),
        Err(DecodeError::NotIncreasing)
    ));
    assert!(matches!(
        DeltaCompressedReaderMapper::new(&[0xFF, 0xFF, 0xFF, 0xFF, 0xFF, 0xFF, 0xFF, 0xFF, 0xFF, 0x7F]),
        Err(DecodeError::Overflow)
    ));
}
