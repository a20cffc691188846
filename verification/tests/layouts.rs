use cost::error::DecodeError;
use cost::graph_iterator::collect_edges;
use cost::graph_iterator::NodesEdgesMemMapper;
use cost::merge::merge;
use cost::rearrange::sort_by_parts;
use cost::stats::stats;
use cost::to_vertex::to_vertex;
use cost::twitter_parser::ReaderMapper;
use cost::convert::to_hilbert;
use cost::convert::to_hilbert_by_parts;
use cost::convert::entangle_edges;
use cost::varint::Decoder;

fn scattered(count: usize, bound: u64) -> (String, Vec<(u32, u32)>) {
    let mut text = String::new();
    let mut edges: Vec<(u32, u32)> = Vec::new();
    let mut state: u64 = 0x1234_5678_9abc_def1;
    for _ in 0..count {
        state = state.wrapping_mul(6364136223846793005).wrapping_add(1442695040888963407);
        let x = ((state >> 33) % bound) as u32;
        state = state.wrapping_mul(6364136223846793005).wrapping_add(1442695040888963407);
        let y = ((state >> 33) % bound) as u32;
        text.push_str(&format!("{}\t{}\n", x, y));
        edges.push((x, y));
    }
    (text, edges)
}

#[test]
fn to_vertex_tiny_graph() {
    let graph = ReaderMapper::new(b"2 0\n0 1\n1 2\n").unwrap();
    let (nodes, edges) = to_vertex(&graph).unwrap();
    assert_eq!(nodes, vec![0, 0, 0, 0, 1, 0, 0, 0, 2, 0, 0, 0, 3, 0, 0, 0]);
    assert_eq!(edges, vec![1, 0, 0, 0, 2, 0, 0, 0, 0, 0, 0, 0]);
    let laid = NodesEdgesMemMapper::new(&nodes, &edges).unwrap();
    assert_eq!(collect_edges(&laid), vec![(0, 1), (1, 2), (2, 0)]);
    let found = stats(&laid);
    assert_eq!((found.max_x, found.max_y, found.edges), (2, 2, 3));
    assert_eq!(found.nodes(), Some(3));
}

#[test]
fn to_vertex_leaves_room_for_vertices_without_targets() {
    let graph = ReaderMapper::new(b"3 9\n3 1\n0 5\n3 1\n").unwrap();
    let (nodes, edges) = to_vertex(&graph).unwrap();
    let offsets: Vec<u32> = nodes.chunks(4).map(|c| u32::from_le_bytes([c[0], c[1], c[2], c[3]])).collect();
    let targets: Vec<u32> = edges.chunks(4).map(|c| u32::from_le_bytes([c[0], c[1], c[2], c[3]])).collect();
    assert_eq!(offsets, vec![0, 1, 1, 1, 4]);
    assert_eq!(targets, vec![5, 1, 1, 9]);
}

#[test]
fn to_vertex_empty_graph() {
    let graph = ReaderMapper::new(b"").unwrap();
    let (nodes, edges) = to_vertex(&graph).unwrap();
    assert_eq!(nodes, vec![0, 0, 0, 0]);
    assert_eq!(edges, vec![]);
    let laid = NodesEdgesMemMapper::new(&nodes, &edges).unwrap();
    assert_eq!(collect_edges(&laid), vec![]);
}

#[test]
fn to_vertex_round_trip() {
    let (text, mut edges) = scattered(1000, 300);
    let graph = ReaderMapper::new(text.as_bytes()).unwrap();
    let (nodes, targets) = to_vertex(&graph).unwrap();
    let laid = NodesEdgesMemMapper::new(&nodes, &targets).unwrap();
    let back = collect_edges(&laid);
    edges.sort();
    assert_eq!(back, edges);
}

#[test]
fn sort_by_parts_sorts() {
    let mut values: Vec<u64> = vec![u64::MAX, 0, 1 << 56, (1 << 56) - 1, 5, 5, 1 << 63, 3 << 56, 7];
    let sorted = sort_by_parts(&values);
    values.sort();
    assert_eq!(sorted, values);
    assert_eq!(sort_by_parts(&vec![]), vec![]);
}

#[test]
fn to_hilbert_by_parts_agrees_with_to_hilbert() {
    let (text, _) = scattered(800, 1 << 32);
    let graph = ReaderMapper::new(text.as_bytes()).unwrap();
    let plain = to_hilbert(&graph);
    assert_eq!(to_hilbert_by_parts(&graph), plain);
    let mut unsorted = entangle_edges(&graph);
    assert_eq!(unsorted.len(), 800);
    unsorted.sort();
    assert_eq!(unsorted, plain);
}

#[test]
fn merge_meets_the_fault_of_an_empty_stream_first() {
    // the second stream breaks off at once, the first after an index
    let late: Vec<u8> = vec![0x01, 0x00];
    let early: Vec<u8> = vec![0x80];
    assert_eq!(merge(vec![Decoder::new(&late), Decoder::new(&early)]), Err(DecodeError::Truncated));
}

#[test]
fn merge_meets_the_fault_behind_the_smaller_index_first() {
    // one stream does not rise behind 9, the other breaks off behind 5
    let flat: Vec<u8> = vec![0x09, 0x00];
    let short: Vec<u8> = vec![0x05, 0x80];
    assert_eq!(merge(vec![Decoder::new(&flat), Decoder::new(&short)]), Err(DecodeError::Truncated));
    assert_eq!(merge(vec![Decoder::new(&short), Decoder::new(&flat)]), Err(DecodeError::Truncated));
    // behind the same index, the stream that was handed over first
    let flat: Vec<u8> = vec![0x05, 0x00];
    assert_eq!(merge(vec![Decoder::new(&flat), Decoder::new(&short)]), Err(DecodeError::NotIncreasing));
    assert_eq!(merge(vec![Decoder::new(&short), Decoder::new(&flat)]), Err(DecodeError::Truncated));
}
