use cost::compressed::DeltaCompressedReaderMapper;
use cost::convert::convert_to_hilbert;
use cost::convert::convert_to_hilbert_files;
use cost::convert::distinct;
use cost::convert::to_hilbert;
use cost::error::DecodeError;
use cost::error::ParseError;
use cost::graph_iterator::collect_edges;
use cost::hilbert_curve::BytewiseHilbert;
use cost::merge::merge;
use cost::merge::merge_streams;
use cost::twitter_parser::next_number;
use cost::twitter_parser::parse_to_hilbert;
use cost::twitter_parser::ReaderMapper;
use cost::two_tier::Upper;
use cost::two_tier::UpperLowerMemMapper;
use cost::varint::encode_deltas;
use cost::varint::Decoder;

fn random_text(count: usize, bound: u64) -> (String, Vec<(u32, u32)>) {
    let mut text = String::new();
    let mut edges: Vec<(u32, u32)> = Vec::new();
    let mut state: u64 = 0x9e37_79b9_7f4a_7c15;
    for _ in 0..count {
        state = state.wrapping_mul(6364136223846793005).wrapping_add(1442695040888963407);
        let x = ((state >> 33) % bound) as u32;
        state = state.wrapping_mul(6364136223846793005).wrapping_add(1442695040888963407);
        let y = ((state >> 33) % bound) as u32;
        text.push_str(&format!("{} {}\n", x, y));
        edges.push((x, y));
    }
    (text, edges)
}

#[test]
fn reader_mapper_reads_pairs() {
    let graph = ReaderMapper::new(b"  1 2\n3\t4 \r\n 5\n6").unwrap();
    assert_eq!(collect_edges(&graph), vec![(1, 2), (3, 4), (5, 6)]);
}

#[test]
fn reader_mapper_reads_largest_number_and_leading_zeros() {
    let graph = ReaderMapper::new(b"4294967295 0007").unwrap();
    assert_eq!(collect_edges(&graph), vec![(u32::MAX, 7)]);
}

#[test]
fn reader_mapper_of_blank_text() {
    let graph = ReaderMapper::new(b" \n\t ").unwrap();
    assert_eq!(collect_edges(&graph), vec![]);
}

#[test]
fn reader_mapper_refuses_bad_numbers() {
    assert!(matches!(ReaderMapper::new(b"1 x2"), Err(ParseError::BadNumber)));
    assert!(matches!(ReaderMapper::new(b"1 -2"), Err(ParseError::BadNumber)));
    assert!(matches!(ReaderMapper::new(b"1 2#"), Err(ParseError::BadNumber)));
    assert!(matches!(ReaderMapper::new(b"4294967296 1"), Err(ParseError::BadNumber)));
    assert!(matches!(ReaderMapper::new(b"1 2 3 z"), Err(ParseError::BadNumber)));
}

#[test]
fn reader_mapper_refuses_odd_count() {
    assert!(matches!(ReaderMapper::new(b"1 2 3"), Err(ParseError::OddCount)));
    assert!(matches!(ReaderMapper::new(b"1"), Err(ParseError::OddCount)));
}

#[test]
fn next_number_steps_through_text() {
    let text = b" 12  345 ";
    assert_eq!(next_number(text, 0), Ok(Some((12, 3))));
    assert_eq!(next_number(text, 3), Ok(Some((345, 8))));
    assert_eq!(next_number(text, 8), Ok(None));
    assert_eq!(next_number(text, 9), Ok(None));
    assert_eq!(next_number(b"1a", 0), Err(ParseError::BadNumber));
}

#[test]
fn to_hilbert_sorts_the_indices() {
    let graph = ReaderMapper::new(b"0 1\n1 1\n1 0\n0 0\n1 1\n").unwrap();
    assert_eq!(to_hilbert(&graph), vec![0, 1, 2, 2, 3]);
}

#[test]
fn distinct_drops_repeats() {
    assert_eq!(distinct(&vec![1, 1, 2, 5, 5, 5, 9]), vec![1, 2, 5, 9]);
    assert_eq!(distinct(&vec![]), vec![]);
    assert_eq!(distinct(&vec![0, 0]), vec![0]);
}

#[test]
fn convert_tiny_graph() {
    let graph = ReaderMapper::new(b"0 1\n1 2\n2 0\n65536 3\n").unwrap();
    let layout = convert_to_hilbert(&graph, false).unwrap();
    assert_eq!(
        layout.uppers,
        vec![Upper { ux: 0, uy: 0, count: 3 }, Upper { ux: 1, uy: 0, count: 1 }]
    );
    let hilbert = BytewiseHilbert::new();
    let mut first: Vec<(u32, u32)> = vec![(0, 1), (1, 2), (2, 0)];
    first.sort_by_key(|e| hilbert.entangle(*e));
    let lowers: Vec<(u16, u16)> = first.iter().map(|e| (e.0 as u16, e.1 as u16)).collect();
    assert_eq!(layout.lowers[..3], lowers[..]);
    assert_eq!(layout.lowers[3], (0, 3));
}

#[test]
fn convert_keeps_repeated_edges() {
    let graph = ReaderMapper::new(b"7 7\n7 7\n7 7\n").unwrap();
    let layout = convert_to_hilbert(&graph, false).unwrap();
    assert_eq!(layout.uppers, vec![Upper { ux: 0, uy: 0, count: 3 }]);
    assert_eq!(layout.lowers, vec![(7, 7), (7, 7), (7, 7)]);
}

#[test]
fn convert_empty_graph() {
    let graph = ReaderMapper::new(b"").unwrap();
    let layout = convert_to_hilbert(&graph, true).unwrap();
    assert_eq!(layout.uppers, vec![]);
    assert_eq!(layout.lowers, vec![]);
}

#[test]
fn convert_dense_gives_the_same_layout() {
    let (text, _) = random_text(500, 200_000);
    let graph = ReaderMapper::new(text.as_bytes()).unwrap();
    let sparse = convert_to_hilbert(&graph, false).unwrap();
    let dense = convert_to_hilbert(&graph, true).unwrap();
    assert_eq!(sparse.uppers, dense.uppers);
    assert_eq!(sparse.lowers, dense.lowers);
}

#[test]
fn hilbert_conversion_round_trip() {
    let (text, mut edges) = random_text(1000, 1024);
    let graph = ReaderMapper::new(text.as_bytes()).unwrap();
    let (upper, lower) = convert_to_hilbert_files(&graph, false).unwrap();
    let tiles = UpperLowerMemMapper::new(&upper, &lower).unwrap();
    let mut back = collect_edges(&tiles);
    assert_eq!(back.len(), 1000);
    back.sort();
    edges.sort();
    assert_eq!(back, edges);
}

#[test]
fn hilbert_conversion_over_many_tiles() {
    let (text, mut edges) = random_text(1000, 1 << 32);
    let graph = ReaderMapper::new(text.as_bytes()).unwrap();
    let layout = convert_to_hilbert(&graph, false).unwrap();
    let hilbert = BytewiseHilbert::new();
    let tiles: Vec<u32> = layout.uppers.iter().map(|u| hilbert.tile(u.ux, u.uy)).collect();
    assert!(tiles.windows(2).all(|w| w[0] < w[1]));
    assert!(layout.uppers.iter().all(|u| u.count > 0));
    let upper = layout.upper_file();
    let lower = layout.lower_file();
    let mapper = UpperLowerMemMapper::new(&upper, &lower).unwrap();
    let mut back = collect_edges(&mapper);
    let indices: Vec<u64> = back.iter().map(|e| hilbert.entangle(*e)).collect();
    assert!(indices.windows(2).all(|w| w[0] <= w[1]));
    back.sort();
    edges.sort();
    assert_eq!(back, edges);
}

#[test]
fn parse_to_hilbert_round_trip() {
    let (text, mut edges) = random_text(1000, 64);
    let text = format!("{}3 3\n3 3\n", text);
    edges.push((3, 3));
    edges.retain(|e| *e != (0, 0));
    let kept: String = text.lines().filter(|l| *l != "0 0").map(|l| format!("{}\n", l)).collect();
    let bytes = parse_to_hilbert(kept.as_bytes()).unwrap();
    let graph = DeltaCompressedReaderMapper::new(&bytes).unwrap();
    let mut back = collect_edges(&graph);
    back.sort();
    edges.sort();
    edges.dedup();
    assert_eq!(back, edges);
}

#[test]
fn parse_to_hilbert_first_edges_of_the_curve() {
    assert_eq!(parse_to_hilbert(b"0 1\n1 0\n1 1\n1 0\n"), Ok(vec![0x01, 0x01, 0x01]));
    assert_eq!(parse_to_hilbert(b""), Ok(vec![]));
}

#[test]
fn parse_to_hilbert_refuses_the_origin() {
    assert_eq!(parse_to_hilbert(b"1 1\n0 0\n"), Err(ParseError::Origin));
}

#[test]
fn parse_to_hilbert_refuses_bad_text() {
    assert_eq!(parse_to_hilbert(b"1 1\n0 0\n5"), Err(ParseError::OddCount));
    assert_eq!(parse_to_hilbert(b"1 one"), Err(ParseError::BadNumber));
}

#[test]
fn merge_unions_streams() {
    let a = encode_deltas(&vec![1, 4, 9, 1000]);
    let b = encode_deltas(&vec![2, 4, 10]);
    let c = encode_deltas(&vec![]);
    let d = encode_deltas(&vec![1000, u64::MAX]);
    let sources = vec![Decoder::new(&a), Decoder::new(&b), Decoder::new(&c), Decoder::new(&d)];
    assert_eq!(merge(sources), Ok(vec![1, 2, 4, 9, 10, 1000, u64::MAX]));
}

#[test]
fn merge_of_nothing() {
    assert_eq!(merge(vec![]), Ok(vec![]));
    let a: Vec<u8> = Vec::new();
    assert_eq!(merge(vec![Decoder::new(&a)]), Ok(vec![]));
}

#[test]
fn merge_of_one_stream_is_the_stream() {
    let a = encode_deltas(&vec![3, 5, 8]);
    assert_eq!(merge(vec![Decoder::new(&a)]), Ok(vec![3, 5, 8]));
    assert_eq!(merge_streams(vec![Decoder::new(&a)]), Ok(a.clone()));
}

#[test]
fn merge_streams_writes_deltas() {
    let a = encode_deltas(&vec![1, 4]);
    let b = encode_deltas(&vec![2, 4, 200]);
    let merged = merge_streams(vec![Decoder::new(&a), Decoder::new(&b)]).unwrap();
    assert_eq!(merged, encode_deltas(&vec![1, 2, 4, 200]));
    assert_eq!(merged, vec![0x01, 0x01, 0x02, 0xC4, 0x01]);
}

#[test]
fn merge_stops_at_a_fault() {
    let a = encode_deltas(&vec![1, 4]);
    let broken: Vec<u8> = vec![0x02, 0x80];
    assert_eq!(merge(vec![Decoder::new(&a), Decoder::new(&broken)]), Err(DecodeError::Truncated));
    let flat: Vec<u8> = vec![0x02, 0x00];
    assert_eq!(merge(vec![Decoder::new(&flat), Decoder::new(&a)]), Err(DecodeError::NotIncreasing));
    assert_eq!(merge_streams(vec![Decoder::new(&flat)]), Err(DecodeError::NotIncreasing));
}

#[test]
fn merge_of_compressed_graphs_is_their_union() {
    let first = parse_to_hilbert(b"1 2\n3 4\n").unwrap();
    let second = parse_to_hilbert(b"3 4\n5 6\n").unwrap();
    let merged = merge_streams(vec![Decoder::new(&first), Decoder::new(&second)]).unwrap();
    let graph = DeltaCompressedReaderMapper::new(&merged).unwrap();
    let mut edges = collect_edges(&graph);
    edges.sort();
    assert_eq!(edges, vec![(1, 2), (3, 4), (5, 6)]);
}
