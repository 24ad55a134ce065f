use cost_graphs::csr::CsrBuilder;
use cost_graphs::encode::{convert_to_compressed, convert_to_hilbert};
use cost_graphs::graph_iterator::{
    CachingReaderMapper, DeltaCompressedReaderMapper, DeltaCompressedSliceMapper, EdgeAction,
    EdgeCollector, EdgeMapper, GraphError, NodesEdgesMemMapper, ReaderMapper, UpperLowerMemMapper,
};
use cost_graphs::records::{push_u16, push_u32};
use cost_graphs::source::MemorySource;
use cost_graphs::text::parse_edge_line;

fn csr_bytes(nodes: &[(u32, u32)], targets: &[u32]) -> (Vec<u8>, Vec<u8>) {
    let mut n = Vec::new();
    for &(v, d) in nodes {
        push_u32(&mut n, v);
        push_u32(&mut n, d);
    }
    let mut e = Vec::new();
    for &t in targets {
        push_u32(&mut e, t);
    }
    (n, e)
}

fn walk<G: EdgeMapper>(g: &mut G) -> Result<Vec<(u32, u32)>, GraphError> {
    let mut c = EdgeCollector::new();
    g.map_edges(&mut c)?;
    Ok(c.edges)
}

fn sorted(mut v: Vec<(u32, u32)>) -> Vec<(u32, u32)> {
    v.sort();
    v
}

const SAMPLE: &str = "# sample\n0 1\n0 2\n1 2\n2 0\n70000 3\n3 70001\n";

fn sample_edges() -> Vec<(u32, u32)> {
    vec![(0, 1), (0, 2), (1, 2), (2, 0), (70000, 3), (3, 70001)]
}

#[test]
fn csr_walk_in_file_order() {
    let (n, e) = csr_bytes(&[(0, 2), (1, 1)], &[1, 2, 2]);
    let mut m = NodesEdgesMemMapper::new(&n, &e).unwrap();
    assert_eq!(walk(&mut m), Ok(vec![(0, 1), (0, 2), (1, 2)]));
}

#[test]
fn csr_record_length_and_overrun() {
    let (n, e) = csr_bytes(&[(0, 5)], &[1]);
    assert!(NodesEdgesMemMapper::new(&n[..7], &e).is_err());
    assert!(NodesEdgesMemMapper::new(&n, &e[..3]).is_err());
    let mut m = NodesEdgesMemMapper::new(&n, &e).unwrap();
    assert_eq!(walk(&mut m), Err(GraphError::CountOverrun));
}

#[test]
fn csr_builder_degrees_add_up() {
    let mut b = CsrBuilder::new();
    for &(x, y) in sample_edges().iter() {
        b.act(x, y);
    }
    let files = b.finish();
    assert_eq!(files.nodes.len(), 5 * 8);
    let mut sum = 0u64;
    for k in 0..files.nodes.len() / 8 {
        let d = &files.nodes[8 * k + 4..8 * k + 8];
        sum += u32::from_le_bytes([d[0], d[1], d[2], d[3]]) as u64;
    }
    assert_eq!(sum as usize, files.edges.len() / 4);
    let mut m = NodesEdgesMemMapper::new(&files.nodes, &files.edges).unwrap();
    assert_eq!(walk(&mut m), Ok(sample_edges()));
}

#[test]
fn split_walk_joins_halves() {
    let mut up = Vec::new();
    push_u16(&mut up, 1);
    push_u16(&mut up, 2);
    push_u32(&mut up, 2);
    let mut low = Vec::new();
    for &(a, b) in [(5u16, 6u16), (7, 8)].iter() {
        push_u16(&mut low, a);
        push_u16(&mut low, b);
    }
    let mut m = UpperLowerMemMapper::new(&up, &low).unwrap();
    assert_eq!(walk(&mut m), Ok(vec![(65536 + 5, 131072 + 6), (65536 + 7, 131072 + 8)]));
    let mut short = UpperLowerMemMapper::new(&up, &low[..4]).unwrap();
    assert_eq!(walk(&mut short), Err(GraphError::CountOverrun));
    assert!(UpperLowerMemMapper::new(&up[..6], &low).is_err());
}

#[test]
fn format_round_trip_from_csr() {
    let mut b = CsrBuilder::new();
    for &(x, y) in sample_edges().iter() {
        b.act(x, y);
    }
    let files = b.finish();
    let mut csr = NodesEdgesMemMapper::new(&files.nodes, &files.edges).unwrap();
    let split = convert_to_hilbert(&mut csr, false).unwrap();
    // one upper record per block: four edges in (0,0), one in (1,0), one in (0,1)
    assert_eq!(split.upper.len(), 3 * 8);
    let mut counts = 0u64;
    for k in 0..split.upper.len() / 8 {
        let c = &split.upper[8 * k + 4..8 * k + 8];
        counts += u32::from_le_bytes([c[0], c[1], c[2], c[3]]) as u64;
    }
    assert_eq!(counts, 6);
    assert_eq!(split.lower.len(), 6 * 4);
    let mut m = UpperLowerMemMapper::new(&split.upper, &split.lower).unwrap();
    let edges = walk(&mut m).unwrap();
    assert_eq!(sorted(edges.clone()), sorted(sample_edges()));
    let idx: Vec<u64> = edges.iter().map(|&(x, y)| cost_graphs::curve::entangle(x, y)).collect();
    assert!(idx.windows(2).all(|w| w[0] <= w[1]));
}

#[test]
fn dense_split_fills_empty_blocks() {
    let mut r = ReaderMapper::new(MemorySource::new(b"0 0\n0 70000\n".to_vec()));
    let split = convert_to_hilbert(&mut r, true).unwrap();
    // (0,1) is the fourth block of the curve: two empty ones lie between
    assert_eq!(split.upper.len(), 4 * 8);
    assert_eq!(&split.upper[12..16], &[0, 0, 0, 0]);
    let mut r = ReaderMapper::new(MemorySource::new(b"70000 70000\n".to_vec()));
    let split = convert_to_hilbert(&mut r, true).unwrap();
    // block (1,1) is the third block of the curve: two empty ones come before it
    assert_eq!(split.upper.len(), 3 * 8);
    assert_eq!(&split.upper[4..8], &[0, 0, 0, 0]);
    let mut m = UpperLowerMemMapper::new(&split.upper, &split.lower).unwrap();
    assert_eq!(walk(&mut m), Ok(vec![(70000, 70000)]));
}

#[test]
fn backends_agree_on_one_graph() {
    let text = MemorySource::new(SAMPLE.as_bytes().to_vec());
    let mut reader = ReaderMapper::new(text);
    let from_text = walk(&mut reader).unwrap();
    assert_eq!(from_text, sample_edges());

    let split = convert_to_hilbert(&mut reader, false).unwrap();
    let mut ul = UpperLowerMemMapper::new(&split.upper, &split.lower).unwrap();
    let from_split = walk(&mut ul).unwrap();

    let stream = convert_to_compressed(&mut reader).unwrap().unwrap();
    let mut slice = DeltaCompressedSliceMapper::new(&stream);
    let from_slice = walk(&mut slice).unwrap();
    let mut streamed = DeltaCompressedReaderMapper::new(MemorySource::new(stream.clone()));
    let from_stream = walk(&mut streamed).unwrap();

    assert_eq!(from_split, from_slice);
    assert_eq!(from_slice, from_stream);
    assert_eq!(sorted(from_split), sorted(sample_edges()));
}

#[test]
fn compressed_refuses_repeated_edges() {
    let mut reader = ReaderMapper::new(MemorySource::new(b"1 2\n1 2\n".to_vec()));
    assert_eq!(convert_to_compressed(&mut reader), Ok(None));
}

#[test]
fn cached_replay_same_multiset() {
    let text = b"3 70001\n70000 3\n2 0\n1 2\n0 2\n0 1\n".to_vec();
    let mut cached = CachingReaderMapper::new(MemorySource::new(text), 16, 16);
    let first = walk(&mut cached).unwrap();
    let second = walk(&mut cached).unwrap();
    let third = walk(&mut cached).unwrap();
    let mut reversed = sample_edges();
    reversed.reverse();
    assert_eq!(first, reversed);
    assert_eq!(second, sample_edges());
    assert_ne!(first, second);
    assert_eq!(second, third);
    assert_eq!(sorted(first), sorted(second));
}

#[test]
fn cached_parse_error_is_reported() {
    let mut cached = CachingReaderMapper::new(MemorySource::new(b"1 2\nx 3\n".to_vec()), 0, 0);
    assert_eq!(walk(&mut cached), Err(GraphError::MalformedLine));
}

#[test]
fn reader_lines() {
    let mut r = ReaderMapper::new(MemorySource::new(b"#c\n+5 6 extra\r\n7\t8".to_vec()));
    assert_eq!(walk(&mut r), Ok(vec![(5, 6), (7, 8)]));
    let mut r = ReaderMapper::new(MemorySource::new(b"1 2\n\n3 4\n".to_vec()));
    assert_eq!(walk(&mut r), Err(GraphError::MalformedLine));
    let mut r = ReaderMapper::new(MemorySource::new(b"1 4294967296\n".to_vec()));
    assert_eq!(walk(&mut r), Err(GraphError::MalformedLine));
}

#[test]
fn reader_long_text_spans_chunks() {
    let mut text = Vec::new();
    let mut want = Vec::new();
    for k in 0..20000u32 {
        text.extend_from_slice(format!("{} {}\n", k, k + 1).as_bytes());
        want.push((k, k + 1));
    }
    let mut r = ReaderMapper::new(MemorySource::new(text));
    assert_eq!(walk(&mut r), Ok(want));
}

#[test]
fn parse_single_lines() {
    assert_eq!(parse_edge_line(b"# anything"), Ok(None));
    assert_eq!(parse_edge_line(b"  12   34  "), Ok(Some((12, 34))));
    assert_eq!(parse_edge_line(b"4294967295 0"), Ok(Some((u32::MAX, 0))));
    assert_eq!(parse_edge_line(b"12"), Err(GraphError::MalformedLine));
    assert_eq!(parse_edge_line(b"-1 2"), Err(GraphError::MalformedLine));
    assert_eq!(parse_edge_line(b"+ 2"), Err(GraphError::MalformedLine));
}

#[test]
fn record_bytes_little_endian() {
    // node (1, 2), destinations 258 and 3
    let nodes = [1u8, 0, 0, 0, 2, 0, 0, 0];
    let edges = [2u8, 1, 0, 0, 3, 0, 0, 0];
    let mut m = NodesEdgesMemMapper::new(&nodes, &edges).unwrap();
    assert_eq!(walk(&mut m), Ok(vec![(1, 258), (1, 3)]));
    // block (1, 0) with one lower record (0x0201, 4)
    let upper = [1u8, 0, 0, 0, 1, 0, 0, 0];
    let lower = [1u8, 2, 4, 0];
    let mut m = UpperLowerMemMapper::new(&upper, &lower).unwrap();
    assert_eq!(walk(&mut m), Ok(vec![(65536 + 0x0201, 4)]));
    let mut out = Vec::new();
    push_u32(&mut out, 0x0403_0201);
    push_u16(&mut out, 0x0605);
    assert_eq!(out, vec![1, 2, 3, 4, 5, 6]);
}

#[test]
fn sparse_split_one_record_per_run() {
    // three edges in block (0,0), then one in (1,0): two upper records
    let mut r = ReaderMapper::new(MemorySource::new(b"1 0\n0 0\n0 1\n70000 5\n".to_vec()));
    let split = convert_to_hilbert(&mut r, false).unwrap();
    assert_eq!(split.upper, vec![0, 0, 0, 0, 3, 0, 0, 0, 1, 0, 0, 0, 1, 0, 0, 0]);
}
