use cost_graphs::curve::{block_of, detangle, entangle, CurveDecoder};
use cost_graphs::delta::{encode_deltas, DeltaDecoder};
use cost_graphs::graph_iterator::{replay_stream, EdgeCollector, GraphError};

#[test]
fn curve_first_cells() {
    assert_eq!(entangle(0, 0), 0);
    assert_eq!(entangle(1, 0), 1);
    assert_eq!(entangle(1, 1), 2);
    assert_eq!(entangle(0, 1), 3);
    assert_eq!(detangle(2), (1, 1));
}

#[test]
fn curve_block_order() {
    // the outer curve visits block (0,0), then (1,0), (1,1), (0,1)
    assert_eq!(entangle(65536, 0) >> 32, 1);
    assert_eq!(entangle(0, 65536) >> 32, 3);
    assert_eq!(block_of(0), (0, 0));
    assert_eq!(block_of(1), (1, 0));
    assert_eq!(block_of(2), (1, 1));
    assert_eq!(block_of(3), (0, 1));
    let (x, y) = detangle(3u64 << 32);
    assert_eq!((x >> 16, y >> 16), (0, 1));
}

#[test]
fn curve_inverse_on_samples() {
    let samples = [
        (0u32, 0u32),
        (1, 2),
        (65535, 65536),
        (123456789, 987654321),
        (u32::MAX, 0),
        (0, u32::MAX),
        (u32::MAX, u32::MAX),
        (40000, 3),
    ];
    let mut dec = CurveDecoder::new();
    for &(x, y) in samples.iter() {
        let d = entangle(x, y);
        assert_eq!(detangle(d), (x, y));
        assert_eq!(dec.detangle(d), (x, y));
    }
}

#[test]
fn curve_cached_decoder_agrees_on_a_run() {
    let mut dec = CurveDecoder::new();
    let base = 7u64 << 32;
    for k in 0..300u64 {
        let d = base + k * 1013;
        assert_eq!(dec.detangle(d), detangle(d));
    }
    assert_eq!(dec.detangle(5), detangle(5));
}

#[test]
fn curve_distinct_points_distinct_indices() {
    let mut seen = Vec::new();
    for x in 0..8u32 {
        for y in 0..8u32 {
            seen.push(entangle(x, y));
        }
    }
    seen.sort();
    seen.dedup();
    assert_eq!(seen.len(), 64);
    assert_eq!(*seen.last().unwrap(), 63);
}

#[test]
fn delta_encode_small_and_wide() {
    let idx = vec![1u64, 5, 300];
    let bytes = encode_deltas(&idx).unwrap();
    assert_eq!(bytes, vec![1u8, 4, 0, 1, 39]);
}

#[test]
fn delta_encode_rejects_repeats_and_zero() {
    assert_eq!(encode_deltas(&vec![3u64, 3]), None);
    assert_eq!(encode_deltas(&vec![0u64]), None);
    assert_eq!(encode_deltas(&vec![9u64, 4]), None);
    assert_eq!(encode_deltas(&vec![]), Some(vec![]));
}

fn decode_all(bytes: &[u8]) -> Option<Vec<u64>> {
    let mut dec = DeltaDecoder::new();
    let mut out = Vec::new();
    for &b in bytes {
        if let Some(d) = dec.push(b) {
            out.push(d);
        }
    }
    if dec.is_settled() {
        Some(out)
    } else {
        None
    }
}

#[test]
fn delta_round_trip() {
    let idx = vec![1u64, 2, 255, 256, 70000, 1 << 40, (1 << 40) + 1, u64::MAX];
    let bytes = encode_deltas(&idx).unwrap();
    assert_eq!(decode_all(&bytes), Some(idx));
}

#[test]
fn delta_escape_value() {
    // a zero byte, one more zero byte, then three value bytes
    assert_eq!(decode_all(&[0, 0, 1, 0, 0]), Some(vec![65536]));
    // a zero byte, then two value bytes
    assert_eq!(decode_all(&[0, 1, 0]), Some(vec![256]));
    assert_eq!(decode_all(&[3, 0, 2, 7]), Some(vec![3, 3 + 0x207]));
}

#[test]
fn delta_truncated_and_overflow() {
    let mut c = EdgeCollector::new();
    assert_eq!(replay_stream(&[5, 0, 1], &mut c), Err(GraphError::TruncatedEscape));
    let mut c = EdgeCollector::new();
    assert_eq!(replay_stream(&[0u8; 9], &mut c), Err(GraphError::ValueOverflow));
    let mut c = EdgeCollector::new();
    let wide = [0u8, 0, 0, 0, 0, 0, 0, 255, 255, 255, 255, 255, 255, 255, 255];
    assert_eq!(replay_stream(&wide, &mut c), Ok(()));
    let mut c = EdgeCollector::new();
    let mut twice = wide.to_vec();
    twice.push(1);
    assert_eq!(replay_stream(&twice, &mut c), Err(GraphError::ValueOverflow));
}

#[test]
fn delta_stream_edges() {
    let mut c = EdgeCollector::new();
    assert_eq!(replay_stream(&[1, 1, 1], &mut c), Ok(()));
    assert_eq!(c.edges, vec![(1, 0), (1, 1), (0, 1)]);
}
