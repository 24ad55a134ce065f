use cost_graphs::components::label_propagation;
use cost_graphs::graph_iterator::{CachingReaderMapper, EdgeMapper, GraphError, NodesEdgesMemMapper, ReaderMapper};
use cost_graphs::records::push_u32;
use cost_graphs::source::MemorySource;
use cost_graphs::stats::stats;
use cost_graphs::union_find::union_find;

fn reader(text: &str) -> ReaderMapper<MemorySource> {
    ReaderMapper::new(MemorySource::new(text.as_bytes().to_vec()))
}

#[test]
fn components_smallest_member_labels() {
    let mut g = reader("0 1\n3 2\n4 1\n");
    assert_eq!(label_propagation(&mut g, 6), Ok((3, vec![0, 0, 2, 2, 0, 5])));
}

#[test]
fn components_need_several_walks() {
    // the label of 0 travels against the edge order, one step per walk
    let mut g = reader("4 5\n3 4\n2 3\n1 2\n0 1\n");
    assert_eq!(label_propagation(&mut g, 6), Ok((1, vec![0; 6])));
}

#[test]
fn components_on_cached_and_csr() {
    let mut g = CachingReaderMapper::new(MemorySource::new(b"5 6\n1 5\n2 3\n".to_vec()), 4, 4);
    assert_eq!(label_propagation(&mut g, 7), Ok((4, vec![0, 1, 2, 2, 4, 1, 1])));
    let mut n = Vec::new();
    for &(v, d) in [(1u32, 1u32), (2, 1)].iter() {
        push_u32(&mut n, v);
        push_u32(&mut n, d);
    }
    let mut e = Vec::new();
    push_u32(&mut e, 2);
    push_u32(&mut e, 0);
    let mut m = NodesEdgesMemMapper::new(&n, &e).unwrap();
    assert_eq!(label_propagation(&mut m, 3), Ok((1, vec![0, 0, 0])));
}

#[test]
fn components_out_of_range() {
    let mut g = reader("0 1\n1 7\n");
    assert_eq!(label_propagation(&mut g, 3), Err(GraphError::VertexOutOfRange));
}

#[test]
fn union_find_counts_non_roots() {
    let mut g = reader("0 1\n3 2\n4 1\n");
    let (non_roots, parents) = union_find(&mut g, 6).unwrap();
    assert_eq!(non_roots, 3);
    assert_eq!(parents.len(), 6);
    let root = |mut v: usize| {
        while parents[v] as usize != v {
            v = parents[v] as usize;
        }
        v
    };
    assert_eq!(root(0), root(4));
    assert_eq!(root(1), root(4));
    assert_eq!(root(2), root(3));
    assert_ne!(root(0), root(2));
    assert_eq!(root(5), 5);
}

#[test]
fn union_find_out_of_range() {
    let mut g = reader("0 3\n");
    assert_eq!(union_find(&mut g, 3), Err(GraphError::VertexOutOfRange));
}

#[test]
fn stats_largest_ids() {
    let mut g = reader("3 7\n9 2\n");
    let s = stats(&mut g).unwrap();
    assert_eq!((s.max_x, s.max_y, s.edges), (9, 7, 2));
    assert_eq!(s.node_bound(), 10);
    let mut empty = reader("# nothing\n");
    let s = stats(&mut empty).unwrap();
    assert_eq!((s.max_x, s.max_y, s.edges, s.node_bound()), (0, 0, 0, 1));
}

#[test]
fn two_way_adjacency_dedups_both_ways() {
    let mut g = reader("0 1\n1 0\n2 2\n1 3\n");
    let files = cost_graphs::two_way::two_way_csr(&mut g).unwrap();
    let mut m = NodesEdgesMemMapper::new(&files.nodes, &files.edges).unwrap();
    let mut c = cost_graphs::graph_iterator::EdgeCollector::new();
    m.map_edges(&mut c).unwrap();
    assert_eq!(c.edges, vec![(0, 1), (1, 0), (1, 3), (2, 2), (3, 1)]);
    assert_eq!(files.nodes.len(), 4 * 8);
}
