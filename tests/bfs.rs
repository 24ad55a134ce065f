use cost_graphs::bfs::{bfs, UNREACHED};
use cost_graphs::graph_iterator::{CachingReaderMapper, GraphError, ReaderMapper};
use cost_graphs::source::MemorySource;

fn reader(text: &str) -> ReaderMapper<MemorySource> {
    ReaderMapper::new(MemorySource::new(text.as_bytes().to_vec()))
}

#[test]
fn bfs_path_of_four() {
    let mut g = reader("0 1\n1 2\n2 3\n");
    assert_eq!(bfs(&mut g, 4, 0), Ok(vec![0, 1, 2, 3]));
}

#[test]
fn bfs_edges_either_way_and_unreached() {
    let mut g = reader("1 0\n3 1\n2 3\n5 6\n");
    assert_eq!(bfs(&mut g, 7, 0), Ok(vec![0, 1, 3, 2, UNREACHED, UNREACHED, UNREACHED]));
}

#[test]
fn bfs_shortest_of_two_paths() {
    let mut g = reader("0 1\n1 2\n2 3\n3 4\n0 5\n5 4\n");
    assert_eq!(bfs(&mut g, 6, 0), Ok(vec![0, 1, 2, 3, 2, 1]));
}

#[test]
fn bfs_self_loop_on_start() {
    let mut g = reader("2 2\n2 1\n");
    assert_eq!(bfs(&mut g, 3, 2), Ok(vec![UNREACHED, 1, 0]));
}

#[test]
fn bfs_on_cached_backend() {
    let mut g = CachingReaderMapper::new(MemorySource::new(b"0 1\n1 2\n2 3\n3 4\n4 5\n".to_vec()), 8, 8);
    assert_eq!(bfs(&mut g, 6, 2), Ok(vec![2, 1, 0, 1, 2, 3]));
}

#[test]
fn bfs_no_edges() {
    let mut g = reader("");
    assert_eq!(bfs(&mut g, 3, 1), Ok(vec![UNREACHED, 0, UNREACHED]));
}

#[test]
fn bfs_range_errors() {
    let mut g = reader("0 1\n");
    assert_eq!(bfs(&mut g, 2, 2), Err(GraphError::StartOutOfRange));
    let mut g = reader("0 1\n1 9\n");
    assert_eq!(bfs(&mut g, 4, 0), Err(GraphError::VertexOutOfRange));
}
