//! The largest source and destination ids of a graph, and its edge count.
use vstd::prelude::*;
use crate::graph_iterator::{Edge, EdgeAction, EdgeMapper, GraphError};

verus! {

/// The largest source id among `es`, zero for no edges.
pub open spec fn max_src(es: Seq<Edge>) -> u32
    decreases es.len(),
{
    if es.len() == 0 {
        0
    } else {
        let m = max_src(es.drop_last());
        if m < es.last().0 { es.last().0 } else { m }
    }
}

/// The largest destination id among `es`, zero for no edges.
pub open spec fn max_dst(es: Seq<Edge>) -> u32
    decreases es.len(),
{
    if es.len() == 0 {
        0
    } else {
        let m = max_dst(es.drop_last());
        if m < es.last().1 { es.last().1 } else { m }
    }
}

/// The largest ids and the edge count of one walk.
pub struct GraphStats {
    pub max_x: u32,
    pub max_y: u32,
    pub edges: u64,
    /// The edges seen so far.
    pub log: Ghost<Seq<Edge>>,
}

impl GraphStats {
    pub fn new() -> (r: GraphStats)
        ensures
            r.ready(),
            r.seen() == Seq::<Edge>::empty(),
    {
        GraphStats { max_x: 0, max_y: 0, edges: 0, log: Ghost(Seq::empty()) }
    }

    /// One more than the largest id: the vertex count the edges need.
    pub fn node_bound(&self) -> (r: u64)
        ensures
            r == (if self.max_x < self.max_y { self.max_y } else { self.max_x }) as u64 + 1,
    {
        let m = if self.max_x < self.max_y {
            self.max_y
        } else {
            self.max_x
        };
        m as u64 + 1
    }
}

impl EdgeAction for GraphStats {
    type Params = ();

    open spec fn params(&self) -> () {
        ()
    }

    open spec fn seen(&self) -> Seq<Edge> {
        self.log@
    }

    /// The counts are those of the edges seen (the count stops at `u64::MAX`).
    open spec fn ready(&self) -> bool {
        &&& self.max_x == max_src(self.log@)
        &&& self.max_y == max_dst(self.log@)
        &&& self.edges as nat == if self.log@.len() < u64::MAX { self.log@.len() } else { u64::MAX as nat }
    }

    fn act(&mut self, x: u32, y: u32) {
        let ghost old_log = self.log@;
        self.log = Ghost(self.log@.push((x, y)));
        assert(self.log@.drop_last() =~= old_log);
        if self.max_x < x {
            self.max_x = x;
        }
        if self.max_y < y {
            self.max_y = y;
        }
        if self.edges < u64::MAX {
            self.edges = self.edges + 1;
        }
    }
}

/// The largest source and destination ids of the graph and its edge count.
pub fn stats<G: EdgeMapper>(graph: &mut G) -> (r: Result<GraphStats, GraphError>)
    requires
        old(graph).wf(),
    ensures
        final(graph).wf(),
        old(graph).total() ==> r is Ok,
        r matches Ok(s) ==> exists|es: Seq<Edge>|
            #[trigger] old(graph).traversal(es, *final(graph)) && s.max_x == max_src(es) && s.max_y == max_dst(es)
                && s.edges as nat == if es.len() < u64::MAX { es.len() } else { u64::MAX as nat },
{
    let mut s = GraphStats::new();
    let ghost g0 = *graph;
    graph.map_edges(&mut s)?;
    let ghost es = choose|es: Seq<Edge>|
        #[trigger] g0.traversal(es, *graph) && s.seen() == Seq::<Edge>::empty() + es;
    assert(Seq::<Edge>::empty() + es =~= es);
    assert(g0.traversal(es, *graph));
    Ok(s)
}

} // verus!
