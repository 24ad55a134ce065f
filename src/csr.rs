//! Conversion of an edge stream to the CSR format: each run of edges with one
//! source becomes a node record `(source, run length)`, its destinations go
//! to the destination list in order.
use vstd::prelude::*;
use crate::graph_iterator::{Edge, EdgeAction};
use crate::records::{csr_edges, degree_sum, edge_targets, node_records, push_u32};

verus! {

/// The bytes of a CSR pair.
pub struct CsrFiles {
    pub nodes: Vec<u8>,
    pub edges: Vec<u8>,
}

proof fn lemma_node_push(a: Seq<u8>, b: Seq<u8>, v: u32, d: u32)
    requires
        a.len() % 8 == 0,
        b.len() == a.len() + 8,
        b.take(a.len() as int) == a,
        crate::records::le32(b, a.len() as int) == v as nat,
        crate::records::le32(b, a.len() as int + 4) == d as nat,
    ensures
        node_records(b) == node_records(a).push((v, d)),
{
    assert forall|i: int| 0 <= i < a.len() implies b[i] == a[i] by {
        assert(b.take(a.len() as int)[i] == b[i]);
    }
    assert(node_records(b) =~= node_records(a).push((v, d)));
}

proof fn lemma_target_push(a: Seq<u8>, b: Seq<u8>, t: u32)
    requires
        a.len() % 4 == 0,
        b.len() == a.len() + 4,
        b.take(a.len() as int) == a,
        crate::records::le32(b, a.len() as int) == t as nat,
    ensures
        edge_targets(b) == edge_targets(a).push(t),
{
    assert forall|i: int| 0 <= i < a.len() implies b[i] == a[i] by {
        assert(b.take(a.len() as int)[i] == b[i]);
    }
    assert(edge_targets(b) =~= edge_targets(a).push(t));
}

fn push_node(out: &mut Vec<u8>, v: u32, d: u32)
    requires
        old(out)@.len() % 8 == 0,
    ensures
        final(out)@.len() == old(out)@.len() + 8,
        node_records(final(out)@) == node_records(old(out)@).push((v, d)),
{
    let ghost a = out@;
    push_u32(out, v);
    let ghost b1 = out@;
    push_u32(out, d);
    proof {
        let b = out@;
        assert(b.take(b1.len() as int) == b1);
        assert(b.take(a.len() as int) =~= a) by {
            assert(b1.take(a.len() as int) == a);
        }
        assert(b[a.len() as int] == b1[a.len() as int]);
        assert(b[a.len() as int + 1] == b1[a.len() as int + 1]);
        assert(b[a.len() as int + 2] == b1[a.len() as int + 2]);
        assert(b[a.len() as int + 3] == b1[a.len() as int + 3]);
        lemma_node_push(a, b, v, d);
    }
}

fn push_target(out: &mut Vec<u8>, t: u32)
    requires
        old(out)@.len() % 4 == 0,
    ensures
        final(out)@.len() == old(out)@.len() + 4,
        edge_targets(final(out)@) == edge_targets(old(out)@).push(t),
{
    let ghost a = out@;
    push_u32(out, t);
    proof {
        lemma_target_push(a, out@, t);
    }
}

/// The node records with the open run, if any, closed.
pub open spec fn closed_nodes(done: Seq<(u32, u32)>, src: u32, count: u32) -> Seq<(u32, u32)> {
    if count > 0 {
        done.push((src, count))
    } else {
        done
    }
}

proof fn lemma_csr_grow(nodes: Seq<(u32, u32)>, targets: Seq<u32>, v: u32, c: u32, t: u32)
    requires
        degree_sum(nodes) + c == targets.len(),
        c < u32::MAX,
    ensures
        csr_edges(nodes.push((v, (c + 1) as u32)), targets.push(t)) == csr_edges(nodes.push((v, c)), targets).push((v, t)),
        degree_sum(nodes.push((v, (c + 1) as u32))) == degree_sum(nodes) + c + 1,
        degree_sum(nodes.push((v, c))) == degree_sum(nodes) + c,
{
    let g1 = nodes.push((v, (c + 1) as u32));
    let g0 = nodes.push((v, c));
    assert(g1.drop_last() =~= nodes);
    assert(g0.drop_last() =~= nodes);
    lemma_csr_extend(nodes, targets, t);
    let off = degree_sum(nodes);
    assert(Seq::new((c + 1) as nat, |j: int| (v, targets.push(t)[off + j]))
        =~= Seq::new(c as nat, |j: int| (v, targets[off + j])).push((v, t)));
}

proof fn lemma_csr_extend(nodes: Seq<(u32, u32)>, targets: Seq<u32>, t: u32)
    requires
        degree_sum(nodes) <= targets.len(),
    ensures
        csr_edges(nodes, targets.push(t)) == csr_edges(nodes, targets),
    decreases nodes.len(),
{
    if nodes.len() > 0 {
        lemma_csr_extend(nodes.drop_last(), targets, t);
        let off = degree_sum(nodes.drop_last());
        let (v, d) = nodes.last();
        assert(Seq::new(d as nat, |j: int| (v, targets.push(t)[off + j]))
            =~= Seq::new(d as nat, |j: int| (v, targets[off + j])));
    }
}

/// An action that writes the edges it is handed as a CSR pair.
pub struct CsrBuilder {
    nodes: Vec<u8>,
    edges: Vec<u8>,
    src: u32,
    count: u32,
    log: Ghost<Seq<Edge>>,
}

impl CsrBuilder {
    pub fn new() -> (r: CsrBuilder)
        ensures
            r.ready(),
            r.seen() == Seq::<Edge>::empty(),
    {
        let r = CsrBuilder { nodes: Vec::new(), edges: Vec::new(), src: 0, count: 0, log: Ghost(Seq::empty()) };
        assert(csr_edges(node_records(r.nodes@), edge_targets(r.edges@)) =~= Seq::<Edge>::empty());
        r
    }

    /// Closes the open run and hands out the two files: their edges are the
    /// ones handed to the builder, in order, and the degrees add up to the
    /// length of the destination list.
    pub fn finish(self) -> (r: CsrFiles)
        requires
            self.ready(),
        ensures
            r.nodes@.len() % 8 == 0,
            r.edges@.len() % 4 == 0,
            csr_edges(node_records(r.nodes@), edge_targets(r.edges@)) == self.seen(),
            degree_sum(node_records(r.nodes@)) == edge_targets(r.edges@).len(),
    {
        let mut nodes = self.nodes;
        if self.count > 0 {
            push_node(&mut nodes, self.src, self.count);
        }
        CsrFiles { nodes, edges: self.edges }
    }
}

impl EdgeAction for CsrBuilder {
    type Params = ();

    open spec fn params(&self) -> () {
        ()
    }

    closed spec fn seen(&self) -> Seq<Edge> {
        self.log@
    }

    closed spec fn ready(&self) -> bool {
        let ns = closed_nodes(node_records(self.nodes@), self.src, self.count);
        &&& self.nodes@.len() % 8 == 0
        &&& self.edges@.len() % 4 == 0
        &&& csr_edges(ns, edge_targets(self.edges@)) == self.log@
        &&& degree_sum(ns) == edge_targets(self.edges@).len()
    }

    fn act(&mut self, x: u32, y: u32) {
        let ghost done = node_records(self.nodes@);
        let ghost ts = edge_targets(self.edges@);
        proof {
            if self.count > 0 {
                assert(done.push((self.src, self.count)).drop_last() =~= done);
            }
        }
        if self.count > 0 && (x != self.src || self.count == u32::MAX) {
            push_node(&mut self.nodes, self.src, self.count);
            self.count = 0;
        }
        if self.count == 0 {
            self.src = x;
        }
        let ghost ns = node_records(self.nodes@);
        proof {
            assert(closed_nodes(ns, self.src, 0) == ns);
            lemma_csr_grow(ns, ts, self.src, self.count, y);
            if self.count == 0 {
                let g0 = ns.push((self.src, 0));
                assert(g0.drop_last() =~= ns);
                assert(csr_edges(g0, ts) =~= csr_edges(ns, ts));
            }
        }
        push_target(&mut self.edges, y);
        self.count = self.count + 1;
        self.log = Ghost(self.log@.push((x, y)));
    }
}

} // verus!
