//! One contract for walking the edges of a graph, and the backends that keep to it.
use vstd::prelude::*;
use crate::curve::{point_pair, CurveDecoder};
use crate::delta::{decode_indices, DeltaDecoder, run, start_state, step, settled, DecodeState};
use crate::curve::detangle;
use crate::encode::{ascending, edges_at, group_into, lemma_edges_at_indices, sort_ascending, IndexCollector};
use crate::source::ByteSource;
use crate::text::{text_edges, text_run, text_step, TextParser};
use crate::records::{
    count_sum, csr_edges, degree_sum, edge_target, edge_targets, lemma_count_sum_prefix,
    lemma_degree_sum_prefix, lower_record, lower_records, node_record, node_records, split_edges,
    upper_record, upper_records, join,
};

verus! {

/// A directed edge `(source, destination)`.
pub type Edge = (u32, u32);

/// Why a backend could not be built or walked, or an algorithm could not run.
#[derive(PartialEq, Eq, Structural, Debug, Clone, Copy)]
pub enum GraphError {
    /// A binary file's length is not a whole number of its records.
    RecordLength,
    /// The degrees or counts of a table run past the records they count.
    CountOverrun,
    /// A delta stream ends inside an escape.
    TruncatedEscape,
    /// A delta stream holds a value that does not fit in 64 bits.
    ValueOverflow,
    /// A text line does not hold two unsigned 32-bit numbers.
    MalformedLine,
    /// An edge names a vertex at or above the node count.
    VertexOutOfRange,
    /// The start vertex is at or above the node count.
    StartOutOfRange,
}

/// The storage a run reads its graph from.
#[derive(PartialEq, Eq, Structural, Debug, Clone, Copy)]
pub enum Mapper {
    /// A text edge list, parsed on every walk.
    Reader,
    /// A text edge list, parsed once and then replayed from memory in curve order.
    Hybrid,
    /// A CSR pair of node and edge files.
    Vertex,
    /// A curve-split pair of upper and lower files.
    Hilbert,
    /// A delta-compressed stream of curve indices.
    Compressed,
}

/// What a walk hands each edge to.
pub trait EdgeAction {
    /// What an action is set up with and keeps unchanged while it is handed edges.
    type Params;

    spec fn params(&self) -> Self::Params;

    /// The edges handed to this action so far, in order.
    spec fn seen(&self) -> Seq<Edge>;

    /// What the action keeps true between two edges.
    spec fn ready(&self) -> bool;

    fn act(&mut self, src: u32, dst: u32)
        requires
            old(self).ready(),
        ensures
            final(self).ready(),
            final(self).seen() == old(self).seen().push((src, dst)),
            final(self).params() == old(self).params(),
    ;
}

/// A graph whose edges can be walked, each handed in turn to an action.
pub trait EdgeMapper: Sized {
    spec fn wf(&self) -> bool;

    /// Whether one walk may hand out exactly the edges `es`, in this order,
    /// and leave the backend as `next`.
    spec fn traversal(&self, es: Seq<Edge>, next: Self) -> bool;

    /// Whether a walk succeeds whatever the backend's outside sources do.
    spec fn total(&self) -> bool;

    /// Whether every walk hands out the same multiset of edges.
    spec fn steady(&self) -> bool;

    proof fn lemma_steady(&self, es1: Seq<Edge>, next1: Self, es2: Seq<Edge>, next2: Self)
        requires
            self.wf(),
            self.steady(),
            self.traversal(es1, next1),
            next1.traversal(es2, next2),
        ensures
            next1.wf(),
            next1.steady(),
            es1.to_multiset() == es2.to_multiset(),
    ;

    /// Hands every edge to `action`, once each, in the backend's own order.
    fn map_edges<A: EdgeAction>(&mut self, action: &mut A) -> (r: Result<(), GraphError>)
        requires
            old(self).wf(),
            old(action).ready(),
        ensures
            final(self).wf(),
            final(action).ready(),
            final(action).params() == old(action).params(),
            old(self).total() ==> r is Ok,
            r is Ok ==> exists|es: Seq<Edge>|
                #[trigger] old(self).traversal(es, *final(self)) && final(action).seen()
                    == old(action).seen() + es,
            r is Ok && old(self).total() ==> final(self).total(),
            r matches Err(e) ==> e != GraphError::VertexOutOfRange && e != GraphError::StartOutOfRange,
    ;
}

/// Something outside the library that edges can be handed to.
pub trait EdgeSink {
    fn accept(&mut self, src: u32, dst: u32);
}

/// An action that hands every edge on to a sink.
pub struct SinkAction<S: EdgeSink> {
    pub sink: S,
    log: Ghost<Seq<Edge>>,
}

impl<S: EdgeSink> SinkAction<S> {
    pub closed spec fn inner(&self) -> S {
        self.sink
    }

    pub fn new(sink: S) -> (r: SinkAction<S>)
        ensures
            r.inner() == sink,
            r.seen() == Seq::<Edge>::empty(),
            r.ready(),
    {
        SinkAction { sink, log: Ghost(Seq::empty()) }
    }
}

impl<S: EdgeSink> EdgeAction for SinkAction<S> {
    type Params = ();

    open spec fn params(&self) -> () {
        ()
    }

    closed spec fn seen(&self) -> Seq<Edge> {
        self.log@
    }

    open spec fn ready(&self) -> bool {
        true
    }

    fn act(&mut self, src: u32, dst: u32) {
        self.sink.accept(src, dst);
        self.log = Ghost(self.log@.push((src, dst)));
    }
}

/// An action that keeps every edge it is handed.
pub struct EdgeCollector {
    pub edges: Vec<Edge>,
}

impl EdgeCollector {
    pub fn new() -> (r: EdgeCollector)
        ensures
            r.edges@ == Seq::<Edge>::empty(),
    {
        EdgeCollector { edges: Vec::new() }
    }
}

impl EdgeAction for EdgeCollector {
    type Params = ();

    open spec fn params(&self) -> () {
        ()
    }

    open spec fn seen(&self) -> Seq<Edge> {
        self.edges@
    }

    open spec fn ready(&self) -> bool {
        true
    }

    fn act(&mut self, src: u32, dst: u32) {
        self.edges.push((src, dst));
    }
}

/// A CSR pair: a node table of `(vertex, degree)` records and the list of
/// destinations, `degree` of them for each node record in turn.
pub struct NodesEdgesMemMapper<'a> {
    nodes: &'a [u8],
    edges: &'a [u8],
}

impl<'a> NodesEdgesMemMapper<'a> {
    pub closed spec fn node_bytes(&self) -> Seq<u8> {
        self.nodes@
    }

    pub closed spec fn edge_bytes(&self) -> Seq<u8> {
        self.edges@
    }

    /// The node records.
    pub open spec fn node_view(&self) -> Seq<(u32, u32)> {
        node_records(self.node_bytes())
    }

    /// The destination list.
    pub open spec fn target_view(&self) -> Seq<u32> {
        edge_targets(self.edge_bytes())
    }

    /// The edges, in file order.
    pub open spec fn edge_list(&self) -> Seq<Edge> {
        csr_edges(self.node_view(), self.target_view())
    }

    /// Reads a CSR pair from the bytes of its two files; they must hold whole records.
    pub fn new(nodes: &'a [u8], edges: &'a [u8]) -> (r: Result<NodesEdgesMemMapper<'a>, GraphError>)
        ensures
            r is Ok <==> nodes@.len() % 8 == 0 && edges@.len() % 4 == 0,
            r matches Ok(m) ==> m.node_bytes() == nodes@ && m.edge_bytes() == edges@,
            r matches Err(e) ==> e == GraphError::RecordLength,
    {
        if nodes.len() % 8 != 0 || edges.len() % 4 != 0 {
            return Err(GraphError::RecordLength);
        }
        Ok(NodesEdgesMemMapper { nodes, edges })
    }
}

impl<'a> EdgeMapper for NodesEdgesMemMapper<'a> {
    open spec fn wf(&self) -> bool {
        true
    }

    open spec fn traversal(&self, es: Seq<Edge>, next: Self) -> bool {
        es == self.edge_list() && next == *self && degree_sum(self.node_view()) <= self.target_view().len()
    }

    /// The degrees do not run past the destination list.
    open spec fn total(&self) -> bool {
        degree_sum(self.node_view()) <= self.target_view().len()
    }

    open spec fn steady(&self) -> bool {
        true
    }

    proof fn lemma_steady(&self, es1: Seq<Edge>, next1: Self, es2: Seq<Edge>, next2: Self) {
    }

    fn map_edges<A: EdgeAction>(&mut self, action: &mut A) -> (r: Result<(), GraphError>) {
        let ghost seen0 = action.seen();
        let ghost nodes = self.node_view();
        let ghost targets = self.target_view();
        let n_nodes = self.nodes.len() / 8;
        let n_targets = self.edges.len() / 4;
        let mut g: usize = 0;
        let mut cursor: usize = 0;
        while g < n_nodes
            invariant
                n_nodes == nodes.len(),
                n_targets == targets.len(),
                nodes == self.node_view(),
                targets == self.target_view(),
                g <= n_nodes,
                cursor == degree_sum(nodes.take(g as int)),
                cursor <= n_targets,
                action.ready(),
                action.params() == old(action).params(),
                action.seen() == seen0 + csr_edges(nodes.take(g as int), targets),
                self.total() ==> degree_sum(nodes) <= n_targets,
            decreases n_nodes - g,
        {
            let (v, d) = node_record(self.nodes, g);
            proof {
                lemma_degree_sum_prefix(nodes, g as int);
            }
            if d as usize > n_targets - cursor {
                return Err(GraphError::CountOverrun);
            }
            let ghost before = action.seen();
            let mut j: usize = 0;
            while j < d as usize
                invariant
                    j <= d,
                    cursor + d <= n_targets,
                    n_targets == targets.len(),
                    targets == self.target_view(),
                    action.ready(),
                    action.params() == old(action).params(),
                    action.seen() == before + Seq::new(j as nat, |k: int| (v, targets[cursor + k])),
                decreases d - j,
            {
                let t = edge_target(self.edges, cursor + j);
                action.act(v, t);
                j = j + 1;
                assert(action.seen() =~= before + Seq::new(j as nat, |k: int| (v, targets[cursor + k])));
            }
            proof {
                let t = nodes.take(g + 1);
                assert(t.drop_last() =~= nodes.take(g as int));
                assert(t.last() == (v, d));
                assert(action.seen() =~= seen0 + csr_edges(t, targets));
            }
            cursor = cursor + d as usize;
            g = g + 1;
        }
        assert(nodes.take(g as int) =~= nodes);
        assert(degree_sum(nodes) <= n_targets);
        assert(self.traversal(self.edge_list(), *self));
        Ok(())
    }
}

/// The edges at the curve indices `idx`, in that order.
pub open spec fn index_edges(idx: Seq<nat>) -> Seq<Edge> {
    idx.map_values(|d: nat| point_pair(d))
}

/// A curve-split pair: upper records `(ux, uy, count)` in curve order, and
/// lower records `(lx, ly)`, `count` of them for each upper record in turn.
pub struct UpperLowerMemMapper<'a> {
    upper: &'a [u8],
    lower: &'a [u8],
}

impl<'a> UpperLowerMemMapper<'a> {
    pub closed spec fn upper_bytes(&self) -> Seq<u8> {
        self.upper@
    }

    pub closed spec fn lower_bytes(&self) -> Seq<u8> {
        self.lower@
    }

    pub open spec fn upper_view(&self) -> Seq<(u16, u16, u32)> {
        upper_records(self.upper_bytes())
    }

    pub open spec fn lower_view(&self) -> Seq<(u16, u16)> {
        lower_records(self.lower_bytes())
    }

    /// The edges, in file order.
    pub open spec fn edge_list(&self) -> Seq<Edge> {
        split_edges(self.upper_view(), self.lower_view())
    }

    /// Reads a curve-split pair from the bytes of its two files; they must hold whole records.
    pub fn new(upper: &'a [u8], lower: &'a [u8]) -> (r: Result<UpperLowerMemMapper<'a>, GraphError>)
        ensures
            r is Ok <==> upper@.len() % 8 == 0 && lower@.len() % 4 == 0,
            r matches Ok(m) ==> m.upper_bytes() == upper@ && m.lower_bytes() == lower@,
            r matches Err(e) ==> e == GraphError::RecordLength,
    {
        if upper.len() % 8 != 0 || lower.len() % 4 != 0 {
            return Err(GraphError::RecordLength);
        }
        Ok(UpperLowerMemMapper { upper, lower })
    }
}

/// Hands out the edges of upper records `groups[g]` for `g` from zero while the
/// counts stay within the lower records.
pub fn replay_groups<A: EdgeAction>(
    upper: &[u8],
    lower: &[u8],
    action: &mut A,
) -> (r: Result<(), GraphError>)
    requires
        old(action).ready(),
    ensures
        final(action).ready(),
        final(action).params() == old(action).params(),
        r is Ok <==> count_sum(upper_records(upper@)) <= lower_records(lower@).len(),
        r is Ok ==> final(action).seen() == old(action).seen() + split_edges(
            upper_records(upper@),
            lower_records(lower@),
        ),
        r matches Err(e) ==> e == GraphError::CountOverrun,
{
    let ghost seen0 = action.seen();
    let ghost groups = upper_records(upper@);
    let ghost lows = lower_records(lower@);
    let n_groups = upper.len() / 8;
    let n_lower = lower.len() / 4;
    let mut g: usize = 0;
    let mut cursor: usize = 0;
    while g < n_groups
        invariant
            n_groups == groups.len(),
            n_lower == lows.len(),
            groups == upper_records(upper@),
            lows == lower_records(lower@),
            g <= n_groups,
            cursor == count_sum(groups.take(g as int)),
            cursor <= n_lower,
            action.ready(),
            action.params() == old(action).params(),
            action.seen() == seen0 + split_edges(groups.take(g as int), lows),
        decreases n_groups - g,
    {
        let (ux, uy, c) = upper_record(upper, g);
        proof {
            lemma_count_sum_prefix(groups, g as int);
        }
        if c as usize > n_lower - cursor {
            proof {
                lemma_count_sum_prefix(groups, g as int);
            }
            return Err(GraphError::CountOverrun);
        }
        let hx: u32 = (ux as u32) * 65536;
        let hy: u32 = (uy as u32) * 65536;
        let ghost before = action.seen();
        let mut j: usize = 0;
        while j < c as usize
            invariant
                j <= c,
                cursor + c <= n_lower,
                n_lower == lows.len(),
                lows == lower_records(lower@),
                hx == ux as nat * 65536,
                hy == uy as nat * 65536,
                action.ready(),
                action.params() == old(action).params(),
                action.seen() == before + Seq::new(
                    j as nat,
                    |k: int| (join(ux, lows[cursor + k].0), join(uy, lows[cursor + k].1)),
                ),
            decreases c - j,
        {
            let (lx, ly) = lower_record(lower, cursor + j);
            action.act(hx + lx as u32, hy + ly as u32);
            j = j + 1;
            assert(action.seen() =~= before + Seq::new(
                j as nat,
                |k: int| (join(ux, lows[cursor + k].0), join(uy, lows[cursor + k].1)),
            ));
        }
        proof {
            let t = groups.take(g + 1);
            assert(t.drop_last() =~= groups.take(g as int));
            assert(t.last() == (ux, uy, c));
            assert(action.seen() =~= seen0 + split_edges(t, lows));
        }
        cursor = cursor + c as usize;
        g = g + 1;
    }
    assert(groups.take(g as int) =~= groups);
    Ok(())
}

impl<'a> EdgeMapper for UpperLowerMemMapper<'a> {
    open spec fn wf(&self) -> bool {
        true
    }

    open spec fn traversal(&self, es: Seq<Edge>, next: Self) -> bool {
        es == self.edge_list() && next == *self && count_sum(self.upper_view()) <= self.lower_view().len()
    }

    /// The counts do not run past the lower records.
    open spec fn total(&self) -> bool {
        count_sum(self.upper_view()) <= self.lower_view().len()
    }

    open spec fn steady(&self) -> bool {
        true
    }

    proof fn lemma_steady(&self, es1: Seq<Edge>, next1: Self, es2: Seq<Edge>, next2: Self) {
    }

    fn map_edges<A: EdgeAction>(&mut self, action: &mut A) -> (r: Result<(), GraphError>) {
        let r = replay_groups(self.upper, self.lower, action);
        assert(r is Ok ==> self.traversal(self.edge_list(), *self));
        r
    }
}

/// Decodes a whole delta stream held in memory, handing out the edge at each index.
pub fn replay_stream<A: EdgeAction>(bytes: &[u8], action: &mut A) -> (r: Result<(), GraphError>)
    requires
        old(action).ready(),
    ensures
        final(action).ready(),
        final(action).params() == old(action).params(),
        r is Ok <==> decode_indices(bytes@) is Some,
        r is Ok ==> final(action).seen() == old(action).seen() + index_edges(
            run(start_state(), bytes@).1,
        ),
        r matches Err(e) ==> (e == GraphError::ValueOverflow <==> run(start_state(), bytes@).0.failed),
        r matches Err(e) ==> e == GraphError::ValueOverflow || e == GraphError::TruncatedEscape,
{
    let ghost seen0 = action.seen();
    let mut dec = DeltaDecoder::new();
    let mut curve = CurveDecoder::new();
    let mut i: usize = 0;
    while i < bytes.len()
        invariant
            i <= bytes@.len(),
            dec.wf(),
            curve.wf(),
            dec@ == run(start_state(), bytes@.take(i as int)).0,
            action.ready(),
            action.params() == old(action).params(),
            action.seen() == seen0 + index_edges(run(start_state(), bytes@.take(i as int)).1),
        decreases bytes@.len() - i,
    {
        let ghost pre = run(start_state(), bytes@.take(i as int));
        proof {
            let t = bytes@.take(i + 1);
            assert(t.drop_last() =~= bytes@.take(i as int));
            assert(t.last() == bytes@[i as int]);
        }
        let e = dec.push(bytes[i]);
        match e {
            Some(d) => {
                let (x, y) = curve.detangle(d);
                action.act(x, y);
                assert(index_edges(pre.1.push(d as nat)) =~= index_edges(pre.1).push((x, y)));
            },
            None => {},
        }
        i = i + 1;
    }
    assert(bytes@.take(i as int) =~= bytes@);
    if dec.has_failed() {
        return Err(GraphError::ValueOverflow);
    }
    if !dec.is_settled() {
        return Err(GraphError::TruncatedEscape);
    }
    Ok(())
}

/// A delta-compressed stream of curve indices held in memory.
pub struct DeltaCompressedSliceMapper<'a> {
    slice: &'a [u8],
}

impl<'a> DeltaCompressedSliceMapper<'a> {
    pub closed spec fn bytes(&self) -> Seq<u8> {
        self.slice@
    }

    /// The edges, in stream order.
    pub open spec fn edge_list(&self) -> Seq<Edge> {
        index_edges(run(start_state(), self.bytes()).1)
    }

    pub fn new(slice: &'a [u8]) -> (r: DeltaCompressedSliceMapper<'a>)
        ensures
            r.bytes() == slice@,
    {
        DeltaCompressedSliceMapper { slice }
    }
}

impl<'a> EdgeMapper for DeltaCompressedSliceMapper<'a> {
    open spec fn wf(&self) -> bool {
        true
    }

    open spec fn traversal(&self, es: Seq<Edge>, next: Self) -> bool {
        decode_indices(self.bytes()) is Some && es == self.edge_list() && next == *self
    }

    /// The stream is whole: it ends outside an escape and every value fits.
    open spec fn total(&self) -> bool {
        decode_indices(self.bytes()) is Some
    }

    open spec fn steady(&self) -> bool {
        true
    }

    proof fn lemma_steady(&self, es1: Seq<Edge>, next1: Self, es2: Seq<Edge>, next2: Self) {
    }

    fn map_edges<A: EdgeAction>(&mut self, action: &mut A) -> (r: Result<(), GraphError>) {
        let r = replay_stream(self.slice, action);
        assert(r is Ok ==> self.traversal(self.edge_list(), *self));
        r
    }
}

/// A text edge list, read and parsed again on every walk.
pub struct ReaderMapper<S: ByteSource> {
    pub reader: S,
}

impl<S: ByteSource> ReaderMapper<S> {
    pub fn new(reader: S) -> (r: ReaderMapper<S>)
        ensures
            r.reader == reader,
    {
        ReaderMapper { reader }
    }
}

impl<S: ByteSource> EdgeMapper for ReaderMapper<S> {
    open spec fn wf(&self) -> bool {
        true
    }

    /// The edges are those of some text, whatever the source held at the time.
    open spec fn traversal(&self, es: Seq<Edge>, next: Self) -> bool {
        next == *self && exists|text: Seq<u8>| #[trigger] text_edges(text) == Some(es)
    }

    open spec fn total(&self) -> bool {
        false
    }

    open spec fn steady(&self) -> bool {
        false
    }

    proof fn lemma_steady(&self, es1: Seq<Edge>, next1: Self, es2: Seq<Edge>, next2: Self) {
    }

    fn map_edges<A: EdgeAction>(&mut self, action: &mut A) -> (r: Result<(), GraphError>) {
        let ghost seen0 = action.seen();
        let mut stream = self.reader.open();
        let mut parser = TextParser::new();
        let ghost mut text: Seq<u8> = Seq::empty();
        let mut done = false;
        let mut rounds: u64 = 0;
        while !done && rounds < u64::MAX
            invariant
                parser@ == text_run(text).0,
                !parser@.failed,
                action.ready(),
                action.params() == old(action).params(),
                action.seen() == seen0 + text_run(text).1,
            decreases u64::MAX - rounds,
        {
            let chunk = self.reader.read_chunk(&mut stream);
            if chunk.len() == 0 {
                done = true;
            }
            let mut i: usize = 0;
            while i < chunk.len()
                invariant
                    i <= chunk@.len(),
                    parser@ == text_run(text).0,
                    !parser@.failed,
                    action.ready(),
                    action.params() == old(action).params(),
                    action.seen() == seen0 + text_run(text).1,
                decreases chunk@.len() - i,
            {
                let b = chunk[i];
                let ghost pre = text_run(text);
                proof {
                    assert(text.push(b).drop_last() =~= text);
                    text = text.push(b);
                }
                let e = parser.push(b);
                if parser.has_failed() {
                    return Err(GraphError::MalformedLine);
                }
                match e {
                    Some((x, y)) => {
                        action.act(x, y);
                        assert(action.seen() =~= seen0 + text_run(text).1);
                    },
                    None => {},
                }
                i = i + 1;
            }
            rounds = rounds + 1;
        }
        match parser.finish() {
            Err(e) => Err(e),
            Ok(last) => {
                match last {
                    Some((x, y)) => {
                        action.act(x, y);
                        assert(action.seen() =~= seen0 + text_run(text).1.push((x, y)));
                        assert(text_edges(text) == Some(text_run(text).1.push((x, y))));
                    },
                    None => {
                        assert(text_edges(text) == Some(text_run(text).1));
                    },
                }
                assert(Seq::<Edge>::empty() + action.seen().subrange(seen0.len() as int, action.seen().len() as int) =~= action.seen().subrange(seen0.len() as int, action.seen().len() as int));
                let ghost es = action.seen().subrange(seen0.len() as int, action.seen().len() as int);
                assert(action.seen() =~= seen0 + es);
                assert(text_edges(text) == Some(es));
                assert(self.traversal(es, *self));
                Ok(())
            },
        }
    }
}

/// A delta-compressed stream of curve indices, read and decoded again on every walk.
pub struct DeltaCompressedReaderMapper<S: ByteSource> {
    reader: S,
}

impl<S: ByteSource> DeltaCompressedReaderMapper<S> {
    pub closed spec fn source(&self) -> S {
        self.reader
    }

    pub fn new(reader: S) -> (r: DeltaCompressedReaderMapper<S>)
        ensures
            r.source() == reader,
    {
        DeltaCompressedReaderMapper { reader }
    }
}

impl<S: ByteSource> EdgeMapper for DeltaCompressedReaderMapper<S> {
    open spec fn wf(&self) -> bool {
        true
    }

    /// The edges are those of some whole stream, whatever the source held at the time.
    open spec fn traversal(&self, es: Seq<Edge>, next: Self) -> bool {
        next == *self && exists|bytes: Seq<u8>|
            #[trigger] decode_indices(bytes) is Some && es == index_edges(run(start_state(), bytes).1)
    }

    open spec fn total(&self) -> bool {
        false
    }

    open spec fn steady(&self) -> bool {
        false
    }

    proof fn lemma_steady(&self, es1: Seq<Edge>, next1: Self, es2: Seq<Edge>, next2: Self) {
    }

    fn map_edges<A: EdgeAction>(&mut self, action: &mut A) -> (r: Result<(), GraphError>) {
        let ghost seen0 = action.seen();
        let mut stream = self.reader.open();
        let mut dec = DeltaDecoder::new();
        let mut curve = CurveDecoder::new();
        let ghost mut bytes: Seq<u8> = Seq::empty();
        let mut done = false;
        let mut rounds: u64 = 0;
        while !done && rounds < u64::MAX
            invariant
                dec.wf(),
                curve.wf(),
                dec@ == run(start_state(), bytes).0,
                action.ready(),
                action.params() == old(action).params(),
                action.seen() == seen0 + index_edges(run(start_state(), bytes).1),
            decreases u64::MAX - rounds,
        {
            let chunk = self.reader.read_chunk(&mut stream);
            if chunk.len() == 0 {
                done = true;
            }
            let mut i: usize = 0;
            while i < chunk.len()
                invariant
                    i <= chunk@.len(),
                    dec.wf(),
                    curve.wf(),
                    dec@ == run(start_state(), bytes).0,
                    action.ready(),
                    action.params() == old(action).params(),
                    action.seen() == seen0 + index_edges(run(start_state(), bytes).1),
                decreases chunk@.len() - i,
            {
                let b = chunk[i];
                let ghost pre = run(start_state(), bytes);
                proof {
                    assert(bytes.push(b).drop_last() =~= bytes);
                    bytes = bytes.push(b);
                }
                let e = dec.push(b);
                match e {
                    Some(d) => {
                        let (x, y) = curve.detangle(d);
                        action.act(x, y);
                        assert(index_edges(pre.1.push(d as nat)) =~= index_edges(pre.1).push((x, y)));
                    },
                    None => {},
                }
                i = i + 1;
            }
            rounds = rounds + 1;
        }
        if dec.has_failed() {
            return Err(GraphError::ValueOverflow);
        }
        if !dec.is_settled() {
            return Err(GraphError::TruncatedEscape);
        }
        assert(decode_indices(bytes) is Some);
        assert(self.traversal(index_edges(run(start_state(), bytes).1), *self));
        Ok(())
    }
}

/// The most records of each kind a caching backend sets room aside for.
pub const MAX_RESERVED_RECORDS: usize = 0x1000_0000;

/// A text edge list that is parsed on the first walk and, from then on,
/// replayed from a curve-split copy kept in memory, in curve order.
pub struct CachingReaderMapper<S: ByteSource> {
    reader: ReaderMapper<S>,
    upper: Vec<u8>,
    lower: Vec<u8>,
    is_cached: bool,
}

impl<S: ByteSource> CachingReaderMapper<S> {
    pub closed spec fn source(&self) -> S {
        self.reader.reader
    }

    /// Whether the copy in memory has been made.
    pub closed spec fn cached(&self) -> bool {
        self.is_cached
    }

    /// The edges of the copy in memory, in curve order.
    pub closed spec fn cached_edges(&self) -> Seq<Edge> {
        split_edges(upper_records(self.upper@), lower_records(self.lower@))
    }

    /// Room for `cap_upper` upper records and `cap_lower` lower records is
    /// set aside for the copy (none where that many bytes could not be asked for).
    pub fn new(reader: S, cap_upper: usize, cap_lower: usize) -> (r: CachingReaderMapper<S>)
        ensures
            r.source() == reader,
            !r.cached(),
            r.wf(),
    {
        let upper_room: usize = if cap_upper <= MAX_RESERVED_RECORDS {
            cap_upper * 8
        } else {
            0
        };
        let lower_room: usize = if cap_lower <= MAX_RESERVED_RECORDS {
            cap_lower * 4
        } else {
            0
        };
        CachingReaderMapper {
            reader: ReaderMapper::new(reader),
            upper: Vec::with_capacity(upper_room),
            lower: Vec::with_capacity(lower_room),
            is_cached: false,
        }
    }
}

impl<S: ByteSource> EdgeMapper for CachingReaderMapper<S> {
    closed spec fn wf(&self) -> bool {
        self.is_cached ==> {
            &&& self.upper@.len() % 8 == 0
            &&& self.lower@.len() % 4 == 0
            &&& count_sum(upper_records(self.upper@)) == lower_records(self.lower@).len()
        }
    }

    /// Before the copy is made, a walk hands out the edges of the text in
    /// file order and leaves a copy that holds the same edges; after, it
    /// hands out the edges of the copy.
    open spec fn traversal(&self, es: Seq<Edge>, next: Self) -> bool {
        if self.cached() {
            es == self.cached_edges() && next == *self
        } else {
            &&& exists|text: Seq<u8>| #[trigger] text_edges(text) == Some(es)
            &&& next.cached()
            &&& next.wf()
            &&& next.source() == self.source()
            &&& next.cached_edges().to_multiset() == es.to_multiset()
            &&& exists|v: Seq<u64>| #[trigger] ascending(v) && next.cached_edges() == edges_at(v)
        }
    }

    open spec fn total(&self) -> bool {
        self.cached()
    }

    open spec fn steady(&self) -> bool {
        true
    }

    proof fn lemma_steady(&self, es1: Seq<Edge>, next1: Self, es2: Seq<Edge>, next2: Self) {
    }

    fn map_edges<A: EdgeAction>(&mut self, action: &mut A) -> (r: Result<(), GraphError>) {
        if self.is_cached {
            let r = replay_groups(self.upper.as_slice(), self.lower.as_slice(), action);
            assert(r is Ok ==> self.traversal(self.cached_edges(), *self));
            return r;
        }
        let ghost seen0 = action.seen();
        let ghost src = self.source();
        let mut col = IndexCollector::new();
        let r = self.reader.map_edges(&mut col);
        if r.is_err() {
            return r;
        }
        let ghost es = choose|es: Seq<Edge>|
            #[trigger] old(self).reader.traversal(es, self.reader) && col.seen() == Seq::<Edge>::empty() + es;
        assert(Seq::<Edge>::empty() + es =~= es);
        let mut idx = col.into_indices();
        proof {
            lemma_edges_at_indices(es);
        }
        let mut k: usize = 0;
        while k < idx.len()
            invariant
                k <= idx@.len(),
                edges_at(idx@) == es,
                action.ready(),
                action.params() == old(action).params(),
                action.seen() == seen0 + edges_at(idx@.take(k as int)),
            decreases idx@.len() - k,
        {
            let (x, y) = detangle(idx[k]);
            action.act(x, y);
            k = k + 1;
            assert(edges_at(idx@.take(k as int)) =~= edges_at(idx@.take(k - 1)).push((x, y)));
            assert(action.seen() =~= seen0 + edges_at(idx@.take(k as int)));
        }
        assert(idx@.take(k as int) =~= idx@);
        let ghost unsorted = idx@;
        sort_ascending(&mut idx);
        proof {
            crate::encode::lemma_map_multiset(idx@, unsorted, |d: u64| point_pair(d as nat));
        }
        let mut upper: Vec<u8> = Vec::new();
        let mut lower: Vec<u8> = Vec::new();
        core::mem::swap(&mut upper, &mut self.upper);
        core::mem::swap(&mut lower, &mut self.lower);
        let cs = group_into(&idx, false, upper, lower);
        self.upper = cs.upper;
        self.lower = cs.lower;
        self.is_cached = true;

        assert(old(self).traversal(es, *self));
        Ok(())
    }
}

/// Replaying a cached backend: two walks in a row hand out the same multiset
/// of edges, though the first follows the text and the second the curve.
pub proof fn lemma_cached_replay<S: ByteSource>(
    m0: CachingReaderMapper<S>,
    es1: Seq<Edge>,
    m1: CachingReaderMapper<S>,
    es2: Seq<Edge>,
    m2: CachingReaderMapper<S>,
)
    requires
        m0.wf(),
        m0.traversal(es1, m1),
        m1.traversal(es2, m2),
    ensures
        es1.to_multiset() == es2.to_multiset(),
        m2.cached(),
{
    m0.lemma_steady(es1, m1, es2, m2);
}

} // verus!
