//! The two-way adjacency of a graph as a CSR pair: every edge taken both ways
//! round, each ordered pair once, in ascending order of `(source, destination)`.
use vstd::prelude::*;
use vstd::seq_lib::to_multiset_contains;
use crate::csr::{CsrBuilder, CsrFiles};
use crate::encode::{ascending, sort_ascending};
use crate::graph_iterator::{Edge, EdgeAction, EdgeMapper, GraphError};
use crate::records::{csr_edges, degree_sum, edge_targets, node_records};

verus! {

/// The key of an ordered pair: ordering keys orders pairs by source, then destination.
pub open spec fn key_of(x: u32, y: u32) -> u64 {
    (x as nat * 0x1_0000_0000 + y as nat) as u64
}

/// The ordered pair of a key.
pub open spec fn pair_of(k: u64) -> Edge {
    ((k as nat / 0x1_0000_0000) as u32, (k as nat % 0x1_0000_0000) as u32)
}

/// Whether `k` is the key of an edge of `es` taken one way or the other.
pub open spec fn two_way_key(es: Seq<Edge>, k: u64) -> bool {
    exists|j: int| 0 <= j < es.len() && (k == key_of(es[j].0, es[j].1) || k == key_of(es[j].1, es[j].0))
}

/// Whether a sequence of keys rises strictly.
pub open spec fn strictly_rising(v: Seq<u64>) -> bool {
    forall|i: int, j: int| 0 <= i < j < v.len() ==> v[i] < v[j]
}

/// An action that keeps the keys of every edge it is handed, both ways round.
struct KeyCollector {
    keys: Vec<u64>,
    log: Ghost<Seq<Edge>>,
}

impl EdgeAction for KeyCollector {
    type Params = ();

    open spec fn params(&self) -> () {
        ()
    }

    closed spec fn seen(&self) -> Seq<Edge> {
        self.log@
    }

    closed spec fn ready(&self) -> bool {
        forall|k: u64| #[trigger] self.keys@.contains(k) <==> two_way_key(self.log@, k)
    }

    fn act(&mut self, src: u32, dst: u32) {
        let ghost old_keys = self.keys@;
        let ghost old_log = self.log@;
        let a = (src as u64) * 0x1_0000_0000 + dst as u64;
        let b = (dst as u64) * 0x1_0000_0000 + src as u64;
        self.keys.push(a);
        self.keys.push(b);
        self.log = Ghost(self.log@.push((src, dst)));
        proof {
            let nk = self.keys@;
            let nl = self.log@;
            assert(nk =~= old_keys.push(a).push(b));
            assert forall|k: u64| #[trigger] nk.contains(k) <==> two_way_key(nl, k) by {
                if nk.contains(k) {
                    let i = choose|i: int| 0 <= i < nk.len() && nk[i] == k;
                    if i < old_keys.len() {
                        assert(old_keys.contains(k));
                        let j = choose|j: int|
                            0 <= j < old_log.len() && (k == key_of(old_log[j].0, old_log[j].1) || k == key_of(
                                old_log[j].1,
                                old_log[j].0,
                            ));
                        assert(nl[j] == old_log[j]);
                    } else {
                        assert(nl[old_log.len() as int] == (src, dst));
                    }
                }
                if two_way_key(nl, k) {
                    let j = choose|j: int|
                        0 <= j < nl.len() && (k == key_of(nl[j].0, nl[j].1) || k == key_of(nl[j].1, nl[j].0));
                    if j < old_log.len() {
                        assert(nl[j] == old_log[j]);
                        assert(two_way_key(old_log, k));
                        assert(old_keys.contains(k));
                        let i = choose|i: int| 0 <= i < old_keys.len() && old_keys[i] == k;
                        assert(nk[i] == k);
                    } else if k == a {
                        assert(nk[old_keys.len() as int] == k);
                    } else {
                        assert(nk[old_keys.len() as int + 1] == k);
                    }
                }
            }
        }
    }
}

/// The two-way adjacency of the graph's edges as a CSR pair: its edges are
/// the distinct ordered pairs `(x, y)` with an edge between `x` and `y`
/// either way round, in ascending order; its degrees add up to their number.
pub fn two_way_csr<G: EdgeMapper>(graph: &mut G) -> (r: Result<CsrFiles, GraphError>)
    requires
        old(graph).wf(),
    ensures
        final(graph).wf(),
        old(graph).total() ==> r is Ok,
        r matches Ok(files) ==> {
            &&& degree_sum(node_records(files.nodes@)) == edge_targets(files.edges@).len()
            &&& exists|es: Seq<Edge>, keys: Seq<u64>|
                #![trigger old(graph).traversal(es, *final(graph)), strictly_rising(keys)]
                old(graph).traversal(es, *final(graph))
                && strictly_rising(keys)
                && (forall|k: u64| #[trigger] keys.contains(k) <==> two_way_key(es, k))
                && csr_edges(node_records(files.nodes@), edge_targets(files.edges@)) == keys.map_values(
                    |k: u64| pair_of(k),
                )
        },
{
    let mut col = KeyCollector { keys: Vec::new(), log: Ghost(Seq::empty()) };
    let ghost g0 = *graph;
    graph.map_edges(&mut col)?;
    let ghost es = choose|es: Seq<Edge>|
        #[trigger] g0.traversal(es, *graph) && col.seen() == Seq::<Edge>::empty() + es;
    assert(Seq::<Edge>::empty() + es =~= es);
    let mut keys = col.keys;
    let ghost unsorted = keys@;
    sort_ascending(&mut keys);
    let mut kept: Vec<u64> = Vec::new();
    let mut i: usize = 0;
    while i < keys.len()
        invariant
            i <= keys@.len(),
            ascending(keys@),
            keys@.to_multiset() == unsorted.to_multiset(),
            strictly_rising(kept@),
            kept@.len() > 0 ==> i > 0 && kept@.last() == keys@[i - 1],
            forall|k: u64| #[trigger] kept@.contains(k) <==> keys@.take(i as int).contains(k),
        decreases keys@.len() - i,
    {
        let k = keys[i];
        let ghost before = kept@;
        if kept.len() == 0 || kept[kept.len() - 1] != k {
            kept.push(k);
        }
        proof {
            let t = keys@.take(i + 1);
            assert(t =~= keys@.take(i as int).push(k));
            assert forall|m: u64| #[trigger] kept@.contains(m) <==> t.contains(m) by {
                if kept@.contains(m) {
                    let j = choose|j: int| 0 <= j < kept@.len() && kept@[j] == m;
                    if j < before.len() {
                        assert(before.contains(m));
                        let q = choose|q: int| 0 <= q < i && keys@.take(i as int)[q] == m;
                        assert(t[q] == m);
                    } else {
                        assert(t[i as int] == m);
                    }
                }
                if t.contains(m) {
                    let q = choose|q: int| 0 <= q < t.len() && t[q] == m;
                    if q < i {
                        assert(keys@.take(i as int)[q] == m);
                        assert(before.contains(m));
                        let j = choose|j: int| 0 <= j < before.len() && before[j] == m;
                        assert(kept@[j] == m);
                    } else if kept@.len() > before.len() {
                        assert(kept@[before.len() as int] == m);
                    } else {
                        assert(before.last() == m);
                        assert(kept@[before.len() - 1] == m);
                    }
                }
            }
            if kept@.len() > before.len() && before.len() > 0 {
                assert(keys@[i - 1] <= keys@[i as int]);
                assert forall|a: int, b: int| 0 <= a < b < kept@.len() implies kept@[a] < kept@[b] by {
                    if b == before.len() {
                        if a < before.len() - 1 {
                            assert(before[a] < before[before.len() - 1]);
                        }
                    }
                }
            }
        }
        i = i + 1;
    }
    proof {
        assert(keys@.take(i as int) =~= keys@);
        assert forall|k: u64| #[trigger] kept@.contains(k) <==> two_way_key(es, k) by {
            to_multiset_contains(keys@, k);
            to_multiset_contains(unsorted, k);
            assert(unsorted.contains(k) <==> two_way_key(col.seen(), k));
        }
    }
    let mut builder = CsrBuilder::new();
    let mut j: usize = 0;
    while j < kept.len()
        invariant
            j <= kept@.len(),
            builder.ready(),
            builder.seen() == kept@.take(j as int).map_values(|k: u64| pair_of(k)),
        decreases kept@.len() - j,
    {
        let k = kept[j];
        builder.act((k / 0x1_0000_0000) as u32, (k % 0x1_0000_0000) as u32);
        j = j + 1;
        assert(kept@.take(j as int).map_values(|k: u64| pair_of(k)) =~= kept@.take(j - 1).map_values(
            |k: u64| pair_of(k),
        ).push(pair_of(k)));
    }
    assert(kept@.take(j as int) =~= kept@);
    let files = builder.finish();
    assert(old(graph).traversal(es, *graph));
    Ok(files)
}

} // verus!
