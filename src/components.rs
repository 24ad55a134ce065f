//! Connected components by label propagation, over any backend.
//!
//! Every vertex starts with its own id as label. Each walk hands every edge's
//! larger label the smaller one, until a walk changes nothing. A vertex stops
//! being a root when a smaller label first lands on it.
use vstd::prelude::*;
use crate::bfs::{
    lemma_reach_mono, lemma_within_push, lemma_within_same_multiset, linked, reach_within,
    edges_within, leaves_range, lemma_range_flag,
};
use crate::graph_iterator::{Edge, EdgeAction, EdgeMapper, GraphError};

verus! {

/// Whether a path of edges of `es`, each taken either way round, leads from `a` to `b`.
pub open spec fn connected(es: Seq<Edge>, a: u32, b: u32) -> bool {
    exists|k: nat| #[trigger] reach_within(es, a, b, k)
}

/// The sum of the labels.
pub open spec fn label_sum(s: Seq<u32>) -> nat
    decreases s.len(),
{
    if s.len() == 0 {
        0
    } else {
        label_sum(s.drop_last()) + s.last() as nat
    }
}

/// How many vertices are their own label.
pub open spec fn root_count(s: Seq<u32>) -> nat
    decreases s.len(),
{
    if s.len() == 0 {
        0
    } else {
        root_count(s.drop_last()) + if s.last() == s.len() - 1 {
            1nat
        } else {
            0nat
        }
    }
}

proof fn lemma_sum_update(s: Seq<u32>, i: int, v: u32)
    requires
        0 <= i < s.len(),
    ensures
        label_sum(s.update(i, v)) + s[i] == label_sum(s) + v,
        root_count(s.update(i, v)) + (if s[i] == i { 1nat } else { 0nat }) == root_count(s) + (if v == i { 1nat } else { 0nat }),
    decreases s.len(),
{
    let t = s.update(i, v);
    if i == s.len() - 1 {
        assert(t.drop_last() =~= s.drop_last());
    } else {
        assert(t.drop_last() =~= s.drop_last().update(i, v));
        lemma_sum_update(s.drop_last(), i, v);
    }
}

proof fn lemma_sum_bound(s: Seq<u32>)
    requires
        forall|v: int| 0 <= v < s.len() ==> #[trigger] s[v] <= v,
    ensures
        label_sum(s) <= s.len() * s.len(),
    decreases s.len(),
{
    if s.len() > 0 {
        lemma_sum_bound(s.drop_last());
        let n = s.len();
        assert((n - 1) * (n - 1) + n <= n * n) by (nonlinear_arith)
            requires
                n >= 1,
        ;
    }
}

proof fn lemma_identity_sums(n: nat, s: Seq<u32>)
    requires
        s.len() == n,
        forall|v: int| 0 <= v < n ==> #[trigger] s[v] == v,
    ensures
        root_count(s) == n,
    decreases n,
{
    if n > 0 {
        lemma_identity_sums((n - 1) as nat, s.drop_last());
    }
}

/// One walk of label propagation.
pub struct PropagatePass {
    n: u32,
    label: Vec<u32>,
    sum: u64,
    roots: u32,
    changed: bool,
    out_of_range: bool,
    start_labels: Ghost<Seq<u32>>,
    log: Ghost<Seq<Edge>>,
    base: Ghost<Seq<Edge>>,
}

impl EdgeAction for PropagatePass {
    /// The vertex count, the labels the walk started from, and the edges of
    /// the walks before it.
    type Params = (u32, Seq<u32>, Seq<Edge>);

    closed spec fn params(&self) -> (u32, Seq<u32>, Seq<Edge>) {
        (self.n, self.start_labels@, self.base@)
    }

    closed spec fn seen(&self) -> Seq<Edge> {
        self.log@
    }

    closed spec fn ready(&self) -> bool {
        let all = self.base@ + self.log@;
        &&& self.label@.len() == self.n
        &&& forall|v: int| 0 <= v < self.n ==> #[trigger] self.label@[v] <= v
        &&& forall|v: int| 0 <= v < self.n ==> connected(all, #[trigger] self.label@[v], v as u32)
        &&& self.sum as nat == label_sum(self.label@)
        &&& self.roots as nat == root_count(self.label@)
        &&& label_sum(self.label@) <= label_sum(self.start_labels@)
        &&& !self.changed ==> self.label@ == self.start_labels@
        &&& self.changed ==> label_sum(self.label@) < label_sum(self.start_labels@)
        &&& !self.changed ==> forall|j: int|
            0 <= j < self.log@.len() && self.log@[j].0 < self.n && self.log@[j].1 < self.n
                ==> self.label@[#[trigger] self.log@[j].0 as int] == self.label@[self.log@[j].1 as int]
        &&& self.out_of_range == leaves_range(self.log@, self.n)
    }

    fn act(&mut self, src: u32, dst: u32) {
        let ghost old_all = self.base@ + self.log@;
        let ghost old_log = self.log@;
        let ghost old_label = self.label@;
        self.log = Ghost(self.log@.push((src, dst)));
        let ghost all = self.base@ + self.log@;
        let ghost nl = self.log@;
        proof {
            assert(all =~= old_all.push((src, dst)));
            lemma_within_push(old_all, (src, dst));
            assert forall|v: int| 0 <= v < self.n implies connected(all, #[trigger] old_label[v], v as u32) by {
                let k = choose|k: nat| #[trigger] reach_within(old_all, old_label[v], v as u32, k);
                lemma_reach_mono(old_all, all, old_label[v], v as u32, k);
            }
            assert forall|j: int| 0 <= j < old_log.len() implies #[trigger] nl[j] == old_log[j] by {}
        }
        proof {
            lemma_range_flag(old_log, self.log@, (src, dst), self.n);
        }
        if src >= self.n || dst >= self.n {
            self.out_of_range = true;
            proof {
                assert(nl[old_log.len() as int].0 >= self.n || nl[old_log.len() as int].1 >= self.n);
                self.lemma_balanced_kept(old_log);
            }
            return;
        }
        let ls = self.label[src as usize];
        let ld = self.label[dst as usize];
        let ghost in_range_flag = self.out_of_range;
        proof {
            lemma_sum_bound(self.label@);
            assert(in_range_flag == leaves_range(self.log@, self.n));
        }
        if ls < ld {
            proof {
                let k = choose|k: nat| #[trigger] reach_within(all, ls, src, k);
                assert(linked(all, src, dst));
                assert(reach_within(all, ls, dst, k + 1));
                lemma_sum_update(self.label@, dst as int, ls);
                lemma_sum_bound(self.label@);
            }
            if ld == dst {
                self.roots = self.roots - 1;
            }
            self.sum = self.sum - (ld - ls) as u64;
            self.label.set(dst as usize, ls);
            self.changed = true;
        } else if ld < ls {
            proof {
                let k = choose|k: nat| #[trigger] reach_within(all, ld, dst, k);
                assert(linked(all, dst, src));
                assert(reach_within(all, ld, src, k + 1));
                lemma_sum_update(self.label@, src as int, ld);
            }
            if ls == src {
                self.roots = self.roots - 1;
            }
            self.sum = self.sum - (ls - ld) as u64;
            self.label.set(src as usize, ld);
            self.changed = true;
        }
        proof {
            self.lemma_balanced_kept(old_log);
            assert forall|v: int| 0 <= v < self.n implies connected(all, #[trigger] self.label@[v], v as u32) by {
                if self.label@[v] != old_label[v] {
                    if v == dst as int {
                        let k = choose|k: nat| #[trigger] reach_within(all, ls, src, k);
                        assert(reach_within(all, ls, dst, k + 1));
                    } else {
                        let k = choose|k: nat| #[trigger] reach_within(all, ld, dst, k);
                        assert(reach_within(all, ld, src, k + 1));
                    }
                }
            }
            assert(self.label@.len() == self.n);
            assert(forall|v: int| 0 <= v < self.n ==> #[trigger] self.label@[v] <= v);
            assert(self.sum as nat == label_sum(self.label@));
            assert(self.roots as nat == root_count(self.label@));
            assert(label_sum(self.label@) <= label_sum(self.start_labels@));
            assert(self.changed ==> label_sum(self.label@) < label_sum(self.start_labels@));
            assert(!self.changed ==> self.label@ == self.start_labels@);
        }
    }
}

impl PropagatePass {
    /// With no label changed, an edge added to the log whose ends carry
    /// equal labels (or leave the range) keeps every logged edge balanced.
    proof fn lemma_balanced_kept(&self, old_log: Seq<Edge>)
        requires
            self.log@.len() == old_log.len() + 1,
            forall|j: int| 0 <= j < old_log.len() ==> #[trigger] self.log@[j] == old_log[j],
            !self.changed ==> forall|j: int|
                0 <= j < old_log.len() && old_log[j].0 < self.n && old_log[j].1 < self.n
                    ==> self.label@[#[trigger] old_log[j].0 as int] == self.label@[old_log[j].1 as int],
            !self.changed ==> {
                let e = self.log@[old_log.len() as int];
                e.0 < self.n && e.1 < self.n ==> self.label@[e.0 as int] == self.label@[e.1 as int]
            },
        ensures
            !self.changed ==> forall|j: int|
                0 <= j < self.log@.len() && self.log@[j].0 < self.n && self.log@[j].1 < self.n
                    ==> self.label@[#[trigger] self.log@[j].0 as int] == self.label@[self.log@[j].1 as int],
    {
        if !self.changed {
            let nl = self.log@;
            assert forall|j: int| 0 <= j < nl.len() && nl[j].0 < self.n && nl[j].1 < self.n implies self.label@[
                #[trigger] nl[j].0 as int] == self.label@[nl[j].1 as int] by {
                if j < old_log.len() {
                    assert(nl[j] == old_log[j]);
                }
            }
        }
    }
}

/// Connected components of the first `nodes` vertices, each edge taken either
/// way round: each vertex's label is the smallest vertex it is connected to,
/// and the count is the number of components (vertices that are their own label).
pub fn label_propagation<G: EdgeMapper>(graph: &mut G, nodes: u32) -> (r: Result<(u32, Vec<u32>), GraphError>)
    requires
        old(graph).wf(),
    ensures
        final(graph).wf(),
        old(graph).total() && old(graph).steady() && (forall|es: Seq<Edge>, g1: G|
            #[trigger] old(graph).traversal(es, g1) ==> !leaves_range(es, nodes)) ==> r is Ok,
        r matches Err(e) ==> e == GraphError::VertexOutOfRange || !old(graph).total(),
        r matches Ok((roots, labels)) ==> {
            &&& labels@.len() == nodes
            &&& roots as nat == root_count(labels@)
            &&& forall|v: int| 0 <= v < nodes ==> #[trigger] labels@[v] <= v
            &&& exists|es0: Seq<Edge>, g1: G|
                #![trigger old(graph).traversal(es0, g1)]
                old(graph).traversal(es0, g1)
                && (forall|j: int| 0 <= j < es0.len() ==> #[trigger] es0[j].0 < nodes && es0[j].1 < nodes)
                && (old(graph).steady() ==> {
                    &&& forall|v: int| 0 <= v < nodes ==> connected(es0, #[trigger] labels@[v], v as u32)
                    &&& forall|j: int| 0 <= j < es0.len() ==> labels@[#[trigger] es0[j].0 as int] == labels@[es0[j].1 as int]
                })
        },
        r == Err::<(u32, Vec<u32>), GraphError>(GraphError::VertexOutOfRange) ==> !old(graph).steady() || exists|es: Seq<Edge>, g: G|
            #![trigger old(graph).traversal(es, g)]
            old(graph).traversal(es, g) && exists|j: int| 0 <= j < es.len() && (#[trigger] es[j].0 >= nodes || es[j].1 >= nodes),
{
    let mut label: Vec<u32> = Vec::new();
    let mut new_sum: u64 = 0;
    let mut v: u32 = 0;
    while v < nodes
        invariant
            v <= nodes,
            label@.len() == v,
            forall|w: int| 0 <= w < v ==> #[trigger] label@[w] == w,
            new_sum as nat == label_sum(label@),
        decreases nodes - v,
    {
        proof {
            let next = label@.push(v);
            assert(next.drop_last() =~= label@);
            lemma_sum_bound(next);
            assert(next.len() * next.len() <= 0xffff_ffff * 0xffff_ffff) by (nonlinear_arith)
                requires
                    next.len() <= 0xffff_ffff,
            ;
        }
        label.push(v);
        new_sum = new_sum + v as u64;
        v = v + 1;
    }
    proof {
        lemma_identity_sums(nodes as nat, label@);
        lemma_sum_bound(label@);
        assert(label@.len() * label@.len() < 0xffff_ffff_ffff_ffff) by (nonlinear_arith)
            requires
                label@.len() <= 0xffff_ffff,
        ;
        assert forall|w: int| 0 <= w < nodes implies connected(Seq::<Edge>::empty(), #[trigger] label@[w], w as u32) by {
            assert(reach_within(Seq::<Edge>::empty(), label@[w], w as u32, 0));
        }
    }
    let mut old_sum: u64 = new_sum + 1;
    let mut roots: u32 = nodes;
    let ghost g0 = *graph;
    let ghost mut all: Seq<Edge> = Seq::empty();
    let ghost mut es0: Seq<Edge> = Seq::empty();
    let ghost mut g1: G = *graph;
    let ghost mut prev_graph: G = *graph;
    let ghost mut prev_es: Seq<Edge> = Seq::empty();
    let mut first = true;
    let mut balanced = false;
    while new_sum < old_sum
        invariant
            graph.wf(),
            label@.len() == nodes,
            forall|w: int| 0 <= w < nodes ==> #[trigger] label@[w] <= w,
            forall|w: int| 0 <= w < nodes ==> connected(all, #[trigger] label@[w], w as u32),
            new_sum as nat == label_sum(label@),
            new_sum <= old_sum,
            roots as nat == root_count(label@),
            g0 == *old(graph),
            g0.total() ==> graph.total(),
            !first ==> g0.traversal(es0, g1),
            !first ==> forall|j: int| 0 <= j < es0.len() ==> #[trigger] es0[j].0 < nodes && es0[j].1 < nodes,
            !first ==> prev_graph.wf() && prev_graph.traversal(prev_es, *graph),
            !first && g0.steady() ==> prev_graph.steady() && prev_es.to_multiset() == es0.to_multiset() && edges_within(all, es0),
            first ==> *graph == g0 && all == Seq::<Edge>::empty(),
            new_sum == old_sum ==> !first && forall|j: int|
                0 <= j < prev_es.len() ==> label@[#[trigger] prev_es[j].0 as int] == label@[prev_es[j].1 as int],
        decreases old_sum,
    {
        old_sum = new_sum;
        let ghost before = *graph;
        let ghost start_labels = label@;
        let mut pass = PropagatePass {
            n: nodes,
            label,
            sum: new_sum,
            roots,
            changed: false,
            out_of_range: false,
            start_labels: Ghost(label@),
            log: Ghost(Seq::empty()),
            base: Ghost(all),
        };
        assert(all + Seq::<Edge>::empty() =~= all);
        graph.map_edges(&mut pass)?;
        let ghost es = choose|es: Seq<Edge>|
            #[trigger] before.traversal(es, *graph) && pass.seen() == Seq::<Edge>::empty() + es;
        assert(Seq::<Edge>::empty() + es =~= es);
        if pass.out_of_range {
            proof {
                assert(before.traversal(es, *graph));
                if first {
                    assert(old(graph).traversal(es, *graph));
                }
                if !first && g0.steady() {
                    prev_graph.lemma_steady(prev_es, before, es, *graph);
                    lemma_within_same_multiset(es, es0);
                    let j = choose|j: int| 0 <= j < es.len() && (#[trigger] es[j].0 >= nodes || es[j].1 >= nodes);
                    assert(es.contains(es[j]));
                    assert(es0.contains(es[j]));
                    let i = choose|i: int| 0 <= i < es0.len() && es0[i] == es[j];
                    assert(es0[i].0 < nodes && es0[i].1 < nodes);
                }
            }
            return Err(GraphError::VertexOutOfRange);
        }
        proof {
            if first {
                es0 = es;
                g1 = *graph;
                lemma_within_same_multiset(es, es0);
            } else if g0.steady() {
                prev_graph.lemma_steady(prev_es, before, es, *graph);
                lemma_within_same_multiset(es, es0);
            }
            if first || g0.steady() {
                assert(edges_within(all + es, es0) || !g0.steady()) by {
                    if g0.steady() {
                        assert forall|f: Edge| #[trigger] (all + es).contains(f) implies es0.contains(f) by {
                            let j = choose|j: int| 0 <= j < (all + es).len() && (all + es)[j] == f;
                            if j < all.len() {
                                assert(all[j] == f);
                                assert(all.contains(f));
                            } else {
                                assert(es[j - all.len()] == f);
                                assert(es.contains(f));
                            }
                        }
                    }
                }
            }
            all = all + es;
            prev_graph = before;
            prev_es = es;
        }
        proof {
            assert forall|j: int| 0 <= j < es.len() implies #[trigger] es[j].0 < nodes && es[j].1 < nodes by {
                assert(pass.log@[j] == es[j]);
            }
            if !first {
                assert forall|j: int| 0 <= j < es0.len() implies #[trigger] es0[j].0 < nodes && es0[j].1 < nodes by {}
            }
        }
        first = false;
        label = pass.label;
        new_sum = pass.sum;
        roots = pass.roots;
        proof {
            if new_sum == old_sum {
                assert(!pass.changed);
                assert forall|j: int| 0 <= j < prev_es.len() implies label@[#[trigger] prev_es[j].0 as int] == label@[prev_es[j].1 as int] by {
                    assert(pass.log@[j] == prev_es[j]);
                }
            }
        }
    }
    proof {
        if g0.steady() {
            lemma_within_same_multiset(es0, prev_es);
            assert forall|j: int| 0 <= j < es0.len() implies label@[#[trigger] es0[j].0 as int] == label@[es0[j].1 as int] by {
                let f = es0[j];
                assert(es0.contains(f));
                let i = choose|i: int| 0 <= i < prev_es.len() && prev_es[i] == f;
                assert(label@[prev_es[i].0 as int] == label@[prev_es[i].1 as int]);
            }
            assert forall|w: int| 0 <= w < nodes implies connected(es0, #[trigger] label@[w], w as u32) by {
                let k = choose|k: nat| #[trigger] reach_within(all, label@[w], w as u32, k);
                lemma_reach_mono(all, es0, label@[w], w as u32, k);
            }
        }
        assert(old(graph).traversal(es0, g1));
    }
    Ok((roots, label))
}

} // verus!
