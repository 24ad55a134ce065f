//! A union-find forest over the edges of a graph, joined by rank.
use vstd::prelude::*;
use crate::bfs::{lemma_reach_mono, lemma_within_push, linked, reach_within, edges_within};
use crate::bfs::{lemma_range_flag, leaves_range};
use crate::components::connected;
use crate::graph_iterator::{Edge, EdgeAction, EdgeMapper, GraphError};

verus! {

/// Paths join: `a` to `b` and `b` to `c` make `a` to `c`.
pub proof fn lemma_reach_trans(es: Seq<Edge>, a: u32, b: u32, c: u32, k1: nat, k2: nat)
    requires
        reach_within(es, a, b, k1),
        reach_within(es, b, c, k2),
    ensures
        reach_within(es, a, c, k1 + k2),
    decreases k2,
{
    if k2 == 0 {
        lemma_reach_widen(es, a, b, k1, k1);
    } else if reach_within(es, b, c, (k2 - 1) as nat) {
        lemma_reach_trans(es, a, b, c, k1, (k2 - 1) as nat);
        lemma_reach_widen(es, a, c, (k1 + k2 - 1) as nat, k1 + k2);
    } else {
        let u = choose|u: u32| #[trigger] linked(es, u, c) && reach_within(es, b, u, (k2 - 1) as nat);
        lemma_reach_trans(es, a, b, u, k1, (k2 - 1) as nat);
        assert(linked(es, u, c));
    }
}

/// A path of at most `k` edges is one of at most `m >= k` edges.
pub proof fn lemma_reach_widen(es: Seq<Edge>, a: u32, b: u32, k: nat, m: nat)
    requires
        reach_within(es, a, b, k),
        k <= m,
    ensures
        reach_within(es, a, b, m),
    decreases m,
{
    if m > k {
        lemma_reach_widen(es, a, b, k, (m - 1) as nat);
    }
}

/// Paths run both ways.
pub proof fn lemma_reach_symm(es: Seq<Edge>, a: u32, b: u32, k: nat)
    requires
        reach_within(es, a, b, k),
    ensures
        reach_within(es, b, a, k),
    decreases k,
{
    if k > 0 {
        if reach_within(es, a, b, (k - 1) as nat) {
            lemma_reach_symm(es, a, b, (k - 1) as nat);
        } else {
            let u = choose|u: u32| #[trigger] linked(es, u, b) && reach_within(es, a, u, (k - 1) as nat);
            lemma_reach_symm(es, a, u, (k - 1) as nat);
            assert(linked(es, b, b) || !linked(es, b, b));
            assert(reach_within(es, b, b, 0));
            assert(linked(es, b, u));
            assert(reach_within(es, b, u, 1));
            lemma_reach_trans(es, b, u, a, 1, (k - 1) as nat);
        }
    }
}

proof fn lemma_connected_trans(es: Seq<Edge>, a: u32, b: u32, c: u32)
    requires
        connected(es, a, b),
        connected(es, b, c),
    ensures
        connected(es, a, c),
{
    let k1 = choose|k: nat| #[trigger] reach_within(es, a, b, k);
    let k2 = choose|k: nat| #[trigger] reach_within(es, b, c, k);
    lemma_reach_trans(es, a, b, c, k1, k2);
}

proof fn lemma_connected_symm(es: Seq<Edge>, a: u32, b: u32)
    requires
        connected(es, a, b),
    ensures
        connected(es, b, a),
{
    let k = choose|k: nat| #[trigger] reach_within(es, a, b, k);
    lemma_reach_symm(es, a, b, k);
}

/// How many vertices are not their own parent.
pub open spec fn non_root_count(s: Seq<u32>) -> nat
    decreases s.len(),
{
    if s.len() == 0 {
        0
    } else {
        non_root_count(s.drop_last()) + if s.last() != s.len() - 1 {
            1nat
        } else {
            0nat
        }
    }
}

proof fn lemma_non_root_bound(s: Seq<u32>)
    ensures
        non_root_count(s) <= s.len(),
    decreases s.len(),
{
    if s.len() > 0 {
        lemma_non_root_bound(s.drop_last());
    }
}

/// Whether `parents` is a forest over `n` vertices with `root` naming the root
/// of each vertex's tree: roots are their own parents, a vertex shares its
/// parent's root, and `height` rises along parent links (so the links end).
pub open spec fn forest(parents: Seq<u32>, root: Seq<u32>, height: Seq<nat>, top: nat, n: u32) -> bool {
    &&& parents.len() == n
    &&& root.len() == n
    &&& height.len() == n
    &&& forall|v: int| 0 <= v < n ==> #[trigger] parents[v] < n
    &&& forall|v: int| 0 <= v < n ==> #[trigger] height[v] <= top
    &&& forall|v: int| 0 <= v < n && #[trigger] parents[v] != v ==> height[parents[v] as int] > height[v]
    &&& forall|v: int| 0 <= v < n ==> #[trigger] root[v] < n && parents[root[v] as int] == root[v]
    &&& forall|v: int| 0 <= v < n && #[trigger] parents[v] == v ==> root[v] == v
    &&& forall|v: int| 0 <= v < n ==> #[trigger] root[v] == root[parents[v] as int]
}

/// Whether both ends of every edge of `es` within range share a root.
pub open spec fn edges_joined(root: Seq<u32>, es: Seq<Edge>, n: u32) -> bool {
    forall|j: int|
        0 <= j < es.len() && #[trigger] es[j].0 < n && es[j].1 < n ==> root[es[j].0 as int] == root[es[j].1 as int]
}

/// Whether `parents` is a forest in which both ends of every edge of `es`
/// within range lie in one tree.
pub open spec fn joins_edges(parents: Seq<u32>, es: Seq<Edge>, n: u32) -> bool {
    exists|root: Seq<u32>, height: Seq<nat>, top: nat|
        #[trigger] forest(parents, root, height, top, n) && edges_joined(root, es, n)
}

/// `root` with the root `c` renamed `p`.
pub open spec fn relabel(root: Seq<u32>, c: u32, p: u32) -> Seq<u32> {
    Seq::new(root.len(), |v: int| if root[v] == c { p } else { root[v] })
}

/// `height` with `p` raised above `c`.
pub open spec fn raise(height: Seq<nat>, c: u32, p: u32) -> Seq<nat> {
    height.update(p as int, if height[p as int] > height[c as int] { height[p as int] } else { height[c as int] + 1 })
}

/// Hanging the root `c` under the root `p` keeps a forest, with the roots of
/// `c`'s tree renamed `p`, and keeps joined edges joined.
proof fn lemma_link(
    parents: Seq<u32>,
    root: Seq<u32>,
    height: Seq<nat>,
    top: nat,
    n: u32,
    c: u32,
    p: u32,
    es: Seq<Edge>,
)
    requires
        forest(parents, root, height, top, n),
        edges_joined(root, es, n),
        c < n,
        p < n,
        c != p,
        parents[c as int] == c,
        parents[p as int] == p,
    ensures
        forest(
            parents.update(c as int, p),
            relabel(root, c, p),
            raise(height, c, p),
            if top > height[c as int] + 1 { top } else { height[c as int] + 1 },
            n,
        ),
        edges_joined(relabel(root, c, p), es, n),
{
    let np = parents.update(c as int, p);
    let nr = relabel(root, c, p);
    let nh = raise(height, c, p);
    let nt = if top > height[c as int] + 1 { top } else { height[c as int] + 1 };
    assert(root[c as int] == c);
    assert(root[p as int] == p);
    assert forall|v: int| 0 <= v < n && #[trigger] np[v] != v implies nh[np[v] as int] > nh[v] by {
        if v != c as int {
            assert(np[v] == parents[v]);
        }
    }
    assert forall|v: int| 0 <= v < n implies #[trigger] nh[v] <= nt by {}
    assert forall|v: int| 0 <= v < n implies #[trigger] nr[v] < n && np[nr[v] as int] == nr[v] by {
        assert(root[v] < n && parents[root[v] as int] == root[v]);
    }
    assert forall|v: int| 0 <= v < n && #[trigger] np[v] == v implies nr[v] == v by {
        if v != c as int {
            assert(parents[v] == v);
            assert(root[v] == v);
        }
    }
    assert forall|v: int| 0 <= v < n implies #[trigger] nr[v] == nr[np[v] as int] by {
        assert(root[v] == root[parents[v] as int]);
        if v == c as int {
            assert(np[v] == p);
        } else {
            assert(np[v] == parents[v]);
        }
    }
    assert forall|j: int| 0 <= j < es.len() && #[trigger] es[j].0 < n && es[j].1 < n implies nr[es[j].0 as int]
        == nr[es[j].1 as int] by {
        assert(root[es[j].0 as int] == root[es[j].1 as int]);
    }
}

/// One walk that joins the trees of each edge's two ends.
pub struct UnionPass {
    n: u32,
    roots: Vec<u32>,
    ranks: Vec<u8>,
    out_of_range: bool,
    log: Ghost<Seq<Edge>>,
    root: Ghost<Seq<u32>>,
    height: Ghost<Seq<nat>>,
    top: Ghost<nat>,
}

impl UnionPass {
    pub closed spec fn parents(&self) -> Seq<u32> {
        self.roots@
    }

    pub fn new(n: u32) -> (r: UnionPass)
        ensures
            r.ready(),
            r.seen() == Seq::<Edge>::empty(),
            r.params() == n,
            r.parents().len() == n,
    {
        let mut roots: Vec<u32> = Vec::new();
        let mut ranks: Vec<u8> = Vec::new();
        let mut v: u32 = 0;
        while v < n
            invariant
                v <= n,
                roots@.len() == v,
                ranks@.len() == v,
                forall|w: int| 0 <= w < v ==> #[trigger] roots@[w] == w,
            decreases n - v,
        {
            roots.push(v);
            ranks.push(0);
            v = v + 1;
        }
        let r = UnionPass {
            n,
            roots,
            ranks,
            out_of_range: false,
            log: Ghost(Seq::empty()),
            root: Ghost(roots@),
            height: Ghost(Seq::new(n as nat, |v: int| 0nat)),
            top: Ghost(0),
        };
        assert forall|w: int| 0 <= w < n implies connected(Seq::<Edge>::empty(), #[trigger] r.roots@[w], w as u32) by {
            assert(reach_within(Seq::<Edge>::empty(), w as u32, w as u32, 0));
        }
        r
    }

    /// The root of the tree that holds `x`.
    fn find(&self, x: u32) -> (r: u32)
        requires
            forest(self.roots@, self.root@, self.height@, self.top@, self.n),
            forall|v: int| 0 <= v < self.n ==> connected(self.log@, #[trigger] self.roots@[v], v as u32),
            x < self.n,
        ensures
            r < self.n,
            self.roots@[r as int] == r,
            r == self.root@[x as int],
            connected(self.log@, r, x),
    {
        let mut y = x;
        proof {
            assert(reach_within(self.log@, x, x, 0));
        }
        while y != self.roots[y as usize]
            invariant
                forest(self.roots@, self.root@, self.height@, self.top@, self.n),
                forall|v: int| 0 <= v < self.n ==> connected(self.log@, #[trigger] self.roots@[v], v as u32),
                y < self.n,
                self.root@[y as int] == self.root@[x as int],
                connected(self.log@, y, x),
            decreases self.top@ - self.height@[y as int],
        {
            let p = self.roots[y as usize];
            proof {
                lemma_connected_trans(self.log@, p, y, x);
            }
            y = p;
        }
        y
    }
}

impl UnionPass {
    /// The edges logged before stay joined, and the last one is joined too.
    proof fn lemma_joined_push(&self, old_log: Seq<Edge>)
        requires
            self.log@.len() == old_log.len() + 1,
            forall|j: int| 0 <= j < old_log.len() ==> #[trigger] self.log@[j] == old_log[j],
            edges_joined(self.root@, old_log, self.n),
            ({
                let e = self.log@[old_log.len() as int];
                e.0 < self.n && e.1 < self.n ==> self.root@[e.0 as int] == self.root@[e.1 as int]
            }),
        ensures
            edges_joined(self.root@, self.log@, self.n),
    {
        let nl = self.log@;
        assert forall|j: int| 0 <= j < nl.len() && #[trigger] nl[j].0 < self.n && nl[j].1 < self.n implies self.root@[
            nl[j].0 as int] == self.root@[nl[j].1 as int] by {
            if j < old_log.len() {
                assert(nl[j] == old_log[j]);
            }
        }
    }
}

impl EdgeAction for UnionPass {
    type Params = u32;

    closed spec fn params(&self) -> u32 {
        self.n
    }

    closed spec fn seen(&self) -> Seq<Edge> {
        self.log@
    }

    closed spec fn ready(&self) -> bool {
        &&& self.roots@.len() == self.n
        &&& self.ranks@.len() == self.n
        &&& forall|v: int| 0 <= v < self.n ==> #[trigger] self.roots@[v] < self.n
        &&& forest(self.roots@, self.root@, self.height@, self.top@, self.n)
        &&& edges_joined(self.root@, self.log@, self.n)
        &&& forall|v: int| 0 <= v < self.n ==> connected(self.log@, #[trigger] self.roots@[v], v as u32)
        &&& self.out_of_range == leaves_range(self.log@, self.n)
    }

    #[verifier::rlimit(60)]
    fn act(&mut self, x: u32, y: u32) {
        let ghost old_log = self.log@;
        let ghost old_roots = self.roots@;
        proof {
            assert forall|j: int| 0 <= j < old_log.len() implies #[trigger] old_log.push((x, y))[j] == old_log[j] by {}
        }
        self.log = Ghost(self.log@.push((x, y)));
        let ghost nl = self.log@;
        proof {
            lemma_within_push(old_log, (x, y));
            assert forall|v: int| 0 <= v < self.n implies connected(nl, #[trigger] old_roots[v], v as u32) by {
                let k = choose|k: nat| #[trigger] reach_within(old_log, old_roots[v], v as u32, k);
                lemma_reach_mono(old_log, nl, old_roots[v], v as u32, k);
            }
        }
        proof {
            lemma_range_flag(old_log, self.log@, (x, y), self.n);
        }
        if x >= self.n || y >= self.n {
            self.out_of_range = true;
            proof {
                self.lemma_joined_push(old_log);
            }
            return;
        }
        assert(self.out_of_range == leaves_range(self.log@, self.n));
        let ghost joined_before = self.root@;
        proof {
            // the new edge is not yet joined; the old ones are
            assert(edges_joined(self.root@, old_log, self.n));
        }
        let rx = self.find(x);
        let ry = self.find(y);
        if rx == ry {
            proof {
                self.lemma_joined_push(old_log);
            }
        }
        if rx != ry {
            proof {
                // rx reaches x, x is linked to y, y is reached from ry: the roots are connected
                assert(linked(nl, x, y));
                assert(reach_within(nl, x, x, 0));
                assert(reach_within(nl, x, y, 1));
                lemma_connected_trans(nl, rx, x, y);
                lemma_connected_symm(nl, ry, y);
                lemma_connected_trans(nl, rx, y, ry);
                lemma_connected_symm(nl, rx, ry);
            }
            let kx = self.ranks[rx as usize];
            let ky = self.ranks[ry as usize];
            let ghost (c, p) = if kx < ky { (rx, ry) } else { (ry, rx) };
            proof {
                lemma_link(self.roots@, self.root@, self.height@, self.top@, self.n, c, p, old_log);
                let h = self.height@;
                self.root = Ghost(relabel(self.root@, c, p));
                self.height = Ghost(raise(h, c, p));
                self.top = Ghost(if self.top@ > h[c as int] + 1 { self.top@ } else { h[c as int] + 1 });
            }
            if kx < ky {
                self.roots.set(rx as usize, ry);
            } else {
                self.roots.set(ry as usize, rx);
                if kx == ky && kx < 255 {
                    self.ranks.set(rx as usize, kx + 1);
                }
            }
            proof {
                assert(self.root@[x as int] == p && self.root@[y as int] == p);
                self.lemma_joined_push(old_log);
            }
            proof {
                assert forall|v: int| 0 <= v < self.n implies connected(nl, #[trigger] self.roots@[v], v as u32) by {
                    if v == rx as int && self.roots@[v] != old_roots[v] {
                        lemma_connected_trans(nl, ry, rx, rx);
                    } else if v == ry as int && self.roots@[v] != old_roots[v] {
                        lemma_connected_trans(nl, rx, ry, ry);
                    }
                }
            }
        }
    }
}

/// A union-find forest of the first `nodes` vertices over all edges of the
/// graph, and how many vertices are not roots. Both ends of every edge lie in
/// one tree, and every vertex's parent lies in its component.
pub fn union_find<G: EdgeMapper>(graph: &mut G, nodes: u32) -> (r: Result<(u32, Vec<u32>), GraphError>)
    requires
        old(graph).wf(),
    ensures
        final(graph).wf(),
        old(graph).total() && (forall|es: Seq<Edge>, g1: G|
            #[trigger] old(graph).traversal(es, g1) ==> !leaves_range(es, nodes)) ==> r is Ok,
        r matches Err(e) ==> e == GraphError::VertexOutOfRange || !old(graph).total(),
        r matches Ok((non_roots, parents)) ==> {
            &&& parents@.len() == nodes
            &&& non_roots as nat == non_root_count(parents@)
            &&& forall|v: int| 0 <= v < nodes ==> #[trigger] parents@[v] < nodes
            &&& exists|es: Seq<Edge>, g1: G|
                #![trigger old(graph).traversal(es, g1)]
                old(graph).traversal(es, g1)
                && (forall|j: int| 0 <= j < es.len() ==> #[trigger] es[j].0 < nodes && es[j].1 < nodes)
                && (forall|v: int| 0 <= v < nodes ==> connected(es, #[trigger] parents@[v], v as u32))
                && joins_edges(parents@, es, nodes)
        },
        r == Err::<(u32, Vec<u32>), GraphError>(GraphError::VertexOutOfRange) ==> exists|es: Seq<Edge>, g1: G|
            #![trigger old(graph).traversal(es, g1)]
            old(graph).traversal(es, g1)
            && exists|j: int| 0 <= j < es.len() && (#[trigger] es[j].0 >= nodes || es[j].1 >= nodes),
{
    let mut pass = UnionPass::new(nodes);
    let ghost g0 = *graph;
    graph.map_edges(&mut pass)?;
    let ghost es = choose|es: Seq<Edge>|
        #[trigger] g0.traversal(es, *graph) && pass.seen() == Seq::<Edge>::empty() + es;
    assert(Seq::<Edge>::empty() + es =~= es);
    assert(g0.traversal(es, *graph));
    assert(old(graph).traversal(es, *graph));
    if pass.out_of_range {
        return Err(GraphError::VertexOutOfRange);
    }
    proof {
        assert(pass.log@ == es);
        assert(forest(pass.roots@, pass.root@, pass.height@, pass.top@, nodes));
    }
    let roots = pass.roots;
    let mut non_roots: u32 = 0;
    let mut i: usize = 0;
    while i < roots.len()
        invariant
            i <= roots@.len(),
            roots@.len() == nodes,
            non_roots as nat == non_root_count(roots@.take(i as int)),
        decreases roots@.len() - i,
    {
        proof {
            assert(roots@.take(i + 1).drop_last() =~= roots@.take(i as int));
            lemma_non_root_bound(roots@.take(i as int));
        }
        if i as u32 != roots[i] {
            non_roots = non_roots + 1;
        }
        i = i + 1;
    }
    assert(roots@.take(i as int) =~= roots@);
    proof {
        assert(forest(roots@, pass.root@, pass.height@, pass.top@, nodes));
        assert(edges_joined(pass.root@, es, nodes));
        assert(forall|j: int| 0 <= j < es.len() ==> #[trigger] es[j].0 < nodes && es[j].1 < nodes);
        assert(old(graph).traversal(es, *graph));
        assert(forall|v: int| 0 <= v < nodes ==> connected(es, #[trigger] roots@[v], v as u32));
        assert(joins_edges(roots@, es, nodes));
    }
    Ok((non_roots, roots))
}

} // verus!
