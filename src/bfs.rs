//! Breadth-first distance labels by frontier grafting, over any backend.
//!
//! A first walk finds the neighbours of the start vertex (and merges the
//! components of a union-find forest on the way). Each later walk grafts the
//! unlabelled neighbours of the current frontier onto it and keeps, in a
//! buffer, the edges that can still graft something. Once the buffer holds all
//! of those, the rest of the work runs on the buffer alone.
use vstd::prelude::*;
use vstd::seq_lib::to_multiset_contains;
use crate::graph_iterator::{Edge, EdgeAction, EdgeMapper, GraphError};

verus! {

/// The label of a vertex that no path from the start reaches.
pub const UNREACHED: u32 = u32::MAX;

/// Whether some edge of `es` names a vertex at or above `n`.
pub open spec fn leaves_range(es: Seq<Edge>, n: u32) -> bool {
    exists|j: int| 0 <= j < es.len() && (#[trigger] es[j].0 >= n || es[j].1 >= n)
}

/// An edge leaves the vertex range somewhere in `log.push(e)` exactly when it
/// does in `log` or `e` does.
#[verifier::spinoff_prover]
pub proof fn lemma_range_flag(log: Seq<Edge>, nl: Seq<Edge>, e: Edge, n: u32)
    requires
        nl == log.push(e),
    ensures
        leaves_range(nl, n) == (leaves_range(log, n) || e.0 >= n || e.1 >= n),
{
    assert(nl[log.len() as int] == e);
    if exists|j: int| 0 <= j < nl.len() && (#[trigger] nl[j].0 >= n || nl[j].1 >= n) {
        let j = choose|j: int| 0 <= j < nl.len() && (#[trigger] nl[j].0 >= n || nl[j].1 >= n);
        if j < log.len() {
            assert(log.push(e)[j] == log[j]);
        }
    }
    if exists|j: int| 0 <= j < log.len() && (#[trigger] log[j].0 >= n || log[j].1 >= n) {
        let j = choose|j: int| 0 <= j < log.len() && (#[trigger] log[j].0 >= n || log[j].1 >= n);
        assert(log.push(e)[j] == log[j]);
    }
}

/// Whether `es` has an edge between `u` and `v`, either way round.
pub open spec fn linked(es: Seq<Edge>, u: u32, v: u32) -> bool {
    es.contains((u, v)) || es.contains((v, u))
}

/// Whether a path of at most `k` edges of `es`, each taken either way round,
/// leads from `s` to `v`.
pub open spec fn reach_within(es: Seq<Edge>, s: u32, v: u32, k: nat) -> bool
    decreases k,
{
    if k == 0 {
        v == s
    } else {
        reach_within(es, s, v, (k - 1) as nat) || exists|u: u32|
            #[trigger] linked(es, u, v) && reach_within(es, s, u, (k - 1) as nat)
    }
}

/// Whether every edge of `a` is one of `b`.
pub open spec fn edges_within(a: Seq<Edge>, b: Seq<Edge>) -> bool {
    forall|e: Edge| #[trigger] a.contains(e) ==> b.contains(e)
}

/// Whether each finite label is the length of some path from `s`.
pub open spec fn labels_sound(label: Seq<u32>, es: Seq<Edge>, s: u32) -> bool {
    forall|v: int|
        0 <= v < label.len() && #[trigger] label[v] != UNREACHED ==> reach_within(
            es,
            s,
            v as u32,
            label[v] as nat,
        )
}

/// Whether, for every edge of `es` with an end labelled below `i`, the other
/// end is labelled at most one more.
pub open spec fn closed_below(label: Seq<u32>, es: Seq<Edge>, i: nat) -> bool {
    forall|e: Edge|
        #[trigger] es.contains(e) && (e.0 as int) < label.len() && (e.1 as int) < label.len() ==> {
            &&& (label[e.0 as int] < i ==> label[e.1 as int] <= label[e.0 as int] + 1)
            &&& (label[e.1 as int] < i ==> label[e.0 as int] <= label[e.1 as int] + 1)
        }
}

/// Whether `b` is `a` with some unreached vertices grafted at `i + 1`.
pub open spec fn grafted_from(a: Seq<u32>, b: Seq<u32>, i: nat) -> bool {
    &&& a.len() == b.len()
    &&& forall|x: int| 0 <= x < a.len() ==> (#[trigger] b[x] == a[x] || (a[x] == UNREACHED && b[x] == i + 1))
}

/// Whether every label is at most `i` or `UNREACHED`.
pub open spec fn levels_within(label: Seq<u32>, i: nat) -> bool {
    forall|x: int| 0 <= x < label.len() ==> #[trigger] label[x] <= i || label[x] == UNREACHED
}

proof fn lemma_closed_graft(a: Seq<u32>, b: Seq<u32>, es: Seq<Edge>, i: nat)
    requires
        closed_below(a, es, i),
        grafted_from(a, b, i),
        i + 1 < UNREACHED,
    ensures
        closed_below(b, es, i),
{
    assert forall|e: Edge|
        #[trigger] es.contains(e) && (e.0 as int) < b.len() && (e.1 as int) < b.len() implies {
            &&& (b[e.0 as int] < i ==> b[e.1 as int] <= b[e.0 as int] + 1)
            &&& (b[e.1 as int] < i ==> b[e.0 as int] <= b[e.1 as int] + 1)
        } by {
        let u = e.0 as int;
        let v = e.1 as int;
        assert(b[u] == a[u] || (a[u] == UNREACHED && b[u] == i + 1));
        assert(b[v] == a[v] || (a[v] == UNREACHED && b[v] == i + 1));
    }
}

proof fn lemma_grafted_trans(a: Seq<u32>, b: Seq<u32>, c: Seq<u32>, i: nat)
    requires
        grafted_from(a, b, i),
        grafted_from(b, c, i),
        i + 1 < UNREACHED,
    ensures
        grafted_from(a, c, i),
{
    assert forall|x: int| 0 <= x < a.len() implies (#[trigger] c[x] == a[x] || (a[x] == UNREACHED && c[x] == i + 1)) by {
        assert(b[x] == a[x] || (a[x] == UNREACHED && b[x] == i + 1));
        assert(c[x] == b[x] || (b[x] == UNREACHED && c[x] == i + 1));
    }
}

/// Closed below a level that every finite label is under (or at the very
/// top, where nothing can follow) is closed everywhere.
proof fn lemma_closed_full(label: Seq<u32>, es: Seq<Edge>, i: nat)
    requires
        closed_below(label, es, i),
        forall|x: int| 0 <= x < label.len() ==> #[trigger] label[x] < i || label[x] >= UNREACHED - 1,
    ensures
        closed_below(label, es, UNREACHED as nat),
{
    assert forall|e: Edge|
        #[trigger] es.contains(e) && (e.0 as int) < label.len() && (e.1 as int) < label.len() implies {
            &&& (label[e.0 as int] < UNREACHED ==> label[e.1 as int] <= label[e.0 as int] + 1)
            &&& (label[e.1 as int] < UNREACHED ==> label[e.0 as int] <= label[e.1 as int] + 1)
        } by {
        assert(label[e.0 as int] < i || label[e.0 as int] >= UNREACHED - 1);
        assert(label[e.1 as int] < i || label[e.1 as int] >= UNREACHED - 1);
    }
}

/// With the start at 0 and every edge closed, no vertex is labelled above
/// the length of a path to it.
pub proof fn lemma_complete(label: Seq<u32>, es: Seq<Edge>, s: u32, v: u32, k: nat)
    requires
        (s as int) < label.len(),
        label[s as int] == 0,
        closed_below(label, es, UNREACHED as nat),
        forall|j: int| 0 <= j < es.len() ==> (#[trigger] es[j].0 as int) < label.len() && (es[j].1 as int) < label.len(),
        reach_within(es, s, v, k),
        (v as int) < label.len(),
    ensures
        label[v as int] <= k,
    decreases k,
{
    if k > 0 {
        if reach_within(es, s, v, (k - 1) as nat) {
            lemma_complete(label, es, s, v, (k - 1) as nat);
        } else {
            let u = choose|u: u32| #[trigger] linked(es, u, v) && reach_within(es, s, u, (k - 1) as nat);
            if es.contains((u, v)) {
                let j = choose|j: int| 0 <= j < es.len() && es[j] == (u, v);
                assert(es[j].0 == u);
            } else {
                let j = choose|j: int| 0 <= j < es.len() && es[j] == (v, u);
                assert(es[j].1 == u);
            }
            lemma_complete(label, es, s, u, (k - 1) as nat);
        }
    }
}

pub proof fn lemma_reach_mono(a: Seq<Edge>, b: Seq<Edge>, s: u32, v: u32, k: nat)
    requires
        edges_within(a, b),
        reach_within(a, s, v, k),
    ensures
        reach_within(b, s, v, k),
    decreases k,
{
    if k > 0 {
        if reach_within(a, s, v, (k - 1) as nat) {
            lemma_reach_mono(a, b, s, v, (k - 1) as nat);
        } else {
            let u = choose|u: u32| #[trigger] linked(a, u, v) && reach_within(a, s, u, (k - 1) as nat);
            lemma_reach_mono(a, b, s, u, (k - 1) as nat);
            assert(linked(b, u, v));
        }
    }
}

proof fn lemma_sound_mono(label: Seq<u32>, a: Seq<Edge>, b: Seq<Edge>, s: u32)
    requires
        edges_within(a, b),
        labels_sound(label, a, s),
    ensures
        labels_sound(label, b, s),
{
    assert forall|v: int| 0 <= v < label.len() && #[trigger] label[v] != UNREACHED implies reach_within(
        b,
        s,
        v as u32,
        label[v] as nat,
    ) by {
        lemma_reach_mono(a, b, s, v as u32, label[v] as nat);
    }
}

pub proof fn lemma_within_push(a: Seq<Edge>, e: Edge)
    ensures
        edges_within(a, a.push(e)),
        a.push(e).contains(e),
{
    assert(a.push(e)[a.len() as int] == e);
    assert forall|f: Edge| #[trigger] a.contains(f) implies a.push(e).contains(f) by {
        let j = choose|j: int| 0 <= j < a.len() && a[j] == f;
        assert(a.push(e)[j] == f);
    }
}

/// A sequence of edges holds every edge of another with the same multiset.
pub proof fn lemma_within_same_multiset(a: Seq<Edge>, b: Seq<Edge>)
    requires
        a.to_multiset() == b.to_multiset(),
    ensures
        edges_within(a, b),
{
    assert forall|f: Edge| #[trigger] a.contains(f) implies b.contains(f) by {
        to_multiset_contains(a, f);
        to_multiset_contains(b, f);
    }
}

/// The root of `x` in a forest where every parent is at most its child.
fn find_root(roots: &Vec<u32>, x: u32) -> (r: u32)
    requires
        x < roots@.len(),
        forall|v: int| 0 <= v < roots@.len() ==> #[trigger] roots@[v] <= v,
    ensures
        r <= x,
{
    let mut y = x;
    while y != roots[y as usize]
        invariant
            y <= x < roots@.len(),
            forall|v: int| 0 <= v < roots@.len() ==> #[trigger] roots@[v] <= v,
        decreases y,
    {
        y = roots[y as usize];
    }
    y
}

/// The first walk: labels the start vertex 0 and its neighbours 1, merges
/// the components of the union-find forest (each joined under the smaller
/// root), counts the edges, and notes an edge that leaves the vertex range.
pub struct RestrictPass {
    n: u32,
    start: u32,
    roots: Vec<u32>,
    label: Vec<u32>,
    num_edges: u64,
    out_of_range: bool,
    log: Ghost<Seq<Edge>>,
}

impl RestrictPass {
    pub closed spec fn labels(&self) -> Seq<u32> {
        self.label@
    }

    pub closed spec fn saw_out_of_range(&self) -> bool {
        self.out_of_range
    }

    pub fn new(n: u32, start: u32) -> (r: RestrictPass)
        requires
            start < n,
        ensures
            r.ready(),
            r.seen() == Seq::<Edge>::empty(),
            r.labels().len() == n,
            r.params() == (n, start),
            !r.saw_out_of_range(),
    {
        let mut roots: Vec<u32> = Vec::new();
        let mut label: Vec<u32> = Vec::new();
        let mut v: u32 = 0;
        while v < n
            invariant
                v <= n,
                roots@.len() == v,
                label@.len() == v,
                forall|w: int| 0 <= w < v ==> #[trigger] roots@[w] == w,
                forall|w: int| 0 <= w < v ==> #[trigger] label@[w] == (if w == start { 0 } else { UNREACHED }),
            decreases n - v,
        {
            roots.push(v);
            label.push(if v == start { 0 } else { UNREACHED });
            v = v + 1;
        }
        RestrictPass { n, start, roots, label, num_edges: 0, out_of_range: false, log: Ghost(Seq::empty()) }
    }
}

impl RestrictPass {
    /// Labels only fall, from `UNREACHED` to 1, so the logged edges at the
    /// start vertex stay closed; the last one is closed by its own step.
    proof fn lemma_start_closed(&self, old_log: Seq<Edge>, old_label: Seq<u32>)
        requires
            self.log@.len() == old_log.len() + 1,
            forall|j: int| 0 <= j < old_log.len() ==> #[trigger] self.log@[j] == old_log[j],
            old_label.len() == self.n,
            self.label@.len() == self.n,
            forall|v: int| 0 <= v < self.n ==> #[trigger] self.label@[v] <= old_label[v],
            forall|j: int|
                0 <= j < old_log.len() && #[trigger] old_log[j].0 < self.n && old_log[j].1 < self.n ==> {
                    &&& (old_log[j].0 == self.start ==> old_label[old_log[j].1 as int] <= 1)
                    &&& (old_log[j].1 == self.start ==> old_label[old_log[j].0 as int] <= 1)
                },
            ({
                let e = self.log@[old_log.len() as int];
                e.0 < self.n && e.1 < self.n ==> {
                    &&& (e.0 == self.start ==> self.label@[e.1 as int] <= 1)
                    &&& (e.1 == self.start ==> self.label@[e.0 as int] <= 1)
                }
            }),
        ensures
            forall|j: int|
                0 <= j < self.log@.len() && #[trigger] self.log@[j].0 < self.n && self.log@[j].1 < self.n ==> {
                    &&& (self.log@[j].0 == self.start ==> self.label@[self.log@[j].1 as int] <= 1)
                    &&& (self.log@[j].1 == self.start ==> self.label@[self.log@[j].0 as int] <= 1)
                },
    {
        let nl = self.log@;
        assert forall|j: int| 0 <= j < nl.len() && #[trigger] nl[j].0 < self.n && nl[j].1 < self.n implies {
            &&& (nl[j].0 == self.start ==> self.label@[nl[j].1 as int] <= 1)
            &&& (nl[j].1 == self.start ==> self.label@[nl[j].0 as int] <= 1)
        } by {
            if j < old_log.len() {
                assert(nl[j] == old_log[j]);
                assert(self.label@[nl[j].1 as int] <= old_label[nl[j].1 as int]);
                assert(self.label@[nl[j].0 as int] <= old_label[nl[j].0 as int]);
            }
        }
    }

    /// After a walk whose every edge was logged, the labels are closed below 1
    /// over the edges of that walk, and lie in {0, 1, `UNREACHED`}.
    proof fn lemma_first_closed(&self, es: Seq<Edge>)
        requires
            self.ready(),
            self.log@ == es,
        ensures
            closed_below(self.label@, es, 1),
            levels_within(self.label@, 1),
    {
        assert forall|e: Edge|
            #[trigger] es.contains(e) && (e.0 as int) < self.label@.len() && (e.1 as int) < self.label@.len() implies {
                &&& (self.label@[e.0 as int] < 1 ==> self.label@[e.1 as int] <= self.label@[e.0 as int] + 1)
                &&& (self.label@[e.1 as int] < 1 ==> self.label@[e.0 as int] <= self.label@[e.1 as int] + 1)
            } by {
            let j = choose|j: int| 0 <= j < es.len() && es[j] == e;
            assert(self.log@[j].0 < self.n);
            if e.0 != self.start {
                assert(self.label@[e.0 as int] == UNREACHED || self.label@[e.0 as int] == 1);
            }
            if e.1 != self.start {
                assert(self.label@[e.1 as int] == UNREACHED || self.label@[e.1 as int] == 1);
            }
        }
        assert forall|x: int| 0 <= x < self.label@.len() implies #[trigger] self.label@[x] <= 1 || self.label@[x] == UNREACHED by {
            if x != self.start {
            }
        }
    }
}

impl EdgeAction for RestrictPass {
    /// The vertex count and the start vertex.
    type Params = (u32, u32);

    closed spec fn params(&self) -> (u32, u32) {
        (self.n, self.start)
    }

    closed spec fn seen(&self) -> Seq<Edge> {
        self.log@
    }

    closed spec fn ready(&self) -> bool {
        &&& self.start < self.n
        &&& self.roots@.len() == self.n
        &&& self.label@.len() == self.n
        &&& forall|v: int| 0 <= v < self.roots@.len() ==> #[trigger] self.roots@[v] <= v
        &&& self.label@[self.start as int] == 0
        &&& forall|v: int|
            0 <= v < self.n && v != self.start ==> (#[trigger] self.label@[v] == UNREACHED || (
            self.label@[v] == 1 && linked(self.log@, self.start, v as u32)))
        &&& self.out_of_range == leaves_range(self.log@, self.n)
        &&& forall|j: int|
            0 <= j < self.log@.len() && #[trigger] self.log@[j].0 < self.n && self.log@[j].1 < self.n ==> {
                &&& (self.log@[j].0 == self.start ==> self.label@[self.log@[j].1 as int] <= 1)
                &&& (self.log@[j].1 == self.start ==> self.label@[self.log@[j].0 as int] <= 1)
            }
    }

    fn act(&mut self, x: u32, y: u32) {
        let ghost old_log = self.log@;
        let ghost old_label = self.label@;
        proof {
            lemma_within_push(old_log, (x, y));
        }
        self.log = Ghost(self.log@.push((x, y)));
        proof {
            let nl = self.log@;
            assert forall|v: int| 0 <= v < self.n && v != self.start && old_label[v] == 1 implies linked(
                nl,
                self.start,
                v as u32,
            ) by {
                assert(linked(old_log, self.start, v as u32));
                if old_log.contains((self.start, v as u32)) {
                    assert(nl.contains((self.start, v as u32)));
                } else {
                    assert(nl.contains((v as u32, self.start)));
                }
            }
        }
        if x >= self.n || y >= self.n {
            self.out_of_range = true;
            proof {
                let nl = self.log@;
                assert(nl[old_log.len() as int] == (x, y));
                assert(nl[old_log.len() as int].0 >= self.n || nl[old_log.len() as int].1 >= self.n);
                assert forall|v: int|
                    0 <= v < self.n && v != self.start implies (#[trigger] self.label@[v] == UNREACHED || (
                    self.label@[v] == 1 && linked(nl, self.start, v as u32))) by {
                    assert(self.label@[v] == old_label[v]);
                }
                self.lemma_start_closed(old_log, old_label);
            }
            return;
        }
        proof {
            lemma_range_flag(old_log, self.log@, (x, y), self.n);
        }
        if x == self.start && y != self.start {
            self.label.set(y as usize, 1);
        }
        if y == self.start && x != self.start {
            self.label.set(x as usize, 1);
        }
        let rx = find_root(&self.roots, x);
        let ry = find_root(&self.roots, y);
        let m = if rx < ry {
            rx
        } else {
            ry
        };
        self.roots.set(rx as usize, m);
        self.roots.set(ry as usize, m);
        if self.num_edges < u64::MAX {
            self.num_edges = self.num_edges + 1;
        }
        proof {
            let nl = self.log@;
            assert forall|v: int|
                0 <= v < self.n && v != self.start implies (#[trigger] self.label@[v] == UNREACHED || (
                self.label@[v] == 1 && linked(nl, self.start, v as u32))) by {
                if v == y as int && x == self.start {
                    assert(nl.contains((x, y)));
                } else if v == x as int && y == self.start {
                    assert(nl.contains((x, y)));
                } else {
                    assert(self.label@[v] == old_label[v]);
                }
            }
            self.lemma_start_closed(old_log, old_label);
        }
    }
}

/// One grafting walk at level `iteration`: an edge from a vertex labelled
/// `iteration` to one labelled above `iteration + 1` grafts the latter at
/// `iteration + 1`. While there is room, the edges whose ends both lie above
/// `iteration`, one of them above `iteration + 1`, go into the buffer.
pub struct GraftPass {
    n: u32,
    start: u32,
    iteration: u32,
    label: Vec<u32>,
    buffer: Vec<Edge>,
    cap: usize,
    promoted: bool,
    log: Ghost<Seq<Edge>>,
    base: Ghost<Seq<Edge>>,
    first_edges: Ghost<Seq<Edge>>,
    start_labels: Ghost<Seq<u32>>,
}

impl EdgeAction for GraftPass {
    /// The vertex count, the start vertex, the level, the buffer's room, the
    /// edges of the walks before this one, those of the first walk, and the
    /// labels the walk starts from.
    type Params = (u32, u32, u32, usize, Seq<Edge>, Seq<Edge>, Seq<u32>);

    closed spec fn params(&self) -> (u32, u32, u32, usize, Seq<Edge>, Seq<Edge>, Seq<u32>) {
        (self.n, self.start, self.iteration, self.cap, self.base@, self.first_edges@, self.start_labels@)
    }

    closed spec fn seen(&self) -> Seq<Edge> {
        self.log@
    }

    closed spec fn ready(&self) -> bool {
        &&& self.label@.len() == self.n
        &&& self.start < self.n
        &&& self.label@[self.start as int] == 0
        &&& self.iteration < u32::MAX - 1
        &&& self.buffer@.len() <= self.cap
        &&& labels_sound(self.label@, self.base@ + self.log@, self.start)
        &&& forall|j: int|
            0 <= j < self.buffer@.len() ==> (self.base@ + self.log@).contains(#[trigger] self.buffer@[j])
        &&& self.iteration >= 1
        &&& levels_within(self.start_labels@, self.iteration as nat)
        &&& grafted_from(self.start_labels@, self.label@, self.iteration as nat)
        &&& !self.promoted ==> self.label@ == self.start_labels@
        &&& closed_below(self.label@, self.first_edges@, self.iteration as nat)
        &&& forall|j: int|
            0 <= j < self.log@.len() && #[trigger] self.log@[j].0 < self.n && self.log@[j].1 < self.n ==> {
                &&& (self.label@[self.log@[j].0 as int] == self.iteration ==> self.label@[self.log@[j].1 as int]
                    <= self.iteration + 1)
                &&& (self.label@[self.log@[j].1 as int] == self.iteration ==> self.label@[self.log@[j].0 as int]
                    <= self.iteration + 1)
            }
        &&& self.buffer@.len() < self.cap ==> forall|j: int|
            0 <= j < self.log@.len() && #[trigger] self.log@[j].0 < self.n && self.log@[j].1 < self.n
                && self.first_edges@.contains(self.log@[j]) ==> self.buffer@.contains(self.log@[j]) || (
            self.label@[self.log@[j].0 as int] <= self.iteration + 1 && self.label@[self.log@[j].1 as int]
                <= self.iteration + 1)
    }

    fn act(&mut self, src: u32, dst: u32) {
        let ghost old_all = self.base@ + self.log@;
        let ghost old_log = self.log@;
        let ghost old_label = self.label@;
        let ghost old_buffer = self.buffer@;
        self.log = Ghost(self.log@.push((src, dst)));
        let ghost all = self.base@ + self.log@;
        proof {
            assert(all =~= old_all.push((src, dst)));
            lemma_within_push(old_all, (src, dst));
            lemma_sound_mono(self.label@, old_all, all, self.start);
        }
        if src >= self.n || dst >= self.n {
            proof {
                self.lemma_logged_kept(old_log, old_label, old_buffer);
            }
            return;
        }
        let it = self.iteration;
        let ls = self.label[src as usize];
        let ld = self.label[dst as usize];
        if self.buffer.len() < self.cap {
            if (ls > it && ld > it + 1) || (ld > it && ls > it + 1) {
                self.buffer.push((src, dst));
            }
        }
        if ls == it && ld > it + 1 {
            proof {
                assert(linked(all, src, dst));
                assert(reach_within(all, self.start, src, it as nat));
                assert(reach_within(all, self.start, dst, (it + 1) as nat));
            }
            self.label.set(dst as usize, it + 1);
            self.promoted = true;
        }
        if ld == it && ls > it + 1 {
            proof {
                assert(linked(all, dst, src));
                assert(self.label@[dst as int] == it);
                assert(reach_within(all, self.start, dst, it as nat));
                assert(reach_within(all, self.start, src, (it + 1) as nat));
            }
            self.label.set(src as usize, it + 1);
            self.promoted = true;
        }
        proof {
            let i = it as nat;
            assert(grafted_from(old_label, self.label@, i));
            lemma_grafted_trans(self.start_labels@, old_label, self.label@, i);
            lemma_closed_graft(old_label, self.label@, self.first_edges@, i);
            assert(self.buffer@.len() < self.cap ==> old_buffer.len() < self.cap);
            if self.buffer@.len() < self.cap && self.first_edges@.contains((src, dst)) {
                if !self.buffer@.contains((src, dst)) {
                    // not buffered: both ends end up at most one level above `it`
                    if ls < it {
                        assert(old_label[src as int] < i);
                    }
                    if ld < it {
                        assert(old_label[dst as int] < i);
                    }
                }
            }
            if self.buffer@.len() > old_buffer.len() {
                assert(self.buffer@[old_buffer.len() as int] == (src, dst));
            }
            assert forall|k: int| 0 <= k < old_buffer.len() implies self.buffer@.contains(#[trigger] old_buffer[k]) by {
                assert(self.buffer@[k] == old_buffer[k]);
            }
            assert(self.log@ == old_log.push(self.log@.last()));
            let e = self.log@.last();
            assert(e == (src, dst));
            assert(self.label@[src as int] == it ==> self.label@[dst as int] <= it + 1);
            assert(self.label@[dst as int] == it ==> self.label@[src as int] <= it + 1);
            assert(self.buffer@.len() < self.cap && self.first_edges@.contains(e) ==> self.buffer@.contains(e) || (
                self.label@[src as int] <= it + 1 && self.label@[dst as int] <= it + 1));
            self.lemma_logged_kept(old_log, old_label, old_buffer);
        }
    }
}

/// Whether every edge of `es` within range is in `buffer`, or has both ends
/// labelled at most `j`.
pub open spec fn buffer_covers(label: Seq<u32>, buffer: Seq<Edge>, es: Seq<Edge>, j: nat) -> bool {
    forall|e: Edge|
        #[trigger] es.contains(e) && (e.0 as int) < label.len() && (e.1 as int) < label.len() ==> buffer.contains(e) || (
        label[e.0 as int] <= j && label[e.1 as int] <= j)
}

impl GraftPass {
    /// After a walk that logged every edge of the first walk, the labels are
    /// closed one level further over those edges, and, if the buffer never
    /// filled, it covers them.
    proof fn lemma_after_walk(&self)
        requires
            self.ready(),
            edges_within(self.first_edges@, self.log@),
        ensures
            closed_below(self.label@, self.first_edges@, (self.iteration + 1) as nat),
            self.buffer@.len() < self.cap ==> buffer_covers(
                self.label@,
                self.buffer@,
                self.first_edges@,
                (self.iteration + 1) as nat,
            ),
    {
        let es = self.first_edges@;
        let lab = self.label@;
        let i = self.iteration as nat;
        assert forall|e: Edge| #[trigger] es.contains(e) && (e.0 as int) < lab.len() && (e.1 as int) < lab.len() implies {
            &&& (lab[e.0 as int] < i + 1 ==> lab[e.1 as int] <= lab[e.0 as int] + 1)
            &&& (lab[e.1 as int] < i + 1 ==> lab[e.0 as int] <= lab[e.1 as int] + 1)
        } by {
            assert(self.log@.contains(e));
            let j = choose|j: int| 0 <= j < self.log@.len() && self.log@[j] == e;
            assert(self.log@[j].0 < self.n);
        }
        if self.buffer@.len() < self.cap {
            assert forall|e: Edge| #[trigger] es.contains(e) && (e.0 as int) < lab.len() && (e.1 as int) < lab.len()
                implies self.buffer@.contains(e) || (lab[e.0 as int] <= i + 1 && lab[e.1 as int] <= i + 1) by {
                assert(self.log@.contains(e));
                let j = choose|j: int| 0 <= j < self.log@.len() && self.log@[j] == e;
                assert(self.log@[j].0 < self.n);
            }
        }
    }

    /// Logging one more edge keeps the facts about the edges logged before,
    /// as labels only fall from `UNREACHED` to `iteration + 1`, and the buffer
    /// only grows; the new edge, if in range, is closed at this level and, when
    /// the buffer has room, buffered or finished.
    proof fn lemma_logged_kept(&self, old_log: Seq<Edge>, old_label: Seq<u32>, old_buffer: Seq<Edge>)
        requires
            self.log@ == old_log.push(self.log@.last()),
            self.log@.len() > 0,
            grafted_from(old_label, self.label@, self.iteration as nat),
            self.iteration + 1 < UNREACHED,
            old_label.len() == self.n,
            forall|j: int| 0 <= j < old_buffer.len() ==> self.buffer@.contains(#[trigger] old_buffer[j]),
            old_buffer.len() <= self.buffer@.len(),
            forall|j: int|
                0 <= j < old_log.len() && #[trigger] old_log[j].0 < self.n && old_log[j].1 < self.n ==> {
                    &&& (old_label[old_log[j].0 as int] == self.iteration ==> old_label[old_log[j].1 as int]
                        <= self.iteration + 1)
                    &&& (old_label[old_log[j].1 as int] == self.iteration ==> old_label[old_log[j].0 as int]
                        <= self.iteration + 1)
                },
            old_buffer.len() < self.cap ==> forall|j: int|
                0 <= j < old_log.len() && #[trigger] old_log[j].0 < self.n && old_log[j].1 < self.n
                    && self.first_edges@.contains(old_log[j]) ==> old_buffer.contains(old_log[j]) || (
                old_label[old_log[j].0 as int] <= self.iteration + 1 && old_label[old_log[j].1 as int]
                    <= self.iteration + 1),
            ({
                let e = self.log@.last();
                e.0 < self.n && e.1 < self.n ==> {
                    &&& (self.label@[e.0 as int] == self.iteration ==> self.label@[e.1 as int] <= self.iteration + 1)
                    &&& (self.label@[e.1 as int] == self.iteration ==> self.label@[e.0 as int] <= self.iteration + 1)
                    &&& (self.buffer@.len() < self.cap && self.first_edges@.contains(e) ==> self.buffer@.contains(e) || (
                        self.label@[e.0 as int] <= self.iteration + 1 && self.label@[e.1 as int] <= self.iteration + 1))
                }
            }),
        ensures
            forall|j: int|
                0 <= j < self.log@.len() && #[trigger] self.log@[j].0 < self.n && self.log@[j].1 < self.n ==> {
                    &&& (self.label@[self.log@[j].0 as int] == self.iteration ==> self.label@[self.log@[j].1 as int]
                        <= self.iteration + 1)
                    &&& (self.label@[self.log@[j].1 as int] == self.iteration ==> self.label@[self.log@[j].0 as int]
                        <= self.iteration + 1)
                },
            self.buffer@.len() < self.cap ==> forall|j: int|
                0 <= j < self.log@.len() && #[trigger] self.log@[j].0 < self.n && self.log@[j].1 < self.n
                    && self.first_edges@.contains(self.log@[j]) ==> self.buffer@.contains(self.log@[j]) || (
                self.label@[self.log@[j].0 as int] <= self.iteration + 1 && self.label@[self.log@[j].1 as int]
                    <= self.iteration + 1),
    {
        let nl = self.log@;
        let i = self.iteration as nat;
        assert forall|j: int|
            0 <= j < nl.len() && #[trigger] nl[j].0 < self.n && nl[j].1 < self.n implies {
                &&& (self.label@[nl[j].0 as int] == self.iteration ==> self.label@[nl[j].1 as int] <= self.iteration + 1)
                &&& (self.label@[nl[j].1 as int] == self.iteration ==> self.label@[nl[j].0 as int] <= self.iteration + 1)
            } by {
            if j < old_log.len() {
                assert(nl[j] == old_log[j]);
                let u = nl[j].0 as int;
                let v = nl[j].1 as int;
                assert(self.label@[u] == old_label[u] || (old_label[u] == UNREACHED && self.label@[u] == i + 1));
                assert(self.label@[v] == old_label[v] || (old_label[v] == UNREACHED && self.label@[v] == i + 1));
            }
        }
        if self.buffer@.len() < self.cap {
            assert forall|j: int|
                0 <= j < nl.len() && #[trigger] nl[j].0 < self.n && nl[j].1 < self.n && self.first_edges@.contains(nl[j])
                    implies self.buffer@.contains(nl[j]) || (self.label@[nl[j].0 as int] <= self.iteration + 1
                && self.label@[nl[j].1 as int] <= self.iteration + 1) by {
                if j < old_log.len() {
                    assert(nl[j] == old_log[j]);
                    let u = nl[j].0 as int;
                    let v = nl[j].1 as int;
                    assert(self.label@[u] == old_label[u] || (old_label[u] == UNREACHED && self.label@[u] == i + 1));
                    assert(self.label@[v] == old_label[v] || (old_label[v] == UNREACHED && self.label@[v] == i + 1));
                    if old_buffer.contains(nl[j]) {
                        let k = choose|k: int| 0 <= k < old_buffer.len() && old_buffer[k] == nl[j];
                        assert(self.buffer@.contains(old_buffer[k]));
                    }
                }
            }
        }
    }
}

/// Grafts along the buffered edges at level `iteration` and drops the edges
/// that can graft nothing more; returns whether anything was grafted. Where
/// the buffer covers the edges `first` and the labels are closed below the
/// level over them, the labels come out closed one level further and the
/// buffer still covers them.
fn graft_buffer(
    label: &mut Vec<u32>,
    buffer: &mut Vec<Edge>,
    iteration: u32,
    Ghost(all): Ghost<Seq<Edge>>,
    Ghost(start): Ghost<u32>,
    Ghost(first): Ghost<Seq<Edge>>,
    Ghost(exact): Ghost<bool>,
) -> (grafted: bool)
    requires
        iteration < u32::MAX - 1,
        start < old(label)@.len(),
        old(label)@[start as int] == 0,
        labels_sound(old(label)@, all, start),
        forall|j: int| 0 <= j < old(buffer)@.len() ==> all.contains(#[trigger] old(buffer)@[j]),
        levels_within(old(label)@, iteration as nat),
        exact ==> edges_within(all, first),
        exact ==> closed_below(old(label)@, first, iteration as nat),
        exact ==> buffer_covers(old(label)@, old(buffer)@, first, iteration as nat),
    ensures
        final(label)@.len() == old(label)@.len(),
        final(label)@[start as int] == 0,
        labels_sound(final(label)@, all, start),
        forall|j: int| 0 <= j < final(buffer)@.len() ==> all.contains(#[trigger] final(buffer)@[j]),
        grafted_from(old(label)@, final(label)@, iteration as nat),
        !grafted ==> final(label)@ == old(label)@,
        exact ==> closed_below(final(label)@, first, (iteration + 1) as nat),
        exact ==> buffer_covers(final(label)@, final(buffer)@, first, (iteration + 1) as nat),
{
    let n = label.len();
    let ghost label0 = label@;
    let ghost i = iteration as nat;
    let mut kept: Vec<Edge> = Vec::new();
    let mut grafted = false;
    let it = iteration;
    let mut j: usize = 0;
    while j < buffer.len()
        invariant
            j <= buffer@.len(),
            label@.len() == n,
            n == label0.len(),
            i == it as nat,
            start < n,
            label@[start as int] == 0,
            it < u32::MAX - 1,
            labels_sound(label@, all, start),
            forall|k: int| 0 <= k < buffer@.len() ==> all.contains(#[trigger] buffer@[k]),
            forall|k: int| 0 <= k < kept@.len() ==> all.contains(#[trigger] kept@[k]),
            grafted_from(label0, label@, i),
            levels_within(label0, i),
            !grafted ==> label@ == label0,
            exact ==> edges_within(all, first),
            exact ==> closed_below(label@, first, i),
            forall|k: int|
                0 <= k < j && (#[trigger] buffer@[k].0 as int) < n && (buffer@[k].1 as int) < n ==> {
                    &&& (label@[buffer@[k].0 as int] == it ==> label@[buffer@[k].1 as int] <= it + 1)
                    &&& (label@[buffer@[k].1 as int] == it ==> label@[buffer@[k].0 as int] <= it + 1)
                    &&& (exact ==> kept@.contains(buffer@[k]) || (label@[buffer@[k].0 as int] <= it + 1
                        && label@[buffer@[k].1 as int] <= it + 1))
                },
        decreases buffer@.len() - j,
    {
        let (src, dst) = buffer[j];
        let ghost before = label@;
        let ghost kept_before = kept@;
        assert(all.contains(buffer@[j as int]));
        assert(buffer@[j as int] == (src, dst));
        if (src as usize) < n && (dst as usize) < n {
            proof {
                assert(label0[src as int] <= i || label0[src as int] == UNREACHED);
                assert(label0[dst as int] <= i || label0[dst as int] == UNREACHED);
                assert(label@[src as int] == label0[src as int] || (label0[src as int] == UNREACHED && label@[src as int] == i + 1));
                assert(label@[dst as int] == label0[dst as int] || (label0[dst as int] == UNREACHED && label@[dst as int] == i + 1));
            }
            if label[src as usize] == it && label[dst as usize] > it + 1 {
                proof {
                    assert(linked(all, src, dst));
                    assert(reach_within(all, start, src, it as nat));
                    assert(reach_within(all, start, dst, (it + 1) as nat));
                }
                label.set(dst as usize, it + 1);
                grafted = true;
            } else if label[dst as usize] == it && label[src as usize] > it + 1 {
                proof {
                    assert(linked(all, dst, src));
                    assert(reach_within(all, start, dst, it as nat));
                    assert(reach_within(all, start, src, (it + 1) as nat));
                }
                label.set(src as usize, it + 1);
                grafted = true;
            }
            let ls = label[src as usize];
            let ld = label[dst as usize];
            if (ls > it && ld > it + 1) || (ld > it && ls > it + 1) {
                kept.push((src, dst));
            }
            proof {
                assert(grafted_from(before, label@, i));
                lemma_grafted_trans(label0, before, label@, i);
                if exact {
                    lemma_closed_graft(before, label@, first, i);
                    assert(first.contains((src, dst)));
                    if ls < it {
                        assert(label@[src as int] < i);
                    }
                    if ld < it {
                        assert(label@[dst as int] < i);
                    }
                }
                if kept@.len() > kept_before.len() {
                    assert(kept@[kept_before.len() as int] == (src, dst));
                }
            }
        }
        proof {
            assert(grafted_from(before, label@, i));
            assert forall|k: int|
                0 <= k < j + 1 && (#[trigger] buffer@[k].0 as int) < n && (buffer@[k].1 as int) < n implies {
                    &&& (label@[buffer@[k].0 as int] == it ==> label@[buffer@[k].1 as int] <= it + 1)
                    &&& (label@[buffer@[k].1 as int] == it ==> label@[buffer@[k].0 as int] <= it + 1)
                    &&& (exact ==> kept@.contains(buffer@[k]) || (label@[buffer@[k].0 as int] <= it + 1
                        && label@[buffer@[k].1 as int] <= it + 1))
                } by {
                if k < j {
                    let u = buffer@[k].0 as int;
                    let v = buffer@[k].1 as int;
                    assert(label@[u] == before[u] || (before[u] == UNREACHED && label@[u] == i + 1));
                    assert(label@[v] == before[v] || (before[v] == UNREACHED && label@[v] == i + 1));
                    if kept_before.contains(buffer@[k]) {
                        let m = choose|m: int| 0 <= m < kept_before.len() && kept_before[m] == buffer@[k];
                        assert(kept@[m] == buffer@[k]);
                    }
                }
            }
        }
        j = j + 1;
    }
    proof {
        if exact {
            lemma_closed_graft(label0, label@, first, i);
            let lab = label@;
            assert forall|e: Edge| #[trigger] first.contains(e) && (e.0 as int) < lab.len() && (e.1 as int) < lab.len() implies {
                &&& (lab[e.0 as int] < i + 1 ==> lab[e.1 as int] <= lab[e.0 as int] + 1)
                &&& (lab[e.1 as int] < i + 1 ==> lab[e.0 as int] <= lab[e.1 as int] + 1)
            } by {
                let u = e.0 as int;
                let v = e.1 as int;
                assert(lab[u] == label0[u] || (label0[u] == UNREACHED && lab[u] == i + 1));
                assert(lab[v] == label0[v] || (label0[v] == UNREACHED && lab[v] == i + 1));
                if buffer@.contains(e) {
                    let k = choose|k: int| 0 <= k < buffer@.len() && buffer@[k] == e;
                    assert((buffer@[k].0 as int) < n);
                }
            }
            assert forall|e: Edge| #[trigger] first.contains(e) && (e.0 as int) < lab.len() && (e.1 as int) < lab.len()
                implies kept@.contains(e) || (lab[e.0 as int] <= i + 1 && lab[e.1 as int] <= i + 1) by {
                let u = e.0 as int;
                let v = e.1 as int;
                assert(lab[u] == label0[u] || (label0[u] == UNREACHED && lab[u] == i + 1));
                assert(lab[v] == label0[v] || (label0[v] == UNREACHED && lab[v] == i + 1));
                if buffer@.contains(e) {
                    let k = choose|k: int| 0 <= k < buffer@.len() && buffer@[k] == e;
                    assert((buffer@[k].0 as int) < n);
                }
            }
        }
    }
    *buffer = kept;
    grafted
}

/// Breadth-first distance labels from `start_vertex` over the first
/// `nodes` vertices, each edge taken either way round. On a backend whose
/// walks all hand out one multiset of edges, the label of each vertex is the
/// length of a shortest path to it from the start vertex, or `UNREACHED`
/// where no path of fewer than `UNREACHED` edges leads to it.
pub fn bfs<G: EdgeMapper>(graph: &mut G, nodes: u32, start_vertex: u32) -> (r: Result<Vec<u32>, GraphError>)
    requires
        old(graph).wf(),
    ensures
        final(graph).wf(),
        r == Err::<Vec<u32>, GraphError>(GraphError::StartOutOfRange) <==> start_vertex >= nodes,
        old(graph).total() && start_vertex < nodes && (forall|es: Seq<Edge>, g1: G|
            #[trigger] old(graph).traversal(es, g1) ==> !leaves_range(es, nodes)) ==> r is Ok,
        old(graph).total() && start_vertex < nodes && (forall|es: Seq<Edge>, g1: G|
            #[trigger] old(graph).traversal(es, g1) ==> leaves_range(es, nodes))
            ==> r == Err::<Vec<u32>, GraphError>(GraphError::VertexOutOfRange),
        r matches Ok(labels) ==> {
            &&& start_vertex < nodes
            &&& labels@.len() == nodes
            &&& labels@[start_vertex as int] == 0
            &&& exists|es0: Seq<Edge>, g1: G|
                #![trigger old(graph).traversal(es0, g1)]
                old(graph).traversal(es0, g1)
                && (forall|j: int| 0 <= j < es0.len() ==> #[trigger] es0[j].0 < nodes && es0[j].1 < nodes)
                && (old(graph).steady() ==> labels_sound(labels@, es0, start_vertex))
                && (old(graph).steady() ==> forall|v: u32, k: nat|
                    v < nodes && #[trigger] reach_within(es0, start_vertex, v, k) ==> labels@[v as int] <= k)
        },
        r == Err::<Vec<u32>, GraphError>(GraphError::VertexOutOfRange) ==> exists|es0: Seq<Edge>, g1: G|
            #![trigger old(graph).traversal(es0, g1)]
            old(graph).traversal(es0, g1)
            && exists|j: int| 0 <= j < es0.len() && (#[trigger] es0[j].0 >= nodes || es0[j].1 >= nodes),
{
    if start_vertex >= nodes {
        return Err(GraphError::StartOutOfRange);
    }
    let ghost g0 = *graph;
    let mut first = RestrictPass::new(nodes, start_vertex);
    graph.map_edges(&mut first)?;
    let ghost es0 = choose|es: Seq<Edge>|
        #[trigger] g0.traversal(es, *graph) && first.seen() == Seq::<Edge>::empty() + es;
    let ghost g1 = *graph;
    assert(Seq::<Edge>::empty() + es0 =~= es0);
    assert(g0.traversal(es0, g1));
    if first.out_of_range {
        assert(first.seen() == es0);
        assert(old(graph).traversal(es0, g1));
        return Err(GraphError::VertexOutOfRange);
    }
    assert(old(graph).traversal(es0, g1));
    assert(first.seen() == es0);
    assert(forall|j: int| 0 <= j < es0.len() ==> #[trigger] es0[j].0 < nodes && es0[j].1 < nodes);
    proof {
        first.lemma_first_closed(es0);
    }
    let ghost steady = g0.steady();
    let ghost tracked_first: Seq<Edge> = if steady { es0 } else { Seq::empty() };
    let ghost lab0 = first.labels();
    let ghost mut all: Seq<Edge> = es0;
    let ghost mut prev_graph: G = g0;
    let ghost mut prev_es: Seq<Edge> = es0;
    let mut label = first.label;
    assert(label@ == lab0);
    proof {
        assert forall|v: int| 0 <= v < label@.len() && #[trigger] label@[v] != UNREACHED implies reach_within(
            all,
            start_vertex,
            v as u32,
            label@[v] as nat,
        ) by {
            if v == start_vertex {
            } else {
                assert(linked(es0, start_vertex, v as u32));
                assert(reach_within(es0, start_vertex, start_vertex, 0));
            }
        }
        assert(closed_below(label@, tracked_first, 1));
    }
    let cap: usize = if first.num_edges <= usize::MAX as u64 {
        first.num_edges as usize
    } else {
        usize::MAX
    };
    let mut buffer: Vec<Edge> = Vec::new();
    let mut iteration: u32 = 1;
    let mut go = true;
    let mut promoted_last = true;
    while go && iteration < u32::MAX - 1
        invariant
            graph.wf(),
            label@.len() == nodes,
            start_vertex < nodes,
            label@[start_vertex as int] == 0,
            labels_sound(label@, all, start_vertex),
            forall|j: int| 0 <= j < buffer@.len() ==> all.contains(#[trigger] buffer@[j]),
            g0.traversal(es0, g1),
            g0 == *old(graph),
            g0.total() ==> graph.total(),
            steady == g0.steady(),
            tracked_first == (if steady { es0 } else { Seq::<Edge>::empty() }),
            forall|j: int| 0 <= j < es0.len() ==> #[trigger] es0[j].0 < nodes && es0[j].1 < nodes,
            prev_graph.wf(),
            prev_graph.traversal(prev_es, *graph),
            steady ==> prev_graph.steady() && prev_es.to_multiset() == es0.to_multiset() && edges_within(all, es0),
            1 <= iteration <= u32::MAX - 1,
            levels_within(label@, iteration as nat),
            closed_below(label@, tracked_first, iteration as nat),
            !go && !promoted_last ==> levels_within(label@, (iteration - 1) as nat),
            !go && promoted_last ==> buffer_covers(label@, buffer@, tracked_first, iteration as nat),
        decreases u32::MAX - iteration,
    {
        let ghost start_labels = label@;
        let mut pass = GraftPass {
            n: nodes,
            start: start_vertex,
            iteration,
            label,
            buffer: Vec::new(),
            cap,
            promoted: false,
            log: Ghost(Seq::empty()),
            base: Ghost(all),
            first_edges: Ghost(tracked_first),
            start_labels: Ghost(start_labels),
        };
        assert(all + Seq::<Edge>::empty() =~= all);
        assert(grafted_from(start_labels, start_labels, iteration as nat));
        let ghost before = *graph;
        graph.map_edges(&mut pass)?;
        let ghost es = choose|es: Seq<Edge>|
            #[trigger] before.traversal(es, *graph) && pass.seen() == Seq::<Edge>::empty() + es;
        assert(Seq::<Edge>::empty() + es =~= es);
        proof {
            if steady {
                prev_graph.lemma_steady(prev_es, before, es, *graph);
                lemma_within_same_multiset(es, es0);
                lemma_within_same_multiset(es0, es);
                assert(edges_within(all + es, es0)) by {
                    assert forall|f: Edge| #[trigger] (all + es).contains(f) implies es0.contains(f) by {
                        let j = choose|j: int| 0 <= j < (all + es).len() && (all + es)[j] == f;
                        if j < all.len() {
                            assert(all[j] == f);
                            assert(all.contains(f));
                        } else {
                            assert(es[j - all.len()] == f);
                            assert(es.contains(f));
                        }
                    }
                }
            } else {
                assert(edges_within(tracked_first, es));
            }
            assert(pass.log@ == es);
            pass.lemma_after_walk();
            let i = iteration as nat;
            assert forall|x: int| 0 <= x < pass.label@.len() implies #[trigger] pass.label@[x] <= i + 1
                || pass.label@[x] == UNREACHED by {
                assert(start_labels[x] <= i || start_labels[x] == UNREACHED);
                assert(pass.label@[x] == start_labels[x] || (start_labels[x] == UNREACHED && pass.label@[x] == i + 1));
            }
            all = all + es;
            prev_graph = before;
            prev_es = es;
        }
        label = pass.label;
        buffer = pass.buffer;
        promoted_last = pass.promoted;
        iteration = iteration + 1;
        go = buffer.len() == cap && pass.promoted;
    }
    let mut done = iteration >= u32::MAX - 1 || !promoted_last;
    proof {
        if done {
            if iteration >= u32::MAX - 1 {
                assert forall|x: int| 0 <= x < label@.len() implies #[trigger] label@[x] < iteration as nat
                    || label@[x] >= UNREACHED - 1 by {
                    assert(label@[x] <= iteration || label@[x] == UNREACHED);
                }
            } else {
                assert forall|x: int| 0 <= x < label@.len() implies #[trigger] label@[x] < iteration as nat
                    || label@[x] >= UNREACHED - 1 by {
                    assert(label@[x] <= iteration - 1 || label@[x] == UNREACHED);
                }
            }
            lemma_closed_full(label@, tracked_first, iteration as nat);
        }
    }
    while !done && iteration < u32::MAX - 1
        invariant
            label@.len() == nodes,
            start_vertex < nodes,
            label@[start_vertex as int] == 0,
            labels_sound(label@, all, start_vertex),
            forall|j: int| 0 <= j < buffer@.len() ==> all.contains(#[trigger] buffer@[j]),
            steady == g0.steady(),
            tracked_first == (if steady { es0 } else { Seq::<Edge>::empty() }),
            steady ==> edges_within(all, es0),
            g0.traversal(es0, g1),
            g0 == *old(graph),
            forall|j: int| 0 <= j < es0.len() ==> #[trigger] es0[j].0 < nodes && es0[j].1 < nodes,
            iteration <= u32::MAX - 1,
            levels_within(label@, iteration as nat),
            closed_below(label@, tracked_first, iteration as nat),
            !done ==> buffer_covers(label@, buffer@, tracked_first, iteration as nat),
            done ==> closed_below(label@, tracked_first, UNREACHED as nat),
        decreases u32::MAX - iteration,
    {
        let ghost lab_before = label@;
        let grafted = graft_buffer(
            &mut label,
            &mut buffer,
            iteration,
            Ghost(all),
            Ghost(start_vertex),
            Ghost(es0),
            Ghost(steady),
        );
        proof {
            let i = iteration as nat;
            if !steady {
                assert(closed_below(label@, tracked_first, i + 1));
                assert(buffer_covers(label@, buffer@, tracked_first, i + 1));
            }
            if !grafted {
                assert forall|x: int| 0 <= x < label@.len() implies #[trigger] label@[x] < i + 1
                    || label@[x] >= UNREACHED - 1 by {
                    assert(label@[x] <= i || label@[x] == UNREACHED);
                }
                lemma_closed_full(label@, tracked_first, i + 1);
            }
            assert forall|x: int| 0 <= x < label@.len() implies #[trigger] label@[x] <= i + 1
                || label@[x] == UNREACHED by {
                assert(lab_before[x] <= i || lab_before[x] == UNREACHED);
                assert(label@[x] == lab_before[x] || (lab_before[x] == UNREACHED && label@[x] == i + 1));
            }
        }
        done = !grafted;
        iteration = iteration + 1;
    }
    proof {
        if !done {
            assert forall|x: int| 0 <= x < label@.len() implies #[trigger] label@[x] < iteration as nat
                || label@[x] >= UNREACHED - 1 by {
                assert(label@[x] <= iteration || label@[x] == UNREACHED);
            }
            lemma_closed_full(label@, tracked_first, iteration as nat);
        }
        if steady {
            lemma_sound_mono(label@, all, es0, start_vertex);
            assert forall|v: u32, k: nat| v < nodes && #[trigger] reach_within(es0, start_vertex, v, k) implies label@[
                v as int] <= k by {
                lemma_complete(label@, es0, start_vertex, v, k);
            }
        }
        assert(old(graph).traversal(es0, g1));
    }
    Ok(label)
}

} // verus!
