//! Conversion of a graph to the curve-split format: edges in curve order,
//! grouped by the block of the curve they lie in.
use vstd::prelude::*;
use vstd::arithmetic::div_mod::lemma_div_is_ordered;
use vstd::seq_lib::{to_multiset_build, to_multiset_contains, to_multiset_len, to_multiset_remove};
use crate::curve::{
    block_of, curve_block, curve_index, entangle, det, lemma_curve_inverse, lemma_point_bound,
    point_pair, CurveDecoder,
};
use crate::graph_iterator::{Edge, EdgeAction, EdgeMapper, GraphError};
use crate::delta::{encode_deltas, encode_spec, rising, decode_indices, run, start_state, widen, lemma_delta_round_trip};
use crate::graph_iterator::{index_edges, UpperLowerMemMapper, DeltaCompressedSliceMapper};
use crate::records::{count_sum, join, lower_records, push_u16, push_u32, split_edges, upper_records};

verus! {

broadcast use vstd::multiset::group_multiset_axioms;

/// Mapping a sequence and a reordering of it gives one multiset.
pub proof fn lemma_map_multiset<A, B>(a: Seq<A>, b: Seq<A>, f: spec_fn(A) -> B)
    requires
        a.to_multiset() == b.to_multiset(),
    ensures
        a.map_values(f).to_multiset() == b.map_values(f).to_multiset(),
    decreases a.len(),
{
    if a.len() == 0 {
        to_multiset_len(a);
        to_multiset_len(b);
        assert(a.map_values(f) =~= Seq::<B>::empty());
        assert(b.map_values(f) =~= Seq::<B>::empty());
    } else {
        let x = a.last();
        let pre = a.drop_last();
        assert(pre.push(x) =~= a);
        to_multiset_build(pre, x);
        to_multiset_contains(b, x);
        let i = choose|i: int| 0 <= i < b.len() && b[i] == x;
        to_multiset_remove(b, i);
        let b2 = b.remove(i);
        assert(pre.to_multiset() =~= b2.to_multiset());
        lemma_map_multiset(pre, b2, f);
        assert(a.map_values(f) =~= pre.map_values(f).push(f(x)));
        to_multiset_build(pre.map_values(f), f(x));
        assert(b.map_values(f).remove(i) =~= b2.map_values(f));
        to_multiset_remove(b.map_values(f), i);
        assert(b.map_values(f)[i] == f(x));
        to_multiset_contains(b.map_values(f), f(x));
        assert(b.map_values(f).to_multiset() =~= b2.map_values(f).to_multiset().insert(f(x)));
    }
}

/// A curve-split pair, as the bytes of its upper and lower files.
pub struct CurveSplit {
    pub upper: Vec<u8>,
    pub lower: Vec<u8>,
}

impl CurveSplit {
    /// The edges it holds, in order.
    pub open spec fn edge_list(&self) -> Seq<Edge> {
        split_edges(upper_records(self.upper@), lower_records(self.lower@))
    }

    /// Whether its files hold whole records and its counts add up to its lower records.
    pub open spec fn wf(&self) -> bool {
        &&& self.upper@.len() % 8 == 0
        &&& self.lower@.len() % 4 == 0
        &&& count_sum(upper_records(self.upper@)) == lower_records(self.lower@).len()
    }
}

proof fn lemma_upper_push(a: Seq<u8>, b: Seq<u8>, ux: u16, uy: u16, c: u32)
    requires
        a.len() % 8 == 0,
        b.len() == a.len() as int + 8,
        b.take(a.len() as int) == a,
        crate::records::le16(b, a.len() as int) == ux as nat,
        crate::records::le16(b, a.len() as int + 2) == uy as nat,
        crate::records::le32(b, a.len() as int + 4) == c as nat,
    ensures
        upper_records(b) == upper_records(a).push((ux, uy, c)),
{
    assert forall|i: int| 0 <= i < a.len() implies b[i] == a[i] by {
        assert(b.take(a.len() as int)[i] == b[i]);
    }
    assert(upper_records(b) =~= upper_records(a).push((ux, uy, c)));
}

proof fn lemma_lower_push(a: Seq<u8>, b: Seq<u8>, lx: u16, ly: u16)
    requires
        a.len() % 4 == 0,
        b.len() == a.len() as int + 4,
        b.take(a.len() as int) == a,
        crate::records::le16(b, a.len() as int) == lx as nat,
        crate::records::le16(b, a.len() as int + 2) == ly as nat,
    ensures
        lower_records(b) == lower_records(a).push((lx, ly)),
{
    assert forall|i: int| 0 <= i < a.len() implies b[i] == a[i] by {
        assert(b.take(a.len() as int)[i] == b[i]);
    }
    assert(lower_records(b) =~= lower_records(a).push((lx, ly)));
}

fn push_upper(out: &mut Vec<u8>, ux: u16, uy: u16, c: u32)
    requires
        old(out)@.len() % 8 == 0,
    ensures
        final(out)@.len() == old(out)@.len() + 8,
        upper_records(final(out)@) == upper_records(old(out)@).push((ux, uy, c)),
{
    let ghost a = out@;
    push_u16(out, ux);
    let ghost b1 = out@;
    push_u16(out, uy);
    let ghost b2 = out@;
    push_u32(out, c);
    proof {
        let b = out@;
        assert(b.take(a.len() as int) =~= a) by {
            assert(b.take(b2.len() as int) == b2);
            assert(b2.take(b1.len() as int) == b1);
            assert(b1.take(a.len() as int) == a);
        }
        assert(b.take(b2.len() as int) == b2);
        assert(b2.take(b1.len() as int) == b1);
        assert(b[a.len() as int] == b1[a.len() as int]);
        assert(b[a.len() as int + 1] == b1[a.len() as int + 1]);
        assert(b[a.len() as int + 2] == b2[a.len() as int + 2]);
        assert(b[a.len() as int + 3] == b2[a.len() as int + 3]);
        lemma_upper_push(a, b, ux, uy, c);
    }
}

fn push_lower(out: &mut Vec<u8>, lx: u16, ly: u16)
    requires
        old(out)@.len() % 4 == 0,
    ensures
        final(out)@.len() == old(out)@.len() + 4,
        lower_records(final(out)@) == lower_records(old(out)@).push((lx, ly)),
{
    let ghost a = out@;
    push_u16(out, lx);
    let ghost b1 = out@;
    push_u16(out, ly);
    proof {
        let b = out@;
        assert(b.take(a.len() as int) =~= a) by {
            assert(b.take(b1.len() as int) == b1);
            assert(b1.take(a.len() as int) == a);
        }
        assert(b.take(b1.len() as int) == b1);
        assert(b[a.len() as int] == b1[a.len() as int]);
        assert(b[a.len() as int + 1] == b1[a.len() as int + 1]);
        lemma_lower_push(a, b, lx, ly);
    }
}

/// Lower records past the ones the counts reach change nothing.
proof fn lemma_split_extend(groups: Seq<(u16, u16, u32)>, lower: Seq<(u16, u16)>, l: (u16, u16))
    requires
        count_sum(groups) <= lower.len(),
    ensures
        split_edges(groups, lower.push(l)) == split_edges(groups, lower),
    decreases groups.len(),
{
    if groups.len() > 0 {
        lemma_split_extend(groups.drop_last(), lower, l);
        let off = count_sum(groups.drop_last());
        let c = groups.last().2;
        assert(Seq::new(c as nat, |j: int| (join(groups.last().0, lower.push(l)[off + j].0), join(groups.last().1, lower.push(l)[off + j].1)))
            =~= Seq::new(c as nat, |j: int| (join(groups.last().0, lower[off + j].0), join(groups.last().1, lower[off + j].1))));
    }
}

/// One more lower record, counted by the last group.
proof fn lemma_split_grow(
    groups: Seq<(u16, u16, u32)>,
    lower: Seq<(u16, u16)>,
    ux: u16,
    uy: u16,
    c: u32,
    l: (u16, u16),
)
    requires
        count_sum(groups) + c == lower.len(),
        c < u32::MAX,
    ensures
        split_edges(groups.push((ux, uy, (c + 1) as u32)), lower.push(l)) == split_edges(
            groups.push((ux, uy, c)),
            lower,
        ).push((join(ux, l.0), join(uy, l.1))),
{
    let g1 = groups.push((ux, uy, (c + 1) as u32));
    let g0 = groups.push((ux, uy, c));
    assert(g1.drop_last() =~= groups);
    assert(g0.drop_last() =~= groups);
    lemma_split_extend(groups, lower, l);
    let off = count_sum(groups);
    assert(Seq::new((c + 1) as nat, |j: int| (join(ux, lower.push(l)[off + j].0), join(uy, lower.push(l)[off + j].1)))
        =~= Seq::new(c as nat, |j: int| (join(ux, lower[off + j].0), join(uy, lower[off + j].1))).push((join(ux, l.0), join(uy, l.1))));
}

/// A group that counts nothing adds no edge.
proof fn lemma_split_empty_group(groups: Seq<(u16, u16, u32)>, lower: Seq<(u16, u16)>, ux: u16, uy: u16)
    ensures
        split_edges(groups.push((ux, uy, 0)), lower) == split_edges(groups, lower),
        count_sum(groups.push((ux, uy, 0))) == count_sum(groups),
{
    let g = groups.push((ux, uy, 0));
    assert(g.drop_last() =~= groups);
    assert(split_edges(g, lower) =~= split_edges(groups, lower));
}

proof fn lemma_count_push(groups: Seq<(u16, u16, u32)>, ux: u16, uy: u16, c: u32)
    ensures
        count_sum(groups.push((ux, uy, c))) == count_sum(groups) + c,
{
    assert(groups.push((ux, uy, c)).drop_last() =~= groups);
}

/// Records `k` and `k + 1` name different blocks, unless record `k` is full.
pub open spec fn run_ok(groups: Seq<(u16, u16, u32)>, k: int) -> bool {
    groups[k].0 != groups[k + 1].0 || groups[k].1 != groups[k + 1].1 || groups[k].2 == u32::MAX
}

/// Whether the upper records are one per maximal run of edges in one block:
/// each counts at least one edge, and two in a row name different blocks
/// unless the first is full.
pub open spec fn runs_grouped(groups: Seq<(u16, u16, u32)>) -> bool {
    &&& forall|k: int| 0 <= k < groups.len() ==> #[trigger] groups[k].2 >= 1
    &&& forall|k: int| 0 <= k < groups.len() - 1 ==> #[trigger] run_ok(groups, k)
}

/// The block position of record `k + 1` follows that of record `k`, or
/// repeats it after a full record.
pub open spec fn step_ok(groups: Seq<(u16, u16, u32)>, t: Seq<nat>, k: int) -> bool {
    t[k + 1] == t[k] + 1 || (t[k + 1] == t[k] && groups[k].2 == u32::MAX)
}

/// Whether record `k` names the block at position `t[k]` of the outer
/// curve, for positions that start at zero and go up one at a time.
pub open spec fn dense_steps(groups: Seq<(u16, u16, u32)>, t: Seq<nat>) -> bool {
    &&& t.len() == groups.len()
    &&& groups.len() > 0 ==> t[0] == 0
    &&& forall|k: int|
        0 <= k < groups.len() ==> #[trigger] t[k] < 0x1_0000_0000 && det(16, t[k], 0) == (
        groups[k].0 as nat,
        groups[k].1 as nat,
    )
    &&& forall|k: int| 0 <= k < groups.len() - 1 ==> #[trigger] step_ok(groups, t, k)
}

/// Whether the upper records name every block of the outer curve in turn,
/// from the first up to the last one used, empty blocks with count zero.
pub open spec fn blocks_dense(groups: Seq<(u16, u16, u32)>) -> bool {
    exists|t: Seq<nat>| #[trigger] dense_steps(groups, t)
}

proof fn lemma_runs_grow(gs: Seq<(u16, u16, u32)>, a: u16, b: u16, c: u32)
    requires
        runs_grouped(gs.push((a, b, c))),
        c < u32::MAX,
    ensures
        runs_grouped(gs.push((a, b, (c + 1) as u32))),
{
    let g0 = gs.push((a, b, c));
    let g1 = gs.push((a, b, (c + 1) as u32));
    assert forall|k: int| 0 <= k < g1.len() implies #[trigger] g1[k].2 >= 1 by {
        assert(g0[k].2 >= 1);
    }
    assert forall|k: int| 0 <= k < g1.len() - 1 implies #[trigger] run_ok(g1, k) by {
        assert(run_ok(g0, k));
    }
}

proof fn lemma_runs_push(gs: Seq<(u16, u16, u32)>, a: u16, b: u16)
    requires
        runs_grouped(gs),
        gs.len() > 0 ==> gs.last().0 != a || gs.last().1 != b || gs.last().2 == u32::MAX,
    ensures
        runs_grouped(gs.push((a, b, 1))),
{
    let g1 = gs.push((a, b, 1));
    assert forall|k: int| 0 <= k < g1.len() implies #[trigger] g1[k].2 >= 1 by {
        if k < gs.len() {
            assert(gs[k].2 >= 1);
        }
    }
    assert forall|k: int| 0 <= k < g1.len() - 1 implies #[trigger] run_ok(g1, k) by {
        if k < gs.len() - 1 {
            assert(run_ok(gs, k));
        }
    }
}

proof fn lemma_dense_grow(gs: Seq<(u16, u16, u32)>, t: Seq<nat>, a: u16, b: u16, c: u32)
    requires
        dense_steps(gs.push((a, b, c)), t),
        c < u32::MAX,
    ensures
        dense_steps(gs.push((a, b, (c + 1) as u32)), t),
{
    let g0 = gs.push((a, b, c));
    let g1 = gs.push((a, b, (c + 1) as u32));
    assert forall|k: int| 0 <= k < g1.len() implies #[trigger] t[k] < 0x1_0000_0000 && det(16, t[k], 0) == (
        g1[k].0 as nat,
        g1[k].1 as nat,
    ) by {
        assert(t[k] < 0x1_0000_0000 && det(16, t[k], 0) == (g0[k].0 as nat, g0[k].1 as nat));
    }
    assert forall|k: int| 0 <= k < g1.len() - 1 implies #[trigger] step_ok(g1, t, k) by {
        assert(step_ok(g0, t, k));
    }
}

/// A record at the next block position, or, after a full record, at the same one.
proof fn lemma_dense_push(gs: Seq<(u16, u16, u32)>, t: Seq<nat>, a: u16, b: u16, c: u32, p: nat)
    requires
        dense_steps(gs, t),
        p < 0x1_0000_0000,
        det(16, p, 0) == (a as nat, b as nat),
        gs.len() == 0 ==> p == 0,
        gs.len() > 0 ==> p == t.last() + 1 || (p == t.last() && gs.last().2 == u32::MAX),
    ensures
        dense_steps(gs.push((a, b, c)), t.push(p)),
{
    let g1 = gs.push((a, b, c));
    let t1 = t.push(p);
    assert forall|k: int| 0 <= k < g1.len() implies #[trigger] t1[k] < 0x1_0000_0000 && det(16, t1[k], 0) == (
        g1[k].0 as nat,
        g1[k].1 as nat,
    ) by {
        if k < gs.len() {
            assert(t[k] < 0x1_0000_0000 && det(16, t[k], 0) == (gs[k].0 as nat, gs[k].1 as nat));
        }
    }
    assert forall|k: int| 0 <= k < g1.len() - 1 implies #[trigger] step_ok(g1, t1, k) by {
        if k < gs.len() - 1 {
            assert(step_ok(gs, t, k));
        }
    }
}

/// Whether a sequence of indices is in ascending order.
pub open spec fn ascending(v: Seq<u64>) -> bool {
    forall|i: int, j: int| 0 <= i < j < v.len() ==> v[i] <= v[j]
}

/// The edges at the indices `v`, in that order.
pub open spec fn edges_at(v: Seq<u64>) -> Seq<Edge> {
    v.map_values(|d: u64| point_pair(d as nat))
}

/// Groups the edges at the curve indices `sorted` into upper and lower
/// records: a new upper record wherever the block changes (or a count would
/// pass `u32::MAX`). With `dense`, every block the curve passes before the
/// last one gets an upper record, with count zero where it holds no edge.
pub fn group_by_block(sorted: &Vec<u64>, dense: bool) -> (r: CurveSplit)
    ensures
        r.wf(),
        r.edge_list() == edges_at(sorted@),
        lower_records(r.lower@).len() == sorted@.len(),
        !dense ==> runs_grouped(upper_records(r.upper@)),
        dense && ascending(sorted@) ==> blocks_dense(upper_records(r.upper@)),
{
    group_into(sorted, dense, Vec::new(), Vec::new())
}

/// `group_by_block`, written into the buffers `upper` and `lower`, whose
/// contents it first clears.
#[verifier::rlimit(100)]
pub fn group_into(sorted: &Vec<u64>, dense: bool, upper: Vec<u8>, lower: Vec<u8>) -> (r: CurveSplit)
    ensures
        r.wf(),
        r.edge_list() == edges_at(sorted@),
        lower_records(r.lower@).len() == sorted@.len(),
        !dense ==> runs_grouped(upper_records(r.upper@)),
        dense && ascending(sorted@) ==> blocks_dense(upper_records(r.upper@)),
{
    let mut upper = upper;
    let mut lower = lower;
    upper.clear();
    lower.clear();
    assert(split_edges(upper_records(upper@), lower_records(lower@)) =~= edges_at(sorted@.take(0)));
    let ghost asc = ascending(sorted@);
    let ghost mut tops: Seq<nat> = Seq::empty();
    let mut curve = CurveDecoder::new();
    let mut open: bool = false;
    let mut cux: u16 = 0;
    let mut cuy: u16 = 0;
    let mut count: u32 = 0;
    let mut next_top: u64 = 0;
    let mut i: usize = 0;
    proof {
        assert(upper_records(upper@) =~= Seq::<(u16, u16, u32)>::empty());
    }
    while i < sorted.len()
        invariant
            i <= sorted@.len(),
            curve.wf(),
            asc == ascending(sorted@),
            upper@.len() % 8 == 0,
            lower@.len() % 4 == 0,
            lower_records(lower@).len() == i,
            next_top <= 0x1_0000_0000,
            !open ==> count == 0 && upper@.len() == 0 && next_top == 0 && i == 0,
            i > 0 <==> open,
            ({
                let gs = if open { upper_records(upper@).push((cux, cuy, count)) } else { upper_records(upper@) };
                &&& split_edges(gs, lower_records(lower@)) == edges_at(sorted@.take(i as int))
                &&& count_sum(gs) == i
                &&& !dense ==> runs_grouped(gs)
                &&& dense && asc ==> dense_steps(gs, tops)
                &&& dense && asc && open ==> next_top == tops.last() + 1 && tops.last() <= sorted@[i - 1] as nat
                    / 0x1_0000_0000
            }),
        decreases sorted@.len() - i,
    {
        let d = sorted[i];
        let (x, y) = curve.detangle(d);
        proof {
            lemma_point_bound(d as nat);
        }
        let ux = (x / 65536) as u16;
        let uy = (y / 65536) as u16;
        let lx = (x % 65536) as u16;
        let ly = (y % 65536) as u16;
        let ghost lows = lower_records(lower@);
        let ghost done = upper_records(upper@);
        proof {
            assert(det(16, d as nat / 0x1_0000_0000, 0) == (ux as nat, uy as nat));
            if asc && i > 0 {
                assert(sorted@[i - 1] <= sorted@[i as int]);
                lemma_div_is_ordered(sorted@[i - 1] as int, d as int, 0x1_0000_0000);
            }
        }
        if open && ux == cux && uy == cuy && count < u32::MAX {
            proof {
                lemma_count_push(done, cux, cuy, count);
                lemma_split_grow(done, lows, cux, cuy, count, (lx, ly));
                lemma_count_push(done, cux, cuy, (count + 1) as u32);
                if !dense {
                    lemma_runs_grow(done, cux, cuy, count);
                }
                if dense && asc {
                    lemma_dense_grow(done, tops, cux, cuy, count);
                }
            }
            push_lower(&mut lower, lx, ly);
            count = count + 1;
        } else {
            let ghost was_open = open;
            let ghost prev = (cux, cuy, count);
            if open {
                push_upper(&mut upper, cux, cuy, count);
            }
            let ghost gs0 = upper_records(upper@);
            assert(gs0 == (if was_open { done.push(prev) } else { done }));
            let top = d / 0x1_0000_0000;
            let ghost entry_next = next_top;
            let ghost tops_entry = tops;
            if dense {
                while next_top < top
                    invariant
                        upper@.len() % 8 == 0,
                        next_top <= 0x1_0000_0000,
                        top < 0x1_0000_0000,
                        lower_records(lower@) == lows,
                        split_edges(upper_records(upper@), lows) == edges_at(sorted@.take(i as int)),
                        count_sum(upper_records(upper@)) == i,
                        entry_next <= next_top,
                        entry_next <= top ==> next_top <= top,
                        !was_open ==> entry_next == 0,
                        entry_next > top ==> next_top == entry_next,
                        next_top == entry_next ==> upper_records(upper@) == gs0 && tops == tops_entry,
                        was_open ==> gs0 == done.push(prev),
                        asc ==> dense_steps(upper_records(upper@), tops),
                        asc ==> (upper_records(upper@).len() == 0 ==> next_top == 0),
                        asc ==> (upper_records(upper@).len() > 0 ==> next_top == tops.last() + 1),
                        asc ==> upper_records(upper@).len() == tops.len(),
                    decreases 0x1_0000_0000 - next_top,
                {
                    let (bx, by) = block_of(next_top as u32);
                    proof {
                        lemma_split_empty_group(upper_records(upper@), lows, bx, by);
                        if asc {
                            lemma_dense_push(upper_records(upper@), tops, bx, by, 0, next_top as nat);
                            tops = tops.push(next_top as nat);
                        }
                    }
                    push_upper(&mut upper, bx, by, 0);
                    next_top = next_top + 1;
                }
            }
            let ghost gs = upper_records(upper@);
            proof {
                if dense && asc {
                    let p = top as nat;
                    if gs.len() > 0 && entry_next > top {
                        // the block repeats after a full record
                        assert(was_open);
                        assert(gs.last() == prev);
                        assert(tops.last() == p);
                        assert(det(16, tops.last(), 0) == (prev.0 as nat, prev.1 as nat));
                        assert(prev.2 == u32::MAX);
                    }
                    lemma_dense_push(gs, tops, ux, uy, 1, p);
                    tops = tops.push(p);
                }
                if !dense {
                    lemma_runs_push(gs, ux, uy);
                }
            }
            if next_top <= top {
                next_top = top + 1;
            }
            proof {
                lemma_split_grow(gs, lows, ux, uy, 0, (lx, ly));
                lemma_split_empty_group(gs, lows, ux, uy);
                lemma_count_push(gs, ux, uy, 1);
            }
            push_lower(&mut lower, lx, ly);
            cux = ux;
            cuy = uy;
            count = 1;
            open = true;
        }
        proof {
            let t = sorted@.take(i + 1);
            assert(t =~= sorted@.take(i as int).push(d));
            assert(edges_at(t) =~= edges_at(sorted@.take(i as int)).push((x, y)));
            assert(join(ux, lx) == x);
            assert(join(uy, ly) == y);
        }
        i = i + 1;
    }
    if open {
        push_upper(&mut upper, cux, cuy, count);
    }
    assert(sorted@.take(i as int) =~= sorted@);
    CurveSplit { upper, lower }
}

/// An action that keeps the curve index of every edge it is handed.
pub struct IndexCollector {
    pub indices: Vec<u64>,
    log: Ghost<Seq<Edge>>,
}

/// The curve index of an edge.
pub open spec fn edge_index(e: Edge) -> u64 {
    curve_index(e.0 as nat, e.1 as nat) as u64
}

impl IndexCollector {
    pub fn new() -> (r: IndexCollector)
        ensures
            r.seen() == Seq::<Edge>::empty(),
            r.ready(),
    {
        let r = IndexCollector { indices: Vec::new(), log: Ghost(Seq::empty()) };
        assert(r.indices@ =~= r.seen().map_values(|e: Edge| edge_index(e)));
        r
    }
}

impl IndexCollector {
    /// The curve indices of the edges handed so far, in order.
    pub fn into_indices(self) -> (r: Vec<u64>)
        requires
            self.ready(),
        ensures
            r@ == self.seen().map_values(|e: Edge| edge_index(e)),
    {
        self.indices
    }
}

impl EdgeAction for IndexCollector {
    type Params = ();

    open spec fn params(&self) -> () {
        ()
    }

    closed spec fn seen(&self) -> Seq<Edge> {
        self.log@
    }

    closed spec fn ready(&self) -> bool {
        self.indices@ == self.seen().map_values(|e: Edge| edge_index(e))
    }

    fn act(&mut self, src: u32, dst: u32) {
        let d = entangle(src, dst);
        self.indices.push(d);
        self.log = Ghost(self.log@.push((src, dst)));
        assert(self.indices@ =~= self.seen().map_values(|e: Edge| edge_index(e)));
    }
}

/// The edges at the curve indices of `es` are `es`.
pub proof fn lemma_edges_at_indices(es: Seq<Edge>)
    ensures
        edges_at(es.map_values(|e: Edge| edge_index(e))) == es,
{
    let idx = es.map_values(|e: Edge| edge_index(e));
    let back = edges_at(idx);
    assert forall|k: int| 0 <= k < es.len() implies #[trigger] back[k] == es[k] by {
        lemma_curve_inverse(es[k].0, es[k].1);
    }
    assert(back =~= es);
}

/// Relies on `slice::sort_unstable`: afterwards the vector holds the same
/// values, in ascending order.
#[verifier::external_body]
pub(crate) fn sort_ascending(v: &mut Vec<u64>)
    ensures
        final(v)@.to_multiset() == old(v)@.to_multiset(),
        ascending(final(v)@),
{
    v.sort_unstable();
}

/// The curve indices of every edge of `graph`, in ascending order.
pub fn sorted_indices<G: EdgeMapper>(graph: &mut G) -> (r: Result<Vec<u64>, GraphError>)
    requires
        old(graph).wf(),
    ensures
        final(graph).wf(),
        old(graph).total() ==> r is Ok,
        r matches Ok(v) ==> ascending(v@) && exists|es: Seq<Edge>|
            #[trigger] old(graph).traversal(es, *final(graph))
            && edges_at(v@).to_multiset() == es.to_multiset(),
{
    let mut col = IndexCollector::new();
    let r = graph.map_edges(&mut col);
    match r {
        Err(e) => Err(e),
        Ok(()) => {
            let ghost es = choose|es: Seq<Edge>|
                #[trigger] old(graph).traversal(es, *graph) && col.seen() == Seq::<Edge>::empty() + es;
            assert(Seq::<Edge>::empty() + es =~= es);
            let mut v = col.indices;
            let ghost unsorted = v@;
            sort_ascending(&mut v);
            proof {
                lemma_map_multiset(v@, unsorted, |d: u64| point_pair(d as nat));
                lemma_edges_at_indices(es);
                assert(old(graph).traversal(es, *graph));
            }
            Ok(v)
        },
    }
}

/// Converts a graph to the curve-split format: its edges in curve order, a
/// lower record each, grouped under one upper record per block they lie in
/// (with `dense`, also one with count zero for each empty block before the last).
pub fn convert_to_hilbert<G: EdgeMapper>(graph: &mut G, dense: bool) -> (r: Result<CurveSplit, GraphError>)
    requires
        old(graph).wf(),
    ensures
        final(graph).wf(),
        old(graph).total() ==> r is Ok,
        r matches Ok(cs) ==> cs.wf() && exists|es: Seq<Edge>|
            #[trigger] old(graph).traversal(es, *final(graph))
            && cs.edge_list().to_multiset() == es.to_multiset()
            && lower_records(cs.lower@).len() == es.len(),
        r matches Ok(cs) ==> exists|v: Seq<u64>| #[trigger] ascending(v) && cs.edge_list() == edges_at(v),
        r matches Ok(cs) ==> !dense ==> runs_grouped(upper_records(cs.upper@)),
        r matches Ok(cs) ==> dense ==> blocks_dense(upper_records(cs.upper@)),
{
    let v = sorted_indices(graph)?;
    let cs = group_by_block(&v, dense);
    proof {
        assert(ascending(v@));
        let es = choose|es: Seq<Edge>|
            #[trigger] old(graph).traversal(es, *graph) && edges_at(v@).to_multiset() == es.to_multiset();
        to_multiset_len(edges_at(v@));
        to_multiset_len(es);
        assert(old(graph).traversal(es, *graph));
    }
    Ok(cs)
}

/// Converts a graph to a delta-compressed stream of its curve indices in
/// ascending order. A stream holds each index once and cannot hold index zero
/// first, so a graph with a repeated edge, or with the edge `(0, 0)`, gets `None`.
pub fn convert_to_compressed<G: EdgeMapper>(graph: &mut G) -> (r: Result<Option<Vec<u8>>, GraphError>)
    requires
        old(graph).wf(),
    ensures
        final(graph).wf(),
        old(graph).total() ==> r is Ok,
        r matches Ok(o) ==> exists|v: Seq<u64>, es: Seq<Edge>|
            #![trigger old(graph).traversal(es, *final(graph)), edges_at(v)]
            old(graph).traversal(es, *final(graph))
            && ascending(v)
            && edges_at(v).to_multiset() == es.to_multiset()
            && (o is Some <==> rising(v))
            && (o matches Some(bytes) ==> bytes@ == encode_spec(v)),
{
    let v = sorted_indices(graph)?;
    let o = encode_deltas(&v);
    proof {
        let es = choose|es: Seq<Edge>|
            #[trigger] old(graph).traversal(es, *graph) && edges_at(v@).to_multiset() == es.to_multiset();
        assert(old(graph).traversal(es, *graph));
    }
    Ok(o)
}

/// The curve-split pair made from a graph hands out the graph's edges, each as
/// often, in curve order; its upper counts add up to the number of edges.
pub proof fn lemma_split_round_trip(es: Seq<Edge>, cs: CurveSplit, m: UpperLowerMemMapper)
    requires
        cs.wf(),
        cs.edge_list().to_multiset() == es.to_multiset(),
        lower_records(cs.lower@).len() == es.len(),
        m.upper_bytes() == cs.upper@,
        m.lower_bytes() == cs.lower@,
    ensures
        m.total(),
        m.edge_list().to_multiset() == es.to_multiset(),
        count_sum(m.upper_view()) == es.len(),
{
}

/// The delta stream made from a graph's ascending curve indices hands out the
/// graph's edges, each as often, in curve order, where the indices rise strictly.
pub proof fn lemma_stream_round_trip(es: Seq<Edge>, v: Seq<u64>, m: DeltaCompressedSliceMapper)
    requires
        rising(v),
        edges_at(v).to_multiset() == es.to_multiset(),
        m.bytes() == encode_spec(v),
    ensures
        m.total(),
        m.edge_list().to_multiset() == es.to_multiset(),
{
    lemma_delta_round_trip(v);
    assert(index_edges(widen(v)) =~= edges_at(v));
}

/// Backends made from one graph agree: any walk of the curve-split pair made
/// from the edges `es`, and any walk of the delta stream made from their curve
/// indices (where those rise strictly), hands out the edges of `es`, each as often.
pub proof fn lemma_backends_agree(
    es: Seq<Edge>,
    cs: CurveSplit,
    split: UpperLowerMemMapper,
    es_split: Seq<Edge>,
    split_next: UpperLowerMemMapper,
    v: Seq<u64>,
    stream: DeltaCompressedSliceMapper,
    es_stream: Seq<Edge>,
    stream_next: DeltaCompressedSliceMapper,
)
    requires
        cs.wf(),
        cs.edge_list().to_multiset() == es.to_multiset(),
        lower_records(cs.lower@).len() == es.len(),
        split.upper_bytes() == cs.upper@,
        split.lower_bytes() == cs.lower@,
        split.traversal(es_split, split_next),
        rising(v),
        edges_at(v).to_multiset() == es.to_multiset(),
        stream.bytes() == encode_spec(v),
        stream.traversal(es_stream, stream_next),
    ensures
        es_split.to_multiset() == es.to_multiset(),
        es_stream.to_multiset() == es.to_multiset(),
{
    lemma_split_round_trip(es, cs, split);
    lemma_stream_round_trip(es, v, stream);
}

} // verus!
