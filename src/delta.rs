//! The delta-compressed stream of curve indices.
//!
//! Each index is stored as its difference from the one before (from zero for
//! the first). A difference below 256 is one byte. A wider one is written as
//! its big-endian bytes, with no leading zero byte, after one zero byte less
//! than it has bytes: a zero byte opens an escape, the zero bytes after it
//! count how much wider than two bytes the value is.
use vstd::prelude::*;
use vstd::arithmetic::div_mod::{lemma_fundamental_div_mod, lemma_fundamental_div_mod_converse};

verus! {

/// 2^64: every index and difference stays below it.
pub open spec fn limit() -> nat {
    0x1_0000_0000_0000_0000
}

/// What a decoder knows between two bytes.
pub struct DecodeState {
    /// The last index decoded.
    pub current: nat,
    /// The value bytes of an escape read so far.
    pub delta: nat,
    /// Value bytes of an escape still to come, less one.
    pub depth: nat,
    /// Whether the stream held a value that does not fit in 64 bits.
    pub failed: bool,
}

pub open spec fn start_state() -> DecodeState {
    DecodeState { current: 0, delta: 0, depth: 0, failed: false }
}

/// Whether the stream may end here: no escape is open.
pub open spec fn settled(s: DecodeState) -> bool {
    !s.failed && s.delta == 0 && s.depth == 0
}

/// One byte of the stream, and the index it completes, if any.
pub open spec fn step(s: DecodeState, byte: u8) -> (DecodeState, Option<nat>) {
    if s.failed {
        (s, None)
    } else if byte == 0 && s.delta == 0 {
        if s.depth >= 7 {
            (DecodeState { failed: true, ..s }, None)
        } else {
            (DecodeState { depth: s.depth + 1, ..s }, None)
        }
    } else {
        let delta = (s.delta * 256 + byte) as nat;
        if delta >= limit() {
            (DecodeState { failed: true, ..s }, None)
        } else if s.depth == 0 {
            let cur = (s.current + delta) as nat;
            if cur >= limit() {
                (DecodeState { failed: true, ..s }, None)
            } else {
                (DecodeState { current: cur, delta: 0, depth: 0, failed: false }, Some(cur))
            }
        } else {
            (DecodeState { delta: delta, depth: (s.depth - 1) as nat, ..s }, None)
        }
    }
}

/// The bytes `bytes` read from state `s`: the state after them and the indices they complete.
pub open spec fn run(s: DecodeState, bytes: Seq<u8>) -> (DecodeState, Seq<nat>)
    decreases bytes.len(),
{
    if bytes.len() == 0 {
        (s, Seq::empty())
    } else {
        let (s1, out) = run(s, bytes.drop_last());
        let (s2, e) = step(s1, bytes.last());
        match e {
            Some(v) => (s2, out.push(v)),
            None => (s2, out),
        }
    }
}

/// The indices a whole stream holds; `None` where it ends inside an escape or
/// holds a value that does not fit in 64 bits.
pub open spec fn decode_indices(bytes: Seq<u8>) -> Option<Seq<nat>> {
    let (s, out) = run(start_state(), bytes);
    if settled(s) {
        Some(out)
    } else {
        None
    }
}

/// The value of big-endian bytes.
pub open spec fn be_value(bs: Seq<u8>) -> nat
    decreases bs.len(),
{
    if bs.len() == 0 {
        0
    } else {
        (be_value(bs.drop_last()) * 256 + bs.last()) as nat
    }
}

/// The big-endian bytes of `d`, without leading zero bytes (one byte for `d < 256`).
pub open spec fn digits(d: nat) -> Seq<u8>
    decreases d,
{
    if d < 256 {
        seq![d as u8]
    } else {
        digits(d / 256).push((d % 256) as u8)
    }
}

pub open spec fn zeros(n: nat) -> Seq<u8> {
    Seq::new(n, |i: int| 0u8)
}

/// The bytes of one difference `d >= 1`.
pub open spec fn delta_code(d: nat) -> Seq<u8> {
    if d < 256 {
        seq![d as u8]
    } else {
        zeros((digits(d).len() - 1) as nat) + digits(d)
    }
}

/// The index that comes before position `i` of `idx`: zero for the first.
pub open spec fn prev_index(idx: Seq<u64>, i: int) -> nat {
    if i == 0 {
        0
    } else {
        idx[i - 1] as nat
    }
}

/// Whether `idx` rises strictly from zero: its first index is above zero and
/// each later one above the one before.
pub open spec fn rising(idx: Seq<u64>) -> bool {
    forall|i: int| 0 <= i < idx.len() ==> prev_index(idx, i) < idx[i] as nat
}

/// The stream that holds the indices `idx`.
pub open spec fn encode_spec(idx: Seq<u64>) -> Seq<u8>
    decreases idx.len(),
{
    if idx.len() == 0 {
        Seq::empty()
    } else {
        let n = idx.len() - 1;
        encode_spec(idx.drop_last()) + delta_code((idx[n] - prev_index(idx, n)) as nat)
    }
}

pub open spec fn widen(idx: Seq<u64>) -> Seq<nat> {
    idx.map_values(|v: u64| v as nat)
}

proof fn lemma_run_append(s: DecodeState, a: Seq<u8>, b: Seq<u8>)
    ensures
        run(s, a + b) == ({
            let (s1, o1) = run(s, a);
            let (s2, o2) = run(s1, b);
            (s2, o1 + o2)
        }),
    decreases b.len(),
{
    if b.len() == 0 {
        assert(a + b =~= a);
        assert(run(s, a).1 + Seq::<nat>::empty() =~= run(s, a).1);
    } else {
        lemma_run_append(s, a, b.drop_last());
        assert((a + b).drop_last() =~= a + b.drop_last());
        assert((a + b).last() == b.last());
        let (s1, o1) = run(s, a);
        let (s2, o2) = run(s1, b.drop_last());
        let (s3, e) = step(s2, b.last());
        match e {
            Some(v) => {
                assert((o1 + o2).push(v) =~= o1 + o2.push(v));
            },
            None => {},
        }
    }
}

proof fn lemma_run_zeros(c: nat, n: nat)
    requires
        n <= 7,
    ensures
        run(DecodeState { current: c, delta: 0, depth: 0, failed: false }, zeros(n)) == (
        DecodeState { current: c, delta: 0, depth: n, failed: false },
        Seq::<nat>::empty(),
        ),
    decreases n,
{
    if n > 0 {
        lemma_run_zeros(c, (n - 1) as nat);
        assert(zeros(n).drop_last() =~= zeros((n - 1) as nat));
    } else {
        assert(zeros(0) =~= Seq::<u8>::empty());
    }
}

proof fn lemma_be_prefix(bs: Seq<u8>, t: int)
    requires
        0 < t <= bs.len(),
        bs[0] != 0,
    ensures
        be_value(bs.take(t)) >= 1,
        be_value(bs.take(t)) <= be_value(bs),
    decreases bs.len(),
{
    if t == bs.len() {
        assert(bs.take(t) =~= bs);
        lemma_be_prefix_pos(bs);
    } else {
        lemma_be_prefix(bs.drop_last(), t);
        assert(bs.drop_last().take(t) =~= bs.take(t));
    }
}

proof fn lemma_be_prefix_pos(bs: Seq<u8>)
    requires
        bs.len() > 0,
        bs[0] != 0,
    ensures
        be_value(bs) >= 1,
    decreases bs.len(),
{
    if bs.len() > 1 {
        lemma_be_prefix_pos(bs.drop_last());
    }
}

/// After the zero bytes of an escape, the value bytes that follow: the first
/// `t` of them leave the decoder waiting for the rest.
proof fn lemma_run_value_prefix(c: nat, bs: Seq<u8>, t: int)
    requires
        1 <= t < bs.len(),
        bs.len() <= 8,
        bs[0] != 0,
        be_value(bs) < limit(),
    ensures
        run(DecodeState { current: c, delta: 0, depth: (bs.len() - 1) as nat, failed: false }, bs.take(t))
            == (DecodeState {
            current: c,
            delta: be_value(bs.take(t)),
            depth: (bs.len() - 1 - t) as nat,
            failed: false,
        }, Seq::<nat>::empty()),
    decreases t,
{
    let s = DecodeState { current: c, delta: 0, depth: (bs.len() - 1) as nat, failed: false };
    lemma_be_prefix(bs, t);
    assert(bs.take(t).drop_last() =~= bs.take(t - 1));
    assert(bs.take(t).last() == bs[t - 1]);
    assert(be_value(bs.take(t)) == be_value(bs.take(t - 1)) * 256 + bs[t - 1]);
    if t == 1 {
        assert(bs.take(0) =~= Seq::<u8>::empty());
        assert(be_value(bs.take(0)) == 0);
        assert(run(s, bs.take(0)) == (s, Seq::<nat>::empty()));
    } else {
        lemma_run_value_prefix(c, bs, t - 1);
        lemma_be_prefix(bs, t - 1);
    }
}

/// The value bytes of an escape, read after its zero bytes, complete one index.
proof fn lemma_run_value(c: nat, bs: Seq<u8>)
    requires
        1 <= bs.len() <= 8,
        bs[0] != 0,
        be_value(bs) < limit(),
        c + be_value(bs) < limit(),
    ensures
        run(DecodeState { current: c, delta: 0, depth: (bs.len() - 1) as nat, failed: false }, bs) == (
        DecodeState { current: c + be_value(bs), delta: 0, depth: 0, failed: false },
        seq![c + be_value(bs)],
        ),
{
    let n = bs.len() as int;
    let s = DecodeState { current: c, delta: 0, depth: (bs.len() - 1) as nat, failed: false };
    assert(bs.drop_last() =~= bs.take(n - 1));
    assert(be_value(bs) == be_value(bs.take(n - 1)) * 256 + bs.last());
    if n == 1 {
        assert(bs.take(0) =~= Seq::<u8>::empty());
        assert(be_value(bs.take(0)) == 0);
        assert(run(s, bs.drop_last()) == (s, Seq::<nat>::empty()));
    } else {
        lemma_run_value_prefix(c, bs, n - 1);
        lemma_be_prefix(bs, n - 1);
        assert(run(s, bs.drop_last()) == (
        DecodeState { current: c, delta: be_value(bs.take(n - 1)), depth: 0, failed: false },
        Seq::<nat>::empty(),
        ));
    }
    let v = (c + be_value(bs)) as nat;
    assert(step(run(s, bs.drop_last()).0, bs.last()) == (
    DecodeState { current: v, delta: 0, depth: 0, failed: false },
    Some(v),
    ));
    assert(Seq::<nat>::empty().push(v) =~= seq![v]);
}

proof fn lemma_digits(d: nat)
    requires
        1 <= d,
    ensures
        digits(d).len() >= 1,
        digits(d)[0] != 0,
        be_value(digits(d)) == d,
        d >= 256 ==> digits(d).len() >= 2,
    decreases d,
{
    if d >= 256 {
        lemma_fundamental_div_mod(d as int, 256);
        lemma_digits(d / 256);
        assert(digits(d).drop_last() =~= digits(d / 256));
        assert(digits(d).last() == (d % 256) as u8);
        assert(be_value(digits(d)) == be_value(digits(d).drop_last()) * 256 + digits(d).last());
        assert(be_value(digits(d)) == be_value(digits(d / 256)) * 256 + d % 256);
    } else {
        assert(digits(d).drop_last() =~= Seq::<u8>::empty());
        assert(be_value(Seq::<u8>::empty()) == 0);
        assert(digits(d).last() == d as u8);
        assert(be_value(digits(d)) == be_value(digits(d).drop_last()) * 256 + digits(d).last());
    }
}

proof fn lemma_digits_len(d: nat, k: nat)
    requires
        1 <= d < p256(k),
    ensures
        digits(d).len() <= k,
    decreases d,
{
    if k == 0 {
        assert(p256(0) == 1);
    } else if d >= 256 {
        assert(d / 256 < p256((k - 1) as nat));
        lemma_digits_len(d / 256, (k - 1) as nat);
    }
}

/// One difference, read from a settled decoder, completes exactly the next index.
proof fn lemma_run_code(c: nat, d: nat)
    requires
        d >= 1,
        c + d < limit(),
    ensures
        run(DecodeState { current: c, delta: 0, depth: 0, failed: false }, delta_code(d)) == (
        DecodeState { current: c + d, delta: 0, depth: 0, failed: false },
        seq![c + d],
        ),
{
    let s = DecodeState { current: c, delta: 0, depth: 0, failed: false };
    if d < 256 {
        assert(delta_code(d).drop_last() =~= Seq::<u8>::empty());
        assert(delta_code(d).last() == d as u8);
        assert(run(s, delta_code(d).drop_last()) == (s, Seq::<nat>::empty()));
        assert(Seq::<nat>::empty().push(c + d) =~= seq![c + d]);
    } else {
        lemma_digits(d);
        lemma_p256_8();
        lemma_digits_len(d, 8);
        let bs = digits(d);
        let z = (bs.len() - 1) as nat;
        lemma_run_zeros(c, z);
        lemma_run_append(s, zeros(z), bs);
        lemma_run_value(c, bs);
        assert(Seq::<nat>::empty() + seq![c + d] =~= seq![c + d]);
    }
}

proof fn lemma_run_encode(idx: Seq<u64>)
    requires
        rising(idx),
    ensures
        run(start_state(), encode_spec(idx)) == (
        DecodeState {
            current: if idx.len() == 0 { 0 } else { idx.last() as nat },
            delta: 0,
            depth: 0,
            failed: false,
        },
        widen(idx),
        ),
    decreases idx.len(),
{
    if idx.len() == 0 {
        assert(widen(idx) =~= Seq::<nat>::empty());
    } else {
        let n = idx.len() - 1;
        let pre = idx.drop_last();
        assert(rising(pre)) by {
            assert forall|i: int| 0 <= i < pre.len() implies prev_index(pre, i) < pre[i] as nat by {
                assert(prev_index(idx, i) < idx[i] as nat);
            }
        }
        lemma_run_encode(pre);
        assert(prev_index(idx, n) < idx[n] as nat);
        let c = prev_index(idx, n);
        assert(c == if pre.len() == 0 { 0 } else { pre.last() as nat });
        let d = (idx[n] - c) as nat;
        lemma_run_append(start_state(), encode_spec(pre), delta_code(d));
        lemma_run_code(c, d);
        assert(widen(pre) + seq![c + d] =~= widen(idx));
    }
}

/// Encoding a rising sequence of indices and decoding the stream gives the sequence back.
pub proof fn lemma_delta_round_trip(idx: Seq<u64>)
    requires
        rising(idx),
    ensures
        decode_indices(encode_spec(idx)) == Some(widen(idx)),
{
    lemma_run_encode(idx);
}

/// An escape of a zero byte and `k` more zero bytes, followed by `k + 2` value
/// bytes whose first is not zero, decodes to the big-endian value of those bytes.
pub proof fn lemma_escape(k: nat, value: Seq<u8>)
    requires
        k <= 6,
        value.len() == k + 2,
        value[0] != 0,
    ensures
        decode_indices(seq![0u8] + zeros(k) + value) == Some(seq![be_value(value)]),
{
    assert(seq![0u8] + zeros(k) =~= zeros(k + 1));
    lemma_be_bound(value);
    lemma_run_zeros(0, k + 1);
    lemma_run_append(start_state(), zeros(k + 1), value);
    lemma_run_value(0, value);
}

proof fn lemma_be_bound(bs: Seq<u8>)
    requires
        bs.len() <= 8,
    ensures
        be_value(bs) < p256(bs.len()),
        p256(bs.len()) <= limit(),
    decreases bs.len(),
{
    if bs.len() > 0 {
        lemma_be_bound(bs.drop_last());
        let v = be_value(bs.drop_last());
        let p = p256((bs.len() - 1) as nat);
        assert(v * 256 + bs.last() < p * 256) by (nonlinear_arith)
            requires
                v < p,
                bs.last() < 256,
        ;
    }
    reveal_with_fuel(p256, 9);
}

proof fn lemma_p256_8()
    ensures
        p256(8) == limit(),
{
    reveal_with_fuel(p256, 9);
}

pub open spec fn p256(n: nat) -> nat
    decreases n,
{
    if n == 0 {
        1
    } else {
        256 * p256((n - 1) as nat)
    }
}

/// An incremental decoder of the stream: one byte at a time.
pub struct DeltaDecoder {
    current: u64,
    delta: u64,
    depth: u8,
    failed: bool,
}

impl View for DeltaDecoder {
    type V = DecodeState;

    closed spec fn view(&self) -> DecodeState {
        DecodeState {
            current: self.current as nat,
            delta: self.delta as nat,
            depth: self.depth as nat,
            failed: self.failed,
        }
    }
}

impl DeltaDecoder {
    pub closed spec fn wf(&self) -> bool {
        self.depth <= 7
    }

    pub fn new() -> (r: DeltaDecoder)
        ensures
            r.wf(),
            r@ == start_state(),
    {
        DeltaDecoder { current: 0, delta: 0, depth: 0, failed: false }
    }

    /// Reads one byte; returns the index it completes, if any.
    pub fn push(&mut self, byte: u8) -> (r: Option<u64>)
        requires
            old(self).wf(),
        ensures
            final(self).wf(),
            final(self)@ == step(old(self)@, byte).0,
            step(old(self)@, byte).1 == (match r {
                Some(v) => Some(v as nat),
                None => None::<nat>,
            }),
    {
        if self.failed {
            return None;
        }
        if byte == 0 && self.delta == 0 {
            if self.depth >= 7 {
                self.failed = true;
            } else {
                self.depth = self.depth + 1;
            }
            return None;
        }
        if self.delta > (u64::MAX - byte as u64) / 256 {
            assert(self.delta * 256 + byte >= limit()) by (nonlinear_arith)
                requires
                    self.delta > (u64::MAX - byte as u64) / 256,
                    byte < 256,
            ;
            self.failed = true;
            return None;
        }
        assert(self.delta * 256 + byte < limit()) by (nonlinear_arith)
            requires
                self.delta <= (u64::MAX - byte as u64) / 256,
                byte < 256,
        ;
        let delta = self.delta * 256 + byte as u64;
        if self.depth == 0 {
            if self.current > u64::MAX - delta {
                self.failed = true;
                return None;
            }
            self.current = self.current + delta;
            self.delta = 0;
            Some(self.current)
        } else {
            self.delta = delta;
            self.depth = self.depth - 1;
            None
        }
    }

    /// Whether the bytes read so far form a whole stream.
    pub fn is_settled(&self) -> (r: bool)
        ensures
            r == settled(self@),
    {
        !self.failed && self.delta == 0 && self.depth == 0
    }

    /// Whether the bytes read so far held a value that does not fit in 64 bits.
    pub fn has_failed(&self) -> (r: bool)
        ensures
            r == self@.failed,
    {
        self.failed
    }
}

/// Appends the bytes of one difference `d >= 1`.
fn push_delta(out: &mut Vec<u8>, d: u64)
    requires
        d >= 1,
    ensures
        final(out)@ == old(out)@ + delta_code(d as nat),
{
    if d < 256 {
        out.push(d as u8);
        return;
    }
    let mut v: u64 = d;
    let mut tail: Vec<u8> = Vec::new();
    while v >= 256
        invariant
            v >= 1,
            digits(d as nat) == digits(v as nat) + tail@,
        decreases v,
    {
        let ghost old_tail = tail@;
        tail.insert(0, (v % 256) as u8);
        proof {
            assert(digits(v as nat) == digits((v / 256) as nat).push((v % 256) as u8));
            assert(digits(v as nat) + old_tail =~= digits((v / 256) as nat) + tail@);
        }
        v = v / 256;
    }
    assert(digits(v as nat) =~= seq![v as u8]);
    let ghost start = out@;
    let mut i: usize = 0;
    while i < tail.len()
        invariant
            i <= tail.len(),
            out@ == start + zeros(i as nat),
        decreases tail.len() - i,
    {
        out.push(0);
        i = i + 1;
        assert(start + zeros(i as nat) =~= (start + zeros((i - 1) as nat)).push(0));
    }
    out.push(v as u8);
    let mut j: usize = 0;
    while j < tail.len()
        invariant
            j <= tail.len(),
            out@ == start + zeros(tail.len() as nat) + seq![v as u8] + tail@.take(j as int),
        decreases tail.len() - j,
    {
        out.push(tail[j]);
        j = j + 1;
        assert(out@ =~= start + zeros(tail.len() as nat) + seq![v as u8] + tail@.take(j as int));
    }
    assert(tail@.take(tail.len() as int) =~= tail@);
    assert(out@ =~= start + (zeros((digits(d as nat).len() - 1) as nat) + digits(d as nat)));
}

/// The stream that holds the curve indices `idx`; `None` where they do not
/// rise strictly from zero (a difference of zero has no code).
pub fn encode_deltas(idx: &Vec<u64>) -> (r: Option<Vec<u8>>)
    ensures
        r is Some <==> rising(idx@),
        r matches Some(bytes) ==> bytes@ == encode_spec(idx@),
{
    let mut out: Vec<u8> = Vec::new();
    let mut prev: u64 = 0;
    let mut i: usize = 0;
    while i < idx.len()
        invariant
            i <= idx.len(),
            prev as nat == prev_index(idx@, i as int),
            rising(idx@.take(i as int)),
            out@ == encode_spec(idx@.take(i as int)),
        decreases idx.len() - i,
    {
        let v = idx[i];
        if v <= prev {
            assert(!rising(idx@)) by {
                assert(prev_index(idx@, i as int) >= idx@[i as int] as nat);
            }
            return None;
        }
        push_delta(&mut out, v - prev);
        proof {
            let t = idx@.take(i + 1);
            assert(t.drop_last() =~= idx@.take(i as int));
            assert(prev_index(t, i as int) == prev_index(idx@, i as int));
            assert(rising(t)) by {
                assert forall|j: int| 0 <= j < t.len() implies prev_index(t, j) < t[j] as nat by {
                    if j < i {
                        assert(prev_index(idx@.take(i as int), j) < idx@.take(i as int)[j] as nat);
                    }
                }
            }
        }
        prev = v;
        i = i + 1;
    }
    assert(idx@.take(i as int) =~= idx@);
    Some(out)
}

} // verus!
