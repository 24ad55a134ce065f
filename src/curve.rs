//! The Hilbert curve over the 2^32 x 2^32 grid.
//!
//! The grid is a 2^16 x 2^16 grid of blocks, each block a 2^16 x 2^16 grid of
//! points. The curve visits the blocks in the order of a 16-level Hilbert
//! curve and, inside each block, the points in the order of a 16-level Hilbert
//! curve whose orientation is the one the outer curve leaves off with. The
//! upper 32 bits of an index name the block, the lower 32 bits the point in it.
use vstd::prelude::*;
use vstd::arithmetic::div_mod::{lemma_fundamental_div_mod, lemma_fundamental_div_mod_converse};

verus! {

/// Points along one side of a block.
pub const BLOCK_SIDE: u32 = 65536;

pub open spec fn p2(k: nat) -> nat
    decreases k,
{
    if k == 0 {
        1
    } else {
        2 * p2((k - 1) as nat)
    }
}

pub open spec fn p4(k: nat) -> nat
    decreases k,
{
    if k == 0 {
        1
    } else {
        4 * p4((k - 1) as nat)
    }
}

/// Orientation of a sub-square, as `swap + 2 * mirror`: whether the two axes
/// are exchanged, and whether both are mirrored.
pub open spec fn orient(st: u8, bx: u8, by: u8) -> (u8, u8) {
    let (a, b) = if st % 2 == 1 {
        (by, bx)
    } else {
        (bx, by)
    };
    if st >= 2 {
        ((1 - a) as u8, (1 - b) as u8)
    } else {
        (a, b)
    }
}

/// Undoes `orient`.
pub open spec fn unorient(st: u8, a: u8, b: u8) -> (u8, u8) {
    let (c, d) = if st >= 2 {
        ((1 - a) as u8, (1 - b) as u8)
    } else {
        (a, b)
    };
    if st % 2 == 1 {
        (d, c)
    } else {
        (c, d)
    }
}

/// Position of an oriented quadrant along the curve: lower left, upper left,
/// upper right, lower right.
pub open spec fn quad(a: u8, b: u8) -> u8 {
    if a == 0 {
        b
    } else {
        (3 - b) as u8
    }
}

/// Undoes `quad`.
pub open spec fn unquad(q: u8) -> (u8, u8) {
    (if q >= 2 { 1u8 } else { 0u8 }, if q == 1 || q == 2 { 1u8 } else { 0u8 })
}

/// Orientation of the sub-square entered through oriented quadrant `(a, b)`.
pub open spec fn turn(st: u8, a: u8, b: u8) -> u8 {
    if b == 0 {
        if a == 1 {
            (3 - st) as u8
        } else if st % 2 == 1 {
            (st - 1) as u8
        } else {
            (st + 1) as u8
        }
    } else {
        st
    }
}

/// Curve position of `(x, y)` on a `k`-level curve that starts in orientation `st`.
pub open spec fn ent(k: nat, x: nat, y: nat, st: u8) -> nat
    decreases k,
{
    if k == 0 {
        0
    } else {
        let h = p2((k - 1) as nat);
        let (a, b) = orient(st, (x / h) as u8, (y / h) as u8);
        (quad(a, b) as nat) * p4((k - 1) as nat) + ent((k - 1) as nat, x % h, y % h, turn(st, a, b))
    }
}

/// Orientation in which a `k`-level curve from `st` leaves the point `(x, y)`.
pub open spec fn ent_state(k: nat, x: nat, y: nat, st: u8) -> u8
    decreases k,
{
    if k == 0 {
        st
    } else {
        let h = p2((k - 1) as nat);
        let (a, b) = orient(st, (x / h) as u8, (y / h) as u8);
        ent_state((k - 1) as nat, x % h, y % h, turn(st, a, b))
    }
}

/// Point at position `d` of a `k`-level curve that starts in orientation `st`.
pub open spec fn det(k: nat, d: nat, st: u8) -> (nat, nat)
    decreases k,
{
    if k == 0 {
        (0, 0)
    } else {
        let h = p2((k - 1) as nat);
        let (a, b) = unquad((d / p4((k - 1) as nat)) as u8);
        let (bx, by) = unorient(st, a, b);
        let r = det((k - 1) as nat, d % p4((k - 1) as nat), turn(st, a, b));
        (h * (bx as nat) + r.0, h * (by as nat) + r.1)
    }
}

/// Orientation in which a `k`-level curve from `st` leaves position `d`.
pub open spec fn det_state(k: nat, d: nat, st: u8) -> u8
    decreases k,
{
    if k == 0 {
        st
    } else {
        let (a, b) = unquad((d / p4((k - 1) as nat)) as u8);
        det_state((k - 1) as nat, d % p4((k - 1) as nat), turn(st, a, b))
    }
}

/// The curve index of the point `(x, y)` of the 2^32 x 2^32 grid.
pub open spec fn curve_index(x: nat, y: nat) -> nat {
    let (ux, uy) = (x / 65536, y / 65536);
    ent(16, ux, uy, 0) * 0x1_0000_0000 + ent(16, x % 65536, y % 65536, ent_state(16, ux, uy, 0))
}

/// The block, as `(ux, uy)`, that holds position `d` of the curve.
pub open spec fn curve_block(d: nat) -> (nat, nat) {
    det(16, d / 0x1_0000_0000, 0)
}

/// The point of the 2^32 x 2^32 grid at curve index `d`.
pub open spec fn curve_point(d: nat) -> (nat, nat) {
    let top = d / 0x1_0000_0000;
    let u = det(16, top, 0);
    let l = det(16, d % 0x1_0000_0000, det_state(16, top, 0));
    (u.0 * 65536 + l.0, u.1 * 65536 + l.1)
}

proof fn lemma_powers(k: nat)
    ensures
        p2(k) >= 1,
        p4(k) == p2(k) * p2(k),
    decreases k,
{
    if k > 0 {
        let j = (k - 1) as nat;
        lemma_powers(j);
        let h = p2(j);
        assert(p2(k) == 2 * h);
        assert(p4(k) == 4 * p4(j));
        assert(p4(j) == h * h);
        let h2 = p2(k);
        assert(4 * (h * h) == h2 * h2) by (nonlinear_arith)
            requires
                h2 == 2 * h,
        ;
    } else {
        assert(p2(0) == 1);
        assert(p4(0) == 1);
    }
}

proof fn lemma_power_values()
    ensures
        p2(16) == 65536,
        p4(16) == 0x1_0000_0000,
        p2(15) == 32768,
        p4(15) == 0x4000_0000,
{
    reveal_with_fuel(p2, 17);
    reveal_with_fuel(p4, 17);
}

proof fn lemma_level(st: u8, bx: u8, by: u8)
    requires
        st < 4,
        bx < 2,
        by < 2,
    ensures
        orient(st, bx, by).0 < 2,
        orient(st, bx, by).1 < 2,
        quad(orient(st, bx, by).0, orient(st, bx, by).1) < 4,
        unquad(quad(orient(st, bx, by).0, orient(st, bx, by).1)) == orient(st, bx, by),
        unorient(st, orient(st, bx, by).0, orient(st, bx, by).1) == (bx, by),
        turn(st, orient(st, bx, by).0, orient(st, bx, by).1) < 4,
{
}

proof fn lemma_unlevel(st: u8, q: u8)
    requires
        st < 4,
        q < 4,
    ensures
        unquad(q).0 < 2,
        unquad(q).1 < 2,
        unorient(st, unquad(q).0, unquad(q).1).0 < 2,
        unorient(st, unquad(q).0, unquad(q).1).1 < 2,
        turn(st, unquad(q).0, unquad(q).1) < 4,
{
}

/// Splits `x < 2h` into its top bit and the rest.
proof fn lemma_split(x: nat, h: nat)
    requires
        h >= 1,
        x < 2 * h,
    ensures
        x / h < 2,
        x % h < h,
        x == h * (x / h) + x % h,
{
    lemma_fundamental_div_mod(x as int, h as int);
    let q = x / h;
    let r = x % h;
    assert(q < 2) by (nonlinear_arith)
        requires
            x == h * q + r,
            0 <= r,
            x < 2 * h,
            h >= 1,
    ;
}

/// Splits `d < 4H` into its top digit and the rest.
proof fn lemma_split4(d: nat, hh: nat)
    requires
        hh >= 1,
        d < 4 * hh,
    ensures
        d / hh < 4,
        d % hh < hh,
        d == hh * (d / hh) + d % hh,
{
    lemma_fundamental_div_mod(d as int, hh as int);
    let q = d / hh;
    let r = d % hh;
    assert(q < 4) by (nonlinear_arith)
        requires
            d == hh * q + r,
            0 <= r,
            d < 4 * hh,
            hh >= 1,
    ;
}

/// A `k`-level curve is a bijection from the `2^k x 2^k` square onto `[0, 4^k)`.
proof fn lemma_ent_det(k: nat, x: nat, y: nat, st: u8)
    requires
        x < p2(k),
        y < p2(k),
        st < 4,
    ensures
        ent(k, x, y, st) < p4(k),
        det(k, ent(k, x, y, st), st) == (x, y),
        det_state(k, ent(k, x, y, st), st) == ent_state(k, x, y, st),
        ent_state(k, x, y, st) < 4,
    decreases k,
{
    if k > 0 {
        let j = (k - 1) as nat;
        let h = p2(j);
        let hh = p4(j);
        lemma_powers(j);
        lemma_split(x, h);
        lemma_split(y, h);
        let bx = (x / h) as u8;
        let by = (y / h) as u8;
        lemma_level(st, bx, by);
        let (a, b) = orient(st, bx, by);
        let q = quad(a, b);
        let st2 = turn(st, a, b);
        lemma_ent_det(j, x % h, y % h, st2);
        let r = ent(j, x % h, y % h, st2);
        let d = ent(k, x, y, st);
        assert(d == q * hh + r);
        assert(q * hh + r < 4 * hh) by (nonlinear_arith)
            requires
                q < 4,
                r < hh,
        ;
        lemma_fundamental_div_mod_converse(d as int, hh as int, q as int, r as int);
        assert(d / hh == q);
        assert(d % hh == r);
    }
}

/// Coordinates decoded from a position below `4^k` stay below `2^k`.
proof fn lemma_det_bound(k: nat, d: nat, st: u8)
    requires
        d < p4(k),
        st < 4,
    ensures
        det(k, d, st).0 < p2(k),
        det(k, d, st).1 < p2(k),
        det_state(k, d, st) < 4,
    decreases k,
{
    if k > 0 {
        let j = (k - 1) as nat;
        let h = p2(j);
        let hh = p4(j);
        lemma_powers(j);
        lemma_split4(d, hh);
        let q = (d / hh) as u8;
        lemma_unlevel(st, q);
        let (a, b) = unquad(q);
        let (bx, by) = unorient(st, a, b);
        lemma_det_bound(j, d % hh, turn(st, a, b));
        let r = det(j, d % hh, turn(st, a, b));
        assert(h * (bx as nat) + r.0 < 2 * h) by (nonlinear_arith)
            requires
                bx < 2,
                r.0 < h,
        ;
        assert(h * (by as nat) + r.1 < 2 * h) by (nonlinear_arith)
            requires
                by < 2,
                r.1 < h,
        ;
    }
}

/// The inverse law of the curve: decoding the index of a point gives the point back.
pub proof fn lemma_curve_inverse(x: u32, y: u32)
    ensures
        curve_index(x as nat, y as nat) < 0x1_0000_0000_0000_0000,
        curve_point(curve_index(x as nat, y as nat)) == (x as nat, y as nat),
        curve_index(x as nat, y as nat) / 0x1_0000_0000 == ent(16, x as nat / 65536, y as nat / 65536, 0),
{
    lemma_power_values();
    let ux = x as nat / 65536;
    let uy = y as nat / 65536;
    let lx = x as nat % 65536;
    let ly = y as nat % 65536;
    lemma_fundamental_div_mod(x as int, 65536);
    lemma_fundamental_div_mod(y as int, 65536);
    lemma_ent_det(16, ux, uy, 0);
    let st = ent_state(16, ux, uy, 0);
    lemma_ent_det(16, lx, ly, st);
    let hi = ent(16, ux, uy, 0);
    let lo = ent(16, lx, ly, st);
    let d = curve_index(x as nat, y as nat);
    assert(hi * 0x1_0000_0000 + lo < 0x1_0000_0000_0000_0000) by (nonlinear_arith)
        requires
            hi < 0x1_0000_0000,
            lo < 0x1_0000_0000,
    ;
    lemma_fundamental_div_mod_converse(d as int, 0x1_0000_0000, hi as int, lo as int);
}

/// Each coordinate of a decoded point fits in 32 bits, and splits into its block and offset.
pub proof fn lemma_point_bound(d: nat)
    requires
        d < 0x1_0000_0000_0000_0000,
    ensures
        curve_point(d).0 < 0x1_0000_0000,
        curve_point(d).1 < 0x1_0000_0000,
        curve_point(d).0 / 65536 == curve_block(d).0,
        curve_point(d).1 / 65536 == curve_block(d).1,
{
    lemma_power_values();
    let top = d / 0x1_0000_0000;
    assert(top < 0x1_0000_0000);
    lemma_det_bound(16, top, 0);
    let st = det_state(16, top, 0);
    lemma_det_bound(16, d % 0x1_0000_0000, st);
    let u = det(16, top, 0);
    let l = det(16, d % 0x1_0000_0000, st);
    lemma_fundamental_div_mod_converse((u.0 * 65536 + l.0) as int, 65536, u.0 as int, l.0 as int);
    lemma_fundamental_div_mod_converse((u.1 * 65536 + l.1) as int, 65536, u.1 as int, l.1 as int);
}

fn orient_exec(st: u8, bx: u8, by: u8) -> (r: (u8, u8))
    requires
        st < 4,
        bx < 2,
        by < 2,
    ensures
        r == orient(st, bx, by),
{
    let (a, b) = if st % 2 == 1 {
        (by, bx)
    } else {
        (bx, by)
    };
    if st >= 2 {
        (1 - a, 1 - b)
    } else {
        (a, b)
    }
}

fn unorient_exec(st: u8, a: u8, b: u8) -> (r: (u8, u8))
    requires
        st < 4,
        a < 2,
        b < 2,
    ensures
        r == unorient(st, a, b),
{
    let (c, d) = if st >= 2 {
        (1 - a, 1 - b)
    } else {
        (a, b)
    };
    if st % 2 == 1 {
        (d, c)
    } else {
        (c, d)
    }
}

fn quad_exec(a: u8, b: u8) -> (r: u8)
    requires
        a < 2,
        b < 2,
    ensures
        r == quad(a, b),
{
    if a == 0 {
        b
    } else {
        3 - b
    }
}

fn unquad_exec(q: u8) -> (r: (u8, u8))
    requires
        q < 4,
    ensures
        r == unquad(q),
{
    (if q >= 2 { 1 } else { 0 }, if q == 1 || q == 2 { 1 } else { 0 })
}

fn turn_exec(st: u8, a: u8, b: u8) -> (r: u8)
    requires
        st < 4,
        a < 2,
        b < 2,
    ensures
        r == turn(st, a, b),
{
    if b == 0 {
        if a == 1 {
            3 - st
        } else if st % 2 == 1 {
            st - 1
        } else {
            st + 1
        }
    } else {
        st
    }
}

/// Position of `(x, y)` on a 16-level curve from orientation `st`, and the
/// orientation the curve leaves it in.
fn entangle_half(x: u32, y: u32, st: u8) -> (r: (u32, u8))
    requires
        x < 65536,
        y < 65536,
        st < 4,
    ensures
        r.0 as nat == ent(16, x as nat, y as nat, st),
        r.1 == ent_state(16, x as nat, y as nat, st),
        r.1 < 4,
{
    proof {
        lemma_power_values();
        lemma_ent_det(16, x as nat, y as nat, st);
    }
    let mut k: u32 = 16;
    let mut xr: u32 = x;
    let mut yr: u32 = y;
    let mut s: u8 = st;
    let mut h: u32 = 32768;
    let mut hh: u32 = 0x4000_0000;
    let mut acc: u32 = 0;
    while k > 0
        invariant
            k <= 16,
            xr < p2(k as nat),
            yr < p2(k as nat),
            s < 4,
            k > 0 ==> h == p2((k - 1) as nat) && hh == p4((k - 1) as nat),
            acc + ent(k as nat, xr as nat, yr as nat, s) == ent(16, x as nat, y as nat, st),
            ent_state(k as nat, xr as nat, yr as nat, s) == ent_state(16, x as nat, y as nat, st),
            ent(16, x as nat, y as nat, st) < 0x1_0000_0000,
            ent_state(16, x as nat, y as nat, st) < 4,
        decreases k,
    {
        proof {
            lemma_powers((k - 1) as nat);
            lemma_split(xr as nat, h as nat);
            lemma_split(yr as nat, h as nat);
        }
        let bx = (xr / h) as u8;
        let by = (yr / h) as u8;
        proof {
            lemma_level(s, bx, by);
        }
        let (a, b) = orient_exec(s, bx, by);
        let q = quad_exec(a, b);
        assert((q as nat) * (hh as nat) <= ent(k as nat, xr as nat, yr as nat, s));
        acc = acc + (q as u32) * hh;
        xr = xr % h;
        yr = yr % h;
        s = turn_exec(s, a, b);
        k = k - 1;
        proof {
            if k > 0 {
                assert(p2(k as nat) == 2 * p2((k - 1) as nat));
                assert(p4(k as nat) == 4 * p4((k - 1) as nat));
            }
        }
        h = h / 2;
        hh = hh / 4;
    }
    (acc, s)
}

/// Point at position `d` of a 16-level curve from orientation `st`, and the
/// orientation the curve leaves it in.
fn detangle_half(d: u32, st: u8) -> (r: (u32, u32, u8))
    requires
        st < 4,
    ensures
        r.0 as nat == det(16, d as nat, st).0,
        r.1 as nat == det(16, d as nat, st).1,
        r.2 == det_state(16, d as nat, st),
        r.0 < 65536,
        r.1 < 65536,
        r.2 < 4,
{
    proof {
        lemma_power_values();
        lemma_det_bound(16, d as nat, st);
    }
    let mut k: u32 = 16;
    let mut dr: u32 = d;
    let mut s: u8 = st;
    let mut h: u32 = 32768;
    let mut hh: u32 = 0x4000_0000;
    let mut xacc: u32 = 0;
    let mut yacc: u32 = 0;
    while k > 0
        invariant
            k <= 16,
            dr < p4(k as nat),
            s < 4,
            k > 0 ==> h == p2((k - 1) as nat) && hh == p4((k - 1) as nat),
            xacc + det(k as nat, dr as nat, s).0 == det(16, d as nat, st).0,
            yacc + det(k as nat, dr as nat, s).1 == det(16, d as nat, st).1,
            det_state(k as nat, dr as nat, s) == det_state(16, d as nat, st),
            det(16, d as nat, st).0 < 65536,
            det(16, d as nat, st).1 < 65536,
            det_state(16, d as nat, st) < 4,
        decreases k,
    {
        proof {
            lemma_powers((k - 1) as nat);
            lemma_split4(dr as nat, hh as nat);
        }
        let q = (dr / hh) as u8;
        proof {
            lemma_unlevel(s, q);
        }
        let (a, b) = unquad_exec(q);
        let (bx, by) = unorient_exec(s, a, b);
        proof {
            lemma_det_bound((k - 1) as nat, (dr % hh) as nat, turn(s, a, b));
        }
        xacc = xacc + h * (bx as u32);
        yacc = yacc + h * (by as u32);
        dr = dr % hh;
        s = turn_exec(s, a, b);
        k = k - 1;
        proof {
            if k > 0 {
                assert(p2(k as nat) == 2 * p2((k - 1) as nat));
                assert(p4(k as nat) == 4 * p4((k - 1) as nat));
            }
        }
        h = h / 2;
        hh = hh / 4;
    }
    (xacc, yacc, s)
}

/// The curve index of the edge `(x, y)`, read as a point of the grid.
pub fn entangle(x: u32, y: u32) -> (r: u64)
    ensures
        r as nat == curve_index(x as nat, y as nat),
{
    proof {
        lemma_curve_inverse(x, y);
    }
    let (hi, st) = entangle_half(x / BLOCK_SIDE, y / BLOCK_SIDE, 0);
    let (lo, _) = entangle_half(x % BLOCK_SIDE, y % BLOCK_SIDE, st);
    assert(hi as nat * 0x1_0000_0000 + lo as nat <= u64::MAX) by (nonlinear_arith)
        requires
            hi < 0x1_0000_0000,
            lo < 0x1_0000_0000,
    ;
    (hi as u64) * 0x1_0000_0000 + (lo as u64)
}

/// The point at curve index `d`.
pub fn detangle(d: u64) -> (r: (u32, u32))
    ensures
        (r.0 as nat, r.1 as nat) == curve_point(d as nat),
{
    let (ux, uy, st) = detangle_half((d / 0x1_0000_0000) as u32, 0);
    let (lx, ly, _) = detangle_half((d % 0x1_0000_0000) as u32, st);
    (ux * BLOCK_SIDE + lx, uy * BLOCK_SIDE + ly)
}

/// The edge at curve index `d`.
pub open spec fn point_pair(d: nat) -> (u32, u32) {
    (curve_point(d).0 as u32, curve_point(d).1 as u32)
}

/// The block `(ux, uy)` that the curve visits at position `top` of its outer level.
pub fn block_of(top: u32) -> (r: (u16, u16))
    ensures
        r.0 as nat == det(16, top as nat, 0).0,
        r.1 as nat == det(16, top as nat, 0).1,
{
    let (ux, uy, _) = detangle_half(top, 0);
    (ux as u16, uy as u16)
}

/// A decoder that keeps the block of the last index it decoded, so that a run
/// of indices in one block decodes the block only once.
pub struct CurveDecoder {
    top: u64,
    block_x: u32,
    block_y: u32,
    state: u8,
    primed: bool,
}

impl CurveDecoder {
    pub closed spec fn wf(&self) -> bool {
        self.primed ==> {
            &&& self.top < 0x1_0000_0000
            &&& self.state < 4
            &&& self.block_x as nat == det(16, self.top as nat, 0).0
            &&& self.block_y as nat == det(16, self.top as nat, 0).1
            &&& self.state == det_state(16, self.top as nat, 0)
            &&& self.block_x < 65536
            &&& self.block_y < 65536
        }
    }

    pub fn new() -> (r: CurveDecoder)
        ensures
            r.wf(),
    {
        CurveDecoder { top: 0, block_x: 0, block_y: 0, state: 0, primed: false }
    }

    /// The point at curve index `d`; the same as `detangle(d)`.
    pub fn detangle(&mut self, d: u64) -> (r: (u32, u32))
        requires
            old(self).wf(),
        ensures
            final(self).wf(),
            (r.0 as nat, r.1 as nat) == curve_point(d as nat),
    {
        let top = d / 0x1_0000_0000;
        if !self.primed || self.top != top {
            let (ux, uy, st) = detangle_half(top as u32, 0);
            self.top = top;
            self.block_x = ux;
            self.block_y = uy;
            self.state = st;
            self.primed = true;
        }
        let (lx, ly, _) = detangle_half((d % 0x1_0000_0000) as u32, self.state);
        (self.block_x * BLOCK_SIDE + lx, self.block_y * BLOCK_SIDE + ly)
    }
}

} // verus!
