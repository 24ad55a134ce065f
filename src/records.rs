//! The fixed-size little-endian records of the binary graph files.
//!
//! | file   | record                          |
//! |--------|---------------------------------|
//! | nodes  | `(u32 vertex, u32 degree)`      |
//! | edges  | `u32 destination`               |
//! | upper  | `(u16 ux, u16 uy, u32 count)`   |
//! | lower  | `(u16 lx, u16 ly)`              |
use vstd::prelude::*;
use byteorder::{ByteOrder, LittleEndian};

verus! {

/// The little-endian value of the two bytes at `i`.
pub open spec fn le16(bs: Seq<u8>, i: int) -> nat {
    (bs[i] + 256 * bs[i + 1]) as nat
}

/// The little-endian value of the four bytes at `i`.
pub open spec fn le32(bs: Seq<u8>, i: int) -> nat {
    le16(bs, i) + 65536 * le16(bs, i + 2)
}

/// The node table of a CSR file: `(vertex, degree)` for each record.
pub open spec fn node_records(bs: Seq<u8>) -> Seq<(u32, u32)> {
    Seq::new(bs.len() / 8, |g: int| (le32(bs, 8 * g) as u32, le32(bs, 8 * g + 4) as u32))
}

/// The destination list of a CSR file.
pub open spec fn edge_targets(bs: Seq<u8>) -> Seq<u32> {
    Seq::new(bs.len() / 4, |g: int| le32(bs, 4 * g) as u32)
}

/// The upper records of a curve-split file, as `(ux, uy, count)`.
pub open spec fn upper_records(bs: Seq<u8>) -> Seq<(u16, u16, u32)> {
    Seq::new(bs.len() / 8, |g: int| (le16(bs, 8 * g) as u16, le16(bs, 8 * g + 2) as u16, le32(bs, 8 * g + 4) as u32))
}

/// The lower records of a curve-split file, as `(lx, ly)`.
pub open spec fn lower_records(bs: Seq<u8>) -> Seq<(u16, u16)> {
    Seq::new(bs.len() / 4, |g: int| (le16(bs, 4 * g) as u16, le16(bs, 4 * g + 2) as u16))
}

/// The sum of the degrees of a node table.
pub open spec fn degree_sum(nodes: Seq<(u32, u32)>) -> nat
    decreases nodes.len(),
{
    if nodes.len() == 0 {
        0
    } else {
        degree_sum(nodes.drop_last()) + nodes.last().1 as nat
    }
}

/// The edges of a CSR pair: for each node record `(v, d)` in turn, `v` to each
/// of the next `d` destinations.
pub open spec fn csr_edges(nodes: Seq<(u32, u32)>, targets: Seq<u32>) -> Seq<(u32, u32)>
    decreases nodes.len(),
{
    if nodes.len() == 0 {
        Seq::empty()
    } else {
        let pre = nodes.drop_last();
        let off = degree_sum(pre);
        let (v, d) = nodes.last();
        csr_edges(pre, targets) + Seq::new(d as nat, |j: int| (v, targets[off + j]))
    }
}

/// The sum of the counts of a run of upper records.
pub open spec fn count_sum(groups: Seq<(u16, u16, u32)>) -> nat
    decreases groups.len(),
{
    if groups.len() == 0 {
        0
    } else {
        count_sum(groups.drop_last()) + groups.last().2 as nat
    }
}

/// A vertex from its top and bottom 16 bits.
pub open spec fn join(u: u16, l: u16) -> u32 {
    (u as nat * 65536 + l as nat) as u32
}

/// The edges of a curve-split pair: for each upper record `(ux, uy, c)` in
/// turn, the next `c` lower records `(lx, ly)`, each joined to `(ux, uy)`.
pub open spec fn split_edges(groups: Seq<(u16, u16, u32)>, lower: Seq<(u16, u16)>) -> Seq<(u32, u32)>
    decreases groups.len(),
{
    if groups.len() == 0 {
        Seq::empty()
    } else {
        let pre = groups.drop_last();
        let off = count_sum(pre);
        let (ux, uy, c) = groups.last();
        split_edges(pre, lower) + Seq::new(
            c as nat,
            |j: int| (join(ux, lower[off + j].0), join(uy, lower[off + j].1)),
        )
    }
}

pub proof fn lemma_degree_sum_prefix(nodes: Seq<(u32, u32)>, g: int)
    requires
        0 <= g < nodes.len(),
    ensures
        degree_sum(nodes.take(g + 1)) == degree_sum(nodes.take(g)) + nodes[g].1,
        degree_sum(nodes.take(g + 1)) <= degree_sum(nodes),
    decreases nodes.len(),
{
    assert(nodes.take(g + 1).drop_last() =~= nodes.take(g));
    if g + 1 < nodes.len() {
        lemma_degree_sum_prefix(nodes.drop_last(), g);
        assert(nodes.drop_last().take(g + 1) =~= nodes.take(g + 1));
        assert(nodes.drop_last().take(g) =~= nodes.take(g));
    } else {
        assert(nodes.take(g + 1) =~= nodes);
    }
}

pub proof fn lemma_count_sum_prefix(groups: Seq<(u16, u16, u32)>, g: int)
    requires
        0 <= g < groups.len(),
    ensures
        count_sum(groups.take(g + 1)) == count_sum(groups.take(g)) + groups[g].2,
        count_sum(groups.take(g + 1)) <= count_sum(groups),
    decreases groups.len(),
{
    assert(groups.take(g + 1).drop_last() =~= groups.take(g));
    if g + 1 < groups.len() {
        lemma_count_sum_prefix(groups.drop_last(), g);
        assert(groups.drop_last().take(g + 1) =~= groups.take(g + 1));
        assert(groups.drop_last().take(g) =~= groups.take(g));
    } else {
        assert(groups.take(g + 1) =~= groups);
    }
}

/// Relies on byteorder's `LittleEndian::read_u16`: the first two bytes of the
/// slice, least significant first.
#[verifier::external_body]
fn read_u16_at(bs: &[u8], i: usize) -> (r: u16)
    requires
        i + 2 <= bs@.len(),
    ensures
        r as nat == le16(bs@, i as int),
{
    LittleEndian::read_u16(&bs[i..])
}

/// Relies on byteorder's `LittleEndian::read_u32`: the first four bytes of the
/// slice, least significant first.
#[verifier::external_body]
fn read_u32_at(bs: &[u8], i: usize) -> (r: u32)
    requires
        i + 4 <= bs@.len(),
    ensures
        r as nat == le32(bs@, i as int),
{
    LittleEndian::read_u32(&bs[i..])
}

/// Relies on byteorder's `LittleEndian::write_u16`: the two bytes of `v`,
/// least significant first.
#[verifier::external_body]
fn u16_le_bytes(v: u16) -> (r: [u8; 2])
    ensures
        r@.len() == 2,
        le16(r@, 0) == v as nat,
{
    let mut b = [0u8; 2];
    LittleEndian::write_u16(&mut b, v);
    b
}

/// Relies on byteorder's `LittleEndian::write_u32`: the four bytes of `v`,
/// least significant first.
#[verifier::external_body]
fn u32_le_bytes(v: u32) -> (r: [u8; 4])
    ensures
        r@.len() == 4,
        le32(r@, 0) == v as nat,
{
    let mut b = [0u8; 4];
    LittleEndian::write_u32(&mut b, v);
    b
}

pub fn node_record(bs: &[u8], g: usize) -> (r: (u32, u32))
    requires
        g < bs@.len() / 8,
    ensures
        r == node_records(bs@)[g as int],
{
    let records = bs.len() / 8;
    assert(g < records);
    (read_u32_at(bs, 8 * g), read_u32_at(bs, 8 * g + 4))
}

pub fn edge_target(bs: &[u8], g: usize) -> (r: u32)
    requires
        g < bs@.len() / 4,
    ensures
        r == edge_targets(bs@)[g as int],
{
    let records = bs.len() / 4;
    assert(g < records);
    read_u32_at(bs, 4 * g)
}

pub fn upper_record(bs: &[u8], g: usize) -> (r: (u16, u16, u32))
    requires
        g < bs@.len() / 8,
    ensures
        r == upper_records(bs@)[g as int],
{
    let records = bs.len() / 8;
    assert(g < records);
    (read_u16_at(bs, 8 * g), read_u16_at(bs, 8 * g + 2), read_u32_at(bs, 8 * g + 4))
}

pub fn lower_record(bs: &[u8], g: usize) -> (r: (u16, u16))
    requires
        g < bs@.len() / 4,
    ensures
        r == lower_records(bs@)[g as int],
{
    let records = bs.len() / 4;
    assert(g < records);
    (read_u16_at(bs, 4 * g), read_u16_at(bs, 4 * g + 2))
}

/// Appends `v` as two little-endian bytes.
pub fn push_u16(out: &mut Vec<u8>, v: u16)
    ensures
        final(out)@.len() == old(out)@.len() + 2,
        final(out)@.take(old(out)@.len() as int) == old(out)@,
        le16(final(out)@, old(out)@.len() as int) == v as nat,
{
    let b = u16_le_bytes(v);
    let ghost pre = out@;
    out.push(b[0]);
    out.push(b[1]);
    assert(out@.take(pre.len() as int) =~= pre);
    assert(out@[pre.len() as int] == b@[0]);
    assert(out@[pre.len() as int + 1] == b@[1]);
}

/// Appends `v` as four little-endian bytes.
pub fn push_u32(out: &mut Vec<u8>, v: u32)
    ensures
        final(out)@.len() == old(out)@.len() + 4,
        final(out)@.take(old(out)@.len() as int) == old(out)@,
        le32(final(out)@, old(out)@.len() as int) == v as nat,
{
    let b = u32_le_bytes(v);
    let ghost pre = out@;
    out.push(b[0]);
    out.push(b[1]);
    out.push(b[2]);
    out.push(b[3]);
    assert(out@.take(pre.len() as int) =~= pre);
    assert(out@[pre.len() as int] == b@[0]);
    assert(out@[pre.len() as int + 1] == b@[1]);
    assert(out@[pre.len() as int + 2] == b@[2]);
    assert(out@[pre.len() as int + 3] == b@[3]);
}

} // verus!
