//! The records of the layouts as bytes: every number in little-endian order.

use vstd::prelude::*;
use byteorder::{LittleEndian, WriteBytesExt};

verus! {

/// The two bytes of `value`, the least significant first.
pub open spec fn le_u16(value: u16) -> Seq<u8> {
    seq![(value % 256) as u8, (value / 256) as u8]
}

/// The four bytes of `value`, the least significant first.
pub open spec fn le_u32(value: u32) -> Seq<u8> {
    seq![
        (value % 256) as u8,
        (value / 0x100 % 256) as u8,
        (value / 0x1_0000 % 256) as u8,
        (value / 0x100_0000) as u8,
    ]
}

/// The eight bytes of `value`, the least significant first.
pub open spec fn le_u64(value: u64) -> Seq<u8> {
    le_u32((value % 0x1_0000_0000) as u32) + le_u32((value / 0x1_0000_0000) as u32)
}

/// The bytes of the places at which the destinations of the nodes begin.
pub open spec fn offsets_bytes(offsets: Seq<u64>) -> Seq<u8>
    decreases offsets.len(),
{
    if offsets.len() == 0 {
        Seq::empty()
    } else {
        offsets_bytes(offsets.drop_last()) + le_u64(offsets.last())
    }
}

/// The bytes of the records of nodes: of each the node and its degree.
pub open spec fn nodes_bytes(nodes: Seq<(u32, u32)>) -> Seq<u8>
    decreases nodes.len(),
{
    if nodes.len() == 0 {
        Seq::empty()
    } else {
        nodes_bytes(nodes.drop_last()) + le_u32(nodes.last().0) + le_u32(nodes.last().1)
    }
}

/// The bytes of the destinations.
pub open spec fn edges_bytes(edges: Seq<u32>) -> Seq<u8>
    decreases edges.len(),
{
    if edges.len() == 0 {
        Seq::empty()
    } else {
        edges_bytes(edges.drop_last()) + le_u32(edges.last())
    }
}

/// The bytes of the records of blocks: of each the upper halves of the two coordinates
/// and the count.
pub open spec fn upper_bytes(upper: Seq<((u16, u16), u32)>) -> Seq<u8>
    decreases upper.len(),
{
    if upper.len() == 0 {
        Seq::empty()
    } else {
        upper_bytes(upper.drop_last()) + le_u16(upper.last().0.0) + le_u16(upper.last().0.1) + le_u32(
            upper.last().1,
        )
    }
}

/// The bytes of the pairs of lower halves.
pub open spec fn lower_bytes(lower: Seq<(u16, u16)>) -> Seq<u8>
    decreases lower.len(),
{
    if lower.len() == 0 {
        Seq::empty()
    } else {
        lower_bytes(lower.drop_last()) + le_u16(lower.last().0) + le_u16(lower.last().1)
    }
}

/// Appends a `u16` to a buffer by `byteorder::WriteBytesExt::write_u16` in the order
/// `LittleEndian`, which hands the two bytes of the number, the least significant first,
/// to `write_all` of `Vec<u8>`: the buffer grows by them and the write cannot fail.
#[verifier::external_body]
fn write_u16_le(writer: &mut Vec<u8>, value: u16)
    ensures
        final(writer)@ == old(writer)@ + le_u16(value),
{
    writer.write_u16::<LittleEndian>(value).ok().expect("write error");
}

/// Appends a `u32` to a buffer by `byteorder::WriteBytesExt::write_u32` in the order
/// `LittleEndian`, which hands the four bytes of the number, the least significant first,
/// to `write_all` of `Vec<u8>`: the buffer grows by them and the write cannot fail.
#[verifier::external_body]
fn write_u32_le(writer: &mut Vec<u8>, value: u32)
    ensures
        final(writer)@ == old(writer)@ + le_u32(value),
{
    writer.write_u32::<LittleEndian>(value).ok().expect("write error");
}

/// Appends a `u64` to a buffer by `byteorder::WriteBytesExt::write_u64` in the order
/// `LittleEndian`, which hands the eight bytes of the number, the least significant first,
/// to `write_all` of `Vec<u8>`: the buffer grows by them and the write cannot fail.
#[verifier::external_body]
fn write_u64_le(writer: &mut Vec<u8>, value: u64)
    ensures
        final(writer)@ == old(writer)@ + le_u64(value),
{
    writer.write_u64::<LittleEndian>(value).ok().expect("write error");
}

/// Appends the places at which the destinations of the nodes begin to `writer`.
pub fn write_offsets(writer: &mut Vec<u8>, offsets: &Vec<u64>)
    ensures
        final(writer)@ == old(writer)@ + offsets_bytes(offsets@),
{
    let ghost base = writer@;
    let mut i: usize = 0;
    assert(offsets@.take(0) =~= Seq::<u64>::empty());
    assert(writer@ =~= base + offsets_bytes(offsets@.take(0)));
    while i < offsets.len()
        invariant
            i <= offsets@.len(),
            writer@ == base + offsets_bytes(offsets@.take(i as int)),
        decreases offsets@.len() - i,
    {
        write_u64_le(writer, offsets[i]);
        proof {
            assert(offsets@.take(i + 1).drop_last() =~= offsets@.take(i as int));
            assert(writer@ =~= base + offsets_bytes(offsets@.take(i + 1)));
        }
        i += 1;
    }
    assert(offsets@.take(i as int) =~= offsets@);
}

/// Appends the records of nodes to `writer`.
pub fn write_nodes(writer: &mut Vec<u8>, nodes: &Vec<(u32, u32)>)
    ensures
        final(writer)@ == old(writer)@ + nodes_bytes(nodes@),
{
    let ghost base = writer@;
    let mut i: usize = 0;
    assert(nodes@.take(0) =~= Seq::<(u32, u32)>::empty());
    assert(writer@ =~= base + nodes_bytes(nodes@.take(0)));
    while i < nodes.len()
        invariant
            i <= nodes@.len(),
            writer@ == base + nodes_bytes(nodes@.take(i as int)),
        decreases nodes@.len() - i,
    {
        let (node, degree) = nodes[i];
        write_u32_le(writer, node);
        write_u32_le(writer, degree);
        proof {
            assert(nodes@.take(i + 1).drop_last() =~= nodes@.take(i as int));
            assert(writer@ =~= base + nodes_bytes(nodes@.take(i + 1)));
        }
        i += 1;
    }
    assert(nodes@.take(i as int) =~= nodes@);
}

/// Appends the destinations to `writer`.
pub fn write_edges(writer: &mut Vec<u8>, edges: &Vec<u32>)
    ensures
        final(writer)@ == old(writer)@ + edges_bytes(edges@),
{
    let ghost base = writer@;
    let mut i: usize = 0;
    assert(edges@.take(0) =~= Seq::<u32>::empty());
    assert(writer@ =~= base + edges_bytes(edges@.take(0)));
    while i < edges.len()
        invariant
            i <= edges@.len(),
            writer@ == base + edges_bytes(edges@.take(i as int)),
        decreases edges@.len() - i,
    {
        write_u32_le(writer, edges[i]);
        proof {
            assert(edges@.take(i + 1).drop_last() =~= edges@.take(i as int));
            assert(writer@ =~= base + edges_bytes(edges@.take(i + 1)));
        }
        i += 1;
    }
    assert(edges@.take(i as int) =~= edges@);
}

/// Appends the records of blocks to `writer`.
pub fn write_upper(writer: &mut Vec<u8>, upper: &Vec<((u16, u16), u32)>)
    ensures
        final(writer)@ == old(writer)@ + upper_bytes(upper@),
{
    let ghost base = writer@;
    let mut i: usize = 0;
    assert(upper@.take(0) =~= Seq::<((u16, u16), u32)>::empty());
    assert(writer@ =~= base + upper_bytes(upper@.take(0)));
    while i < upper.len()
        invariant
            i <= upper@.len(),
            writer@ == base + upper_bytes(upper@.take(i as int)),
        decreases upper@.len() - i,
    {
        let ((ux, uy), count) = upper[i];
        write_u16_le(writer, ux);
        write_u16_le(writer, uy);
        write_u32_le(writer, count);
        proof {
            assert(upper@.take(i + 1).drop_last() =~= upper@.take(i as int));
            assert(writer@ =~= base + upper_bytes(upper@.take(i + 1)));
        }
        i += 1;
    }
    assert(upper@.take(i as int) =~= upper@);
}

/// Appends the pairs of lower halves to `writer`.
pub fn write_lower(writer: &mut Vec<u8>, lower: &Vec<(u16, u16)>)
    ensures
        final(writer)@ == old(writer)@ + lower_bytes(lower@),
{
    let ghost base = writer@;
    let mut i: usize = 0;
    assert(lower@.take(0) =~= Seq::<(u16, u16)>::empty());
    assert(writer@ =~= base + lower_bytes(lower@.take(0)));
    while i < lower.len()
        invariant
            i <= lower@.len(),
            writer@ == base + lower_bytes(lower@.take(i as int)),
        decreases lower@.len() - i,
    {
        let (lx, ly) = lower[i];
        write_u16_le(writer, lx);
        write_u16_le(writer, ly);
        proof {
            assert(lower@.take(i + 1).drop_last() =~= lower@.take(i as int));
            assert(writer@ =~= base + lower_bytes(lower@.take(i + 1)));
        }
        i += 1;
    }
    assert(lower@.take(i as int) =~= lower@);
}

/// The `u16` whose two bytes, the least significant first, stand at `at` in `bytes`.
pub open spec fn u16_at(bytes: Seq<u8>, at: int) -> u16 {
    (bytes[at] as nat + bytes[at + 1] as nat * 0x100) as u16
}

/// The `u32` whose four bytes, the least significant first, stand at `at` in `bytes`.
pub open spec fn u32_at(bytes: Seq<u8>, at: int) -> u32 {
    (bytes[at] as nat + bytes[at + 1] as nat * 0x100 + bytes[at + 2] as nat * 0x1_0000 + bytes[at + 3] as nat
        * 0x100_0000) as u32
}

/// The records of nodes that `bytes` hold: as many as there are whole records of eight
/// bytes.
pub open spec fn nodes_of(bytes: Seq<u8>) -> Seq<(u32, u32)> {
    Seq::new((bytes.len() / 8) as nat, |i: int| (u32_at(bytes, 8 * i), u32_at(bytes, 8 * i + 4)))
}

/// The destinations that `bytes` hold: as many as there are whole records of four bytes.
pub open spec fn edges_of(bytes: Seq<u8>) -> Seq<u32> {
    Seq::new((bytes.len() / 4) as nat, |i: int| u32_at(bytes, 4 * i))
}

/// The records of blocks that `bytes` hold: as many as there are whole records of eight
/// bytes.
pub open spec fn upper_of(bytes: Seq<u8>) -> Seq<((u16, u16), u32)> {
    Seq::new(
        (bytes.len() / 8) as nat,
        |i: int| ((u16_at(bytes, 8 * i), u16_at(bytes, 8 * i + 2)), u32_at(bytes, 8 * i + 4)),
    )
}

/// The pairs of lower halves that `bytes` hold: as many as there are whole records of
/// four bytes.
pub open spec fn lower_of(bytes: Seq<u8>) -> Seq<(u16, u16)> {
    Seq::new((bytes.len() / 4) as nat, |i: int| (u16_at(bytes, 4 * i), u16_at(bytes, 4 * i + 2)))
}

/// The `u16` at `at` in `bytes`.
fn read_u16_le(bytes: &[u8], at: usize) -> (out: u16)
    requires
        at + 2 <= bytes@.len(),
    ensures
        out == u16_at(bytes@, at as int),
{
    let low: u16 = bytes[at] as u16;
    let high: u16 = bytes[at + 1] as u16;
    assert((low | (high << 8u16)) == low + high * 0x100) by (bit_vector)
        requires
            low < 0x100,
            high < 0x100,
    ;
    low | (high << 8)
}

/// The `u32` at `at` in `bytes`.
fn read_u32_le(bytes: &[u8], at: usize) -> (out: u32)
    requires
        at + 4 <= bytes@.len(),
    ensures
        out == u32_at(bytes@, at as int),
{
    let a: u32 = bytes[at] as u32;
    let b: u32 = bytes[at + 1] as u32;
    let c: u32 = bytes[at + 2] as u32;
    let d: u32 = bytes[at + 3] as u32;
    assert((a | (b << 8u32) | (c << 16u32) | (d << 24u32)) == a + b * 0x100 + c * 0x1_0000 + d * 0x100_0000)
        by (bit_vector)
        requires
            a < 0x100,
            b < 0x100,
            c < 0x100,
            d < 0x100,
    ;
    a | (b << 8) | (c << 16) | (d << 24)
}

/// The records of nodes that `bytes` hold. Bytes behind the last whole record are not
/// read.
pub fn read_nodes(bytes: &[u8]) -> (out: Vec<(u32, u32)>)
    ensures
        out@ == nodes_of(bytes@),
{
    let total: usize = bytes.len();
    let count: usize = total / 8;
    let mut out: Vec<(u32, u32)> = Vec::new();
    let mut i: usize = 0;
    while i < count
        invariant
            i <= count == total / 8,
            total == bytes@.len(),
            out@ =~= nodes_of(bytes@).take(i as int),
        decreases count - i,
    {
        out.push((read_u32_le(bytes, 8 * i), read_u32_le(bytes, 8 * i + 4)));
        i += 1;
    }
    assert(nodes_of(bytes@).take(count as int) =~= nodes_of(bytes@));
    out
}

/// The destinations that `bytes` hold. Bytes behind the last whole record are not read.
pub fn read_edges(bytes: &[u8]) -> (out: Vec<u32>)
    ensures
        out@ == edges_of(bytes@),
{
    let total: usize = bytes.len();
    let count: usize = total / 4;
    let mut out: Vec<u32> = Vec::new();
    let mut i: usize = 0;
    while i < count
        invariant
            i <= count == total / 4,
            total == bytes@.len(),
            out@ =~= edges_of(bytes@).take(i as int),
        decreases count - i,
    {
        out.push(read_u32_le(bytes, 4 * i));
        i += 1;
    }
    assert(edges_of(bytes@).take(count as int) =~= edges_of(bytes@));
    out
}

/// The records of blocks that `bytes` hold. Bytes behind the last whole record are not
/// read.
pub fn read_upper(bytes: &[u8]) -> (out: Vec<((u16, u16), u32)>)
    ensures
        out@ == upper_of(bytes@),
{
    let total: usize = bytes.len();
    let count: usize = total / 8;
    let mut out: Vec<((u16, u16), u32)> = Vec::new();
    let mut i: usize = 0;
    while i < count
        invariant
            i <= count == total / 8,
            total == bytes@.len(),
            out@ =~= upper_of(bytes@).take(i as int),
        decreases count - i,
    {
        out.push(((read_u16_le(bytes, 8 * i), read_u16_le(bytes, 8 * i + 2)), read_u32_le(bytes, 8 * i + 4)));
        i += 1;
    }
    assert(upper_of(bytes@).take(count as int) =~= upper_of(bytes@));
    out
}

/// The pairs of lower halves that `bytes` hold. Bytes behind the last whole record are
/// not read.
pub fn read_lower(bytes: &[u8]) -> (out: Vec<(u16, u16)>)
    ensures
        out@ == lower_of(bytes@),
{
    let total: usize = bytes.len();
    let count: usize = total / 4;
    let mut out: Vec<(u16, u16)> = Vec::new();
    let mut i: usize = 0;
    while i < count
        invariant
            i <= count == total / 4,
            total == bytes@.len(),
            out@ =~= lower_of(bytes@).take(i as int),
        decreases count - i,
    {
        out.push((read_u16_le(bytes, 4 * i), read_u16_le(bytes, 4 * i + 2)));
        i += 1;
    }
    assert(lower_of(bytes@).take(count as int) =~= lower_of(bytes@));
    out
}

/// The records of nodes that were written are the records that are read.
pub proof fn lemma_nodes_read_back(nodes: Seq<(u32, u32)>)
    ensures
        nodes_bytes(nodes).len() == 8 * nodes.len(),
        nodes_of(nodes_bytes(nodes)) == nodes,
    decreases nodes.len(),
{
    if nodes.len() > 0 {
        let before = nodes.drop_last();
        lemma_nodes_read_back(before);
        let bytes = nodes_bytes(nodes);
        let shorter = nodes_bytes(before);
        assert forall|i: int| 0 <= i < nodes.len() implies #[trigger] nodes_of(bytes)[i] == nodes[i] by {
            if i < before.len() {
                assert(nodes_of(shorter)[i] == before[i]);
            }
        }
        assert(nodes_of(bytes) =~= nodes);
    } else {
        assert(nodes_of(nodes_bytes(nodes)) =~= nodes);
    }
}

/// The destinations that were written are the destinations that are read.
pub proof fn lemma_edges_read_back(edges: Seq<u32>)
    ensures
        edges_bytes(edges).len() == 4 * edges.len(),
        edges_of(edges_bytes(edges)) == edges,
    decreases edges.len(),
{
    if edges.len() > 0 {
        let before = edges.drop_last();
        lemma_edges_read_back(before);
        let bytes = edges_bytes(edges);
        let shorter = edges_bytes(before);
        assert forall|i: int| 0 <= i < edges.len() implies #[trigger] edges_of(bytes)[i] == edges[i] by {
            if i < before.len() {
                assert(edges_of(shorter)[i] == before[i]);
            }
        }
        assert(edges_of(bytes) =~= edges);
    } else {
        assert(edges_of(edges_bytes(edges)) =~= edges);
    }
}

/// The records of blocks that were written are the records that are read.
pub proof fn lemma_upper_read_back(upper: Seq<((u16, u16), u32)>)
    ensures
        upper_bytes(upper).len() == 8 * upper.len(),
        upper_of(upper_bytes(upper)) == upper,
    decreases upper.len(),
{
    if upper.len() > 0 {
        let before = upper.drop_last();
        lemma_upper_read_back(before);
        let bytes = upper_bytes(upper);
        let shorter = upper_bytes(before);
        assert forall|i: int| 0 <= i < upper.len() implies #[trigger] upper_of(bytes)[i] == upper[i] by {
            if i < before.len() {
                assert(upper_of(shorter)[i] == before[i]);
            }
        }
        assert(upper_of(bytes) =~= upper);
    } else {
        assert(upper_of(upper_bytes(upper)) =~= upper);
    }
}

/// The pairs of lower halves that were written are the pairs that are read.
pub proof fn lemma_lower_read_back(lower: Seq<(u16, u16)>)
    ensures
        lower_bytes(lower).len() == 4 * lower.len(),
        lower_of(lower_bytes(lower)) == lower,
    decreases lower.len(),
{
    if lower.len() > 0 {
        let before = lower.drop_last();
        lemma_lower_read_back(before);
        let bytes = lower_bytes(lower);
        let shorter = lower_bytes(before);
        assert forall|i: int| 0 <= i < lower.len() implies #[trigger] lower_of(bytes)[i] == lower[i] by {
            if i < before.len() {
                assert(lower_of(shorter)[i] == before[i]);
            }
        }
        assert(lower_of(bytes) =~= lower);
    } else {
        assert(lower_of(lower_bytes(lower)) =~= lower);
    }
}

} // verus!
