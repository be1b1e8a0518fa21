//! Edges by node, each node's destinations as short differences, with the place at
//! which the destinations of each node begin.

use vstd::prelude::*;
use crate::convert::ascending;

verus! {

/// The bytes that stand for `value`, seven bits in a byte from the lowest up, each byte
/// but the last marked by its highest bit.
pub open spec fn short_bytes(value: u64) -> Seq<u8>
    decreases value,
{
    if value <= 127 {
        seq![value as u8]
    } else {
        seq![((value % 128) + 128) as u8] + short_bytes(value / 128)
    }
}

/// What is written of a stream of edges: the bytes of the destinations, the place at
/// which the destinations of each node after the first begin, the node of the last edge
/// and its destination.
pub struct Blocks {
    pub bytes: Seq<u8>,
    pub offsets: Seq<u64>,
    pub node: u64,
    pub edge: u64,
}

/// What is written before any edge.
pub open spec fn no_blocks() -> Blocks {
    Blocks { bytes: Seq::empty(), offsets: Seq::empty(), node: 0, edge: 0 }
}

/// What is written after the edge `next`, whose upper half is its node and whose lower
/// half is its destination: for every node from the last one on up to the node of the
/// edge, the place at which the bytes end; then the destination, as its difference from
/// the last destination of the same node, or from zero.
pub open spec fn with_edge(blocks: Blocks, next: u64) -> Blocks {
    let node = next / 0x1_0000_0000;
    let edge = next % 0x1_0000_0000;
    if blocks.node < node {
        Blocks {
            bytes: blocks.bytes + short_bytes(edge),
            offsets: blocks.offsets + Seq::new((node - blocks.node) as nat, |k: int| blocks.bytes.len() as u64),
            node,
            edge,
        }
    } else {
        Blocks { bytes: blocks.bytes + short_bytes((edge - blocks.edge) as u64), edge, ..blocks }
    }
}

/// What is written after the edges `values`.
pub open spec fn with_edges(values: Seq<u64>) -> Blocks
    decreases values.len(),
{
    if values.len() == 0 {
        no_blocks()
    } else {
        with_edge(with_edges(values.drop_last()), values.last())
    }
}

/// What is written of edges in ascending order ends at the last edge.
proof fn lemma_with_edges(values: Seq<u64>)
    requires
        ascending(values),
        values.len() > 0,
    ensures
        with_edges(values).node == values.last() / 0x1_0000_0000,
        with_edges(values).edge == values.last() % 0x1_0000_0000,
    decreases values.len(),
{
    let before = values.drop_last();
    if before.len() > 0 {
        assert(ascending(before));
        lemma_with_edges(before);
        assert(before.last() == values[values.len() - 2]);
        assert(before.last() <= values.last());
        assert(before.last() / 0x1_0000_0000 <= values.last() / 0x1_0000_0000);
    } else {
        assert(with_edges(before) == no_blocks());
    }
}

/// Appends the short bytes of `value` to `buffer`.
fn push_short(buffer: &mut Vec<u8>, value: u64)
    ensures
        final(buffer)@ == old(buffer)@ + short_bytes(value),
{
    let ghost base = buffer@;
    let mut diff: u64 = value;
    assert(buffer@ + short_bytes(diff) =~= base + short_bytes(value));
    while diff > 127
        invariant
            buffer@ + short_bytes(diff) == base + short_bytes(value),
        decreases diff,
    {
        let ghost before = buffer@;
        assert((diff & 127u64) == diff % 128u64 && (diff >> 7u64) == diff / 128u64) by (bit_vector);
        buffer.push(((diff & 127) as u8) + 128u8);
        proof {
            assert(buffer@ + short_bytes(diff / 128) =~= before + short_bytes(diff));
        }
        diff = diff >> 7;
    }
    buffer.push(diff as u8);
    proof {
        assert(buffer@ =~= base + short_bytes(value));
    }
}

/// The edges `values`, which are in ascending order, by node: the bytes of the
/// destinations and the places at which the destinations of the nodes begin.
pub fn scan(values: &Vec<u64>) -> (out: (Vec<u8>, Vec<u64>))
    requires
        ascending(values@),
    ensures
        out.0@ == with_edges(values@).bytes,
        out.1@ == with_edges(values@).offsets,
{
    let mut buffer: Vec<u8> = Vec::new();
    let mut offsets: Vec<u64> = Vec::new();
    let mut prev_edge: u64 = 0;
    let mut prev_node: u64 = 0;
    let mut i: usize = 0;
    assert(values@.take(0) =~= Seq::<u64>::empty());
    while i < values.len()
        invariant
            i <= values@.len(),
            ascending(values@),
            with_edges(values@.take(i as int)) == (Blocks {
                bytes: buffer@,
                offsets: offsets@,
                node: prev_node,
                edge: prev_edge,
            }),
        decreases values@.len() - i,
    {
        let next: u64 = values[i];
        let node: u64 = next >> 32;
        let edge: u64 = next % 0x1_0000_0000;
        let ghost before = with_edges(values@.take(i as int));
        proof {
            assert((next >> 32u64) == next / 0x1_0000_0000u64) by (bit_vector);
            assert(values@.take(i + 1).drop_last() =~= values@.take(i as int));
            assert(values@.take(i + 1).last() == next);
            if i > 0 {
                assert(ascending(values@.take(i as int))) by {
                    assert forall|a: int, b: int| 0 <= a <= b < i implies values@.take(i as int)[a] <= values@.take(
                        i as int,
                    )[b] by {
                        assert(values@[a] <= values@[b]);
                    }
                }
                lemma_with_edges(values@.take(i as int));
                assert(values@.take(i as int).last() == values@[i - 1]);
                assert(values@[i - 1] <= values@[i as int]);
            }
        }
        let bytes: u64 = buffer.len() as u64;
        let ghost first = prev_node;
        while prev_node < node
            invariant
                first <= prev_node,
                first < node ==> prev_node <= node,
                first < node ==> prev_edge == 0 || prev_node == first,
                first >= node ==> prev_node == first && prev_edge == before.edge,
                prev_node == first ==> prev_edge == before.edge,
                offsets@ == before.offsets + Seq::new((prev_node - first) as nat, |k: int| bytes),
            decreases node - prev_node,
        {
            let ghost old_offsets = offsets@;
            offsets.push(bytes);
            prev_node += 1;
            prev_edge = 0u64;
            proof {
                assert(offsets@ =~= before.offsets + Seq::new((prev_node - first) as nat, |k: int| bytes));
            }
        }
        proof {
            assert(before.offsets + Seq::new(0nat, |k: int| bytes) =~= before.offsets);
        }
        let diff: u64 = edge - prev_edge;
        push_short(&mut buffer, diff);
        prev_edge = edge;
        i += 1;
    }
    assert(values@.take(i as int) =~= values@);
    (buffer, offsets)
}

} // verus!
