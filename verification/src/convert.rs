//! From a scan to a layout: the indices of a graph's edges on the curve in order, the
//! layout in blocks, and the vertex layout.

use vstd::prelude::*;
use vstd::seq_lib::{to_multiset_build, to_multiset_remove, to_multiset_len, to_multiset_contains};
pub use crate::dense::{densify, dense_edges, first_seen};
pub use crate::merge::merge;
use crate::curve_model::{detangled, entangled};
use crate::graph_iterator::{
    EdgeAction, EdgeMapper, run, runs, owned_before, block_edges, block_place, vertex_edges,
    vertex_place, joined, detangled_all, groups_begin, groups_hold, lemma_group_added,
    lemma_groups_done, lemma_owned_prefix,
};
use crate::hilbert_curve::{BytewiseHilbert, block_index, lemma_block_of_index};

verus! {

/// Whether no value of `values` is smaller than one before it.
pub open spec fn ascending(values: Seq<u64>) -> bool {
    forall|i: int, j: int| 0 <= i <= j < values.len() ==> values[i] <= values[j]
}

/// The indices of `edges` on the curve.
pub open spec fn entangled_all(edges: Seq<(u32, u32)>) -> Seq<u64> {
    edges.map_values(|e: (u32, u32)| entangled(e.0, e.1))
}

/// Sorts a vector of `u64` by `sort` of slices, which puts the elements in ascending
/// order: afterwards no element is smaller than one before it, and the elements are those
/// that were there, each as often as before.
#[verifier::external_body]
fn sort_ascending(values: &mut Vec<u64>)
    ensures
        ascending(final(values)@),
        final(values)@.to_multiset() == old(values)@.to_multiset(),
{
    values.sort();
}

/// Collects the indices of the edges of a scan.
struct Entangler {
    hilbert: BytewiseHilbert,
    buffer: Vec<u64>,
}

impl EdgeAction for Entangler {
    type State = Seq<u64>;

    closed spec fn state(&self) -> Seq<u64> {
        self.buffer@
    }

    open spec fn accepts(state: Seq<u64>, x: u32, y: u32) -> bool {
        true
    }

    open spec fn step(state: Seq<u64>, x: u32, y: u32) -> Seq<u64> {
        state.push(entangled(x, y))
    }

    fn apply(&mut self, x: u32, y: u32) {
        let index = self.hilbert.entangle((x, y));
        self.buffer.push(index);
    }
}

/// Collecting the indices of edges appends them in order.
proof fn lemma_entangler_run(state: Seq<u64>, edges: Seq<(u32, u32)>)
    ensures
        run::<Entangler>(state, edges) == state + entangled_all(edges),
        runs::<Entangler>(state, edges),
    decreases edges.len(),
{
    if edges.len() > 0 {
        lemma_entangler_run(state, edges.drop_last());
        assert(state + entangled_all(edges) =~= (state + entangled_all(edges.drop_last())).push(
            entangled(edges.last().0, edges.last().1),
        ));
    } else {
        assert(state + entangled_all(edges) =~= state);
    }
}

/// The indices on the curve of the edges of `graph`, in ascending order.
pub fn to_hilbert<I: EdgeMapper>(graph: &I) -> (out: Vec<u64>)
    ensures
        ascending(out@),
        out@.to_multiset() == entangled_all(graph.edges()).to_multiset(),
{
    let mut collector = Entangler { hilbert: BytewiseHilbert::new(), buffer: Vec::new() };
    proof {
        lemma_entangler_run(collector.state(), graph.edges());
        assert(Seq::<u64>::empty() + entangled_all(graph.edges()) =~= entangled_all(graph.edges()));
    }
    graph.map_edges(&mut collector);
    let mut buffer = collector.buffer;
    sort_ascending(&mut buffer);
    buffer
}

/// The two halves of a coordinate make the coordinate.
proof fn lemma_joined(v: u32)
    ensures
        (v >> 16u32) <= 0xFFFF,
        (v & 65535u32) <= 0xFFFF,
        joined((v >> 16u32) as u16, (v & 65535u32) as u16) == v,
{
    assert((v >> 16u32) <= 0xFFFFu32 && (v & 65535u32) <= 0xFFFFu32 && (v >> 16u32) * 0x1_0000u32 + (v & 65535u32)
        == v) by (bit_vector);
}

/// The layout in blocks of the edges at the indices `sorted`, which are in ascending
/// order: the records of the blocks, and the lower halves of the coordinates of all
/// edges. A block is every index with one upper half; a block of more edges than a count
/// can hold takes several records, all but the last of them full.
pub fn to_blocks(sorted: &Vec<u64>) -> (out: (Vec<((u16, u16), u32)>, Vec<(u16, u16)>))
    requires
        ascending(sorted@),
    ensures
        owned_before(out.0@, out.0@.len() as int) == out.1@.len(),
        block_edges(out.0@, out.1@) == detangled_all(sorted@),
        forall|b: int| 0 <= b < out.0@.len() ==> (#[trigger] out.0@[b]).1 > 0,
        forall|a: int, b: int|
            0 <= a < b < out.0@.len() ==> block_index(out.0@[a].0) <= block_index(out.0@[b].0),
        forall|b: int|
            0 <= b && b + 1 < out.0@.len() && block_index(out.0@[b].0) == block_index(out.0@[b + 1].0) ==> (
            #[trigger] out.0@[b]).1 == u32::MAX,
{
    let hilbert = BytewiseHilbert::new();
    let mut upper: Vec<((u16, u16), u32)> = Vec::new();
    let mut lower: Vec<(u16, u16)> = Vec::new();
    let total: usize = sorted.len();
    let mut i: usize = 0;
    let ghost target = detangled_all(sorted@);
    let ghost key_of = |block: (u16, u16)| block_index(block) as int;
    let ghost key_at = |p: int| (sorted@[p] >> 32u64) as int;
    let ghost mut owner: Seq<int> = Seq::empty();
    let ghost mut starts: Seq<int> = seq![0int];
    while i < total
        invariant
            i <= total == sorted@.len(),
            target == detangled_all(sorted@),
            key_of == |block: (u16, u16)| block_index(block) as int,
            key_at == |p: int| (sorted@[p] >> 32u64) as int,
            lower@.len() == i,
            owner.len() == i,
            starts[upper@.len() as int] == i,
            groups_begin(upper@, starts, total as int, key_of, key_at),
            groups_hold(upper@, block_place(lower@), target, starts, owner, i as int),
            upper@.len() > 0 && i < total && key_at(starts[upper@.len() - 1]) == key_at(i as int) ==> upper@.last().1
                == u32::MAX,
        decreases total - i,
    {
        let key: u32 = (sorted[i] >> 32) as u32;
        proof {
            lemma_block_of_index(sorted@[i as int]);
        }
        let upair = hilbert.detangle((key as u64) << 32);
        let upperx: u16 = (upair.0 >> 16) as u16;
        let uppery: u16 = (upair.1 >> 16) as u16;
        let ghost start = i as int;
        let ghost earlier = lower@;
        let mut count: u32 = 0;
        while i < total && (sorted[i] >> 32) as u32 == key && count < u32::MAX
            invariant
                start <= i <= total == sorted@.len(),
                start < total,
                i == start + count,
                key == (sorted@[start] >> 32u64),
                block_index((upperx, uppery)) == key,
                upperx == (detangled(((key as u64) << 32u64)).0 >> 16u32),
                uppery == (detangled(((key as u64) << 32u64)).1 >> 16u32),
                lower@.len() == i,
                earlier.len() == start,
                forall|p: int| 0 <= p < start ==> lower@[p] == earlier[p],
                forall|p: int|
                    start <= p < i ==> (joined(upperx, (#[trigger] lower@[p]).0), joined(uppery, lower@[p].1))
                        == detangled(sorted@[p]),
            decreases total - i,
        {
            let lpair = hilbert.detangle(sorted[i]);
            proof {
                lemma_block_of_index(sorted@[i as int]);
                lemma_joined(lpair.0);
                lemma_joined(lpair.1);
            }
            let ghost filled = lower@;
            lower.push(((lpair.0 & 65535u32) as u16, (lpair.1 & 65535u32) as u16));
            proof {
                assert forall|p: int| start <= p < i + 1 implies (
                    joined(upperx, (#[trigger] lower@[p]).0),
                    joined(uppery, lower@[p].1),
                ) == detangled(sorted@[p]) by {
                    if p < i {
                        assert(lower@[p] == filled[p]);
                    } else {
                        assert((sorted@[p] >> 32u64) == key as u64);
                        assert(detangled(sorted@[p]) == lpair);
                    }
                }
            }
            count += 1;
            i += 1;
        }
        proof {
            let record = ((upperx, uppery), count);
            assert forall|p: int| start <= p < i implies #[trigger] block_place(lower@)(record.0, p) == target[p] by {
                let pair = lower@[p];
            }
            lemma_group_added(
                upper@,
                record,
                block_place(earlier),
                block_place(lower@),
                target,
                starts,
                owner,
                i as int,
                key_of,
                key_at,
            );
            owner = owner + Seq::new((i - start) as nat, |k: int| upper@.len() as int);
            starts = starts.push(i as int);
        }
        upper.push(((upperx, uppery), count));
    }
    proof {
        lemma_groups_done(upper@, block_place(lower@), target, starts, owner, key_of, key_at);
        assert forall|a: int, b: int| 0 <= a < b < upper@.len() implies block_index(upper@[a].0) <= block_index(
            upper@[b].0,
        ) by {
            lemma_owned_prefix(upper@, b);
            assert(starts[a] == owned_before(upper@, a));
            assert(starts[b] == owned_before(upper@, b));
            let x = sorted@[starts[a]];
            let y = sorted@[starts[b]];
            assert(upper@[a].1 > 0 && upper@[b].1 > 0);
            assert(key_of(upper@[a].0) == key_at(starts[a]));
            assert(key_of(upper@[b].0) == key_at(starts[b]));
            assert((x >> 32u64) <= (y >> 32u64)) by (bit_vector)
                requires
                    x <= y,
            ;
        }
        assert forall|b: int|
            0 <= b && b + 1 < upper@.len() && block_index(upper@[b].0) == block_index(upper@[b + 1].0) implies (
        #[trigger] upper@[b]).1 == u32::MAX by {
            assert(key_of(upper@[b].0) == key_of(upper@[b + 1].0));
        }
    }
    (upper, lower)
}

/// Collects the edges of a scan.
struct Collector {
    buffer: Vec<(u32, u32)>,
}

impl EdgeAction for Collector {
    type State = Seq<(u32, u32)>;

    closed spec fn state(&self) -> Seq<(u32, u32)> {
        self.buffer@
    }

    open spec fn accepts(state: Seq<(u32, u32)>, x: u32, y: u32) -> bool {
        true
    }

    open spec fn step(state: Seq<(u32, u32)>, x: u32, y: u32) -> Seq<(u32, u32)> {
        state.push((x, y))
    }

    fn apply(&mut self, x: u32, y: u32) {
        self.buffer.push((x, y));
    }
}

/// Collecting edges appends them in order.
proof fn lemma_collector_run(state: Seq<(u32, u32)>, edges: Seq<(u32, u32)>)
    ensures
        run::<Collector>(state, edges) == state + edges,
        runs::<Collector>(state, edges),
    decreases edges.len(),
{
    if edges.len() > 0 {
        lemma_collector_run(state, edges.drop_last());
        assert(state + edges =~= (state + edges.drop_last()).push(edges.last()));
    } else {
        assert(state + edges =~= state);
    }
}

/// The edges of `graph`, in the order of its scan.
pub fn collect_edges<I: EdgeMapper>(graph: &I) -> (out: Vec<(u32, u32)>)
    ensures
        out@ == graph.edges(),
{
    let mut collector = Collector { buffer: Vec::new() };
    proof {
        lemma_collector_run(collector.state(), graph.edges());
        assert(Seq::<(u32, u32)>::empty() + graph.edges() =~= graph.edges());
    }
    graph.map_edges(&mut collector);
    collector.buffer
}

/// Two sequences that hold the same values as often hold the same values as often after
/// a function is applied to every value.
pub proof fn lemma_map_multiset<A, B>(a: Seq<A>, b: Seq<A>, f: spec_fn(A) -> B)
    requires
        a.to_multiset() == b.to_multiset(),
    ensures
        a.map_values(f).to_multiset() == b.map_values(f).to_multiset(),
    decreases a.len(),
{
    broadcast use vstd::multiset::group_multiset_axioms;

    to_multiset_len(a);
    to_multiset_len(b);
    if a.len() == 0 {
        assert(a.map_values(f) =~= b.map_values(f));
    } else {
        let x = a.last();
        let shorter = a.drop_last();
        assert(shorter.push(x) =~= a);
        to_multiset_build(shorter, x);
        to_multiset_contains(b, x);
        assert(a.to_multiset().count(x) > 0);
        let j = choose|j: int| 0 <= j < b.len() && b[j] == x;
        let others = b.remove(j);
        to_multiset_remove(b, j);
        assert(shorter.to_multiset() =~= others.to_multiset());
        lemma_map_multiset(shorter, others, f);
        assert(shorter.map_values(f).push(f(x)) =~= a.map_values(f));
        to_multiset_build(shorter.map_values(f), f(x));
        assert(b.map_values(f).remove(j) =~= others.map_values(f));
        to_multiset_remove(b.map_values(f), j);
        to_multiset_contains(b.map_values(f), f(x));
        assert(b.map_values(f)[j] == f(x));
        assert(b.map_values(f).to_multiset() =~= others.map_values(f).to_multiset().insert(f(x)));
    }
}

/// Edges whose indices on the curve are the same as often are the same edges as often.
pub proof fn lemma_same_edges(a: Seq<(u32, u32)>, b: Seq<(u32, u32)>)
    requires
        entangled_all(a).to_multiset() == entangled_all(b).to_multiset(),
    ensures
        a.to_multiset() == b.to_multiset(),
{
    lemma_map_multiset(entangled_all(a), entangled_all(b), |t: u64| detangled(t));
    assert forall|i: int| 0 <= i < a.len() implies detangled_all(entangled_all(a))[i] == a[i] by {
        crate::curve_model::lemma_detangled_entangled(a[i].0, a[i].1);
    }
    assert forall|i: int| 0 <= i < b.len() implies detangled_all(entangled_all(b))[i] == b[i] by {
        crate::curve_model::lemma_detangled_entangled(b[i].0, b[i].1);
    }
    assert(detangled_all(entangled_all(a)) =~= a);
    assert(detangled_all(entangled_all(b)) =~= b);
}

/// The indices at which the curve is in ascending order are the indices of the points
/// that they give.
proof fn lemma_entangled_detangled_all(sorted: Seq<u64>)
    ensures
        entangled_all(detangled_all(sorted)) == sorted,
{
    assert forall|p: int| 0 <= p < sorted.len() implies entangled_all(detangled_all(sorted))[p] == sorted[p] by {
        crate::curve_model::lemma_entangled_detangled(sorted[p]);
    }
    assert(entangled_all(detangled_all(sorted)) =~= sorted);
}

/// The layout in blocks of `graph`: the records of the blocks that hold an edge, in the
/// order of the curve, and the lower halves of the coordinates of the edges in the order
/// of their indices on the curve. With `make_dense` the nodes are first renamed to their
/// places in the order in which the scan meets them; the result is `None` where that
/// takes more names than there are.
pub fn convert_to_hilbert<I: EdgeMapper>(graph: &I, make_dense: bool) -> (out: Option<
    (Vec<((u16, u16), u32)>, Vec<(u16, u16)>),
>)
    ensures
        out is Some <==> (!make_dense || first_seen(graph.edges()).len() <= i32::MAX),
        out matches Some((upper, lower)) ==> {
            let edges = if make_dense {
                dense_edges(graph.edges())
            } else {
                graph.edges()
            };
            &&& owned_before(upper@, upper@.len() as int) == lower@.len()
            &&& ascending(entangled_all(block_edges(upper@, lower@)))
            &&& block_edges(upper@, lower@).to_multiset() == edges.to_multiset()
            &&& forall|b: int| 0 <= b < upper@.len() ==> (#[trigger] upper@[b]).1 > 0
            &&& forall|a: int, b: int|
                0 <= a < b < upper@.len() ==> block_index(upper@[a].0) <= block_index(upper@[b].0)
            &&& forall|b: int|
                0 <= b && b + 1 < upper@.len() && block_index(upper@[b].0) == block_index(upper@[b + 1].0) ==> (
                #[trigger] upper@[b]).1 == u32::MAX
        },
{
    let scanned = collect_edges(graph);
    let edges = if make_dense {
        match densify(&scanned) {
            Some(renamed) => renamed,
            None => {
                return None;
            },
        }
    } else {
        scanned
    };
    let hilbert = BytewiseHilbert::new();
    let mut buffer: Vec<u64> = Vec::new();
    let mut i: usize = 0;
    while i < edges.len()
        invariant
            i <= edges@.len(),
            buffer@ == entangled_all(edges@.take(i as int)),
        decreases edges@.len() - i,
    {
        let (node, edge) = edges[i];
        let entangled = hilbert.entangle((node, edge));
        buffer.push(entangled);
        assert(buffer@ =~= entangled_all(edges@.take(i + 1)));
        i += 1;
    }
    assert(edges@.take(i as int) =~= edges@);
    sort_ascending(&mut buffer);
    let out = to_blocks(&buffer);
    proof {
        lemma_entangled_detangled_all(buffer@);
        lemma_same_edges(block_edges(out.0@, out.1@), edges@);
    }
    Some(out)
}

/// The vertex layout of `edges`: a record for every run of edges with one source, with
/// the length of the run, and the destinations of all edges in order. A run of more edges
/// than a count can hold takes several records, all but the last of them full.
pub fn group_by_source(edges: &Vec<(u32, u32)>) -> (out: (Vec<(u32, u32)>, Vec<u32>))
    ensures
        owned_before(out.0@, out.0@.len() as int) == out.1@.len(),
        vertex_edges(out.0@, out.1@) == edges@,
        forall|b: int| 0 <= b < out.0@.len() ==> (#[trigger] out.0@[b]).1 > 0,
        forall|b: int|
            0 <= b && b + 1 < out.0@.len() && out.0@[b].0 == out.0@[b + 1].0 ==> (#[trigger] out.0@[b]).1
                == u32::MAX,
{
    let mut nodes: Vec<(u32, u32)> = Vec::new();
    let mut dests: Vec<u32> = Vec::new();
    let total: usize = edges.len();
    let mut i: usize = 0;
    let ghost target = edges@;
    let ghost key_of = |node: u32| node as int;
    let ghost key_at = |p: int| edges@[p].0 as int;
    let ghost mut owner: Seq<int> = Seq::empty();
    let ghost mut starts: Seq<int> = seq![0int];
    while i < total
        invariant
            i <= total == edges@.len(),
            target == edges@,
            key_of == |node: u32| node as int,
            key_at == |p: int| edges@[p].0 as int,
            dests@.len() == i,
            owner.len() == i,
            starts[nodes@.len() as int] == i,
            groups_begin(nodes@, starts, total as int, key_of, key_at),
            groups_hold(nodes@, vertex_place(dests@), target, starts, owner, i as int),
            nodes@.len() > 0 && i < total && key_at(starts[nodes@.len() - 1]) == key_at(i as int) ==> nodes@.last().1
                == u32::MAX,
        decreases total - i,
    {
        let src: u32 = edges[i].0;
        let ghost start = i as int;
        let ghost earlier = dests@;
        let mut cnt: u32 = 0;
        while i < total && edges[i].0 == src && cnt < u32::MAX
            invariant
                start <= i <= total == edges@.len(),
                start < total,
                i == start + cnt,
                src == edges@[start].0,
                dests@.len() == i,
                earlier.len() == start,
                forall|p: int| 0 <= p < start ==> dests@[p] == earlier[p],
                forall|p: int| start <= p < i ==> (src, #[trigger] dests@[p]) == edges@[p],
            decreases total - i,
        {
            dests.push(edges[i].1);
            cnt += 1;
            i += 1;
        }
        proof {
            let record = (src, cnt);
            assert forall|p: int| start <= p < i implies #[trigger] vertex_place(dests@)(record.0, p) == target[p] by {
                let dest = dests@[p];
            }
            lemma_group_added(
                nodes@,
                record,
                vertex_place(earlier),
                vertex_place(dests@),
                target,
                starts,
                owner,
                i as int,
                key_of,
                key_at,
            );
            owner = owner + Seq::new((i - start) as nat, |k: int| nodes@.len() as int);
            starts = starts.push(i as int);
        }
        nodes.push((src, cnt));
    }
    proof {
        lemma_groups_done(nodes@, vertex_place(dests@), target, starts, owner, key_of, key_at);
        assert forall|b: int|
            0 <= b && b + 1 < nodes@.len() && nodes@[b].0 == nodes@[b + 1].0 implies (#[trigger] nodes@[b]).1
            == u32::MAX by {
            assert(key_of(nodes@[b].0) == key_of(nodes@[b + 1].0));
        }
    }
    (nodes, dests)
}

/// The vertex layout of `graph`, whose scan has the edges of each source together.
pub fn to_vertex<I: EdgeMapper>(graph: &I) -> (out: (Vec<(u32, u32)>, Vec<u32>))
    ensures
        owned_before(out.0@, out.0@.len() as int) == out.1@.len(),
        vertex_edges(out.0@, out.1@) == graph.edges(),
        forall|b: int| 0 <= b < out.0@.len() ==> (#[trigger] out.0@[b]).1 > 0,
        forall|b: int|
            0 <= b && b + 1 < out.0@.len() && out.0@[b].0 == out.0@[b + 1].0 ==> (#[trigger] out.0@[b]).1
                == u32::MAX,
{
    let edges = collect_edges(graph);
    group_by_source(&edges)
}

} // verus!
