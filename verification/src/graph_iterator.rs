//! Scans over a stored graph: every edge is handed, once and in the order of the layout,
//! to an action.

use vstd::prelude::*;
pub use crate::edge_list::ReaderMapper;
use crate::curve_model::detangled;
use crate::delta_stream::{decoded_from, lemma_decoded_first, lemma_decoded_len};
use crate::hilbert_curve::BytewiseCached;
use crate::delta_scan::{
    DeltaScanner, scan_start, scanned, scan_runs, lemma_scan_stream, lemma_scan_prefix,
};
use crate::varint::{first_len, decode_at};

verus! {

/// What is done with each edge of a scan. An action has a state, says which edges it can
/// take in a state, and what state an edge leaves it in.
pub trait EdgeAction {
    /// The mathematical value of the action's state.
    type State;

    /// The state that the action is in.
    spec fn state(&self) -> Self::State;

    /// Whether the action can take the edge `(x, y)` in the state `state`.
    spec fn accepts(state: Self::State, x: u32, y: u32) -> bool;

    /// The state that the edge `(x, y)` leaves the action in, from the state `state`.
    spec fn step(state: Self::State, x: u32, y: u32) -> Self::State;

    /// Takes the edge `(x, y)`.
    fn apply(&mut self, x: u32, y: u32)
        requires
            Self::accepts(old(self).state(), x, y),
        ensures
            final(self).state() == Self::step(old(self).state(), x, y),
    ;
}

/// The state that `edges`, taken in order, leave an action in, from the state `state`.
pub open spec fn run<A: EdgeAction>(state: A::State, edges: Seq<(u32, u32)>) -> A::State
    decreases edges.len(),
{
    if edges.len() == 0 {
        state
    } else {
        A::step(run::<A>(state, edges.drop_last()), edges.last().0, edges.last().1)
    }
}

/// Whether an action can take all of `edges` in order, from the state `state`.
pub open spec fn runs<A: EdgeAction>(state: A::State, edges: Seq<(u32, u32)>) -> bool {
    forall|i: int|
        0 <= i < edges.len() ==> A::accepts(#[trigger] run::<A>(state, edges.take(i)), edges[i].0, edges[i].1)
}

/// One more edge of a scan is one more step of the action.
pub proof fn lemma_run_next<A: EdgeAction>(state: A::State, edges: Seq<(u32, u32)>, n: int)
    requires
        0 <= n < edges.len(),
    ensures
        run::<A>(state, edges.take(n + 1)) == A::step(run::<A>(state, edges.take(n)), edges[n].0, edges[n].1),
{
    assert(edges.take(n + 1).drop_last() =~= edges.take(n));
}

/// Before the first edge of a scan the action is in the state in which it began, and
/// after the last it has taken all.
pub proof fn lemma_run_ends<A: EdgeAction>(state: A::State, edges: Seq<(u32, u32)>)
    ensures
        run::<A>(state, edges.take(0)) == state,
        run::<A>(state, edges.take(edges.len() as int)) == run::<A>(state, edges),
{
    assert(edges.take(0).len() == 0);
    assert(edges.take(edges.len() as int) =~= edges);
}

/// A graph that can be scanned.
pub trait EdgeMapper {
    /// The edges of the graph, in the order in which a scan visits them.
    spec fn edges(&self) -> Seq<(u32, u32)>;

    /// Hands every edge of the graph to `action`, in order.
    fn map_edges<A: EdgeAction>(&self, action: &mut A)
        requires
            runs::<A>(old(action).state(), self.edges()),
        ensures
            final(action).state() == run::<A>(old(action).state(), self.edges()),
    ;
}

/// The number of entries that the first `n` of `heads` own.
pub open spec fn owned_before<H>(heads: Seq<(H, u32)>, n: int) -> nat
    decreases n,
{
    if n <= 0 {
        0
    } else {
        owned_before(heads, n - 1) + heads[n - 1].1 as nat
    }
}

/// The edges of a layout in two files: each head owns as many consecutive entries of the
/// other file as its count says, and `edge` makes an edge of a head and the place of an
/// entry that it owns.
pub open spec fn grouped_edges<H>(heads: Seq<(H, u32)>, edge: spec_fn(H, int) -> (u32, u32)) -> Seq<(u32, u32)>
    decreases heads.len(),
{
    if heads.len() == 0 {
        Seq::empty()
    } else {
        let head = heads.last();
        let start = owned_before(heads, heads.len() - 1);
        grouped_edges(heads.drop_last(), edge) + Seq::new(head.1 as nat, |k: int| edge(head.0, start + k))
    }
}

/// Where each edge of such a layout stands in the scan: the `k`-th entry that the head
/// `i` owns comes after all that the heads before it own.
pub proof fn lemma_grouped_edges<H>(heads: Seq<(H, u32)>, edge: spec_fn(H, int) -> (u32, u32), i: int, k: int)
    requires
        0 <= i < heads.len(),
        0 <= k < heads[i].1,
    ensures
        grouped_edges(heads, edge).len() == owned_before(heads, heads.len() as int),
        owned_before(heads, i) + k < owned_before(heads, heads.len() as int),
        grouped_edges(heads, edge)[owned_before(heads, i) + k] == edge(heads[i].0, owned_before(heads, i) + k),
    decreases heads.len(),
{
    let n = heads.len() - 1;
    let before = heads.drop_last();
    lemma_grouped_len(before, edge);
    lemma_owned_prefix(heads, n);
    assert(before =~= heads.take(n));
    if i < n {
        lemma_grouped_edges(before, edge, i, k);
    }
}

/// Such a layout has as many edges as its heads own entries.
pub proof fn lemma_grouped_len<H>(heads: Seq<(H, u32)>, edge: spec_fn(H, int) -> (u32, u32))
    ensures
        grouped_edges(heads, edge).len() == owned_before(heads, heads.len() as int),
    decreases heads.len(),
{
    if heads.len() > 0 {
        let n = heads.len() - 1;
        lemma_grouped_len(heads.drop_last(), edge);
        lemma_owned_prefix(heads, n);
        assert(heads.drop_last() =~= heads.take(n));
    }
}

/// The entries owned before a head do not depend on the heads after it, and grow with
/// the head.
pub proof fn lemma_owned_prefix<H>(heads: Seq<(H, u32)>, n: int)
    requires
        0 <= n <= heads.len(),
    ensures
        forall|i: int| 0 <= i <= n ==> #[trigger] owned_before(heads.take(n), i) == owned_before(heads, i),
        forall|i: int| 0 <= i <= n ==> #[trigger] owned_before(heads, i) <= owned_before(heads, n),
    decreases n,
{
    if n > 0 {
        lemma_owned_prefix(heads, n - 1);
        assert forall|i: int| 0 <= i <= n implies #[trigger] owned_before(heads.take(n), i) == owned_before(
            heads,
            i,
        ) by {
            lemma_owned_same(heads.take(n), heads, i);
        }
    }
}

/// The entries owned before a head depend only on the heads before it.
pub proof fn lemma_owned_same<H>(a: Seq<(H, u32)>, b: Seq<(H, u32)>, i: int)
    requires
        0 <= i <= a.len(),
        i <= b.len(),
        forall|j: int| 0 <= j < i ==> a[j] == b[j],
    ensures
        owned_before(a, i) == owned_before(b, i),
    decreases i,
{
    if i > 0 {
        lemma_owned_same(a, b, i - 1);
    }
}

/// Whether `starts` holds the place at which each group of `heads` begins, each group
/// is not empty and has the key of the place at which it begins, and a group is followed
/// by one of the same key only where it is full.
pub open spec fn groups_begin<H>(
    heads: Seq<(H, u32)>,
    starts: Seq<int>,
    total: int,
    key_of: spec_fn(H) -> int,
    key_at: spec_fn(int) -> int,
) -> bool {
    &&& starts.len() == heads.len() + 1
    &&& forall|b: int| 0 <= b <= heads.len() ==> #[trigger] starts[b] == owned_before(heads, b)
    &&& forall|b: int|
        0 <= b < heads.len() ==> {
            &&& (#[trigger] heads[b]).1 > 0
            &&& 0 <= starts[b] < total
            &&& key_of(heads[b].0) == key_at(starts[b])
        }
    &&& forall|b: int|
        0 <= b && b + 1 < heads.len() && key_at(starts[b]) == key_at(#[trigger] starts[b + 1]) ==> heads[b].1
            == u32::MAX
}

/// Whether `owner` names, for each of the first `n` places, a group of `heads` that owns
/// the place and makes the edge of `target` there.
pub open spec fn groups_hold<H>(
    heads: Seq<(H, u32)>,
    edge: spec_fn(H, int) -> (u32, u32),
    target: Seq<(u32, u32)>,
    starts: Seq<int>,
    owner: Seq<int>,
    n: int,
) -> bool {
    forall|p: int|
        0 <= p < n ==> {
            let b = #[trigger] owner[p];
            &&& 0 <= b < heads.len()
            &&& starts[b] <= p < starts[b] + heads[b].1
            &&& edge(heads[b].0, p) == target[p]
        }
}

/// One more group behind the groups: what held of the groups holds of them with the
/// new one.
pub proof fn lemma_group_added<H>(
    before: Seq<(H, u32)>,
    record: (H, u32),
    edge_before: spec_fn(H, int) -> (u32, u32),
    edge: spec_fn(H, int) -> (u32, u32),
    target: Seq<(u32, u32)>,
    starts: Seq<int>,
    owner: Seq<int>,
    end: int,
    key_of: spec_fn(H) -> int,
    key_at: spec_fn(int) -> int,
)
    requires
        groups_begin(before, starts, target.len() as int, key_of, key_at),
        groups_hold(before, edge_before, target, starts, owner, owner.len() as int),
        starts[before.len() as int] == owner.len(),
        owner.len() < end <= target.len(),
        end - owner.len() == record.1,
        key_of(record.0) == key_at(owner.len() as int),
        before.len() > 0 && key_at(starts[before.len() - 1]) == key_at(owner.len() as int) ==> before.last().1
            == u32::MAX,
        forall|h: H, p: int| 0 <= p < owner.len() ==> #[trigger] edge(h, p) == edge_before(h, p),
        forall|p: int| owner.len() <= p < end ==> #[trigger] edge(record.0, p) == target[p],
    ensures
        groups_begin(before.push(record), starts.push(end), target.len() as int, key_of, key_at),
        groups_hold(
            before.push(record),
            edge,
            target,
            starts.push(end),
            owner + Seq::new((end - owner.len()) as nat, |k: int| before.len() as int),
            end,
        ),
{
    let start = owner.len() as int;
    let after = before.push(record);
    let block = before.len() as int;
    let begun = starts.push(end);
    let owned = owner + Seq::new((end - start) as nat, |k: int| block);
    assert forall|b: int| 0 <= b <= after.len() implies #[trigger] begun[b] == owned_before(after, b) by {
        if b <= block {
            lemma_owned_same(before, after, b);
            assert(begun[b] == starts[b]);
        } else {
            lemma_owned_same(before, after, block);
            assert(begun[block] == starts[block]);
        }
    }
    assert forall|b: int| 0 <= b < after.len() implies {
        &&& (#[trigger] after[b]).1 > 0
        &&& 0 <= begun[b] < target.len()
        &&& key_of(after[b].0) == key_at(begun[b])
    } by {
        if b < block {
            assert(after[b] == before[b]);
            assert(begun[b] == starts[b]);
        } else {
            assert(begun[b] == starts[block]);
        }
    }
    assert forall|b: int|
        0 <= b && b + 1 < after.len() && key_at(begun[b]) == key_at(#[trigger] begun[b + 1]) implies after[b].1
        == u32::MAX by {
        assert(begun[b] == starts[b]);
        assert(after[b] == before[b]);
        if b + 1 < block {
            assert(begun[b + 1] == starts[b + 1]);
        } else {
            assert(begun[b + 1] == starts[block]);
        }
    }
    assert forall|p: int| 0 <= p < end implies {
        let b = #[trigger] owned[p];
        &&& 0 <= b < after.len()
        &&& begun[b] <= p < begun[b] + after[b].1
        &&& edge(after[b].0, p) == target[p]
    } by {
        if p < start {
            let b = owner[p];
            assert(owned[p] == b);
            assert(after[b] == before[b]);
            assert(begun[b] == starts[b]);
            assert(edge(before[b].0, p) == edge_before(before[b].0, p));
        } else {
            assert(owned[p] == block);
            assert(begun[block] == start);
            assert(edge(record.0, p) == target[p]);
        }
    }
}

/// Where every place has a group that owns it and makes its edge, the layout gives the
/// edges.
pub proof fn lemma_groups_done<H>(
    heads: Seq<(H, u32)>,
    edge: spec_fn(H, int) -> (u32, u32),
    target: Seq<(u32, u32)>,
    starts: Seq<int>,
    owner: Seq<int>,
    key_of: spec_fn(H) -> int,
    key_at: spec_fn(int) -> int,
)
    requires
        groups_begin(heads, starts, target.len() as int, key_of, key_at),
        groups_hold(heads, edge, target, starts, owner, target.len() as int),
        starts[heads.len() as int] == target.len(),
    ensures
        owned_before(heads, heads.len() as int) == target.len(),
        grouped_edges(heads, edge) == target,
        forall|b: int| 0 <= b < heads.len() ==> (#[trigger] heads[b]).1 > 0,
        forall|b: int|
            0 <= b && b + 1 < heads.len() && key_of(heads[b].0) == key_of(heads[b + 1].0) ==> (
            #[trigger] heads[b]).1 == u32::MAX,
{
    lemma_grouped_len(heads, edge);
    assert forall|p: int| 0 <= p < target.len() implies grouped_edges(heads, edge)[p] == target[p] by {
        let b = owner[p];
        lemma_grouped_edges(heads, edge, b, p - starts[b]);
    }
    assert(grouped_edges(heads, edge) =~= target);
    assert forall|b: int|
        0 <= b && b + 1 < heads.len() && key_of(heads[b].0) == key_of(heads[b + 1].0) implies (
    #[trigger] heads[b]).1 == u32::MAX by {
        assert(heads[b].1 > 0 && heads[b + 1].1 > 0);
        let next = starts[b + 1];
    }
}

/// Whether the heads of a layout in two files own no more entries than the other file
/// has.
pub fn layout_fits<H>(heads: &[(H, u32)], entries: usize) -> (ok: bool)
    ensures
        ok == (owned_before(heads@, heads@.len() as int) <= entries),
{
    let mut owned: usize = 0;
    let mut i: usize = 0;
    while i < heads.len()
        invariant
            i <= heads@.len(),
            owned == owned_before(heads@, i as int),
            owned <= entries,
        decreases heads@.len() - i,
    {
        let count: usize = heads[i].1 as usize;
        if count > entries - owned {
            proof {
                lemma_owned_prefix(heads@, heads@.len() as int);
                assert(owned_before(heads@, i + 1) <= owned_before(heads@, heads@.len() as int));
            }
            return false;
        }
        owned += count;
        i += 1;
    }
    true
}

/// The edges of the vertex layout: each node owns as many consecutive destinations as
/// its degree says.
pub open spec fn vertex_edges(nodes: Seq<(u32, u32)>, edges: Seq<u32>) -> Seq<(u32, u32)> {
    grouped_edges(nodes, vertex_place(edges))
}

/// A coordinate of 32 bits from its upper and its lower 16 bits.
pub open spec fn joined(upper: u16, lower: u16) -> u32 {
    (upper as nat * 0x1_0000 + lower as nat) as u32
}

/// The edges of the layout in blocks: each block owns as many consecutive pairs of lower
/// halves as its count says, and gives them their upper halves.
pub open spec fn block_edges(upper: Seq<((u16, u16), u32)>, lower: Seq<(u16, u16)>) -> Seq<(u32, u32)> {
    grouped_edges(upper, block_place(lower))
}

/// The edge that a block makes of the pair of lower halves at the place `k`.
pub open spec fn block_place(lower: Seq<(u16, u16)>) -> spec_fn((u16, u16), int) -> (u32, u32) {
    |block: (u16, u16), k: int| (joined(block.0, lower[k].0), joined(block.1, lower[k].1))
}

/// The edge that a node makes of the destination at the place `k`.
pub open spec fn vertex_place(edges: Seq<u32>) -> spec_fn(u32, int) -> (u32, u32) {
    |node: u32, k: int| (node, edges[k])
}

/// A graph in the vertex layout: nodes with their degrees, and the destinations of all
/// edges, node after node.
pub struct NodesEdgesMemMapper<'a> {
    nodes: &'a [(u32, u32)],
    edges: &'a [u32],
}

impl<'a> NodesEdgesMemMapper<'a> {
    #[verifier::type_invariant]
    spec fn well_formed(&self) -> bool {
        owned_before(self.nodes@, self.nodes@.len() as int) <= self.edges@.len()
    }

    /// The graph whose nodes own, in order, the destinations in `edges`.
    pub fn new(nodes: &'a [(u32, u32)], edges: &'a [u32]) -> (out: NodesEdgesMemMapper<'a>)
        requires
            owned_before(nodes@, nodes@.len() as int) <= edges@.len(),
        ensures
            out.edges() == vertex_edges(nodes@, edges@),
            out.edges().len() <= edges@.len(),
    {
        proof {
            lemma_grouped_len(nodes@, vertex_place(edges@));
        }
        NodesEdgesMemMapper { nodes: nodes, edges: edges }
    }
}

impl<'a> EdgeMapper for NodesEdgesMemMapper<'a> {
    closed spec fn edges(&self) -> Seq<(u32, u32)> {
        vertex_edges(self.nodes@, self.edges@)
    }

    fn map_edges<A: EdgeAction>(&self, action: &mut A) {
        let ghost init = action.state();
        let ghost all = self.edges();
        let ghost place = vertex_place(self.edges@);
        proof {
            use_type_invariant(self);
            lemma_grouped_len(self.nodes@, place);
            lemma_run_ends::<A>(init, all);
        }
        let entries: usize = self.edges.len();
        let mut offset: usize = 0;
        let mut i: usize = 0;
        while i < self.nodes.len()
            invariant
                i <= self.nodes@.len(),
                all == grouped_edges(self.nodes@, place),
                all.len() == owned_before(self.nodes@, self.nodes@.len() as int),
                all.len() <= self.edges@.len() == entries,
                offset == owned_before(self.nodes@, i as int),
                offset <= all.len(),
                place == vertex_place(self.edges@),
                runs::<A>(init, all),
                action.state() == run::<A>(init, all.take(offset as int)),
            decreases self.nodes@.len() - i,
        {
            let (node, count) = self.nodes[i];
            proof {
                lemma_owned_prefix(self.nodes@, self.nodes@.len() as int);
                assert(owned_before(self.nodes@, i + 1) <= all.len());
            }
            let mut k: usize = 0;
            while k < count as usize
                invariant
                    i < self.nodes@.len(),
                    (node, count) == self.nodes@[i as int],
                    k <= count,
                    all == grouped_edges(self.nodes@, place),
                    all.len() <= self.edges@.len() == entries,
                    offset == owned_before(self.nodes@, i as int),
                    offset + count <= all.len(),
                    place == vertex_place(self.edges@),
                    runs::<A>(init, all),
                    action.state() == run::<A>(init, all.take(offset + k)),
                decreases count - k,
            {
                proof {
                    lemma_grouped_edges(self.nodes@, place, i as int, k as int);
                    lemma_run_next::<A>(init, all, offset + k);
                }
                action.apply(node, self.edges[offset + k]);
                k += 1;
            }
            offset += count as usize;
            i += 1;
        }
        proof {
            assert(all.take(all.len() as int) =~= all);
        }
    }
}

/// A graph in the layout in blocks: the upper halves of the coordinates of each block
/// that holds an edge, with the number of its edges, and the lower halves of the
/// coordinates of all edges, block after block.
pub struct UpperLowerMemMapper<'a> {
    upper: &'a [((u16, u16), u32)],
    lower: &'a [(u16, u16)],
}

impl<'a> UpperLowerMemMapper<'a> {
    #[verifier::type_invariant]
    spec fn well_formed(&self) -> bool {
        owned_before(self.upper@, self.upper@.len() as int) <= self.lower@.len()
    }

    /// The graph whose blocks own, in order, the pairs in `lower`.
    pub fn new(upper: &'a [((u16, u16), u32)], lower: &'a [(u16, u16)]) -> (out: UpperLowerMemMapper<'a>)
        requires
            owned_before(upper@, upper@.len() as int) <= lower@.len(),
        ensures
            out.edges() == block_edges(upper@, lower@),
            out.edges().len() <= lower@.len(),
    {
        proof {
            lemma_grouped_len(upper@, block_place(lower@));
        }
        UpperLowerMemMapper { upper: upper, lower: lower }
    }
}

impl<'a> EdgeMapper for UpperLowerMemMapper<'a> {
    closed spec fn edges(&self) -> Seq<(u32, u32)> {
        block_edges(self.upper@, self.lower@)
    }

    fn map_edges<A: EdgeAction>(&self, action: &mut A) {
        let ghost init = action.state();
        let ghost all = self.edges();
        let ghost place = block_place(self.lower@);
        proof {
            use_type_invariant(self);
            lemma_grouped_len(self.upper@, place);
            lemma_run_ends::<A>(init, all);
        }
        let entries: usize = self.lower.len();
        let mut offset: usize = 0;
        let mut i: usize = 0;
        while i < self.upper.len()
            invariant
                i <= self.upper@.len(),
                all == grouped_edges(self.upper@, place),
                all.len() == owned_before(self.upper@, self.upper@.len() as int),
                all.len() <= self.lower@.len() == entries,
                offset == owned_before(self.upper@, i as int),
                offset <= all.len(),
                place == block_place(self.lower@),
                runs::<A>(init, all),
                action.state() == run::<A>(init, all.take(offset as int)),
            decreases self.upper@.len() - i,
        {
            let ((u16_x, u16_y), count) = self.upper[i];
            let upper_x: u32 = (u16_x as u32) << 16;
            let upper_y: u32 = (u16_y as u32) << 16;
            proof {
                lemma_owned_prefix(self.upper@, self.upper@.len() as int);
                assert(owned_before(self.upper@, i + 1) <= all.len());
            }
            let mut k: usize = 0;
            while k < count as usize
                invariant
                    i < self.upper@.len(),
                    ((u16_x, u16_y), count) == self.upper@[i as int],
                    upper_x == (u16_x as u32) << 16,
                    upper_y == (u16_y as u32) << 16,
                    k <= count,
                    all == grouped_edges(self.upper@, place),
                    all.len() <= self.lower@.len() == entries,
                    offset == owned_before(self.upper@, i as int),
                    offset + count <= all.len(),
                    place == block_place(self.lower@),
                    runs::<A>(init, all),
                    action.state() == run::<A>(init, all.take(offset + k)),
                decreases count - k,
            {
                let (l16_x, l16_y) = self.lower[offset + k];
                proof {
                    lemma_grouped_edges(self.upper@, place, i as int, k as int);
                    lemma_run_next::<A>(init, all, offset + k);
                    assert((((u16_x as u32) << 16) | (l16_x as u32)) == (u16_x as u32) * 0x1_0000 + (l16_x as u32))
                        by (bit_vector);
                    assert((((u16_y as u32) << 16) | (l16_y as u32)) == (u16_y as u32) * 0x1_0000 + (l16_y as u32))
                        by (bit_vector);
                }
                action.apply(upper_x | l16_x as u32, upper_y | l16_y as u32);
                k += 1;
            }
            offset += count as usize;
            i += 1;
        }
        proof {
            assert(all.take(all.len() as int) =~= all);
        }
    }
}

/// The edges at the indices `values` of the curve.
pub open spec fn detangled_all(values: Seq<u64>) -> Seq<(u32, u32)> {
    values.map_values(|t: u64| detangled(t))
}

/// A graph as a byte stream in memory that holds the indices of its edges on the curve
/// as differences.
pub struct DeltaCompressedSliceMapper<'a> {
    slice: &'a [u8],
}

impl<'a> DeltaCompressedSliceMapper<'a> {
    #[verifier::type_invariant]
    spec fn well_formed(&self) -> bool {
        decoded_from(self.slice@, 0) is Some
    }

    /// The graph whose edges stand at the indices that `slice` holds.
    pub fn new(slice: &'a [u8]) -> (out: DeltaCompressedSliceMapper<'a>)
        requires
            decoded_from(slice@, 0) is Some,
        ensures
            out.edges() == detangled_all(decoded_from(slice@, 0).unwrap()),
            out.edges().len() <= slice@.len(),
    {
        proof {
            lemma_decoded_len(slice@, 0);
        }
        DeltaCompressedSliceMapper { slice: slice }
    }
}

impl<'a> EdgeMapper for DeltaCompressedSliceMapper<'a> {
    closed spec fn edges(&self) -> Seq<(u32, u32)> {
        detangled_all(decoded_from(self.slice@, 0).unwrap())
    }

    fn map_edges<A: EdgeAction>(&self, action: &mut A) {
        proof {
            use_type_invariant(self);
        }
        let ghost init = action.state();
        let ghost values = decoded_from(self.slice@, 0).unwrap();
        let ghost all = self.edges();
        let ghost done: int = 0;
        proof {
            lemma_run_ends::<A>(init, all);
            assert(self.slice@.skip(0) =~= self.slice@);
            assert(values.skip(0) =~= values);
        }
        let mut hilbert = BytewiseCached::new();
        let mut current: u64 = 0;
        let mut cursor: usize = 0;
        while cursor < self.slice.len()
            invariant
                cursor <= self.slice@.len(),
                all == detangled_all(values),
                0 <= done <= values.len(),
                decoded_from(self.slice@.skip(cursor as int), current as nat) == Some(values.skip(done)),
                runs::<A>(init, all),
                action.state() == run::<A>(init, all.take(done)),
            decreases self.slice@.len() - cursor,
        {
            let ghost rest = self.slice@.skip(cursor as int);
            proof {
                lemma_decoded_first(rest, current as nat);
                assert(rest.skip(first_len(rest) as int) =~= self.slice@.skip(cursor + first_len(rest)));
            }
            let (delta, next) = decode_at(self.slice, cursor);
            cursor = next;
            current += delta;
            let (x, y) = hilbert.detangle(current);
            proof {
                let tail = decoded_from(self.slice@.skip(cursor as int), current as nat).unwrap();
                assert(values.skip(done) == seq![current] + tail);
                assert(values.skip(done).len() == 1 + tail.len());
                assert(values.skip(done)[0] == current);
                assert(values.skip(done).skip(1) =~= values.skip(done + 1));
                assert((seq![current] + tail).skip(1) =~= tail);
                lemma_run_next::<A>(init, all, done);
            }
            action.apply(x, y);
            proof {
                done = done + 1;
            }
        }
        proof {
            assert(values.skip(done).len() == 0);
            assert(all.take(all.len() as int) =~= all);
        }
    }
}

/// A graph as a byte stream that holds the indices of its edges on the curve as
/// differences, read as a reader hands it over: one byte at a time.
pub struct DeltaCompressedReaderMapper<'a> {
    reader: &'a [u8],
}

impl<'a> DeltaCompressedReaderMapper<'a> {
    #[verifier::type_invariant]
    spec fn well_formed(&self) -> bool {
        decoded_from(self.reader@, 0) is Some
    }

    /// The graph whose edges stand at the indices that the bytes of `reader` hold.
    pub fn new(reader: &'a [u8]) -> (out: DeltaCompressedReaderMapper<'a>)
        requires
            decoded_from(reader@, 0) is Some,
        ensures
            out.edges() == detangled_all(decoded_from(reader@, 0).unwrap()),
            out.edges().len() <= reader@.len(),
    {
        proof {
            lemma_decoded_len(reader@, 0);
        }
        DeltaCompressedReaderMapper { reader: reader }
    }
}

impl<'a> EdgeMapper for DeltaCompressedReaderMapper<'a> {
    closed spec fn edges(&self) -> Seq<(u32, u32)> {
        detangled_all(decoded_from(self.reader@, 0).unwrap())
    }

    fn map_edges<A: EdgeAction>(&self, action: &mut A) {
        proof {
            use_type_invariant(self);
        }
        let ghost init = action.state();
        let ghost bytes = self.reader@;
        let ghost values = decoded_from(bytes, 0).unwrap();
        let ghost all = self.edges();
        let ghost done: int = 0;
        proof {
            lemma_run_ends::<A>(init, all);
            lemma_scan_stream(0, bytes);
            assert(bytes.take(0) =~= Seq::<u8>::empty());
        }
        let mut scanner = DeltaScanner::new();
        let mut i: usize = 0;
        while i < self.reader.len()
            invariant
                i <= bytes.len(),
                bytes == self.reader@,
                decoded_from(bytes, 0) == Some(values),
                all == detangled_all(values),
                scan_runs(scan_start(0), bytes),
                scanner.state() == scanned(scan_start(0), bytes.take(i as int)).0,
                done == scanned(scan_start(0), bytes.take(i as int)).1.len(),
                runs::<A>(init, all),
                action.state() == run::<A>(init, all.take(done)),
            decreases bytes.len() - i,
        {
            let byte: u8 = self.reader[i];
            proof {
                assert(bytes.take(i + 1).drop_last() =~= bytes.take(i as int));
                lemma_scan_prefix(0, bytes, i + 1);
                lemma_scan_prefix(0, bytes, i as int);
            }
            if let Some((x, y)) = scanner.feed(byte) {
                proof {
                    let read = scanned(scan_start(0), bytes.take(i + 1)).1;
                    assert(read.len() == done + 1);
                    assert(read[done] == values[done]);
                    lemma_run_next::<A>(init, all, done);
                }
                action.apply(x, y);
                proof {
                    done = done + 1;
                }
            }
            i += 1;
        }
        proof {
            lemma_scan_prefix(0, bytes, bytes.len() as int);
            assert(all.take(all.len() as int) =~= all);
        }
    }
}

} // verus!
