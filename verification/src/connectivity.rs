//! Which nodes the edges of a graph join.

use vstd::prelude::*;
use crate::graph_iterator::{EdgeAction, EdgeMapper, run, runs};

verus! {

/// Whether `edges` join `a` and `b`: whether a path of edges, each taken in either
/// direction, leads from one to the other. Without edges a node is joined to itself
/// alone; one more edge joins what was joined before, and whatever was joined to its one
/// end with whatever was joined to its other.
pub open spec fn joined_by(edges: Seq<(u32, u32)>, a: u32, b: u32) -> bool
    decreases edges.len(),
{
    if edges.len() == 0 {
        a == b
    } else {
        let before = edges.drop_last();
        let last = edges.last();
        ||| joined_by(before, a, b)
        ||| joined_by(before, a, last.0) && joined_by(before, last.1, b)
        ||| joined_by(before, a, last.1) && joined_by(before, last.0, b)
    }
}

/// Whether both ends of every edge are below `nodes`.
pub open spec fn within(edges: Seq<(u32, u32)>, nodes: nat) -> bool {
    forall|i: int| 0 <= i < edges.len() ==> (#[trigger] edges[i]).0 < nodes && edges[i].1 < nodes
}

/// Every node is joined to itself.
pub proof fn lemma_joined_self(edges: Seq<(u32, u32)>, a: u32)
    ensures
        joined_by(edges, a, a),
    decreases edges.len(),
{
    if edges.len() > 0 {
        lemma_joined_self(edges.drop_last(), a);
    }
}

/// More edges join what fewer edges join.
pub proof fn lemma_joined_grows(edges: Seq<(u32, u32)>, n: int, a: u32, b: u32)
    requires
        0 <= n <= edges.len(),
        joined_by(edges.take(n), a, b),
    ensures
        joined_by(edges, a, b),
    decreases edges.len() - n,
{
    if n < edges.len() {
        assert(edges.take(n + 1).drop_last() =~= edges.take(n));
        lemma_joined_grows(edges, n + 1, a, b);
    } else {
        assert(edges.take(n) =~= edges);
    }
}

/// The ends of an edge are joined.
pub proof fn lemma_joined_ends(edges: Seq<(u32, u32)>, i: int)
    requires
        0 <= i < edges.len(),
    ensures
        joined_by(edges, edges[i].0, edges[i].1),
        joined_by(edges, edges[i].1, edges[i].0),
{
    let upto = edges.take(i + 1);
    assert(upto.drop_last() =~= edges.take(i));
    assert(upto.last() == edges[i]);
    lemma_joined_self(edges.take(i), edges[i].0);
    lemma_joined_self(edges.take(i), edges[i].1);
    lemma_joined_grows(edges, i + 1, edges[i].0, edges[i].1);
    lemma_joined_grows(edges, i + 1, edges[i].1, edges[i].0);
}

/// Watches whether the ends of the edges of a scan stay below a number of nodes.
struct Bound {
    nodes: u32,
    ok: bool,
}

impl EdgeAction for Bound {
    type State = (u32, bool);

    closed spec fn state(&self) -> (u32, bool) {
        (self.nodes, self.ok)
    }

    open spec fn accepts(state: (u32, bool), x: u32, y: u32) -> bool {
        true
    }

    open spec fn step(state: (u32, bool), x: u32, y: u32) -> (u32, bool) {
        (state.0, state.1 && x < state.0 && y < state.0)
    }

    fn apply(&mut self, x: u32, y: u32) {
        if !(x < self.nodes && y < self.nodes) {
            self.ok = false;
        }
    }
}

/// What a watch has seen of `edges`.
proof fn lemma_bound(nodes: u32, edges: Seq<(u32, u32)>)
    ensures
        run::<Bound>((nodes, true), edges) == (nodes, within(edges, nodes as nat)),
        runs::<Bound>((nodes, true), edges),
    decreases edges.len(),
{
    if edges.len() > 0 {
        let before = edges.drop_last();
        lemma_bound(nodes, before);
        if within(before, nodes as nat) && edges.last().0 < nodes && edges.last().1 < nodes {
            assert forall|i: int| 0 <= i < edges.len() implies (#[trigger] edges[i]).0 < nodes && edges[i].1
                < nodes by {
                if i < before.len() {
                    assert(before[i] == edges[i]);
                }
            }
        } else if within(edges, nodes as nat) {
            assert forall|i: int| 0 <= i < before.len() implies (#[trigger] before[i]).0 < nodes && before[i].1
                < nodes by {
                assert(before[i] == edges[i]);
            }
            assert(edges[edges.len() - 1] == edges.last());
        }
    }
}

/// Whether both ends of every edge of `graph` are below `nodes`.
pub fn edges_within<G: EdgeMapper>(graph: &G, nodes: u32) -> (ok: bool)
    ensures
        ok == within(graph.edges(), nodes as nat),
{
    let mut watch = Bound { nodes, ok: true };
    proof {
        lemma_bound(nodes, graph.edges());
    }
    graph.map_edges(&mut watch);
    watch.ok
}

} // verus!
