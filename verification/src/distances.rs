//! Distances from node 0, and why the search finds them.

use vstd::prelude::*;
use crate::bfs::{
    Contract, Contraction, Level, Search, Drain, chased, contracted, lowers, uncontracted, seeded,
    seeds, searched, open_edge, search_ready, swept, drained, drained_edge, settled, explored,
    lemma_chased, lemma_contraction, lemma_pass, UNREACHED,
};
use crate::connectivity::{joined_by, within, lemma_joined_ends, lemma_joined_self};
use crate::graph_iterator::{EdgeAction, run};
use crate::union_find::lemma_joined_equivalence;

verus! {

/// Whether `edges` have an edge between `u` and `v`, in either direction.
pub open spec fn adjacent(edges: Seq<(u32, u32)>, u: u32, v: u32) -> bool {
    exists|i: int| 0 <= i < edges.len() && (#[trigger] edges[i] == (u, v) || edges[i] == (v, u))
}

/// Whether a path of at most `d` edges leads from node 0 to `v`.
pub open spec fn near(edges: Seq<(u32, u32)>, v: u32, d: nat) -> bool
    decreases d,
{
    if d == 0 {
        v == 0
    } else {
        near(edges, v, (d - 1) as nat) || exists|u: u32| near(edges, u, (d - 1) as nat) && #[trigger] adjacent(edges, u, v)
    }
}

/// Whether the distance of `v` from node 0 is `d`: whether a path of `d` edges leads
/// from node 0 to `v`, and no shorter one.
pub open spec fn at_distance(edges: Seq<(u32, u32)>, v: u32, d: nat) -> bool {
    near(edges, v, d) && (d == 0 || !near(edges, v, (d - 1) as nat))
}

/// What is near is near with more steps.
pub proof fn lemma_near_grows(edges: Seq<(u32, u32)>, v: u32, d: nat, more: nat)
    requires
        near(edges, v, d),
        d <= more,
    ensures
        near(edges, v, more),
    decreases more - d,
{
    if d < more {
        lemma_near_grows(edges, v, d + 1, more);
    }
}

/// A node has at most one distance.
pub proof fn lemma_one_distance(edges: Seq<(u32, u32)>, v: u32, a: nat, b: nat)
    requires
        at_distance(edges, v, a),
        at_distance(edges, v, b),
    ensures
        a == b,
{
    if a < b {
        lemma_near_grows(edges, v, a, (b - 1) as nat);
    } else if b < a {
        lemma_near_grows(edges, v, b, (a - 1) as nat);
    }
}

/// A node at the distance `d` of 1 or more has a neighbour at the distance `d - 1`, by
/// an edge of the graph.
pub proof fn lemma_step_before(edges: Seq<(u32, u32)>, v: u32, d: nat) -> (found: (u32, int))
    requires
        d > 0,
        at_distance(edges, v, d),
    ensures
        at_distance(edges, found.0, (d - 1) as nat),
        0 <= found.1 < edges.len(),
        edges[found.1] == (found.0, v) || edges[found.1] == (v, found.0),
{
    let u = choose|u: u32| near(edges, u, (d - 1) as nat) && #[trigger] adjacent(edges, u, v);
    let i = choose|i: int| 0 <= i < edges.len() && (#[trigger] edges[i] == (u, v) || edges[i] == (v, u));
    if d > 1 && near(edges, u, (d - 2) as nat) {
        lemma_step_after(edges, u, v, (d - 1) as nat, i);
    }
    (u, i)
}

/// A neighbour of a node that is near with `d - 1` steps is near with `d`.
pub proof fn lemma_step_after(edges: Seq<(u32, u32)>, u: u32, v: u32, d: nat, i: int)
    requires
        d > 0,
        near(edges, u, (d - 1) as nat),
        0 <= i < edges.len(),
        edges[i] == (u, v) || edges[i] == (v, u),
    ensures
        near(edges, v, d),
{
    assert(adjacent(edges, u, v));
}

/// What is near node 0 is joined to it.
pub proof fn lemma_near_joined(edges: Seq<(u32, u32)>, nodes: nat, v: u32, d: nat)
    requires
        0 < nodes <= u32::MAX,
        within(edges, nodes),
        near(edges, v, d),
    ensures
        joined_by(edges, 0, v),
        v < nodes,
    decreases d,
{
    if d == 0 {
        lemma_joined_self(edges, 0);
    } else if near(edges, v, (d - 1) as nat) {
        lemma_near_joined(edges, nodes, v, (d - 1) as nat);
    } else {
        let u = choose|u: u32| near(edges, u, (d - 1) as nat) && #[trigger] adjacent(edges, u, v);
        let i = choose|i: int| 0 <= i < edges.len() && (#[trigger] edges[i] == (u, v) || edges[i] == (v, u));
        lemma_near_joined(edges, nodes, u, (d - 1) as nat);
        lemma_joined_ends(edges, i);
        lemma_joined_equivalence(edges, nodes, 0, u, v);
    }
}

/// The root of every node after one root gets another as its parent.
proof fn lemma_chased_hung(roots: Seq<u32>, after: Seq<u32>, child: u32, parent: u32, v: u32)
    requires
        lowers(roots),
        child < roots.len(),
        parent < child,
        roots[child as int] == child,
        roots[parent as int] == parent,
        after == roots.update(child as int, parent),
        v < roots.len(),
    ensures
        chased(after, v) == (if chased(roots, v) == child { parent } else { chased(roots, v) }),
    decreases v,
{
    lemma_chased(roots, v);
    if roots[v as int] < v {
        lemma_chased_hung(roots, after, child, parent, roots[v as int]);
    } else if v == child {
        assert(chased(after, parent) == parent);
    }
}

/// After an edge of the first pass, two nodes have one root exactly if they had, or the
/// one had the root of the one end of the edge and the other the root of its other end.
proof fn lemma_contracted_classes(state: Contraction, x: u32, y: u32, u: u32, v: u32)
    requires
        Contract::accepts(state, x, y),
        u < state.roots.len(),
        v < state.roots.len(),
    ensures
        (chased(contracted(state, x, y).roots, u) == chased(contracted(state, x, y).roots, v)) == ({
            ||| chased(state.roots, u) == chased(state.roots, v)
            ||| chased(state.roots, u) == chased(state.roots, x) && chased(state.roots, y) == chased(state.roots, v)
            ||| chased(state.roots, u) == chased(state.roots, y) && chased(state.roots, x) == chased(state.roots, v)
        }),
{
    let roots = state.roots;
    let a = chased(roots, x);
    let b = chased(roots, y);
    let after = contracted(state, x, y).roots;
    lemma_chased(roots, x);
    lemma_chased(roots, y);
    if a == b {
        assert(after =~= roots);
    } else {
        let (child, parent) = if a < b {
            (b, a)
        } else {
            (a, b)
        };
        assert(after =~= roots.update(child as int, parent));
        lemma_chased_hung(roots, after, child, parent, u);
        lemma_chased_hung(roots, after, child, parent, v);
    }
}

/// What the first pass leaves: two nodes have one root exactly if the edges join them,
/// node 0 has the label 0 or 1, and every other node has the label 1 if it is a
/// neighbour of node 0, and else is unreached.
pub proof fn lemma_contraction_of(edges: Seq<(u32, u32)>, nodes: nat)
    requires
        0 < nodes <= u32::MAX,
        within(edges, nodes),
    ensures
        ({
            let state = run::<Contract>(uncontracted(nodes), edges);
            &&& state.roots.len() == nodes
            &&& state.label.len() == nodes
            &&& lowers(state.roots)
            &&& state.label[0] <= 1
            &&& forall|v: int|
                1 <= v < nodes ==> #[trigger] state.label[v] == (if adjacent(edges, 0, v as u32) {
                    1u16
                } else {
                    UNREACHED
                })
            &&& forall|u: u32, v: u32|
                u < nodes && v < nodes ==> (chased(state.roots, u) == chased(state.roots, v)) == #[trigger] joined_by(
                    edges,
                    u,
                    v,
                )
        }),
    decreases edges.len(),
{
    let state = run::<Contract>(uncontracted(nodes), edges);
    lemma_contraction(edges, nodes, edges.len() as int);
    assert(edges.take(edges.len() as int) =~= edges);
    if edges.len() == 0 {
        assert forall|u: u32, v: u32| u < nodes && v < nodes implies (chased(state.roots, u) == chased(
            state.roots,
            v,
        )) == #[trigger] joined_by(edges, u, v) by {
            lemma_chased(state.roots, u);
            lemma_chased(state.roots, v);
        }
    } else {
        let before = edges.drop_last();
        let last = edges.last();
        assert(last == edges[edges.len() - 1]);
        assert(within(before, nodes)) by {
            assert forall|i: int| 0 <= i < before.len() implies (#[trigger] before[i]).0 < nodes && before[i].1
                < nodes by {
                assert(before[i] == edges[i]);
            }
        }
        lemma_contraction_of(before, nodes);
        let earlier = run::<Contract>(uncontracted(nodes), before);
        assert(state == contracted(earlier, last.0, last.1));
        assert forall|u: u32, v: u32| u < nodes && v < nodes implies (chased(state.roots, u) == chased(
            state.roots,
            v,
        )) == #[trigger] joined_by(edges, u, v) by {
            lemma_contracted_classes(earlier, last.0, last.1, u, v);
            assert((chased(earlier.roots, u) == chased(earlier.roots, v)) == joined_by(before, u, v));
            assert((chased(earlier.roots, u) == chased(earlier.roots, last.0)) == joined_by(before, u, last.0));
            assert((chased(earlier.roots, last.1) == chased(earlier.roots, v)) == joined_by(before, last.1, v));
            assert((chased(earlier.roots, u) == chased(earlier.roots, last.1)) == joined_by(before, u, last.1));
            assert((chased(earlier.roots, last.0) == chased(earlier.roots, v)) == joined_by(before, last.0, v));
        }
        assert forall|v: int| 1 <= v < nodes implies #[trigger] state.label[v] == (if adjacent(edges, 0, v as u32) {
            1u16
        } else {
            UNREACHED
        }) by {
            let node = v as u32;
            if adjacent(before, 0, node) {
                let i = choose|i: int|
                    0 <= i < before.len() && (#[trigger] before[i] == (0u32, node) || before[i] == (node, 0u32));
                assert(edges[i] == before[i]);
            } else if last == (0u32, node) || last == (node, 0u32) {
            } else if adjacent(edges, 0, node) {
                let i = choose|i: int|
                    0 <= i < edges.len() && (#[trigger] edges[i] == (0u32, node) || edges[i] == (node, 0u32));
                assert(before[i] == edges[i]);
            }
        }
    }
}

/// Whether `label` is the right label of the node `v` for a search that has reached the
/// distance `depth`: 0 for a node that the edges do not join to node 0, the distance of
/// the node if that is no more than `depth`, and else `UNREACHED`. Within a pass
/// (`mid`), a node at the next distance may have it as its label already.
pub open spec fn placed(edges: Seq<(u32, u32)>, v: u32, label: u16, depth: nat, mid: bool) -> bool {
    if !joined_by(edges, 0, v) {
        label == 0
    } else if near(edges, v, depth) {
        1 <= label <= depth && at_distance(edges, v, label as nat)
    } else {
        label == UNREACHED || (mid && label == depth + 1 && at_distance(edges, v, depth + 1))
    }
}

/// Whether every node but node 0 has the right label for a search that has reached the
/// distance `depth`, and node 0 the label 0 or 1.
pub open spec fn labeled(label: Seq<u16>, edges: Seq<(u32, u32)>, depth: nat, mid: bool) -> bool {
    &&& label.len() > 0
    &&& label[0] <= 1
    &&& forall|v: int| 1 <= v < label.len() ==> placed(edges, v as u32, #[trigger] label[v], depth, mid)
}

/// Whether `after` are the labels `before` but for unreached nodes that got the
/// distance after `depth`.
pub open spec fn lowered(before: Seq<u16>, after: Seq<u16>, depth: nat) -> bool {
    &&& after.len() == before.len()
    &&& forall|v: int|
        0 <= v < before.len() ==> #[trigger] after[v] == before[v] || (before[v] > depth + 1 && after[v] == depth + 1)
}

/// Whether the edge `e` has done its work in the pass at the distance `depth`: where one
/// end is at that distance, the other is no further than the next.
pub open spec fn handled(label: Seq<u16>, e: (u32, u32), depth: nat) -> bool {
    &&& label[e.0 as int] == depth ==> label[e.1 as int] <= depth + 1
    &&& label[e.1 as int] == depth ==> label[e.0 as int] <= depth + 1
}

/// Whether every edge of `list` is an edge of the graph.
pub open spec fn from_graph(list: Seq<(u32, u32)>, edges: Seq<(u32, u32)>) -> bool {
    forall|k: int| 0 <= k < list.len() ==> edges.contains(#[trigger] list[k])
}

/// Whether `list` holds every edge of the graph that may still label a node after the
/// pass at the distance `depth`.
pub open spec fn holds_open(list: Seq<(u32, u32)>, label: Seq<u16>, edges: Seq<(u32, u32)>, depth: u16) -> bool {
    forall|j: int|
        0 <= j < edges.len() && open_edge(label[(#[trigger] edges[j]).0 as int], label[edges[j].1 as int], depth)
            ==> list.contains(edges[j])
}

/// The labels after an edge in a pass at the distance `depth`.
pub open spec fn advanced(label: Seq<u16>, depth: u16, src: u32, dst: u32) -> Seq<u16> {
    if label[src as int] == depth && label[dst as int] > depth + 1 {
        label.update(dst as int, (depth + 1) as u16)
    } else if label[dst as int] == depth && label[src as int] > depth + 1 {
        label.update(src as int, (depth + 1) as u16)
    } else {
        label
    }
}

/// Labels that were lowered twice were lowered.
proof fn lemma_lowered_twice(a: Seq<u16>, b: Seq<u16>, c: Seq<u16>, depth: nat)
    requires
        lowered(a, b, depth),
        lowered(b, c, depth),
    ensures
        lowered(a, c, depth),
{
    assert forall|v: int| 0 <= v < a.len() implies #[trigger] c[v] == a[v] || (a[v] > depth + 1 && c[v] == depth + 1) by {
        assert(b[v] == a[v] || (a[v] > depth + 1 && b[v] == depth + 1));
    }
}

/// An edge of the graph labels rightly: the labels stay right for a pass at the
/// distance `depth`, only unreached nodes get a label, and the edge has done its work.
proof fn lemma_advanced(label: Seq<u16>, edges: Seq<(u32, u32)>, depth: u16, j: int)
    requires
        label.len() <= u32::MAX,
        within(edges, label.len()),
        1 <= depth <= 65534,
        labeled(label, edges, depth as nat, true),
        0 <= j < edges.len(),
    ensures
        labeled(advanced(label, depth, edges[j].0, edges[j].1), edges, depth as nat, true),
        lowered(label, advanced(label, depth, edges[j].0, edges[j].1), depth as nat),
        handled(advanced(label, depth, edges[j].0, edges[j].1), edges[j], depth as nat),
{
    let src = edges[j].0;
    let dst = edges[j].1;
    let after = advanced(label, depth, src, dst);
    let nodes = label.len();
    if label[src as int] == depth && label[dst as int] > depth + 1 {
        lemma_reached(label, edges, depth, src, dst, j);
    } else if label[dst as int] == depth && label[src as int] > depth + 1 {
        lemma_reached(label, edges, depth, dst, src, j);
    }
    assert forall|v: int| 1 <= v < after.len() implies placed(edges, v as u32, #[trigger] after[v], depth as nat, true) by {
        assert(placed(edges, v as u32, label[v], depth as nat, true));
    }
}

/// An unreached node with a neighbour at the distance `depth` is at the next distance.
proof fn lemma_reached(label: Seq<u16>, edges: Seq<(u32, u32)>, depth: u16, from: u32, to: u32, j: int)
    requires
        label.len() <= u32::MAX,
        within(edges, label.len()),
        1 <= depth <= 65534,
        labeled(label, edges, depth as nat, true),
        0 <= j < edges.len(),
        edges[j] == (from, to) || edges[j] == (to, from),
        label[from as int] == depth,
        label[to as int] > depth + 1,
    ensures
        to >= 1,
        joined_by(edges, 0, to),
        at_distance(edges, to, (depth + 1) as nat),
{
    assert(placed(edges, to, label[to as int], depth as nat, true));
    if from == 0 {
        lemma_near_grows(edges, 0, 0, depth as nat);
    } else {
        assert(placed(edges, from, label[from as int], depth as nat, true));
    }
    lemma_step_after(edges, from, to, (depth + 1) as nat, j);
}

/// What a pass over the graph at the distance of a search does, edge by edge: the labels
/// stay right, only unreached nodes get a label, every edge has done its work, and the
/// buffer holds edges of the graph, among them every edge that may still label a node,
/// unless it is full.
pub proof fn lemma_main_pass(state: Search, edges: Seq<(u32, u32)>, n: int)
    requires
        state.label.len() <= u32::MAX,
        within(edges, state.label.len()),
        search_ready(state),
        1 <= state.iteration <= 65534,
        state.residual.len() == 0,
        labeled(state.label, edges, state.iteration as nat, true),
        0 <= n <= edges.len(),
    ensures
        ({
            let after = run::<Level>(state, edges.take(n));
            let depth = state.iteration;
            &&& after.iteration == depth
            &&& after.capacity == state.capacity
            &&& after.residual.len() <= after.capacity
            &&& labeled(after.label, edges, depth as nat, true)
            &&& lowered(state.label, after.label, depth as nat)
            &&& from_graph(after.residual, edges)
            &&& forall|j: int| 0 <= j < n ==> handled(after.label, #[trigger] edges[j], depth as nat)
            &&& forall|j: int|
                0 <= j < n && open_edge(after.label[(#[trigger] edges[j]).0 as int], after.label[edges[j].1 as int], depth)
                    ==> after.residual.contains(edges[j]) || after.residual.len() == after.capacity
        }),
    decreases n,
{
    let depth = state.iteration;
    lemma_pass(state, edges, n);
    if n == 0 {
        assert(edges.take(0).len() == 0);
    } else {
        lemma_main_pass(state, edges, n - 1);
        lemma_pass(state, edges, n - 1);
        let before = run::<Level>(state, edges.take(n - 1));
        let after = run::<Level>(state, edges.take(n));
        let last = edges[n - 1];
        assert(edges.take(n).drop_last() =~= edges.take(n - 1));
        assert(edges.take(n).last() == last);
        assert(after == searched(before, last.0, last.1));
        assert(after.label == advanced(before.label, depth, last.0, last.1));
        lemma_advanced(before.label, edges, depth, n - 1);
        lemma_lowered_twice(state.label, before.label, after.label, depth as nat);
        assert forall|k: int| 0 <= k < after.residual.len() implies edges.contains(#[trigger] after.residual[k]) by {
            if k < before.residual.len() {
                assert(after.residual[k] == before.residual[k]);
            }
        }
        assert forall|j: int| 0 <= j < n implies handled(after.label, #[trigger] edges[j], depth as nat) by {
            if j < n - 1 {
                assert(handled(before.label, edges[j], depth as nat));
            }
        }
        assert forall|j: int|
            0 <= j < n && open_edge(
                after.label[(#[trigger] edges[j]).0 as int],
                after.label[edges[j].1 as int],
                depth,
            ) implies after.residual.contains(edges[j]) || after.residual.len() == after.capacity by {
            let e = edges[j];
            assert(open_edge(before.label[e.0 as int], before.label[e.1 as int], depth));
            if j < n - 1 {
                if before.residual.contains(e) {
                    let k = choose|k: int| 0 <= k < before.residual.len() && before.residual[k] == e;
                    assert(after.residual[k] == e);
                }
            } else if before.residual.len() < before.capacity {
                assert(after.residual[before.residual.len() as int] == e);
            }
        }
    }
}

/// After a pass in which every node at the next distance got its label, the search has
/// reached the next distance.
proof fn lemma_pass_done(label: Seq<u16>, edges: Seq<(u32, u32)>, depth: u16)
    requires
        1 <= depth <= 65533,
        labeled(label, edges, depth as nat, true),
        forall|v: int|
            1 <= v < label.len() && at_distance(edges, v as u32, (depth + 1) as nat) ==> #[trigger] label[v] <= depth
                + 1,
    ensures
        labeled(label, edges, (depth + 1) as nat, false),
{
    assert forall|v: int| 1 <= v < label.len() implies placed(
        edges,
        v as u32,
        #[trigger] label[v],
        (depth + 1) as nat,
        false,
    ) by {
        let node = v as u32;
        assert(placed(edges, node, label[v], depth as nat, true));
        if joined_by(edges, 0, node) && near(edges, node, depth as nat) {
            lemma_near_grows(edges, node, depth as nat, (depth + 1) as nat);
        }
    }
}

/// Where every edge of the graph has done its work, every node at the next distance has
/// its label.
proof fn lemma_all_reached(label: Seq<u16>, edges: Seq<(u32, u32)>, depth: u16, v: int)
    requires
        0 < label.len() <= u32::MAX,
        within(edges, label.len()),
        1 <= depth <= 65533,
        labeled(label, edges, depth as nat, true),
        forall|j: int| 0 <= j < edges.len() ==> handled(label, #[trigger] edges[j], depth as nat),
        1 <= v < label.len(),
        at_distance(edges, v as u32, (depth + 1) as nat),
    ensures
        label[v] <= depth + 1,
{
    let found = lemma_step_before(edges, v as u32, (depth + 1) as nat);
    let u = found.0;
    lemma_is_at(label, edges, depth, u);
    assert(handled(label, edges[found.1], depth as nat));
}

/// A node at the distance that a search has reached has that distance as its label.
proof fn lemma_is_at(label: Seq<u16>, edges: Seq<(u32, u32)>, depth: u16, u: u32)
    requires
        0 < label.len() <= u32::MAX,
        within(edges, label.len()),
        1 <= depth <= 65534,
        labeled(label, edges, depth as nat, true),
        at_distance(edges, u, depth as nat),
    ensures
        1 <= u < label.len(),
        label[u as int] == depth,
{
    lemma_near_joined(edges, label.len(), u, depth as nat);
    if u == 0 {
        lemma_near_grows(edges, 0, 0, (depth - 1) as nat);
    }
    assert(placed(edges, u, label[u as int], depth as nat, true));
    lemma_one_distance(edges, u, depth as nat, label[u as int] as nat);
}

/// What a pass over the buffer at the distance `depth` does, edge by edge: the labels
/// stay right, only unreached nodes get a label, every edge of the buffer has done its
/// work, and what is kept are edges of the graph, among them every edge of the buffer
/// that may still label a node.
pub proof fn lemma_drain_pass(begin: Drain, edges: Seq<(u32, u32)>, depth: u16, list: Seq<(u32, u32)>, m: int)
    requires
        begin.label.len() <= u32::MAX,
        within(edges, begin.label.len()),
        1 <= depth <= 65534,
        begin.kept.len() == 0,
        labeled(begin.label, edges, depth as nat, true),
        from_graph(list, edges),
        0 <= m <= list.len(),
    ensures
        ({
            let after = drained(begin, depth, list.take(m));
            &&& labeled(after.label, edges, depth as nat, true)
            &&& lowered(begin.label, after.label, depth as nat)
            &&& from_graph(after.kept, edges)
            &&& forall|k: int| 0 <= k < m ==> handled(after.label, #[trigger] list[k], depth as nat)
            &&& forall|k: int|
                0 <= k < m && open_edge(after.label[(#[trigger] list[k]).0 as int], after.label[list[k].1 as int], depth)
                    ==> after.kept.contains(list[k])
        }),
    decreases m,
{
    if m == 0 {
        assert(list.take(0).len() == 0);
    } else {
        lemma_drain_pass(begin, edges, depth, list, m - 1);
        let before = drained(begin, depth, list.take(m - 1));
        let after = drained(begin, depth, list.take(m));
        let last = list[m - 1];
        assert(list.take(m).drop_last() =~= list.take(m - 1));
        assert(list.take(m).last() == last);
        assert(after == drained_edge(before, depth, last.0, last.1));
        assert(after.label == advanced(before.label, depth, last.0, last.1));
        assert(edges.contains(last));
        let j = choose|j: int| 0 <= j < edges.len() && edges[j] == last;
        lemma_advanced(before.label, edges, depth, j);
        lemma_lowered_twice(begin.label, before.label, after.label, depth as nat);
        assert forall|k: int| 0 <= k < after.kept.len() implies edges.contains(#[trigger] after.kept[k]) by {
            if k < before.kept.len() {
                assert(after.kept[k] == before.kept[k]);
            }
        }
        assert forall|k: int| 0 <= k < m implies handled(after.label, #[trigger] list[k], depth as nat) by {
            if k < m - 1 {
                assert(handled(before.label, list[k], depth as nat));
                let e = list[k];
                assert(edges.contains(e));
                let i = choose|i: int| 0 <= i < edges.len() && edges[i] == e;
            }
        }
        assert forall|k: int|
            0 <= k < m && open_edge(
                after.label[(#[trigger] list[k]).0 as int],
                after.label[list[k].1 as int],
                depth,
            ) implies after.kept.contains(list[k]) by {
            let e = list[k];
            assert(edges.contains(e));
            let i = choose|i: int| 0 <= i < edges.len() && edges[i] == e;
            assert(open_edge(before.label[e.0 as int], before.label[e.1 as int], depth));
            if k < m - 1 {
                let at = choose|at: int| 0 <= at < before.kept.len() && before.kept[at] == e;
                assert(after.kept[at] == e);
            } else {
                assert(after.kept[before.kept.len() as int] == e);
            }
        }
    }
}

/// Where the buffer held every edge that might label a node, and every edge of the
/// buffer has done its work, every node at the next distance has its label.
proof fn lemma_all_drained(
    begin: Seq<u16>,
    label: Seq<u16>,
    edges: Seq<(u32, u32)>,
    depth: u16,
    list: Seq<(u32, u32)>,
    v: int,
)
    requires
        0 < begin.len() <= u32::MAX,
        within(edges, begin.len()),
        2 <= depth <= 65533,
        labeled(begin, edges, depth as nat, false),
        holds_open(list, begin, edges, (depth - 1) as u16),
        lowered(begin, label, depth as nat),
        labeled(label, edges, depth as nat, true),
        forall|k: int| 0 <= k < list.len() ==> handled(label, #[trigger] list[k], depth as nat),
        1 <= v < label.len(),
        at_distance(edges, v as u32, (depth + 1) as nat),
    ensures
        label[v] <= depth + 1,
{
    let found = lemma_step_before(edges, v as u32, (depth + 1) as nat);
    let u = found.0;
    let e = edges[found.1];
    lemma_is_at(begin, edges, depth, u);
    lemma_near_joined(edges, begin.len(), v as u32, (depth + 1) as nat);
    assert(placed(edges, v as u32, begin[v], depth as nat, false));
    assert(begin[v] == UNREACHED);
    assert(open_edge(begin[e.0 as int], begin[e.1 as int], (depth - 1) as u16));
    assert(list.contains(e));
    let k = choose|k: int| 0 <= k < list.len() && list[k] == e;
    assert(handled(label, list[k], depth as nat));
    assert(label[u as int] == begin[u as int]);
}

/// A pass over the buffer that has labeled no node has left the labels as they were.
proof fn lemma_unchanged(begin: Drain, depth: u16, list: Seq<(u32, u32)>)
    requires
        !begin.changed,
    ensures
        !drained(begin, depth, list).changed ==> drained(begin, depth, list).label == begin.label,
    decreases list.len(),
{
    if list.len() > 0 {
        lemma_unchanged(begin, depth, list.drop_last());
    }
}

/// A node that is near has a distance.
pub proof fn lemma_has_distance(edges: Seq<(u32, u32)>, v: u32, d: nat) -> (least: nat)
    requires
        near(edges, v, d),
    ensures
        least <= d,
        at_distance(edges, v, least),
    decreases d,
{
    if d > 0 && near(edges, v, (d - 1) as nat) {
        lemma_has_distance(edges, v, (d - 1) as nat)
    } else {
        d
    }
}

/// Where a node has the distance `d`, there is a node at every smaller distance.
pub proof fn lemma_on_the_way(edges: Seq<(u32, u32)>, v: u32, d: nat, k: nat) -> (w: u32)
    requires
        at_distance(edges, v, d),
        k <= d,
    ensures
        at_distance(edges, w, k),
    decreases d,
{
    if k == d {
        v
    } else {
        let found = lemma_step_before(edges, v, d);
        lemma_on_the_way(edges, found.0, (d - 1) as nat, k)
    }
}

/// What the edges join to a node that is near node 0 is near node 0, with some number
/// of steps.
pub proof fn lemma_joined_near(edges: Seq<(u32, u32)>, n: int, a: u32, b: u32, d: nat) -> (steps: nat)
    requires
        0 <= n <= edges.len(),
        joined_by(edges.take(n), a, b),
        near(edges, a, d),
    ensures
        near(edges, b, steps),
    decreases n, 1nat,
{
    if n == 0 {
        d
    } else {
        let part = edges.take(n);
        assert(part.drop_last() =~= edges.take(n - 1));
        assert(part.last() == edges[n - 1]);
        let last = edges[n - 1];
        if joined_by(edges.take(n - 1), a, b) {
            lemma_joined_near(edges, n - 1, a, b, d)
        } else if joined_by(edges.take(n - 1), a, last.0) && joined_by(edges.take(n - 1), last.1, b) {
            let first = lemma_joined_near(edges, n - 1, a, last.0, d);
            lemma_step_after(edges, last.0, last.1, first + 1, n - 1);
            lemma_joined_near(edges, n - 1, last.1, b, first + 1)
        } else {
            let first = lemma_joined_near(edges, n - 1, a, last.1, d);
            lemma_step_after(edges, last.1, last.0, first + 1, n - 1);
            lemma_joined_near(edges, n - 1, last.0, b, first + 1)
        }
    }
}

/// Where no node is at the distance after `depth`, every node that the edges join to
/// node 0 is near it with `depth` steps.
pub proof fn lemma_all_near(edges: Seq<(u32, u32)>, next: nat, v: u32)
    requires
        next > 0,
        forall|w: u32| !#[trigger] at_distance(edges, w, next),
        joined_by(edges, 0, v),
    ensures
        near(edges, v, (next - 1) as nat),
{
    assert(edges.take(edges.len() as int) =~= edges);
    let steps = lemma_joined_near(edges, edges.len() as int, 0, v, 0);
    let least = lemma_has_distance(edges, v, steps);
    if least >= next {
        let w = lemma_on_the_way(edges, v, least, next);
    } else {
        lemma_near_grows(edges, v, least, (next - 1) as nat);
    }
}

/// Whether every entry of `trace` is a node with a label from 1 to `bound` and a
/// neighbour of it that is node 0 or has the label before it.
pub open spec fn traced(trace: Seq<(u32, u32)>, label: Seq<u16>, edges: Seq<(u32, u32)>, bound: nat) -> bool {
    forall|k: int|
        0 <= k < trace.len() ==> {
            let child = (#[trigger] trace[k]).0;
            let parent = trace[k].1;
            &&& child < label.len()
            &&& parent < label.len()
            &&& adjacent(edges, parent, child)
            &&& 1 <= label[child as int] <= bound
            &&& parent == 0 || label[child as int] == label[parent as int] + 1
        }
}

/// A trace stays right when an edge of the graph labels a node and is put behind it.
proof fn lemma_traced(
    trace: Seq<(u32, u32)>,
    after: Seq<(u32, u32)>,
    label: Seq<u16>,
    edges: Seq<(u32, u32)>,
    depth: u16,
    j: int,
)
    requires
        1 <= depth <= 65534,
        within(edges, label.len()),
        0 <= j < edges.len(),
        traced(trace, label, edges, (depth + 1) as nat),
        ({
            let src = edges[j].0;
            let dst = edges[j].1;
            after == (if label[src as int] == depth && label[dst as int] > depth + 1 {
                trace.push((dst, src))
            } else if label[dst as int] == depth && label[src as int] > depth + 1 {
                trace.push((src, dst))
            } else {
                trace
            })
        }),
    ensures
        traced(after, advanced(label, depth, edges[j].0, edges[j].1), edges, (depth + 1) as nat),
{
    let src = edges[j].0;
    let dst = edges[j].1;
    let lower = advanced(label, depth, src, dst);
    assert forall|k: int| 0 <= k < after.len() implies {
        let child = (#[trigger] after[k]).0;
        let parent = after[k].1;
        &&& child < lower.len()
        &&& parent < lower.len()
        &&& adjacent(edges, parent, child)
        &&& 1 <= lower[child as int] <= depth + 1
        &&& parent == 0 || lower[child as int] == lower[parent as int] + 1
    } by {
        if k < trace.len() {
            assert(after[k] == trace[k]);
        } else {
            assert(edges[j] == (src, dst));
            assert(adjacent(edges, src, dst));
            assert(adjacent(edges, dst, src));
        }
    }
}

/// The trace of a pass over the graph stays right.
proof fn lemma_main_trace(state: Search, edges: Seq<(u32, u32)>, n: int)
    requires
        state.label.len() <= u32::MAX,
        within(edges, state.label.len()),
        search_ready(state),
        1 <= state.iteration <= 65534,
        traced(state.trace, state.label, edges, (state.iteration + 1) as nat),
        0 <= n <= edges.len(),
    ensures
        traced(
            run::<Level>(state, edges.take(n)).trace,
            run::<Level>(state, edges.take(n)).label,
            edges,
            (state.iteration + 1) as nat,
        ),
    decreases n,
{
    lemma_pass(state, edges, n);
    if n == 0 {
        assert(edges.take(0).len() == 0);
    } else {
        lemma_main_trace(state, edges, n - 1);
        lemma_pass(state, edges, n - 1);
        let before = run::<Level>(state, edges.take(n - 1));
        let after = run::<Level>(state, edges.take(n));
        let last = edges[n - 1];
        assert(edges.take(n).drop_last() =~= edges.take(n - 1));
        assert(edges.take(n).last() == last);
        assert(after == searched(before, last.0, last.1));
        assert(after.label == advanced(before.label, state.iteration, last.0, last.1));
        lemma_traced(before.trace, after.trace, before.label, edges, state.iteration, n - 1);
    }
}

/// The trace of a pass over the buffer stays right.
proof fn lemma_drain_trace(begin: Drain, edges: Seq<(u32, u32)>, depth: u16, list: Seq<(u32, u32)>, m: int)
    requires
        within(edges, begin.label.len()),
        1 <= depth <= 65534,
        traced(begin.trace, begin.label, edges, (depth + 1) as nat),
        from_graph(list, edges),
        0 <= m <= list.len(),
    ensures
        traced(
            drained(begin, depth, list.take(m)).trace,
            drained(begin, depth, list.take(m)).label,
            edges,
            (depth + 1) as nat,
        ),
        drained(begin, depth, list.take(m)).label.len() == begin.label.len(),
    decreases m,
{
    if m == 0 {
        assert(list.take(0).len() == 0);
    } else {
        lemma_drain_trace(begin, edges, depth, list, m - 1);
        let before = drained(begin, depth, list.take(m - 1));
        let after = drained(begin, depth, list.take(m));
        let last = list[m - 1];
        assert(list.take(m).drop_last() =~= list.take(m - 1));
        assert(list.take(m).last() == last);
        assert(after == drained_edge(before, depth, last.0, last.1));
        assert(after.label == advanced(before.label, depth, last.0, last.1));
        assert(edges.contains(last));
        let j = choose|j: int| 0 <= j < edges.len() && edges[j] == last;
        lemma_traced(before.trace, after.trace, before.label, edges, depth, j);
    }
}

/// A trace that is right for labels up to a bound is right for labels up to a larger
/// one.
proof fn lemma_traced_wider(trace: Seq<(u32, u32)>, label: Seq<u16>, edges: Seq<(u32, u32)>, bound: nat, more: nat)
    requires
        traced(trace, label, edges, bound),
        bound <= more,
    ensures
        traced(trace, label, edges, more),
{
    assert forall|k: int| 0 <= k < trace.len() implies {
        let child = (#[trigger] trace[k]).0;
        let parent = trace[k].1;
        &&& child < label.len()
        &&& parent < label.len()
        &&& adjacent(edges, parent, child)
        &&& 1 <= label[child as int] <= more
        &&& parent == 0 || label[child as int] == label[parent as int] + 1
    } by {
        let entry = trace[k];
    }
}

/// The trace with which the search begins is right: it holds the neighbours of node 0.
proof fn lemma_seeds(label: Seq<u16>, edges: Seq<(u32, u32)>, n: int)
    requires
        0 <= n <= label.len() <= u32::MAX,
        labeled(label, edges, 1, false),
    ensures
        traced(seeds(label, n), label, edges, 1),
    decreases n,
{
    if n > 1 {
        lemma_seeds(label, edges, n - 1);
        let before = seeds(label, n - 1);
        let node = (n - 1) as u32;
        if label[n - 1] == 1 {
            assert(placed(edges, node, label[n - 1], 1, false));
            let found = lemma_step_before(edges, node, 1);
            assert(found.0 == 0);
            assert(adjacent(edges, 0, node));
            assert forall|k: int| 0 <= k < seeds(label, n).len() implies {
                let child = (#[trigger] seeds(label, n)[k]).0;
                let parent = seeds(label, n)[k].1;
                &&& child < label.len()
                &&& parent < label.len()
                &&& adjacent(edges, parent, child)
                &&& 1 <= label[child as int] <= 1
                &&& parent == 0 || label[child as int] == label[parent as int] + 1
            } by {
                if k < before.len() {
                    assert(seeds(label, n)[k] == before[k]);
                }
            }
        }
    }
}

/// The distance that a search which ended at `iteration` has reached.
pub open spec fn reached_depth(iteration: u16) -> nat {
    if iteration == 65535 {
        65534
    } else {
        iteration as nat
    }
}

/// Labels that are right between two passes are right within the next.
proof fn lemma_labeled_mid(label: Seq<u16>, edges: Seq<(u32, u32)>, depth: nat)
    requires
        labeled(label, edges, depth, false),
    ensures
        labeled(label, edges, depth, true),
{
    assert forall|v: int| 1 <= v < label.len() implies placed(edges, v as u32, #[trigger] label[v], depth, true) by {
        assert(placed(edges, v as u32, label[v], depth, false));
    }
}

/// A pass at the last distance labels no node.
proof fn lemma_last_pass(begin: Seq<u16>, label: Seq<u16>, edges: Seq<(u32, u32)>)
    requires
        labeled(begin, edges, 65534, false),
        lowered(begin, label, 65534),
    ensures
        labeled(label, edges, 65534, false),
{
    assert(label =~= begin);
}

/// Of two ends of an edge that may still label a node, both are further out than the
/// distance of the pass, whatever labels they had before.
proof fn lemma_open_before(
    begin: Seq<u16>,
    label: Seq<u16>,
    depth: u16,
    e: (u32, u32),
)
    requires
        1 <= depth <= 65533,
        lowered(begin, label, depth as nat),
        e.0 < begin.len(),
        e.1 < begin.len(),
        open_edge(label[e.0 as int], label[e.1 as int], depth),
    ensures
        open_edge(begin[e.0 as int], begin[e.1 as int], depth),
        open_edge(begin[e.0 as int], begin[e.1 as int], (depth - 1) as u16),
{
    assert(label[e.0 as int] == begin[e.0 as int] || (begin[e.0 as int] > depth + 1 && label[e.0 as int] == depth + 1));
    assert(label[e.1 as int] == begin[e.1 as int] || (begin[e.1 as int] > depth + 1 && label[e.1 as int] == depth + 1));
}

/// The passes over the graph leave every label right for the distance that they have
/// reached, and in the buffer every edge that may still label a node.
pub proof fn lemma_swept(state: Search, edges: Seq<(u32, u32)>)
    requires
        0 < state.label.len() <= u32::MAX,
        within(edges, state.label.len()),
        1 <= state.iteration <= 65534,
        state.capacity <= usize::MAX,
        labeled(state.label, edges, state.iteration as nat, false),
        traced(state.trace, state.label, edges, state.iteration as nat),
    ensures
        ({
            let end = swept(state, edges);
            &&& end.label.len() == state.label.len()
            &&& end.iteration >= 2
            &&& traced(end.trace, end.label, edges, end.iteration as nat)
            &&& labeled(end.label, edges, reached_depth(end.iteration), false)
            &&& end.iteration < 65535 ==> holds_open(end.residual, end.label, edges, (end.iteration - 1) as u16)
                && from_graph(end.residual, edges)
        }),
    decreases 65535 - state.iteration,
{
    let depth = state.iteration;
    let cleared = Search { residual: Seq::empty(), ..state };
    lemma_labeled_mid(state.label, edges, depth as nat);
    lemma_main_pass(cleared, edges, edges.len() as int);
    lemma_traced_wider(state.trace, state.label, edges, depth as nat, (depth + 1) as nat);
    lemma_main_trace(cleared, edges, edges.len() as int);
    assert(edges.take(edges.len() as int) =~= edges);
    let pass = run::<Level>(cleared, edges);
    let next = Search { iteration: (depth + 1) as u16, ..pass };
    if depth <= 65533 {
        assert forall|v: int| 1 <= v < pass.label.len() && at_distance(edges, v as u32, (depth + 1) as nat) implies #[trigger] pass.label[v]
            <= depth + 1 by {
            lemma_all_reached(pass.label, edges, depth, v);
        }
        lemma_pass_done(pass.label, edges, depth);
        if next.residual.len() == next.capacity {
            lemma_swept(next, edges);
        } else {
            assert forall|j: int|
                0 <= j < edges.len() && open_edge(
                    next.label[(#[trigger] edges[j]).0 as int],
                    next.label[edges[j].1 as int],
                    depth,
                ) implies next.residual.contains(edges[j]) by {
            }
        }
    } else {
        lemma_last_pass(state.label, pass.label, edges);
    }
}

/// The passes over the buffer leave every label right for the distance that they have
/// reached.
pub proof fn lemma_settled(state: Search, edges: Seq<(u32, u32)>)
    requires
        0 < state.label.len() <= u32::MAX,
        within(edges, state.label.len()),
        2 <= state.iteration <= 65534,
        labeled(state.label, edges, state.iteration as nat, false),
        holds_open(state.residual, state.label, edges, (state.iteration - 1) as u16),
        from_graph(state.residual, edges),
        traced(state.trace, state.label, edges, state.iteration as nat),
    ensures
        settled(state).label.len() == state.label.len(),
        traced(settled(state).trace, settled(state).label, edges, settled(state).iteration as nat),
        labeled(settled(state).label, edges, reached_depth(settled(state).iteration), false),
        settled(state).iteration < 65535 ==> forall|v: int|
            0 <= v < state.label.len() ==> #[trigger] settled(state).label[v] != UNREACHED,
    decreases 65535 - state.iteration,
{
    let depth = state.iteration;
    let list = state.residual;
    let begin = Drain { label: state.label, trace: state.trace, kept: Seq::empty(), changed: false };
    lemma_labeled_mid(state.label, edges, depth as nat);
    lemma_drain_pass(begin, edges, depth, list, list.len() as int);
    lemma_traced_wider(state.trace, state.label, edges, depth as nat, (depth + 1) as nat);
    lemma_drain_trace(begin, edges, depth, list, list.len() as int);
    assert(list.take(list.len() as int) =~= list);
    let pass = drained(begin, depth, list);
    let next = Search {
        label: pass.label,
        trace: pass.trace,
        residual: pass.kept,
        iteration: (depth + 1) as u16,
        ..state
    };
    if depth <= 65533 {
        assert forall|v: int| 1 <= v < pass.label.len() && at_distance(edges, v as u32, (depth + 1) as nat) implies #[trigger] pass.label[v]
            <= depth + 1 by {
            lemma_all_drained(state.label, pass.label, edges, depth, list, v);
        }
        lemma_pass_done(pass.label, edges, depth);
        if pass.changed {
            assert forall|j: int|
                0 <= j < edges.len() && open_edge(
                    next.label[(#[trigger] edges[j]).0 as int],
                    next.label[edges[j].1 as int],
                    depth,
                ) implies next.residual.contains(edges[j]) by {
                let e = edges[j];
                lemma_open_before(state.label, pass.label, depth, e);
                assert(list.contains(e));
                let k = choose|k: int| 0 <= k < list.len() && list[k] == e;
                assert(pass.kept.contains(list[k]));
            }
            lemma_settled(next, edges);
        } else {
            lemma_unchanged(begin, depth, list);
            let after = (depth + 1) as nat;
            assert forall|w: u32| !#[trigger] at_distance(edges, w, after) by {
                if at_distance(edges, w, after) {
                    lemma_near_joined(edges, state.label.len(), w, (depth + 1) as nat);
                    if w == 0 {
                        lemma_near_grows(edges, 0, 0, depth as nat);
                    }
                    lemma_all_drained(state.label, pass.label, edges, depth, list, w as int);
                    assert(placed(edges, w, state.label[w as int], depth as nat, false));
                }
            }
            assert forall|v: int| 0 <= v < state.label.len() implies #[trigger] next.label[v] != UNREACHED by {
                if v >= 1 {
                    assert(placed(edges, v as u32, state.label[v], depth as nat, false));
                    if joined_by(edges, 0, v as u32) {
                        lemma_all_near(edges, after, v as u32);
                    }
                }
            }
        }
    } else {
        lemma_last_pass(state.label, pass.label, edges);
    }
}

/// The search leaves every label right for the distance that it has reached: of every
/// node but node 0 the label is 0 if the edges do not join it to node 0, its distance
/// from node 0 if that is no more than the distance reached, and else `UNREACHED`.
pub proof fn lemma_explored(edges: Seq<(u32, u32)>, nodes: nat, capacity: nat)
    requires
        0 < nodes <= u32::MAX,
        within(edges, nodes),
        capacity <= usize::MAX,
    ensures
        explored(edges, nodes, capacity).label.len() == nodes,
        labeled(
            explored(edges, nodes, capacity).label,
            edges,
            reached_depth(explored(edges, nodes, capacity).iteration),
            false,
        ),
        explored(edges, nodes, capacity).iteration < 65535 ==> forall|v: int|
            0 <= v < nodes ==> #[trigger] explored(edges, nodes, capacity).label[v] != UNREACHED,
        traced(
            explored(edges, nodes, capacity).trace,
            explored(edges, nodes, capacity).label,
            edges,
            explored(edges, nodes, capacity).iteration as nat,
        ),
{
    let first = run::<Contract>(uncontracted(nodes), edges);
    let label = seeded(first);
    lemma_contraction_of(edges, nodes);
    lemma_chased(first.roots, 0);
    assert forall|v: int| 1 <= v < label.len() implies placed(edges, v as u32, #[trigger] label[v], 1, false) by {
        let node = v as u32;
        lemma_joined_equivalence(edges, nodes, 0, node, 0);
        assert((chased(first.roots, 0) == chased(first.roots, node)) == joined_by(edges, 0, node));
        assert(first.label[v] == (if adjacent(edges, 0, node) { 1u16 } else { UNREACHED }));
        assert(label[v] == (if chased(first.roots, node) != 0 { 0u16 } else { first.label[v] }));
        if adjacent(edges, 0, node) {
            let i = choose|i: int| 0 <= i < edges.len() && (#[trigger] edges[i] == (0u32, node) || edges[i] == (node, 0u32));
            lemma_joined_ends(edges, i);
            lemma_step_after(edges, 0, node, 1, i);
            assert(at_distance(edges, node, 1));
        } else if near(edges, node, 1) {
            let found = lemma_step_before(edges, node, 1);
            assert(found.0 == 0);
            assert(edges[found.1] == (0u32, node) || edges[found.1] == (node, 0u32));
        }
    }
    let begin = Search { label, trace: seeds(label, nodes as int), residual: Seq::empty(), capacity, iteration: 1 };
    lemma_seeds(label, edges, nodes as int);
    lemma_swept(begin, edges);
    let main = swept(begin, edges);
    if main.iteration < 65535 {
        lemma_settled(main, edges);
    }
}

} // verus!
