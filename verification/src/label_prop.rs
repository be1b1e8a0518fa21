//! Connected components by labels: every node begins with itself as its label, and each
//! edge hands the smaller label of its ends to the other end, pass after pass, until
//! nothing changes.

use vstd::prelude::*;
use crate::connectivity::{joined_by, within, lemma_joined_ends, lemma_joined_self};
use crate::graph_iterator::{EdgeAction, EdgeMapper, run, runs};
use crate::union_find::lemma_joined_equivalence;

verus! {

/// The labels after the edge `(src, dst)`: the smaller label of the two at both ends.
pub open spec fn relabeled(labels: Seq<u32>, src: u32, dst: u32) -> Seq<u32> {
    if labels[src as int] < labels[dst as int] {
        labels.update(dst as int, labels[src as int])
    } else if labels[src as int] > labels[dst as int] {
        labels.update(src as int, labels[dst as int])
    } else {
        labels
    }
}

/// The sum of `labels`.
pub open spec fn total(labels: Seq<u32>) -> nat
    decreases labels.len(),
{
    if labels.len() == 0 {
        0
    } else {
        total(labels.drop_last()) + labels.last() as nat
    }
}

/// Whether every label is a node that `edges` join to its node, and no larger than it.
pub open spec fn labels_within(labels: Seq<u32>, edges: Seq<(u32, u32)>) -> bool {
    forall|v: int|
        0 <= v < labels.len() ==> (#[trigger] labels[v]) <= v && joined_by(edges, labels[v], v as u32)
}

/// Whether the two ends of every edge have one label.
pub open spec fn labels_settled(labels: Seq<u32>, edges: Seq<(u32, u32)>) -> bool {
    forall|i: int| 0 <= i < edges.len() ==> labels[(#[trigger] edges[i]).0 as int] == labels[edges[i].1 as int]
}

/// A change of one label changes the sum by as much.
pub proof fn lemma_total_update(labels: Seq<u32>, i: int, label: u32)
    requires
        0 <= i < labels.len(),
    ensures
        total(labels.update(i, label)) == total(labels) - labels[i] + label,
    decreases labels.len(),
{
    let n = labels.len() - 1;
    if i < n {
        lemma_total_update(labels.drop_last(), i, label);
        assert(labels.update(i, label).drop_last() =~= labels.drop_last().update(i, label));
    } else {
        assert(labels.update(i, label).drop_last() =~= labels.drop_last());
    }
}

/// The sum of labels is at most as many times the largest label.
pub proof fn lemma_total_bound(labels: Seq<u32>)
    ensures
        total(labels) <= labels.len() * 0xFFFF_FFFF,
    decreases labels.len(),
{
    if labels.len() > 0 {
        lemma_total_bound(labels.drop_last());
        assert((labels.len() - 1) * 0xFFFF_FFFF + 0xFFFF_FFFF == labels.len() * 0xFFFF_FFFF) by (nonlinear_arith);
    }
}

/// A pass over some of the edges of a graph lowers labels, if it changes them, and
/// keeps each label a node that the edges join to its node. Where the pass leaves the
/// sum of the labels as it was, it leaves every label as it was, and the two ends of
/// each of its edges have one label.
pub proof fn lemma_pass(labels: Seq<u32>, edges: Seq<(u32, u32)>, n: int)
    requires
        labels.len() <= u32::MAX,
        within(edges, labels.len()),
        labels_within(labels, edges),
        0 <= n <= edges.len(),
    ensures
        runs::<Labels>(labels, edges.take(n)),
        run::<Labels>(labels, edges.take(n)).len() == labels.len(),
        labels_within(run::<Labels>(labels, edges.take(n)), edges),
        total(run::<Labels>(labels, edges.take(n))) <= total(labels),
        total(run::<Labels>(labels, edges.take(n))) == total(labels) ==> run::<Labels>(labels, edges.take(n))
            == labels && labels_settled(labels, edges.take(n)),
    decreases n,
{
    let part = edges.take(n);
    if n == 0 {
        assert(runs::<Labels>(labels, part));
    } else {
        let before = edges.take(n - 1);
        lemma_pass(labels, edges, n - 1);
        assert(part.drop_last() =~= before);
        let last = edges[n - 1];
        assert(part.last() == last);
        let earlier = run::<Labels>(labels, before);
        let after = relabeled(earlier, last.0, last.1);
        assert(run::<Labels>(labels, part) == after);
        let src = last.0;
        let dst = last.1;
        lemma_joined_ends(edges, n - 1);
        if earlier[src as int] < earlier[dst as int] {
            lemma_total_update(earlier, dst as int, earlier[src as int]);
            lemma_joined_equivalence(edges, labels.len(), earlier[src as int], src, dst);
        } else if earlier[src as int] > earlier[dst as int] {
            lemma_total_update(earlier, src as int, earlier[dst as int]);
            lemma_joined_equivalence(edges, labels.len(), earlier[dst as int], dst, src);
        }
        assert forall|i: int| 0 <= i < part.len() implies Labels::accepts(
            #[trigger] run::<Labels>(labels, part.take(i)),
            part[i].0,
            part[i].1,
        ) by {
            if i < n - 1 {
                assert(part.take(i) =~= before.take(i));
                assert(Labels::accepts(run::<Labels>(labels, before.take(i)), before[i].0, before[i].1));
            } else {
                assert(part.take(i) =~= before);
            }
        }
        if total(after) == total(labels) {
            assert forall|i: int| 0 <= i < part.len() implies labels[(#[trigger] part[i]).0 as int] == labels[part[i].1 as int] by {
                if i < n - 1 {
                    assert(part[i] == before[i]);
                }
            }
        }
    }
}

/// Where the two ends of every edge have one label, every two nodes that the edges join
/// have one label.
pub proof fn lemma_settled(labels: Seq<u32>, edges: Seq<(u32, u32)>, n: int, u: u32, v: u32)
    requires
        within(edges, labels.len()),
        labels_settled(labels, edges),
        0 <= n <= edges.len(),
        joined_by(edges.take(n), u, v),
        u < labels.len(),
        v < labels.len(),
    ensures
        labels[u as int] == labels[v as int],
    decreases n,
{
    if n > 0 {
        let part = edges.take(n);
        assert(part.drop_last() =~= edges.take(n - 1));
        assert(part.last() == edges[n - 1]);
        let last = edges[n - 1];
        if joined_by(edges.take(n - 1), u, v) {
            lemma_settled(labels, edges, n - 1, u, v);
        } else if joined_by(edges.take(n - 1), u, last.0) && joined_by(edges.take(n - 1), last.1, v) {
            lemma_settled(labels, edges, n - 1, u, last.0);
            lemma_settled(labels, edges, n - 1, last.1, v);
        } else {
            lemma_settled(labels, edges, n - 1, u, last.1);
            lemma_settled(labels, edges, n - 1, last.0, v);
        }
    }
}

/// The labels of the nodes of a graph.
pub struct Labels {
    label: Vec<u32>,
}

impl EdgeAction for Labels {
    type State = Seq<u32>;

    closed spec fn state(&self) -> Seq<u32> {
        self.label@
    }

    open spec fn accepts(state: Seq<u32>, x: u32, y: u32) -> bool {
        x < state.len() && y < state.len()
    }

    open spec fn step(state: Seq<u32>, x: u32, y: u32) -> Seq<u32> {
        relabeled(state, x, y)
    }

    fn apply(&mut self, src: u32, dst: u32) {
        let label_src: u32 = self.label[src as usize];
        let label_dst: u32 = self.label[dst as usize];
        if label_src < label_dst {
            self.label.set(dst as usize, label_src);
        } else if label_src > label_dst {
            self.label.set(src as usize, label_dst);
        }
    }
}

impl Labels {
    /// The sum of the labels.
    fn sum(&self) -> (out: u64)
        requires
            self.label@.len() <= u32::MAX,
        ensures
            out == total(self.label@),
    {
        let mut sum: u64 = 0;
        let mut i: usize = 0;
        assert(self.label@.take(0) =~= Seq::<u32>::empty());
        while i < self.label.len()
            invariant
                i <= self.label@.len() <= u32::MAX,
                sum == total(self.label@.take(i as int)),
                sum <= i * 0xFFFF_FFFF,
            decreases self.label@.len() - i,
        {
            proof {
                assert(self.label@.take(i + 1).drop_last() =~= self.label@.take(i as int));
                lemma_total_bound(self.label@.take(i + 1));
                assert((i + 1) * 0xFFFF_FFFF <= 0xFFFF_FFFF * 0xFFFF_FFFF) by (nonlinear_arith)
                    requires
                        i + 1 <= 0xFFFF_FFFF,
                ;
            }
            sum += self.label[i] as u64;
            i += 1;
        }
        assert(self.label@.take(i as int) =~= self.label@);
        sum
    }
}

/// The labels of the nodes below `nodes` to which passes over `graph` lead: the label
/// of every node is the least node that the edges join to it.
pub fn label_propagation<G: EdgeMapper>(graph: &G, nodes: u32) -> (out: Vec<u32>)
    requires
        within(graph.edges(), nodes as nat),
    ensures
        out@.len() == nodes,
        forall|v: int| 0 <= v < nodes ==> joined_by(graph.edges(), #[trigger] out@[v], v as u32),
        forall|u: u32, v: u32|
            u < nodes && v < nodes && #[trigger] joined_by(graph.edges(), u, v) ==> out@[v as int] <= u && out@[v as int]
                == out@[u as int],
{
    let ghost edges = graph.edges();
    let mut label: Vec<u32> = Vec::new();
    let mut v: u32 = 0;
    while v < nodes
        invariant
            v <= nodes,
            label@ =~= Seq::new(v as nat, |v: int| v as u32),
        decreases nodes - v,
    {
        label.push(v);
        v += 1;
    }
    let mut labels = Labels { label };
    proof {
        assert forall|v: int| 0 <= v < labels.label@.len() implies (#[trigger] labels.label@[v]) <= v && joined_by(
            edges,
            labels.label@[v],
            v as u32,
        ) by {
            lemma_joined_self(edges, v as u32);
        }
    }
    let mut new_sum: u64 = labels.sum();
    proof {
        lemma_total_bound(labels.label@);
        assert(labels.label@.len() * 0xFFFF_FFFF <= 0xFFFF_FFFF * 0xFFFF_FFFF) by (nonlinear_arith)
            requires
                labels.label@.len() <= 0xFFFF_FFFF,
        ;
    }
    let mut old_sum: u64 = new_sum + 1;
    while new_sum < old_sum
        invariant
            edges == graph.edges(),
            within(edges, nodes as nat),
            labels.label@.len() == nodes,
            labels_within(labels.label@, edges),
            new_sum == total(labels.label@),
            new_sum <= old_sum,
            new_sum == old_sum ==> labels_settled(labels.label@, edges),
        decreases old_sum,
    {
        proof {
            lemma_pass(labels.label@, edges, edges.len() as int);
            assert(edges.take(edges.len() as int) =~= edges);
        }
        graph.map_edges(&mut labels);
        old_sum = new_sum;
        new_sum = labels.sum();
    }
    let out = labels.label;
    proof {
        assert(labels_settled(out@, edges));
        assert forall|u: u32, v: u32| u < nodes && v < nodes && #[trigger] joined_by(graph.edges(), u, v) implies out@[v as int]
            <= u && out@[v as int] == out@[u as int] by {
            assert(edges.take(edges.len() as int) =~= edges);
            lemma_settled(out@, edges, edges.len() as int, u, v);
            assert(out@[u as int] <= u);
        }
    }
    out
}

} // verus!
