//! Distances from node 0 by passes over the edges: a first pass finds the component of
//! node 0 and its neighbours, every later pass labels the nodes one step further out, and
//! the edges that may still label a node are kept in a buffer, which the last passes scan
//! in place of the graph.

use vstd::prelude::*;
use crate::connectivity::within;
use crate::distances::{labeled, lemma_explored, reached_depth, traced};
use crate::graph_iterator::{EdgeAction, EdgeMapper, run, runs};

verus! {

/// The label of a node that no pass has reached.
pub const UNREACHED: u16 = 65535;

/// The number of edges that the buffer holds unless told otherwise.
pub const RESIDUAL_CAPACITY: usize = 0x4000_0000;

/// What the first pass keeps: for every node a parent that is no larger than the node,
/// a root being its own parent, and a label.
pub struct Contraction {
    pub roots: Seq<u32>,
    pub label: Seq<u16>,
}

/// Whether no node has a parent larger than itself.
pub open spec fn lowers(roots: Seq<u32>) -> bool {
    forall|v: int| 0 <= v < roots.len() ==> #[trigger] roots[v] <= v
}

/// The root that the parents lead to from `v`.
pub open spec fn chased(roots: Seq<u32>, v: u32) -> u32
    decreases v,
{
    if v < roots.len() && roots[v as int] < v {
        chased(roots, roots[v as int])
    } else {
        v
    }
}

/// What the first pass keeps before any edge: every node is its own parent, node 0 has
/// the label 0 and every other node is unreached.
pub open spec fn uncontracted(nodes: nat) -> Contraction {
    Contraction {
        roots: Seq::new(nodes, |v: int| v as u32),
        label: Seq::new(nodes, |v: int| if v == 0 { 0u16 } else { UNREACHED }),
    }
}

/// What the first pass keeps after the edge `(x, y)`: the other end of an edge at node 0
/// has the label 1, and the roots of both ends have the smaller of the two as parent.
pub open spec fn contracted(state: Contraction, x: u32, y: u32) -> Contraction {
    let first = if x == 0 {
        state.label.update(y as int, 1)
    } else {
        state.label
    };
    let label = if y == 0 {
        first.update(x as int, 1)
    } else {
        first
    };
    let a = chased(state.roots, x);
    let b = chased(state.roots, y);
    let least = if a < b {
        a
    } else {
        b
    };
    Contraction { roots: state.roots.update(a as int, least).update(b as int, least), label }
}

/// The labels with which the search begins: a node other than 0 whose root is not 0 has
/// the label 0, and every other node the label that the first pass gave it.
pub open spec fn seeded(state: Contraction) -> Seq<u16> {
    Seq::new(
        state.label.len(),
        |v: int|
            if v >= 1 && chased(state.roots, v as u32) != 0 {
                0u16
            } else {
                state.label[v]
            },
    )
}

/// The edges by which the nodes below `n` with the label 1 got it: each from node 0.
pub open spec fn seeds(label: Seq<u16>, n: int) -> Seq<(u32, u32)>
    decreases n,
{
    if n <= 1 {
        Seq::empty()
    } else if label[n - 1] == 1 {
        seeds(label, n - 1).push(((n - 1) as u32, 0u32))
    } else {
        seeds(label, n - 1)
    }
}

/// What the search keeps: the label of every node, for every node that a pass has
/// labeled the edge by which it was (the node first), the buffer of edges that may still
/// label a node, the number of edges that the buffer may hold, and the distance of the
/// nodes from which the next pass labels.
pub struct Search {
    pub label: Seq<u16>,
    pub trace: Seq<(u32, u32)>,
    pub residual: Seq<(u32, u32)>,
    pub capacity: nat,
    pub iteration: u16,
}

/// Whether an edge between nodes of the labels `a` and `b` may still label a node after
/// the pass at the distance `iteration`.
pub open spec fn open_edge(a: u16, b: u16, iteration: u16) -> bool {
    (a > iteration && b > iteration + 1) || (b > iteration && a > iteration + 1)
}

/// What the search keeps after the edge `(src, dst)` of a pass over the graph: the edge
/// is put in the buffer if it may still label a node and the buffer has room, and where
/// one end is at the distance of the pass and the other end is further out than the next
/// distance, the other end gets the next distance.
pub open spec fn searched(state: Search, src: u32, dst: u32) -> Search {
    let from = state.label[src as int];
    let to = state.label[dst as int];
    let next = (state.iteration + 1) as u16;
    let residual = if state.residual.len() < state.capacity && open_edge(from, to, state.iteration) {
        state.residual.push((src, dst))
    } else {
        state.residual
    };
    if from == state.iteration && to > next {
        Search { label: state.label.update(dst as int, next), trace: state.trace.push((dst, src)), residual, ..state }
    } else if to == state.iteration && from > next {
        Search { label: state.label.update(src as int, next), trace: state.trace.push((src, dst)), residual, ..state }
    } else {
        Search { residual, ..state }
    }
}

/// Whether the search can take an edge in the state `state`.
pub open spec fn search_ready(state: Search) -> bool {
    &&& state.iteration < 65535
    &&& state.residual.len() <= state.capacity <= usize::MAX
}

/// What the search keeps after the passes over the graph: a pass with an empty buffer,
/// and, as long as the pass filled the buffer, another at the next distance.
pub open spec fn swept(state: Search, edges: Seq<(u32, u32)>) -> Search
    decreases 65535 - state.iteration,
{
    let pass = run::<Level>(Search { residual: Seq::empty(), ..state }, edges);
    let next = Search { iteration: (state.iteration + 1) as u16, ..pass };
    if state.iteration < 65534 && next.residual.len() == next.capacity {
        swept(next, edges)
    } else {
        next
    }
}

/// What a pass over the buffer keeps: the labels, the trace, the edges that stay in the
/// buffer, and whether the pass has labeled a node.
pub struct Drain {
    pub label: Seq<u16>,
    pub trace: Seq<(u32, u32)>,
    pub kept: Seq<(u32, u32)>,
    pub changed: bool,
}

/// What a pass over the buffer keeps after the edge `(src, dst)`: where one end is at the
/// distance of the pass and the other end is further out than the next distance, the
/// other end gets the next distance; and the edge stays if it may still label a node.
pub open spec fn drained_edge(state: Drain, iteration: u16, src: u32, dst: u32) -> Drain {
    let from = state.label[src as int];
    let to = state.label[dst as int];
    let next = (iteration + 1) as u16;
    let after = if from == iteration && to > next {
        Drain { label: state.label.update(dst as int, next), trace: state.trace.push((dst, src)), changed: true, ..state }
    } else if to == iteration && from > next {
        Drain { label: state.label.update(src as int, next), trace: state.trace.push((src, dst)), changed: true, ..state }
    } else {
        state
    };
    if open_edge(after.label[src as int], after.label[dst as int], iteration) {
        Drain { kept: after.kept.push((src, dst)), ..after }
    } else {
        after
    }
}

/// What a pass over the edges `list` of the buffer keeps.
pub open spec fn drained(state: Drain, iteration: u16, list: Seq<(u32, u32)>) -> Drain
    decreases list.len(),
{
    if list.len() == 0 {
        state
    } else {
        drained_edge(drained(state, iteration, list.drop_last()), iteration, list.last().0, list.last().1)
    }
}

/// What the search keeps after the passes over the buffer: a pass, and, as long as the
/// pass labeled a node, another at the next distance.
pub open spec fn settled(state: Search) -> Search
    decreases 65535 - state.iteration,
{
    let pass = drained(
        Drain { label: state.label, trace: state.trace, kept: Seq::empty(), changed: false },
        state.iteration,
        state.residual,
    );
    let next = Search {
        label: pass.label,
        trace: pass.trace,
        residual: pass.kept,
        iteration: (state.iteration + 1) as u16,
        ..state
    };
    if state.iteration < 65534 && pass.changed {
        settled(next)
    } else {
        next
    }
}

/// What the search keeps in the end: after the first pass, the passes over the graph
/// from the distance 1, and the passes over the buffer.
pub open spec fn explored(edges: Seq<(u32, u32)>, nodes: nat, capacity: nat) -> Search {
    let label = seeded(run::<Contract>(uncontracted(nodes), edges));
    let begin = Search { label, trace: seeds(label, nodes as int), residual: Seq::empty(), capacity, iteration: 1 };
    let main = swept(begin, edges);
    if main.iteration < 65535 {
        settled(main)
    } else {
        main
    }
}

/// The parents lead from a node to a root that is a node, no larger than it, and the
/// same from its parent.
pub proof fn lemma_chased(roots: Seq<u32>, v: u32)
    requires
        lowers(roots),
        v < roots.len(),
    ensures
        chased(roots, v) <= v,
        roots[chased(roots, v) as int] == chased(roots, v),
        chased(roots, roots[v as int]) == chased(roots, v),
    decreases v,
{
    if roots[v as int] < v {
        lemma_chased(roots, roots[v as int]);
    }
}

/// The first pass takes every edge between its nodes, and keeps the parents no larger
/// than their nodes.
pub proof fn lemma_contraction(edges: Seq<(u32, u32)>, nodes: nat, n: int)
    requires
        within(edges, nodes),
        0 <= n <= edges.len(),
    ensures
        runs::<Contract>(uncontracted(nodes), edges.take(n)),
        run::<Contract>(uncontracted(nodes), edges.take(n)).roots.len() == nodes,
        run::<Contract>(uncontracted(nodes), edges.take(n)).label.len() == nodes,
        lowers(run::<Contract>(uncontracted(nodes), edges.take(n)).roots),
    decreases n,
{
    let part = edges.take(n);
    if n == 0 {
        assert(runs::<Contract>(uncontracted(nodes), part));
    } else {
        let before = edges.take(n - 1);
        lemma_contraction(edges, nodes, n - 1);
        assert(part.drop_last() =~= before);
        assert(part.last() == edges[n - 1]);
        let earlier = run::<Contract>(uncontracted(nodes), before);
        lemma_chased(earlier.roots, edges[n - 1].0);
        lemma_chased(earlier.roots, edges[n - 1].1);
        assert forall|i: int| 0 <= i < part.len() implies Contract::accepts(
            #[trigger] run::<Contract>(uncontracted(nodes), part.take(i)),
            part[i].0,
            part[i].1,
        ) by {
            if i < n - 1 {
                assert(part.take(i) =~= before.take(i));
                assert(Contract::accepts(
                    run::<Contract>(uncontracted(nodes), before.take(i)),
                    before[i].0,
                    before[i].1,
                ));
            } else {
                assert(part.take(i) =~= before);
            }
        }
    }
}

/// A pass over the graph takes every edge between its nodes, and changes neither the
/// number of labels, nor the room of the buffer, nor the distance.
pub proof fn lemma_pass(state: Search, edges: Seq<(u32, u32)>, n: int)
    requires
        within(edges, state.label.len()),
        search_ready(state),
        0 <= n <= edges.len(),
    ensures
        runs::<Level>(state, edges.take(n)),
        run::<Level>(state, edges.take(n)).label.len() == state.label.len(),
        run::<Level>(state, edges.take(n)).capacity == state.capacity,
        run::<Level>(state, edges.take(n)).iteration == state.iteration,
        search_ready(run::<Level>(state, edges.take(n))),
    decreases n,
{
    let part = edges.take(n);
    if n == 0 {
        assert(runs::<Level>(state, part));
    } else {
        let before = edges.take(n - 1);
        lemma_pass(state, edges, n - 1);
        assert(part.drop_last() =~= before);
        assert(part.last() == edges[n - 1]);
        assert forall|i: int| 0 <= i < part.len() implies Level::accepts(
            #[trigger] run::<Level>(state, part.take(i)),
            part[i].0,
            part[i].1,
        ) by {
            if i < n - 1 {
                assert(part.take(i) =~= before.take(i));
                assert(Level::accepts(run::<Level>(state, before.take(i)), before[i].0, before[i].1));
            } else {
                assert(part.take(i) =~= before);
            }
        }
    }
}

/// The first pass in memory.
pub struct Contract {
    roots: Vec<u32>,
    label: Vec<u16>,
}

impl Contract {
    /// The root that the parents lead to from `v`.
    fn chase(&self, v: u32) -> (root: u32)
        requires
            lowers(self.roots@),
            v < self.roots@.len(),
        ensures
            root == chased(self.roots@, v),
            root < self.roots@.len(),
    {
        proof {
            lemma_chased(self.roots@, v);
        }
        let mut x: u32 = self.roots[v as usize];
        while x != self.roots[x as usize]
            invariant
                lowers(self.roots@),
                x < self.roots@.len(),
                chased(self.roots@, x) == chased(self.roots@, v),
            decreases x,
        {
            proof {
                lemma_chased(self.roots@, x);
            }
            x = self.roots[x as usize];
        }
        x
    }
}

impl EdgeAction for Contract {
    type State = Contraction;

    closed spec fn state(&self) -> Contraction {
        Contraction { roots: self.roots@, label: self.label@ }
    }

    open spec fn accepts(state: Contraction, x: u32, y: u32) -> bool {
        &&& state.roots.len() == state.label.len()
        &&& lowers(state.roots)
        &&& x < state.roots.len()
        &&& y < state.roots.len()
    }

    open spec fn step(state: Contraction, x: u32, y: u32) -> Contraction {
        contracted(state, x, y)
    }

    fn apply(&mut self, x: u32, y: u32) {
        if x == 0 {
            self.label.set(y as usize, 1);
        }
        if y == 0 {
            self.label.set(x as usize, 1);
        }
        let x: u32 = self.chase(x);
        let y: u32 = self.chase(y);

        // works for Hilbert curve order
        let least: u32 = if x < y {
            x
        } else {
            y
        };
        self.roots.set(x as usize, least);
        self.roots.set(y as usize, least);
    }
}

/// The search in memory.
pub struct Level {
    label: Vec<u16>,
    roots: Vec<(u32, u32)>,
    edges: Vec<(u32, u32)>,
    capacity: usize,
    iteration: u16,
}

impl View for Level {
    type V = Search;

    closed spec fn view(&self) -> Search {
        Search {
            label: self.label@,
            trace: self.roots@,
            residual: self.edges@,
            capacity: self.capacity as nat,
            iteration: self.iteration,
        }
    }
}

impl EdgeAction for Level {
    type State = Search;

    closed spec fn state(&self) -> Search {
        self@
    }

    open spec fn accepts(state: Search, x: u32, y: u32) -> bool {
        &&& search_ready(state)
        &&& x < state.label.len()
        &&& y < state.label.len()
    }

    open spec fn step(state: Search, x: u32, y: u32) -> Search {
        searched(state, x, y)
    }

    fn apply(&mut self, src: u32, dst: u32) {
        let label_src: u16 = self.label[src as usize];
        let label_dst: u16 = self.label[dst as usize];
        let iteration: u16 = self.iteration;

        if self.edges.len() < self.capacity {
            if (label_src > iteration && label_dst > iteration + 1) || (label_dst > iteration && label_src > iteration
                + 1) {
                self.edges.push((src, dst));
            }
        }
        if label_src == iteration && label_dst > iteration + 1 {
            self.label.set(dst as usize, iteration + 1);
            self.roots.push((dst, src));
        }
        if label_dst == iteration && label_src > iteration + 1 {
            self.label.set(src as usize, iteration + 1);
            self.roots.push((src, dst));
        }
    }
}

impl Level {
    /// The label of every node: its distance from node 0 as far as the search got.
    pub fn label(&self) -> (out: &Vec<u16>)
        ensures
            out@ == self@.label,
    {
        &self.label
    }

    /// For every node that a pass has labeled, the edge by which it was, the node first.
    pub fn roots(&self) -> (out: &Vec<(u32, u32)>)
        ensures
            out@ == self@.trace,
    {
        &self.roots
    }

    /// The distance at which the search ended.
    pub fn iteration(&self) -> (out: u16)
        ensures
            out == self@.iteration,
    {
        self.iteration
    }

    /// One pass over the buffer, at the distance of the search.
    fn drain(&mut self) -> (changed: bool)
        requires
            old(self)@.iteration < 65535,
            forall|i: int|
                0 <= i < old(self)@.residual.len() ==> (#[trigger] old(self)@.residual[i]).0 < old(self)@.label.len()
                    && old(self)@.residual[i].1 < old(self)@.label.len(),
        ensures
            ({
                let pass = drained(
                    Drain { label: old(self)@.label, trace: old(self)@.trace, kept: Seq::empty(), changed: false },
                    old(self)@.iteration,
                    old(self)@.residual,
                );
                &&& final(self)@ == Search {
                    label: pass.label,
                    trace: pass.trace,
                    residual: pass.kept,
                    ..old(self)@
                }
                &&& changed == pass.changed
            }),
            final(self)@.label.len() == old(self)@.label.len(),
            forall|i: int|
                0 <= i < final(self)@.residual.len() ==> (#[trigger] final(self)@.residual[i]).0 < old(self)@.label.len()
                    && final(self)@.residual[i].1 < old(self)@.label.len(),
    {
        let ghost begin = Drain { label: self@.label, trace: self@.trace, kept: Seq::empty(), changed: false };
        let ghost list = self@.residual;
        let iteration: u16 = self.iteration;
        let mut kept: Vec<(u32, u32)> = Vec::new();
        let mut changed: bool = false;
        let mut i: usize = 0;
        assert(list.take(0) =~= Seq::<(u32, u32)>::empty());
        while i < self.edges.len()
            invariant
                i <= list.len(),
                iteration < 65535,
                self.edges@ == list,
                self.iteration == iteration,
                self.capacity == old(self).capacity,
                self.label@.len() == old(self)@.label.len(),
                forall|k: int|
                    0 <= k < list.len() ==> (#[trigger] list[k]).0 < self.label@.len() && list[k].1 < self.label@.len(),
                forall|k: int|
                    0 <= k < kept@.len() ==> (#[trigger] kept@[k]).0 < self.label@.len() && kept@[k].1
                        < self.label@.len(),
                drained(begin, iteration, list.take(i as int)) == (Drain {
                    label: self.label@,
                    trace: self.roots@,
                    kept: kept@,
                    changed,
                }),
            decreases list.len() - i,
        {
            let (src, dst) = self.edges[i];
            proof {
                assert(list.take(i + 1).drop_last() =~= list.take(i as int));
                assert(list.take(i + 1).last() == list[i as int]);
            }
            if self.label[src as usize] == iteration && self.label[dst as usize] > iteration + 1 {
                self.label.set(dst as usize, iteration + 1);
                self.roots.push((dst, src));
                changed = true;
            } else if self.label[dst as usize] == iteration && self.label[src as usize] > iteration + 1 {
                self.label.set(src as usize, iteration + 1);
                self.roots.push((src, dst));
                changed = true;
            }
            if (self.label[src as usize] > iteration && self.label[dst as usize] > iteration + 1) || (
            self.label[dst as usize] > iteration && self.label[src as usize] > iteration + 1) {
                kept.push((src, dst));
            }
            i += 1;
        }
        assert(list.take(i as int) =~= list);
        self.edges = kept;
        changed
    }
}

/// The search for the distances from node 0 in `graph`, whose nodes are below `nodes`,
/// with a buffer of `RESIDUAL_CAPACITY` edges. In the end every node but node 0 has the
/// label 0 if the edges do not join it to node 0, and else its distance from node 0; only
/// where the search ended at the distance 65535, the nodes further out than 65534 are
/// left unreached. Every entry of the trace is a labeled node with a neighbour that is
/// node 0 or one step nearer to it.
pub fn bfs<G: EdgeMapper>(graph: &G, nodes: u32) -> (out: Level)
    requires
        nodes > 0,
        within(graph.edges(), nodes as nat),
    ensures
        out@ == explored(graph.edges(), nodes as nat, RESIDUAL_CAPACITY as nat),
        out@.label.len() == nodes,
        labeled(out@.label, graph.edges(), reached_depth(out@.iteration), false),
        out@.iteration < 65535 ==> forall|v: int| 0 <= v < nodes ==> #[trigger] out@.label[v] != UNREACHED,
        traced(out@.trace, out@.label, graph.edges(), out@.iteration as nat),
{
    bfs_with_capacity(graph, nodes, RESIDUAL_CAPACITY)
}

/// The search for the distances from node 0 in `graph`, whose nodes are below `nodes`,
/// with a buffer of `capacity` edges; what holds of the labels and the trace in the end
/// is what holds of them with a buffer of `RESIDUAL_CAPACITY` edges.
pub fn bfs_with_capacity<G: EdgeMapper>(graph: &G, nodes: u32, capacity: usize) -> (out: Level)
    requires
        nodes > 0,
        within(graph.edges(), nodes as nat),
    ensures
        out@ == explored(graph.edges(), nodes as nat, capacity as nat),
        out@.label.len() == nodes,
        labeled(out@.label, graph.edges(), reached_depth(out@.iteration), false),
        out@.iteration < 65535 ==> forall|v: int| 0 <= v < nodes ==> #[trigger] out@.label[v] != UNREACHED,
        traced(out@.trace, out@.label, graph.edges(), out@.iteration as nat),
{
    proof {
        lemma_explored(graph.edges(), nodes as nat, capacity as nat);
    }
    let ghost edges = graph.edges();
    let mut roots: Vec<u32> = Vec::new();
    let mut label: Vec<u16> = Vec::new();
    let mut v: u32 = 0;
    while v < nodes
        invariant
            v <= nodes,
            roots@ =~= Seq::new(v as nat, |v: int| v as u32),
            label@ =~= Seq::new(v as nat, |v: int| if v == 0 { 0u16 } else { UNREACHED }),
        decreases nodes - v,
    {
        roots.push(v);
        label.push(if v == 0 { 0 } else { UNREACHED });
        v += 1;
    }
    let mut first = Contract { roots, label };
    proof {
        lemma_contraction(edges, nodes as nat, edges.len() as int);
        assert(edges.take(edges.len() as int) =~= edges);
    }
    graph.map_edges(&mut first);

    let ghost contraction = first.state();
    let mut i: u32 = 1;
    let mut label: Vec<u16> = Vec::new();
    label.push(first.label[0]);
    while i < nodes
        invariant
            1 <= i <= nodes,
            first.state() == contraction,
            contraction.roots.len() == nodes,
            contraction.label.len() == nodes,
            lowers(contraction.roots),
            label@ =~= seeded(contraction).take(i as int),
        decreases nodes - i,
    {
        let node: u32 = first.chase(i);
        label.push(if node != 0 { 0 } else { first.label[i as usize] });
        i += 1;
    }
    assert(seeded(contraction).take(nodes as int) =~= seeded(contraction));

    let mut trace: Vec<(u32, u32)> = Vec::with_capacity(nodes as usize);
    let mut i: u32 = 1;
    while i < nodes
        invariant
            1 <= i <= nodes,
            label@.len() == nodes,
            trace@ == seeds(label@, i as int),
        decreases nodes - i,
    {
        if label[i as usize] == 1 {
            trace.push((i, 0));
        }
        i += 1;
    }

    let mut search = Level { label, roots: trace, edges: Vec::new(), capacity, iteration: 1 };
    let ghost begin = search@;
    let mut full: bool = true;
    let mut allocated: bool = false;
    // iterate as long as the buffer fills
    while full
        invariant
            edges == graph.edges(),
            within(edges, nodes as nat),
            search@.label.len() == nodes,
            search@.capacity == capacity,
            search@.iteration >= 1,
            full ==> search@.iteration < 65535,
            full ==> swept(search@, edges) == swept(begin, edges),
            !full ==> search@ == swept(begin, edges),
            forall|i: int|
                0 <= i < search@.residual.len() ==> (#[trigger] search@.residual[i]).0 < nodes && search@.residual[i].1
                    < nodes,
        decreases 65535 - search@.iteration, (if full { 1nat } else { 0nat }),
    {
        // allocate if the first iteration, clear otherwise
        if !allocated {
            search.edges = Vec::with_capacity(capacity);
            allocated = true;
        } else {
            search.edges = Vec::new();
        }
        let ghost cleared = search@;
        proof {
            lemma_pass(cleared, edges, edges.len() as int);
            assert(edges.take(edges.len() as int) =~= edges);
            lemma_residual_within(cleared, edges, edges.len() as int);
        }
        graph.map_edges(&mut search);
        search.iteration += 1;
        full = search.iteration < 65535 && search.edges.len() == capacity;
    }

    if search.iteration < 65535 {
        let ghost main = search@;
        let mut done: bool = false;
        while !done
            invariant
                search@.label.len() == nodes,
                !done ==> search@.iteration < 65535,
                !done ==> settled(search@) == settled(main),
                done ==> search@ == settled(main),
                forall|i: int|
                    0 <= i < search@.residual.len() ==> (#[trigger] search@.residual[i]).0 < nodes
                        && search@.residual[i].1 < nodes,
            decreases 65535 - search@.iteration, (if done { 0nat } else { 1nat }),
        {
            let changed = search.drain();
            let ghost kept = search@.residual;
            search.iteration += 1;
            assert(search@.residual == kept);
            done = !(search.iteration < 65535 && changed);
        }
    }
    search
}

/// What a pass over the graph puts in the buffer are edges between nodes.
pub proof fn lemma_residual_within(state: Search, edges: Seq<(u32, u32)>, n: int)
    requires
        within(edges, state.label.len()),
        0 <= n <= edges.len(),
        forall|i: int|
            0 <= i < state.residual.len() ==> (#[trigger] state.residual[i]).0 < state.label.len() && state.residual[i].1
                < state.label.len(),
    ensures
        forall|i: int|
            0 <= i < run::<Level>(state, edges.take(n)).residual.len() ==> (#[trigger] run::<Level>(
                state,
                edges.take(n),
            ).residual[i]).0 < state.label.len() && run::<Level>(state, edges.take(n)).residual[i].1
                < state.label.len(),
    decreases n,
{
    if n > 0 {
        let part = edges.take(n);
        let before = edges.take(n - 1);
        lemma_residual_within(state, edges, n - 1);
        assert(part.drop_last() =~= before);
        assert(part.last() == edges[n - 1]);
        let earlier = run::<Level>(state, before);
        let after = run::<Level>(state, part);
        assert forall|i: int| 0 <= i < after.residual.len() implies (#[trigger] after.residual[i]).0
            < state.label.len() && after.residual[i].1 < state.label.len() by {
            if i < earlier.residual.len() {
                assert(after.residual[i] == earlier.residual[i]);
            }
        }
    }
}

/// The number of the first `n` of `label` that are `distance`.
pub open spec fn count_of(label: Seq<u16>, distance: u16, n: int) -> nat
    decreases n,
{
    if n <= 0 {
        0
    } else {
        count_of(label, distance, n - 1) + (if label[n - 1] == distance { 1nat } else { 0nat })
    }
}

/// For every distance, the number of nodes that have it as their label.
pub fn histogram(label: &Vec<u16>) -> (counts: Vec<u64>)
    ensures
        counts@.len() == 65536,
        forall|d: int| 0 <= d < 65536 ==> #[trigger] counts@[d] == count_of(label@, d as u16, label@.len() as int),
{
    let mut counts: Vec<u64> = Vec::new();
    let mut d: usize = 0;
    while d < 65536
        invariant
            d <= 65536,
            counts@.len() == d,
            forall|k: int| 0 <= k < d ==> #[trigger] counts@[k] == 0,
        decreases 65536 - d,
    {
        counts.push(0u64);
        d += 1;
    }
    let mut i: usize = 0;
    while i < label.len()
        invariant
            i <= label@.len(),
            counts@.len() == 65536,
            forall|d: int| 0 <= d < 65536 ==> #[trigger] counts@[d] == count_of(label@, d as u16, i as int),
            forall|d: int| 0 <= d < 65536 ==> #[trigger] counts@[d] <= i,
        decreases label@.len() - i,
    {
        let x: usize = label[i] as usize;
        let count: u64 = counts[x];
        counts.set(x, count + 1);
        i += 1;
    }
    counts
}

} // verus!
