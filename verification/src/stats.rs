//! The size of a graph: its largest source, its largest destination and the number of
//! its edges.

use vstd::prelude::*;
use crate::graph_iterator::{EdgeAction, EdgeMapper, run};

verus! {

/// What a scan has seen of a graph.
pub struct Tally {
    pub max_x: u32,
    pub max_y: u32,
    pub edges: nat,
}

/// What a scan that has seen `tally` sees with the edge `(x, y)`.
pub open spec fn tallied(tally: Tally, x: u32, y: u32) -> Tally {
    Tally {
        max_x: if tally.max_x < x { x } else { tally.max_x },
        max_y: if tally.max_y < y { y } else { tally.max_y },
        edges: tally.edges + 1,
    }
}

/// Whether `max` is the largest of `values`, or zero where there are none.
pub open spec fn is_largest(max: u32, values: Seq<u32>) -> bool {
    &&& forall|i: int| 0 <= i < values.len() ==> #[trigger] values[i] <= max
    &&& max == 0 || exists|i: int| 0 <= i < values.len() && #[trigger] values[i] == max
}

/// The sources of `edges`.
pub open spec fn sources(edges: Seq<(u32, u32)>) -> Seq<u32> {
    edges.map_values(|e: (u32, u32)| e.0)
}

/// The destinations of `edges`.
pub open spec fn destinations(edges: Seq<(u32, u32)>) -> Seq<u32> {
    edges.map_values(|e: (u32, u32)| e.1)
}

/// The size of a graph.
pub struct Stats {
    pub max_x: u32,
    pub max_y: u32,
    pub edges: u64,
}

impl EdgeAction for Stats {
    type State = Tally;

    open spec fn state(&self) -> Tally {
        Tally { max_x: self.max_x, max_y: self.max_y, edges: self.edges as nat }
    }

    open spec fn accepts(state: Tally, x: u32, y: u32) -> bool {
        state.edges < u64::MAX
    }

    open spec fn step(state: Tally, x: u32, y: u32) -> Tally {
        tallied(state, x, y)
    }

    fn apply(&mut self, x: u32, y: u32) {
        if self.max_x < x {
            self.max_x = x;
        }
        if self.max_y < y {
            self.max_y = y;
        }
        self.edges += 1;
    }
}

impl Stats {
    /// A number above every node of the graph: one more than the largest source or
    /// destination.
    pub fn nodes(&self) -> (out: u64)
        ensures
            out == (if self.max_x < self.max_y { self.max_y } else { self.max_x }) + 1,
    {
        let max: u32 = if self.max_x < self.max_y {
            self.max_y
        } else {
            self.max_x
        };
        max as u64 + 1
    }
}

/// What a scan sees of `edges`, from nothing.
pub proof fn lemma_tally(edges: Seq<(u32, u32)>)
    ensures
        run::<Stats>(Tally { max_x: 0, max_y: 0, edges: 0 }, edges).edges == edges.len(),
        is_largest(run::<Stats>(Tally { max_x: 0, max_y: 0, edges: 0 }, edges).max_x, sources(edges)),
        is_largest(run::<Stats>(Tally { max_x: 0, max_y: 0, edges: 0 }, edges).max_y, destinations(edges)),
    decreases edges.len(),
{
    let start = Tally { max_x: 0, max_y: 0, edges: 0 };
    if edges.len() > 0 {
        let before = edges.drop_last();
        lemma_tally(before);
        let earlier = run::<Stats>(start, before);
        let after = run::<Stats>(start, edges);
        let n = edges.len() - 1;
        assert forall|i: int| 0 <= i < edges.len() implies #[trigger] sources(edges)[i] <= after.max_x by {
            if i < n {
                assert(sources(before)[i] == sources(edges)[i]);
            }
        }
        assert forall|i: int| 0 <= i < edges.len() implies #[trigger] destinations(edges)[i] <= after.max_y by {
            if i < n {
                assert(destinations(before)[i] == destinations(edges)[i]);
            }
        }
        if after.max_x != 0 {
            if earlier.max_x < edges.last().0 {
                assert(sources(edges)[n] == after.max_x);
            } else {
                let i = choose|i: int| 0 <= i < before.len() && #[trigger] sources(before)[i] == earlier.max_x;
                assert(sources(edges)[i] == after.max_x);
            }
        }
        if after.max_y != 0 {
            if earlier.max_y < edges.last().1 {
                assert(destinations(edges)[n] == after.max_y);
            } else {
                let i = choose|i: int| 0 <= i < before.len() && #[trigger] destinations(before)[i] == earlier.max_y;
                assert(destinations(edges)[i] == after.max_y);
            }
        }
    }
}

/// The size of `graph`.
pub fn stats<G: EdgeMapper>(graph: &G) -> (out: Stats)
    requires
        graph.edges().len() <= u64::MAX,
    ensures
        out.edges == graph.edges().len(),
        is_largest(out.max_x, sources(graph.edges())),
        is_largest(out.max_y, destinations(graph.edges())),
{
    let mut seen = Stats { max_x: 0, max_y: 0, edges: 0 };
    proof {
        let edges = graph.edges();
        let start = Tally { max_x: 0, max_y: 0, edges: 0 };
        lemma_tally(edges);
        assert forall|i: int| 0 <= i < edges.len() implies Stats::accepts(
            #[trigger] run::<Stats>(start, edges.take(i)),
            edges[i].0,
            edges[i].1,
        ) by {
            lemma_tally(edges.take(i));
        }
    }
    graph.map_edges(&mut seen);
    seen
}

} // verus!
