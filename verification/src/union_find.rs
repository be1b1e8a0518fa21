//! Connected components by a forest of nodes: every node points towards the root of its
//! tree, and an edge between two trees hangs the root of the lower under the root of the
//! higher.

use vstd::prelude::*;
use vstd::arithmetic::power2::{pow2, lemma_pow2_unfold, lemma_pow2_strictly_increases};
use crate::connectivity::{joined_by, within};
use crate::curve_model::lemma_pow2_values;
use crate::graph_iterator::{EdgeAction, EdgeMapper, run, runs};

verus! {

/// A forest on the nodes below `roots.len()`: the parent of every node, a root being its
/// own parent, and the rank of every node, a bound on the height of the tree below it.
pub struct Forest {
    pub roots: Seq<u32>,
    pub ranks: Seq<u8>,
}

/// The sum of `weights`.
pub open spec fn sum(weights: Seq<nat>) -> nat
    decreases weights.len(),
{
    if weights.len() == 0 {
        0
    } else {
        sum(weights.drop_last()) + weights.last()
    }
}

/// Whether `weights` show that the ranks of `forest` are small: a root of rank `r` has
/// at least the weight `2^r`, and there is no more weight than nodes.
pub open spec fn weighs(forest: Forest, weights: Seq<nat>) -> bool {
    &&& weights.len() == forest.roots.len()
    &&& sum(weights) <= forest.roots.len()
    &&& forall|v: int|
        0 <= v < forest.roots.len() && forest.roots[v] == v ==> pow2(forest.ranks[v] as nat) <= #[trigger] weights[v]
}

/// Whether `forest` is a forest: every parent is a node, ranks grow towards the roots,
/// and the ranks are small.
pub open spec fn is_forest(forest: Forest) -> bool {
    &&& forest.roots.len() == forest.ranks.len()
    &&& forest.roots.len() <= u32::MAX
    &&& forall|v: int|
        0 <= v < forest.roots.len() ==> {
            &&& (#[trigger] forest.roots[v]) < forest.roots.len()
            &&& forest.roots[v] != v ==> forest.ranks[v] < forest.ranks[forest.roots[v] as int]
        }
    &&& exists|weights: Seq<nat>| weighs(forest, weights)
}

/// The forest in which every node below `nodes` is a tree of its own.
pub open spec fn singletons(nodes: nat) -> Forest {
    Forest { roots: Seq::new(nodes, |v: int| v as u32), ranks: Seq::new(nodes, |v: int| 0u8) }
}

/// The root of the tree of `v`.
pub open spec fn find(forest: Forest, v: u32) -> u32
    decreases 256 - forest.ranks[v as int],
{
    if v < forest.roots.len() && v < forest.ranks.len() && forest.roots[v as int] != v && forest.roots[v as int]
        < forest.ranks.len() && forest.ranks[v as int] < forest.ranks[forest.roots[v as int] as int] {
        find(forest, forest.roots[v as int])
    } else {
        v
    }
}

/// The forest after the edge `(x, y)`: where `x` and `y` are in two trees, the root of
/// lower rank hangs under the other; of two roots of one rank, that of `y` hangs under
/// that of `x`, whose rank grows by one.
pub open spec fn united(forest: Forest, x: u32, y: u32) -> Forest {
    let a = find(forest, x);
    let b = find(forest, y);
    if a == b {
        forest
    } else if forest.ranks[a as int] < forest.ranks[b as int] {
        Forest { roots: forest.roots.update(a as int, b), ..forest }
    } else if forest.ranks[a as int] > forest.ranks[b as int] {
        Forest { roots: forest.roots.update(b as int, a), ..forest }
    } else {
        Forest {
            roots: forest.roots.update(b as int, a),
            ranks: forest.ranks.update(a as int, (forest.ranks[a as int] + 1) as u8),
        }
    }
}

/// The root of a tree is a node and a root, and of no lower rank than the nodes of
/// the tree.
pub proof fn lemma_find_is_root(forest: Forest, v: u32)
    requires
        is_forest(forest),
        v < forest.roots.len(),
    ensures
        find(forest, v) < forest.roots.len(),
        forest.roots[find(forest, v) as int] == find(forest, v),
        forest.ranks[v as int] <= forest.ranks[find(forest, v) as int],
        forest.roots[v as int] == v ==> find(forest, v) == v,
        find(forest, forest.roots[v as int]) == find(forest, v),
    decreases 256 - forest.ranks[v as int],
{
    if forest.roots[v as int] != v {
        lemma_find_is_root(forest, forest.roots[v as int]);
    }
}

/// A weight is no more than the sum of the weights, and a change of one weight changes
/// the sum by as much.
pub proof fn lemma_sum_update(weights: Seq<nat>, i: int, weight: nat)
    requires
        0 <= i < weights.len(),
    ensures
        weights[i] <= sum(weights),
        sum(weights.update(i, weight)) == sum(weights) - weights[i] + weight,
    decreases weights.len(),
{
    let n = weights.len() - 1;
    if i < n {
        lemma_sum_update(weights.drop_last(), i, weight);
        assert(weights.update(i, weight).drop_last() =~= weights.drop_last().update(i, weight));
    } else {
        assert(weights.update(i, weight).drop_last() =~= weights.drop_last());
    }
}

/// Weights of one each show that the ranks of the forest of single nodes are small.
proof fn lemma_singletons(nodes: nat)
    requires
        nodes <= u32::MAX,
    ensures
        is_forest(singletons(nodes)),
{
    let weights = Seq::new(nodes, |v: int| 1nat);
    lemma_ones(nodes);
    lemma_pow2_values();
    assert(weighs(singletons(nodes), weights));
}

/// As many ones sum to their number.
proof fn lemma_ones(n: nat)
    ensures
        sum(Seq::new(n, |v: int| 1nat)) == n,
    decreases n,
{
    if n > 0 {
        lemma_ones((n - 1) as nat);
        assert(Seq::new(n, |v: int| 1nat).drop_last() =~= Seq::new((n - 1) as nat, |v: int| 1nat));
    }
}

/// Two roots of one rank `r` in a forest of fewer than `2^32` nodes have a rank below 32.
proof fn lemma_rank_small(forest: Forest, weights: Seq<nat>, a: u32, b: u32)
    requires
        is_forest(forest),
        weighs(forest, weights),
        a < forest.roots.len(),
        b < forest.roots.len(),
        a != b,
        forest.roots[a as int] == a,
        forest.roots[b as int] == b,
        forest.ranks[a as int] == forest.ranks[b as int],
    ensures
        forest.ranks[a as int] < 32,
        pow2((forest.ranks[a as int] + 1) as nat) <= weights[a as int] + weights[b as int],
{
    let r = forest.ranks[a as int] as nat;
    lemma_sum_update(weights, a as int, 0);
    lemma_sum_update(weights.update(a as int, 0), b as int, 0);
    lemma_pow2_unfold(r + 1);
    lemma_pow2_values();
    if r >= 32 {
        if r + 1 > 33 {
            lemma_pow2_strictly_increases(33, r + 1);
        }
        assert(pow2(33) == 0x2_0000_0000) by {
            vstd::arithmetic::power2::lemma2_to64_rest();
        }
    }
}

/// The root of every tree after one root is hung under another.
proof fn lemma_find_hung(forest: Forest, after: Forest, child: u32, parent: u32, v: u32)
    requires
        is_forest(forest),
        is_forest(after),
        child < forest.roots.len(),
        parent < forest.roots.len(),
        child != parent,
        forest.roots[child as int] == child,
        forest.roots[parent as int] == parent,
        after.roots == forest.roots.update(child as int, parent),
        after.ranks == forest.ranks || after.ranks == forest.ranks.update(
            parent as int,
            (forest.ranks[parent as int] + 1) as u8,
        ),
        v < forest.roots.len(),
    ensures
        find(after, v) == (if find(forest, v) == child { parent } else { find(forest, v) }),
    decreases 256 - forest.ranks[v as int],
{
    lemma_find_is_root(forest, v);
    lemma_find_is_root(after, v);
    lemma_find_is_root(after, parent);
    if forest.roots[v as int] != v {
        lemma_find_hung(forest, after, child, parent, forest.roots[v as int]);
        lemma_find_is_root(forest, forest.roots[v as int]);
        lemma_find_is_root(after, forest.roots[v as int]);
    } else if v == child {
        lemma_find_is_root(after, child);
    }
}

/// An edge between nodes of a forest leaves a forest.
pub proof fn lemma_united_is_forest(forest: Forest, x: u32, y: u32)
    requires
        is_forest(forest),
        x < forest.roots.len(),
        y < forest.roots.len(),
    ensures
        is_forest(united(forest, x, y)),
        united(forest, x, y).roots.len() == forest.roots.len(),
        find(forest, x) != find(forest, y) && forest.ranks[find(forest, x) as int] == forest.ranks[find(
            forest,
            y,
        ) as int] ==> forest.ranks[find(forest, x) as int] < 32,
{
    let a = find(forest, x);
    let b = find(forest, y);
    let after = united(forest, x, y);
    lemma_find_is_root(forest, x);
    lemma_find_is_root(forest, y);
    if a != b {
        let weights = choose|weights: Seq<nat>| weighs(forest, weights);
        let (child, parent) = if forest.ranks[a as int] < forest.ranks[b as int] {
            (a, b)
        } else {
            (b, a)
        };
        let moved = weights.update(parent as int, weights[parent as int] + weights[child as int]).update(
            child as int,
            0,
        );
        lemma_sum_update(weights, parent as int, weights[parent as int] + weights[child as int]);
        lemma_sum_update(
            weights.update(parent as int, weights[parent as int] + weights[child as int]),
            child as int,
            0,
        );
        if forest.ranks[a as int] == forest.ranks[b as int] {
            lemma_rank_small(forest, weights, a, b);
        }
        assert(weighs(after, moved));
        assert forall|v: int| 0 <= v < after.roots.len() implies {
            &&& (#[trigger] after.roots[v]) < after.roots.len()
            &&& after.roots[v] != v ==> after.ranks[v] < after.ranks[after.roots[v] as int]
        } by {
            if v != child {
                assert(after.roots[v] == forest.roots[v]);
            }
        }
    }
}

/// After an edge, two nodes are in one tree exactly if they were, or the one was in the
/// tree of the one end of the edge and the other in the tree of its other end.
pub proof fn lemma_united_classes(forest: Forest, x: u32, y: u32, u: u32, v: u32)
    requires
        is_forest(forest),
        x < forest.roots.len(),
        y < forest.roots.len(),
        u < forest.roots.len(),
        v < forest.roots.len(),
    ensures
        (find(united(forest, x, y), u) == find(united(forest, x, y), v)) == ({
            ||| find(forest, u) == find(forest, v)
            ||| find(forest, u) == find(forest, x) && find(forest, y) == find(forest, v)
            ||| find(forest, u) == find(forest, y) && find(forest, x) == find(forest, v)
        }),
{
    let a = find(forest, x);
    let b = find(forest, y);
    let after = united(forest, x, y);
    lemma_find_is_root(forest, x);
    lemma_find_is_root(forest, y);
    lemma_united_is_forest(forest, x, y);
    if a != b {
        let (child, parent) = if forest.ranks[a as int] < forest.ranks[b as int] {
            (a, b)
        } else {
            (b, a)
        };
        lemma_find_hung(forest, after, child, parent, u);
        lemma_find_hung(forest, after, child, parent, v);
    }
}

/// The forest that the edges of a graph leave, from single nodes, is a forest in which
/// two nodes are in one tree exactly if the edges join them.
pub proof fn lemma_forest_of(edges: Seq<(u32, u32)>, nodes: nat)
    requires
        nodes <= u32::MAX,
        within(edges, nodes),
    ensures
        is_forest(run::<UnionFind>(singletons(nodes), edges)),
        run::<UnionFind>(singletons(nodes), edges).roots.len() == nodes,
        forall|u: u32, v: u32|
            u < nodes && v < nodes ==> (#[trigger] find(run::<UnionFind>(singletons(nodes), edges), u) == #[trigger] find(
                run::<UnionFind>(singletons(nodes), edges),
                v,
            )) == joined_by(edges, u, v),
    decreases edges.len(),
{
    let forest = run::<UnionFind>(singletons(nodes), edges);
    if edges.len() == 0 {
        lemma_singletons(nodes);
        assert forall|u: u32, v: u32| u < nodes && v < nodes implies (#[trigger] find(forest, u) == #[trigger] find(
            forest,
            v,
        )) == joined_by(edges, u, v) by {
            lemma_find_is_root(forest, u);
            lemma_find_is_root(forest, v);
        }
    } else {
        let before = edges.drop_last();
        let last = edges.last();
        assert(within(before, nodes)) by {
            assert forall|i: int| 0 <= i < before.len() implies (#[trigger] before[i]).0 < nodes && before[i].1
                < nodes by {
                assert(before[i] == edges[i]);
            }
        }
        assert(last == edges[edges.len() - 1]);
        lemma_forest_of(before, nodes);
        let earlier = run::<UnionFind>(singletons(nodes), before);
        assert(forest == united(earlier, last.0, last.1));
        lemma_united_is_forest(earlier, last.0, last.1);
        assert forall|u: u32, v: u32| u < nodes && v < nodes implies (#[trigger] find(forest, u) == #[trigger] find(
            forest,
            v,
        )) == joined_by(edges, u, v) by {
            lemma_united_classes(earlier, last.0, last.1, u, v);
            assert((find(earlier, u) == find(earlier, v)) == joined_by(before, u, v));
            assert((find(earlier, u) == find(earlier, last.0)) == joined_by(before, u, last.0));
            assert((find(earlier, last.1) == find(earlier, v)) == joined_by(before, last.1, v));
            assert((find(earlier, u) == find(earlier, last.1)) == joined_by(before, u, last.1));
            assert((find(earlier, last.0) == find(earlier, v)) == joined_by(before, last.0, v));
        }
    }
}

/// A forest takes every edge between its nodes.
pub proof fn lemma_forest_runs(edges: Seq<(u32, u32)>, nodes: nat)
    requires
        nodes <= u32::MAX,
        within(edges, nodes),
    ensures
        runs::<UnionFind>(singletons(nodes), edges),
{
    assert forall|i: int| 0 <= i < edges.len() implies UnionFind::accepts(
        #[trigger] run::<UnionFind>(singletons(nodes), edges.take(i)),
        edges[i].0,
        edges[i].1,
    ) by {
        assert forall|j: int| 0 <= j < edges.take(i).len() implies (#[trigger] edges.take(i)[j]).0 < nodes
            && edges.take(i)[j].1 < nodes by {
            assert(edges.take(i)[j] == edges[j]);
        }
        lemma_forest_of(edges.take(i), nodes);
    }
}

/// What the edges of a graph join is joined both ways, and what is joined to the same
/// node is joined.
pub proof fn lemma_joined_equivalence(edges: Seq<(u32, u32)>, nodes: nat, a: u32, b: u32, c: u32)
    requires
        nodes <= u32::MAX,
        within(edges, nodes),
        a < nodes,
        b < nodes,
        c < nodes,
    ensures
        joined_by(edges, a, b) == joined_by(edges, b, a),
        joined_by(edges, a, b) && joined_by(edges, b, c) ==> joined_by(edges, a, c),
{
    lemma_forest_of(edges, nodes);
    let forest = run::<UnionFind>(singletons(nodes), edges);
    assert((find(forest, a) == find(forest, b)) == joined_by(edges, a, b));
    assert((find(forest, b) == find(forest, a)) == joined_by(edges, b, a));
    assert((find(forest, b) == find(forest, c)) == joined_by(edges, b, c));
    assert((find(forest, a) == find(forest, c)) == joined_by(edges, a, c));
}

/// A forest in memory.
pub struct UnionFind {
    roots: Vec<u32>,
    ranks: Vec<u8>,
}

impl View for UnionFind {
    type V = Forest;

    closed spec fn view(&self) -> Forest {
        Forest { roots: self.roots@, ranks: self.ranks@ }
    }
}

impl UnionFind {
    /// The forest in which every node below `nodes` is a tree of its own.
    pub fn new(nodes: u32) -> (out: UnionFind)
        ensures
            out@ == singletons(nodes as nat),
            is_forest(out@),
    {
        proof {
            lemma_singletons(nodes as nat);
        }
        let mut roots: Vec<u32> = Vec::new();
        let mut ranks: Vec<u8> = Vec::new();
        let mut v: u32 = 0;
        while v < nodes
            invariant
                v <= nodes,
                roots@ =~= Seq::new(v as nat, |v: int| v as u32),
                ranks@ =~= Seq::new(v as nat, |v: int| 0u8),
            decreases nodes - v,
        {
            roots.push(v);
            ranks.push(0u8);
            v += 1;
        }
        UnionFind { roots, ranks }
    }

    /// The root of the tree of `v`.
    pub fn find(&self, v: u32) -> (root: u32)
        requires
            is_forest(self@),
            v < self@.roots.len(),
        ensures
            root == find(self@, v),
    {
        let mut x: u32 = v;
        proof {
            lemma_find_is_root(self@, x);
        }
        while x != self.roots[x as usize]
            invariant
                is_forest(self@),
                x < self@.roots.len(),
                find(self@, x) == find(self@, v),
            decreases 256 - self@.ranks[x as int],
        {
            proof {
                lemma_find_is_root(self@, x);
            }
            x = self.roots[x as usize];
        }
        proof {
            lemma_find_is_root(self@, x);
        }
        x
    }

    /// The number of nodes that are not the root of their tree.
    pub fn non_roots(&self) -> (count: u32)
        requires
            is_forest(self@),
        ensures
            count == non_roots_below(self@.roots, self@.roots.len() as int),
    {
        let mut non_roots: u32 = 0;
        let mut i: usize = 0;
        while i < self.roots.len()
            invariant
                i <= self@.roots.len() <= u32::MAX,
                non_roots == non_roots_below(self@.roots, i as int),
                non_roots <= i,
            decreases self@.roots.len() - i,
        {
            if i as u32 != self.roots[i] {
                non_roots += 1;
            }
            i += 1;
        }
        non_roots
    }
}

/// The number of nodes below `n` that are not their own parent.
pub open spec fn non_roots_below(roots: Seq<u32>, n: int) -> nat
    decreases n,
{
    if n <= 0 {
        0
    } else {
        non_roots_below(roots, n - 1) + (if roots[n - 1] != n - 1 { 1nat } else { 0nat })
    }
}

impl EdgeAction for UnionFind {
    type State = Forest;

    closed spec fn state(&self) -> Forest {
        self@
    }

    open spec fn accepts(state: Forest, x: u32, y: u32) -> bool {
        is_forest(state) && x < state.roots.len() && y < state.roots.len()
    }

    open spec fn step(state: Forest, x: u32, y: u32) -> Forest {
        united(state, x, y)
    }

    fn apply(&mut self, x: u32, y: u32) {
        proof {
            lemma_united_is_forest(self@, x, y);
            lemma_find_is_root(self@, x);
            lemma_find_is_root(self@, y);
        }
        let x: u32 = self.find(x);
        let y: u32 = self.find(y);
        if x != y {
            let rank_x: u8 = self.ranks[x as usize];
            let rank_y: u8 = self.ranks[y as usize];
            if rank_x < rank_y {
                self.roots.set(x as usize, y);
            } else if rank_x > rank_y {
                self.roots.set(y as usize, x);
            } else {
                self.roots.set(y as usize, x);
                self.ranks.set(x as usize, rank_x + 1);
            }
        }
    }
}

/// The forest that the edges of `graph` leave of `nodes` single nodes: two nodes are in
/// one tree of it exactly if the edges join them.
pub fn union_find<G: EdgeMapper>(graph: &G, nodes: u32) -> (out: UnionFind)
    requires
        within(graph.edges(), nodes as nat),
    ensures
        out@ == run::<UnionFind>(singletons(nodes as nat), graph.edges()),
        is_forest(out@),
        out@.roots.len() == nodes,
        forall|u: u32, v: u32|
            u < nodes && v < nodes ==> (#[trigger] find(out@, u) == #[trigger] find(out@, v)) == joined_by(
                graph.edges(),
                u,
                v,
            ),
{
    let mut forest = UnionFind::new(nodes);
    proof {
        lemma_forest_runs(graph.edges(), nodes as nat);
        lemma_forest_of(graph.edges(), nodes as nat);
    }
    graph.map_edges(&mut forest);
    forest
}

} // verus!
