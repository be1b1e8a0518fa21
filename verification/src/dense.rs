//! Dense names for the nodes of a graph: every node is renamed to its place in the order
//! in which a scan first meets the nodes.

use vstd::prelude::*;

verus! {

/// `order` with `node` behind it, unless it is there already.
pub open spec fn noted(order: Seq<u32>, node: u32) -> Seq<u32> {
    if order.contains(node) {
        order
    } else {
        order.push(node)
    }
}

/// The nodes of `edges`, each once, in the order in which a scan first meets them: of each
/// edge the source before the destination.
pub open spec fn first_seen(edges: Seq<(u32, u32)>) -> Seq<u32>
    decreases edges.len(),
{
    if edges.len() == 0 {
        Seq::empty()
    } else {
        noted(noted(first_seen(edges.drop_last()), edges.last().0), edges.last().1)
    }
}

/// `edges` with every node renamed to its place in the order in which a scan first meets
/// the nodes.
pub open spec fn dense_edges(edges: Seq<(u32, u32)>) -> Seq<(u32, u32)> {
    let order = first_seen(edges);
    edges.map_values(|e: (u32, u32)| (order.index_of(e.0) as u32, order.index_of(e.1) as u32))
}

/// Whether `names` holds, for every node, its place in `order`, or -1 for a node that is
/// not in it.
spec fn names_agree(names: Seq<i32>, order: Seq<u32>) -> bool {
    &&& order.no_duplicates()
    &&& forall|i: int| 0 <= i < order.len() ==> (#[trigger] order[i]) < names.len() && names[order[i] as int] == i
    &&& forall|v: int| 0 <= v < names.len() ==> #[trigger] names[v] == -1 || (0 <= names[v] < order.len() && order[names[v] as int] == v)
}

/// Notes `node`: gives it the next name unless it has one. Returns `false` where the
/// names have run out.
fn note(names: &mut Vec<i32>, names_count: &mut i32, node: u32, Ghost(order): Ghost<Seq<u32>>) -> (ok: bool)
    requires
        names_agree(old(names)@, order),
        *old(names_count) == order.len(),
    ensures
        ok == (noted(order, node).len() <= i32::MAX),
        ok ==> {
            &&& names_agree(final(names)@, noted(order, node))
            &&& *final(names_count) == noted(order, node).len()
            &&& node < final(names)@.len()
            &&& 0 <= final(names)@[node as int] < noted(order, node).len()
            &&& noted(order, node)[final(names)@[node as int] as int] == node
            &&& forall|v: int|
                0 <= v < old(names)@.len() && #[trigger] old(names)@[v] != -1 ==> v < final(names)@.len()
                    && final(names)@[v] == old(names)@[v]
        },
{
    let ghost before = names@;
    while names.len() <= node as usize
        invariant
            names_agree(names@, order),
            before.len() <= names@.len(),
            forall|v: int| 0 <= v < before.len() ==> names@[v] == before[v],
        decreases node + 1 - names@.len(),
    {
        names.push(-1i32);
    }
    if names[node as usize] == -1i32 {
        assert(!order.contains(node)) by {
            if order.contains(node) {
                let i = choose|i: int| 0 <= i < order.len() && order[i] == node;
                assert(names@[order[i] as int] == i);
            }
        }
        if *names_count == i32::MAX {
            return false;
        }
        names.set(node as usize, *names_count);
        *names_count = *names_count + 1;
        proof {
            let longer = order.push(node);
            assert forall|i: int, j: int| 0 <= i < longer.len() && 0 <= j < longer.len() && i != j implies longer[i]
                != longer[j] by {
                if i < order.len() && j < order.len() {
                    assert(order[i] != order[j]);
                } else if i < order.len() {
                    assert(order.contains(order[i]));
                } else {
                    assert(order.contains(order[j]));
                }
            }
            assert forall|i: int| 0 <= i < longer.len() implies (#[trigger] longer[i]) < names@.len() && names@[longer[i] as int]
                == i by {
                if i < order.len() {
                    assert(order.contains(order[i]));
                }
            }
        }
    } else {
        assert(order.contains(node)) by {
            assert(order[names@[node as int] as int] == node);
        }
    }
    true
}

/// The order of first meeting only grows: the nodes met so far keep their places.
proof fn lemma_first_seen_grows(edges: Seq<(u32, u32)>, n: int)
    requires
        0 <= n <= edges.len(),
    ensures
        first_seen(edges.take(n)).len() <= first_seen(edges).len(),
        forall|i: int|
            0 <= i < first_seen(edges.take(n)).len() ==> #[trigger] first_seen(edges.take(n))[i] == first_seen(edges)[i],
    decreases edges.len() - n,
{
    if n < edges.len() {
        lemma_first_seen_grows(edges, n + 1);
        assert(edges.take(n + 1).drop_last() =~= edges.take(n));
        let short = first_seen(edges.take(n));
        let middle = noted(short, edges[n].0);
        let long = noted(middle, edges[n].1);
        assert(long == first_seen(edges.take(n + 1)));
        assert forall|i: int| 0 <= i < short.len() implies #[trigger] short[i] == first_seen(edges)[i] by {
            assert(short[i] == middle[i]);
            assert(middle[i] == long[i]);
        }
    } else {
        assert(edges.take(n) =~= edges);
    }
}

/// `edges` with every node renamed to its place in the order in which the nodes are
/// first met, or `None` where there are more nodes than names.
pub fn densify(edges: &Vec<(u32, u32)>) -> (out: Option<Vec<(u32, u32)>>)
    ensures
        out is Some <==> first_seen(edges@).len() <= i32::MAX,
        out matches Some(renamed) ==> renamed@ == dense_edges(edges@),
{
    let mut names: Vec<i32> = Vec::new();
    let mut names_count: i32 = 0;
    let mut renamed: Vec<(u32, u32)> = Vec::new();
    let mut i: usize = 0;
    let ghost mut order: Seq<u32> = Seq::empty();
    proof {
        assert(edges@.take(0) =~= Seq::<(u32, u32)>::empty());
    }
    while i < edges.len()
        invariant
            i <= edges@.len(),
            order == first_seen(edges@.take(i as int)),
            names_agree(names@, order),
            names_count == order.len(),
            renamed@.len() == i,
            forall|k: int|
                0 <= k < i ==> {
                    &&& 0 <= (#[trigger] renamed@[k]).0 < order.len()
                    &&& 0 <= renamed@[k].1 < order.len()
                    &&& order[renamed@[k].0 as int] == edges@[k].0
                    &&& order[renamed@[k].1 as int] == edges@[k].1
                },
        decreases edges@.len() - i,
    {
        let (node, edge) = edges[i];
        proof {
            assert(edges@.take(i + 1).drop_last() =~= edges@.take(i as int));
            lemma_first_seen_grows(edges@, i + 1);
        }
        let ghost first = noted(order, node);
        let ghost second = noted(first, edge);
        if !note(&mut names, &mut names_count, node, Ghost(order)) {
            return None;
        }
        let ghost named = names@;
        if !note(&mut names, &mut names_count, edge, Ghost(first)) {
            return None;
        }
        proof {
            assert(names@[node as int] == named[node as int]);
            assert(second[named[node as int] as int] == first[named[node as int] as int]);
            order = second;
        }
        let pair: (u32, u32) = (names[node as usize] as u32, names[edge as usize] as u32);
        renamed.push(pair);
        i += 1;
    }
    proof {
        assert(edges@.take(i as int) =~= edges@);
        assert forall|k: int| 0 <= k < edges@.len() implies renamed@[k] == dense_edges(edges@)[k] by {
            let e = edges@[k];
            let p = renamed@[k];
            let a = order.index_of(e.0);
            let b = order.index_of(e.1);
            assert(0 <= a < order.len() && order[a] == e.0);
            assert(0 <= b < order.len() && order[b] == e.1);
            if a != p.0 {
                assert(order[a] != order[p.0 as int]);
            }
            if b != p.1 {
                assert(order[b] != order[p.1 as int]);
            }
        }
        assert(renamed@ =~= dense_edges(edges@));
    }
    Some(renamed)
}

} // verus!
