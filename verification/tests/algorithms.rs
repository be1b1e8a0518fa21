use cost::bfs::{bfs_with_capacity, histogram};
use cost::convert::{convert_to_hilbert, to_hilbert};
use cost::delta_stream::encode_rising;
use cost::graph_iterator::{
    DeltaCompressedReaderMapper, NodesEdgesMemMapper, ReaderMapper, UpperLowerMemMapper,
};
use cost::label_prop::label_propagation;
use cost::union_find::union_find;

fn small_nodes() -> Vec<(u32, u32)> {
    vec![(0, 2), (1, 1), (2, 1), (3, 1), (4, 1)]
}

fn small_edges() -> Vec<u32> {
    vec![1, 2, 3, 3, 4, 5]
}

#[test]
fn union_find_joins_a_connected_graph() {
    let nodes = small_nodes();
    let edges = small_edges();
    let graph = NodesEdgesMemMapper::new(&nodes[..], &edges[..]);
    let forest = union_find(&graph, 6);
    let root = forest.find(0);
    for v in 0..6 {
        assert_eq!(forest.find(v), root);
    }
    assert_eq!(forest.non_roots(), 5);
}

#[test]
fn union_find_on_every_layout() {
    let nodes = small_nodes();
    let edges = small_edges();
    let vertex = NodesEdgesMemMapper::new(&nodes[..], &edges[..]);
    let (upper, lower) = convert_to_hilbert(&vertex, false).unwrap();
    let blocks = UpperLowerMemMapper::new(&upper[..], &lower[..]);
    let mut stream = Vec::new();
    encode_rising(&mut stream, &to_hilbert(&vertex));
    let compressed = DeltaCompressedReaderMapper::new(&stream[..]);
    assert_eq!(union_find(&blocks, 6).non_roots(), 5);
    assert_eq!(union_find(&compressed, 6).non_roots(), 5);
}

#[test]
fn union_find_keeps_components_apart() {
    let graph = ReaderMapper::new(b"0 1\n2 3\n1 0\n5 5\n3 6\n");
    let forest = union_find(&graph, 8);
    assert_eq!(forest.find(0), forest.find(1));
    assert_eq!(forest.find(2), forest.find(3));
    assert_eq!(forest.find(2), forest.find(6));
    assert_ne!(forest.find(0), forest.find(2));
    assert_eq!(forest.find(4), 4);
    assert_eq!(forest.find(5), 5);
    assert_eq!(forest.find(7), 7);
    assert_eq!(forest.non_roots(), 3);
    // of two roots of one rank the second hangs under the first
    assert_eq!(forest.find(1), 0);
    assert_eq!(forest.find(3), 2);
    let none = ReaderMapper::new(b"");
    assert_eq!(union_find(&none, 0).non_roots(), 0);
}

#[test]
fn label_propagation_reaches_the_least_node() {
    let nodes = small_nodes();
    let edges = small_edges();
    let graph = NodesEdgesMemMapper::new(&nodes[..], &edges[..]);
    assert_eq!(label_propagation(&graph, 6), vec![0, 0, 0, 0, 0, 0]);
}

#[test]
fn label_propagation_labels_every_component() {
    let graph = ReaderMapper::new(b"7 6\n6 5\n5 4\n1 2\n9 3\n3 1\n");
    assert_eq!(
        label_propagation(&graph, 10),
        vec![0, 1, 1, 1, 4, 4, 4, 4, 8, 1]
    );
    let none = ReaderMapper::new(b"");
    assert_eq!(label_propagation(&none, 3), vec![0, 1, 2]);
    assert_eq!(label_propagation(&none, 0), Vec::<u32>::new());
}

#[test]
fn bfs_on_a_path() {
    let graph = ReaderMapper::new(b"0 1\n1 2\n2 3\n3 4\n");
    let search = bfs_with_capacity(&graph, 5, 16);
    assert_eq!(search.label(), &vec![0, 1, 2, 3, 4]);
    assert_eq!(search.roots(), &vec![(1, 0), (2, 1), (3, 2), (4, 3)]);
    // the same with a buffer that every pass fills
    let search = bfs_with_capacity(&graph, 5, 1);
    assert_eq!(search.label(), &vec![0, 1, 2, 3, 4]);
    assert_eq!(search.roots(), &vec![(1, 0), (2, 1), (3, 2), (4, 3)]);
}

#[test]
fn bfs_on_a_path_against_the_scan() {
    let graph = ReaderMapper::new(b"3 4\n2 3\n1 2\n0 1\n");
    for capacity in [1usize, 2, 3, 100] {
        let search = bfs_with_capacity(&graph, 5, capacity);
        assert_eq!(search.label(), &vec![0, 1, 2, 3, 4]);
        assert_eq!(search.roots(), &vec![(1, 0), (2, 1), (3, 2), (4, 3)]);
    }
}

#[test]
fn bfs_labels_other_components_zero() {
    let graph = ReaderMapper::new(b"0 2\n2 5\n5 6\n6 2\n3 4\n1 0\n");
    let search = bfs_with_capacity(&graph, 8, 8);
    assert_eq!(search.label(), &vec![0, 1, 1, 0, 0, 2, 2, 0]);
    let counts = histogram(search.label());
    assert_eq!(counts.len(), 65536);
    assert_eq!(counts[0], 4);
    assert_eq!(counts[1], 2);
    assert_eq!(counts[2], 2);
    assert_eq!(counts[3], 0);
    assert_eq!(counts[65535], 0);
    assert_eq!(counts.iter().sum::<u64>(), 8);
}

#[test]
fn bfs_of_a_single_node() {
    let graph = ReaderMapper::new(b"");
    let search = bfs_with_capacity(&graph, 1, 4);
    assert_eq!(search.label(), &vec![0]);
    assert!(search.roots().is_empty());
    assert_eq!(search.iteration(), 3);
}

#[test]
fn bfs_with_a_loop_at_node_zero() {
    let graph = ReaderMapper::new(b"0 0\n0 1\n1 2\n");
    let search = bfs_with_capacity(&graph, 3, 4);
    assert_eq!(search.label(), &vec![1, 1, 2]);
    assert_eq!(search.roots(), &vec![(1, 0), (2, 1)]);
}

#[test]
fn bfs_takes_the_shortest_way() {
    // a ring of six nodes with a chord, and a far node
    let graph = ReaderMapper::new(b"5 6\n0 1\n1 2\n2 3\n3 4\n4 5\n5 0\n1 4\n");
    for capacity in [0usize, 1, 2, 5, 64] {
        let search = bfs_with_capacity(&graph, 8, capacity);
        assert_eq!(search.label(), &vec![0, 1, 2, 3, 2, 1, 2, 0]);
        for &(child, parent) in search.roots().iter() {
            let label = search.label();
            assert_eq!(label[child as usize], label[parent as usize] + 1);
        }
        assert_eq!(search.roots().len(), 6);
    }
}

#[test]
fn label_propagation_agrees_with_union_find() {
    let text = b"9 8\n1 5\n5 3\n10 11\n7 7\n3 1\n11 12\n12 10\n2 6\n";
    let graph = ReaderMapper::new(text);
    let label = label_propagation(&graph, 13);
    let forest = union_find(&graph, 13);
    for u in 0..13u32 {
        for v in 0..13u32 {
            assert_eq!(
                label[u as usize] == label[v as usize],
                forest.find(u) == forest.find(v)
            );
        }
        assert!(label[u as usize] <= u);
    }
    assert_eq!(label, vec![0, 1, 2, 1, 4, 1, 2, 7, 8, 8, 10, 10, 10]);
}
