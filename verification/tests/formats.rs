use cost::connectivity::edges_within;
use cost::convert::collect_edges;
use cost::graph_iterator::{NodesEdgesMemMapper, ReaderMapper, UpperLowerMemMapper};
use cost::offsets::scan;
use cost::records::{
    read_edges, read_lower, read_nodes, read_upper, write_edges, write_lower, write_nodes,
    write_offsets, write_upper,
};

#[test]
fn records_read_back_as_written() {
    let nodes = vec![(0u32, 2u32), (0x0102_0304, 1), (u32::MAX, 0x8000_0000)];
    let edges = vec![1u32, 0xFFFF_FFFE, 0x0A0B_0C0D];
    let upper = vec![((1u16, 0xFFFFu16), 7u32), ((0x1234, 0), 0xFFFF_FFFF)];
    let lower = vec![(1u16, 2u16), (0xFF00, 0x00FF)];

    let mut bytes = Vec::new();
    write_nodes(&mut bytes, &nodes);
    assert_eq!(bytes.len(), 24);
    assert_eq!(read_nodes(&bytes), nodes);

    let mut bytes = Vec::new();
    write_edges(&mut bytes, &edges);
    assert_eq!(bytes.len(), 12);
    assert_eq!(read_edges(&bytes), edges);

    let mut bytes = Vec::new();
    write_upper(&mut bytes, &upper);
    assert_eq!(bytes.len(), 16);
    assert_eq!(read_upper(&bytes), upper);

    let mut bytes = Vec::new();
    write_lower(&mut bytes, &lower);
    assert_eq!(bytes.len(), 8);
    assert_eq!(read_lower(&bytes), lower);
}

#[test]
fn readers_pass_over_a_record_that_is_not_whole() {
    assert_eq!(read_edges(&[1, 0, 0, 0, 2, 0, 0]), vec![1]);
    assert_eq!(read_edges(&[1, 0, 0]), Vec::<u32>::new());
    assert_eq!(read_nodes(&[1, 0, 0, 0, 2, 0, 0, 0, 9]), vec![(1, 2)]);
    assert_eq!(read_nodes(&[1, 0, 0, 0, 2, 0, 0]), Vec::<(u32, u32)>::new());
    assert_eq!(
        read_upper(&[1, 2, 3, 4, 5, 6, 7, 8, 9, 9, 9, 9, 9, 9, 9]),
        vec![((0x0201, 0x0403), 0x0807_0605)]
    );
    assert_eq!(read_lower(&[0xFF, 0, 0, 0xFF, 1]), vec![(0x00FF, 0xFF00)]);
    assert_eq!(read_lower(&[]), Vec::<(u16, u16)>::new());
}

#[test]
fn layouts_read_from_bytes_scan_as_written() {
    let graph = ReaderMapper::new(b"1 2\n1 3\n4 1\n");
    let (nodes, edges) = cost::convert::to_vertex(&graph);
    let mut node_bytes = Vec::new();
    write_nodes(&mut node_bytes, &nodes);
    let mut edge_bytes = Vec::new();
    write_edges(&mut edge_bytes, &edges);
    let nodes = read_nodes(&node_bytes);
    let edges = read_edges(&edge_bytes);
    let vertex = NodesEdgesMemMapper::new(&nodes[..], &edges[..]);
    assert_eq!(collect_edges(&vertex), vec![(1, 2), (1, 3), (4, 1)]);

    let (upper, lower) = cost::convert::convert_to_hilbert(&vertex, false).unwrap();
    let mut upper_bytes = Vec::new();
    write_upper(&mut upper_bytes, &upper);
    let mut lower_bytes = Vec::new();
    write_lower(&mut lower_bytes, &lower);
    let upper = read_upper(&upper_bytes);
    let lower = read_lower(&lower_bytes);
    let blocks = UpperLowerMemMapper::new(&upper[..], &lower[..]);
    let mut seen = collect_edges(&blocks);
    seen.sort();
    assert_eq!(seen, vec![(1, 2), (1, 3), (4, 1)]);
}

#[test]
fn scan_writes_short_differences_by_node() {
    let values: Vec<u64> = vec![
        5,
        (1 << 32) + 3,
        (1 << 32) + 3,
        (1 << 32) + 131,
        (1 << 32) + 131 + 300,
        (4 << 32) + 0x4000,
    ];
    let (bytes, offsets) = scan(&values);
    assert_eq!(
        bytes,
        vec![5, 3, 0, 128, 1, 128 + 44, 2, 128, 128, 1]
    );
    assert_eq!(offsets, vec![1, 7, 7, 7]);
    let mut table = Vec::new();
    write_offsets(&mut table, &offsets);
    assert_eq!(table.len(), 32);
    assert_eq!(&table[..8], &[1, 0, 0, 0, 0, 0, 0, 0]);
    assert_eq!(&table[8..16], &[7, 0, 0, 0, 0, 0, 0, 0]);
    assert_eq!(scan(&Vec::new()), (Vec::new(), Vec::new()));
    let mut table = Vec::new();
    write_offsets(&mut table, &vec![0x0102_0304_0506_0708]);
    assert_eq!(table, vec![8, 7, 6, 5, 4, 3, 2, 1]);
}

#[test]
fn edges_within_a_number_of_nodes() {
    let graph = ReaderMapper::new(b"1 2\n7 3\n");
    assert!(edges_within(&graph, 8));
    assert!(!edges_within(&graph, 7));
    assert!(!edges_within(&graph, 0));
    let none = ReaderMapper::new(b"");
    assert!(edges_within(&none, 0));
}
