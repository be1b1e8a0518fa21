use cost::convert::{collect_edges, densify, group_by_source, to_blocks, to_vertex};
use cost::delta_scan::DeltaScanner;
use cost::delta_stream::encode_rising;
use cost::edge_list::{is_edge_list, parse_line};
use cost::graph_iterator::{
    layout_fits, DeltaCompressedReaderMapper, DeltaCompressedSliceMapper, NodesEdgesMemMapper,
    ReaderMapper, UpperLowerMemMapper,
};
use cost::hilbert_curve::{bit_entangle, convert_to_hilbert, to_hilbert};
use cost::records::{write_edges, write_lower, write_nodes, write_upper};
use cost::stats::stats;

fn small_nodes() -> Vec<(u32, u32)> {
    vec![(0, 2), (1, 1), (2, 1), (3, 1), (4, 1)]
}

fn small_edges() -> Vec<u32> {
    vec![1, 2, 3, 3, 4, 5]
}

fn small_graph() -> Vec<(u32, u32)> {
    vec![(0, 1), (0, 2), (1, 3), (2, 3), (3, 4), (4, 5)]
}

fn in_curve_order(edges: &[(u32, u32)]) -> Vec<(u32, u32)> {
    let mut sorted = edges.to_vec();
    sorted.sort_by_key(|&e| bit_entangle(e));
    sorted
}

#[test]
fn vertex_scan_gives_the_edges_by_source() {
    let nodes = small_nodes();
    let edges = small_edges();
    assert!(layout_fits(&nodes[..], edges.len()));
    let graph = NodesEdgesMemMapper::new(&nodes[..], &edges[..]);
    assert_eq!(collect_edges(&graph), small_graph());
    // a second scan gives the same
    assert_eq!(collect_edges(&graph), small_graph());
}

#[test]
fn vertex_scan_leaves_out_what_no_node_owns() {
    let nodes = vec![(7u32, 1u32), (9, 0), (8, 2)];
    let edges = vec![1u32, 2, 3, 4];
    let graph = NodesEdgesMemMapper::new(&nodes[..], &edges[..]);
    assert_eq!(collect_edges(&graph), vec![(7, 1), (8, 2), (8, 3)]);
}

#[test]
fn layout_fits_counts_what_the_heads_own() {
    let heads = vec![(1u32, 2u32), (5, 3)];
    assert!(layout_fits(&heads[..], 5));
    assert!(layout_fits(&heads[..], 6));
    assert!(!layout_fits(&heads[..], 4));
    let huge = vec![(0u32, u32::MAX), (1, u32::MAX)];
    assert!(!layout_fits(&huge[..], 10));
    let none: Vec<(u32, u32)> = Vec::new();
    assert!(layout_fits(&none[..], 0));
}

#[test]
fn block_scan_joins_upper_and_lower_halves() {
    let upper = vec![((0u16, 0u16), 2u32), ((1, 2), 1)];
    let lower = vec![(3u16, 4u16), (0xFFFF, 0), (5, 6)];
    let graph = UpperLowerMemMapper::new(&upper[..], &lower[..]);
    assert_eq!(
        collect_edges(&graph),
        vec![(3, 4), (0xFFFF, 0), (0x1_0005, 0x2_0006)]
    );
}

#[test]
fn scans_of_the_three_layouts_give_the_same_edges() {
    let nodes = small_nodes();
    let edges = small_edges();
    let vertex = NodesEdgesMemMapper::new(&nodes[..], &edges[..]);
    let expected = in_curve_order(&small_graph());
    assert_eq!(
        expected,
        vec![(0, 1), (0, 2), (1, 3), (2, 3), (4, 5), (3, 4)]
    );

    let (upper, lower) = convert_to_hilbert(&vertex, false).unwrap();
    assert_eq!(upper, vec![((0, 0), 6)]);
    assert_eq!(lower, expected.iter().map(|&(x, y)| (x as u16, y as u16)).collect::<Vec<_>>());
    let blocks = UpperLowerMemMapper::new(&upper[..], &lower[..]);
    assert_eq!(collect_edges(&blocks), expected);

    let indices = to_hilbert(&vertex);
    let mut stream = Vec::new();
    encode_rising(&mut stream, &indices);
    let slice = DeltaCompressedSliceMapper::new(&stream[..]);
    assert_eq!(collect_edges(&slice), expected);
    let reader = DeltaCompressedReaderMapper::new(&stream[..]);
    assert_eq!(collect_edges(&reader), expected);

    let mut by_source = collect_edges(&reader);
    by_source.sort();
    assert_eq!(by_source, small_graph());
}

#[test]
fn to_hilbert_sorts_the_indices() {
    let nodes = vec![(5u32, 2u32), (0x1_0000, 1), (1, 1)];
    let edges = vec![0x2_0000u32, 1, 7, 0];
    let graph = NodesEdgesMemMapper::new(&nodes[..], &edges[..]);
    let scanned = collect_edges(&graph);
    let unsorted: Vec<u64> = scanned.iter().map(|&e| bit_entangle(e)).collect();
    let mut sorted = unsorted.clone();
    sorted.sort();
    assert_ne!(unsorted, sorted);
    assert_eq!(to_hilbert(&graph), sorted);
}

#[test]
fn convert_to_hilbert_groups_by_block() {
    let list = vec![
        (0x3_0001u32, 0x4_0002u32),
        (1, 2),
        (0x3_0005, 0x4_0006),
        (0xFFFF_FFFF, 0),
        (1, 2),
    ];
    let (nodes, edges) = group_by_source(&list);
    let graph = NodesEdgesMemMapper::new(&nodes[..], &edges[..]);
    let (upper, lower) = convert_to_hilbert(&graph, false).unwrap();
    let counts: u32 = upper.iter().map(|u| u.1).sum();
    assert_eq!(counts as usize, lower.len());
    assert_eq!(upper.len(), 3);
    for pair in upper.windows(2) {
        let a = bit_entangle(((pair[0].0 .0 as u32) << 16, (pair[0].0 .1 as u32) << 16)) >> 32;
        let b = bit_entangle(((pair[1].0 .0 as u32) << 16, (pair[1].0 .1 as u32) << 16)) >> 32;
        assert!(a < b);
    }
    let blocks = UpperLowerMemMapper::new(&upper[..], &lower[..]);
    assert_eq!(collect_edges(&blocks), in_curve_order(&list));
}

#[test]
fn to_blocks_of_sorted_indices() {
    let (upper, lower) = to_blocks(&vec![]);
    assert!(upper.is_empty() && lower.is_empty());
    let a = bit_entangle((0x0001_0002, 0x0003_0004));
    let b = bit_entangle((0x0001_0007, 0x0003_0000));
    let mut sorted = vec![a, b, a];
    sorted.sort();
    let (upper, lower) = to_blocks(&sorted);
    assert_eq!(upper, vec![((1, 3), 3)]);
    let mut lows = lower.clone();
    lows.sort();
    assert_eq!(lows, vec![(2, 4), (2, 4), (7, 0)]);
}

#[test]
fn dense_renumbering_by_first_appearance() {
    let list = vec![(10u32, 20u32), (20, 30)];
    assert_eq!(densify(&list), Some(vec![(0, 1), (1, 2)]));
    assert_eq!(
        densify(&vec![(7, 7), (3, 7), (0, 3), (9, 0)]),
        Some(vec![(0, 0), (1, 0), (2, 1), (3, 2)])
    );
    assert_eq!(densify(&Vec::new()), Some(Vec::new()));

    let (nodes, edges) = group_by_source(&list);
    let graph = NodesEdgesMemMapper::new(&nodes[..], &edges[..]);
    let (upper, lower) = convert_to_hilbert(&graph, true).unwrap();
    let blocks = UpperLowerMemMapper::new(&upper[..], &lower[..]);
    assert_eq!(collect_edges(&blocks), in_curve_order(&[(0, 1), (1, 2)]));
}

#[test]
fn group_by_source_makes_a_record_for_every_run() {
    let list = vec![(4u32, 1u32), (4, 2), (9, 0), (4, 7)];
    let (nodes, edges) = group_by_source(&list);
    assert_eq!(nodes, vec![(4, 2), (9, 1), (4, 1)]);
    assert_eq!(edges, vec![1, 2, 0, 7]);
    let graph = NodesEdgesMemMapper::new(&nodes[..], &edges[..]);
    assert_eq!(to_vertex(&graph), (nodes.clone(), edges.clone()));
    assert_eq!(group_by_source(&Vec::new()), (Vec::new(), Vec::new()));
}

#[test]
fn records_are_written_in_little_endian_order() {
    let mut writer = vec![0xAAu8];
    write_nodes(&mut writer, &vec![(0x0102_0304, 5), (1, 0x8000_0000)]);
    assert_eq!(
        writer,
        vec![0xAA, 4, 3, 2, 1, 5, 0, 0, 0, 1, 0, 0, 0, 0, 0, 0, 0x80]
    );
    let mut writer = Vec::new();
    write_edges(&mut writer, &vec![0xFFFF_FFFE, 0x100]);
    assert_eq!(writer, vec![0xFE, 0xFF, 0xFF, 0xFF, 0, 1, 0, 0]);
    let mut writer = Vec::new();
    write_upper(&mut writer, &vec![((0x0102, 0xFF00), 0x0A0B_0C0D)]);
    assert_eq!(writer, vec![2, 1, 0, 0xFF, 0x0D, 0x0C, 0x0B, 0x0A]);
    let mut writer = Vec::new();
    write_lower(&mut writer, &vec![(1, 0x8001), (0xFFFF, 0)]);
    assert_eq!(writer, vec![1, 0, 1, 0x80, 0xFF, 0xFF, 0, 0]);
}

#[test]
fn scanner_reads_a_stream_byte_by_byte() {
    let indices = vec![5u64, 0x1_0000, 0x1_0001, 1 << 50];
    let mut stream = Vec::new();
    encode_rising(&mut stream, &indices);
    let slice = DeltaCompressedSliceMapper::new(&stream[..]);
    let expected = collect_edges(&slice);

    let mut scanner = DeltaScanner::new();
    let mut seen = Vec::new();
    for &byte in stream.iter() {
        assert!(scanner.can_take(byte));
        if let Some(edge) = scanner.feed(byte) {
            assert!(scanner.is_between());
            seen.push(edge);
        }
    }
    assert!(scanner.is_between());
    assert_eq!(seen, expected);
    assert_eq!(seen.len(), 4);
}

#[test]
fn scanner_refuses_what_does_not_fit() {
    let mut scanner = DeltaScanner::new();
    for _ in 0..8 {
        assert!(scanner.can_take(0));
        assert_eq!(scanner.feed(0), None);
    }
    for _ in 0..8 {
        assert!(scanner.can_take(0xFF));
        assert_eq!(scanner.feed(0xFF), None);
        assert!(!scanner.is_between());
    }
    // a ninth byte does not fit in 64 bits
    assert!(!scanner.can_take(1));

    let mut scanner = DeltaScanner::new();
    assert!(scanner.feed(1).is_some());
    for _ in 0..7 {
        assert!(scanner.feed(0).is_none());
    }
    for _ in 0..7 {
        assert!(scanner.feed(0xFF).is_none());
    }
    // the sum does not fit in 64 bits
    assert!(!scanner.can_take(0xFF));
    assert!(scanner.can_take(0xFE));
}

#[test]
fn text_lines_write_edges() {
    assert_eq!(parse_line(b"12 34", 0, 5), Some((12, 34)));
    assert_eq!(parse_line(b"  12\t+34 \r", 0, 10), Some((12, 34)));
    assert_eq!(parse_line(b"1 2 three", 0, 9), Some((1, 2)));
    assert_eq!(parse_line(b"4294967295 0", 0, 12), Some((4294967295, 0)));
    assert_eq!(parse_line(b"4294967296 0", 0, 12), None);
    assert_eq!(parse_line(b"00000000000000000007 1", 0, 22), Some((7, 1)));
    assert_eq!(parse_line(b"12", 0, 2), None);
    assert_eq!(parse_line(b"", 0, 0), None);
    assert_eq!(parse_line(b"1 -2", 0, 4), None);
    assert_eq!(parse_line(b"1 + 2", 0, 5), None);
    assert_eq!(parse_line(b"x1 2 3 4", 1, 8), Some((1, 2)));
}

#[test]
fn text_scan_skips_comments() {
    let text = b"# a graph\n0 1\n0\t2\r\n#none\n1 3\n2 3\n3 4\n4 5";
    assert!(is_edge_list(text));
    let graph = ReaderMapper::new(&text[..]);
    assert_eq!(collect_edges(&graph), small_graph());
    assert_eq!(to_vertex(&graph), (small_nodes(), small_edges()));

    assert!(is_edge_list(b""));
    assert!(is_edge_list(b"1 2\n"));
    assert!(is_edge_list(b"#\n#"));
    assert!(!is_edge_list(b"1 2\n\n3 4\n"));
    assert!(!is_edge_list(b"1 2\n3\n"));
    assert!(!is_edge_list(b"\n"));
    let graph = ReaderMapper::new(b"1 2\n");
    assert_eq!(collect_edges(&graph), vec![(1, 2)]);
}

#[test]
fn stats_of_a_graph() {
    let nodes = small_nodes();
    let edges = small_edges();
    let graph = NodesEdgesMemMapper::new(&nodes[..], &edges[..]);
    let seen = stats(&graph);
    assert_eq!((seen.max_x, seen.max_y, seen.edges), (4, 5, 6));
    assert_eq!(seen.nodes(), 6);

    let graph = ReaderMapper::new(b"#\n");
    let seen = stats(&graph);
    assert_eq!((seen.max_x, seen.max_y, seen.edges), (0, 0, 0));
    let graph = ReaderMapper::new(b"4294967295 7\n");
    assert_eq!(stats(&graph).nodes(), 1 << 32);
}
