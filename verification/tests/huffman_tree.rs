use ans_flex::codes::{test_prefix_property, tree_to_table};
use ans_flex::graph::{same_node, Edge};
use ans_flex::height::{
    build_tree_fast, first_leaf_at, get_depth_index, last_leaf_at, set_max_height, HeightError,
};
use ans_flex::huffman::{
    count_simple, get_max_value, huf_blockbound, huf_compressbound, huf_encode_symbol,
};
use ans_flex::tree::{
    build_tree_fast_1, decrement_return_old, increment_return_old, maximum_number_of_nodes,
    minimum_tree_depth, sort_leaves, MinNode, Node, Tree,
};

fn leaf(symbol: u8, count: u32, number_bits: u8) -> Node {
    Node { symbol: Some(symbol), count, left: None, right: None, number_bits }
}

fn get_test_nodes_depth_5() -> Vec<Node> {
    let mut nodes = vec![Node::default(); 512];
    nodes[0] = leaf(1, 9, 5);
    nodes[1] = leaf(2, 10, 5);
    nodes[2] = leaf(3, 50, 4);
    nodes[3] = leaf(4, 100, 4);
    nodes[4] = leaf(5, 100, 4);
    nodes[5] = leaf(6, 100, 2);
    nodes[6] = leaf(7, 100, 1);
    nodes
}

fn max_bits(tree: &Tree) -> u8 {
    tree.get_symbol_nodes().iter().map(|n| n.number_bits).max().unwrap()
}

#[test]
fn test_minimum_depth() {
    assert_eq!(minimum_tree_depth(0), 1);
    assert_eq!(minimum_tree_depth(1), 1);
    assert_eq!(minimum_tree_depth(2), 1);
    assert_eq!(minimum_tree_depth(3), 2);
    assert_eq!(minimum_tree_depth(4), 2);
    assert_eq!(minimum_tree_depth(5), 3);
    assert_eq!(minimum_tree_depth(6), 3);
    assert_eq!(minimum_tree_depth(7), 3);
    assert_eq!(minimum_tree_depth(8), 3);
    assert_eq!(minimum_tree_depth(9), 4);
}

#[test]
fn minimum_depth_of_large_numbers() {
    assert_eq!(minimum_tree_depth(256), 8);
    assert_eq!(minimum_tree_depth(257), 9);
    assert_eq!(minimum_tree_depth(usize::MAX), usize::BITS as usize);
}

#[test]
fn test_maximum_number_of_nodes() {
    assert_eq!(maximum_number_of_nodes(0), 1);
    assert_eq!(maximum_number_of_nodes(1), 3);
    assert_eq!(maximum_number_of_nodes(2), 3 + 4);
    assert_eq!(maximum_number_of_nodes(3), 7 + 8);
}

#[test]
fn test_get_depth_index() {
    let nodes = get_test_nodes_depth_5();
    let index = get_depth_index(&nodes);
    assert_eq!(index[1].start, 6);
    assert_eq!(index[1].end, 7);
    assert_eq!(index[2].start, 5);
    assert_eq!(index[2].end, 6);
    assert_eq!(index[3].start, 5);
    assert_eq!(index[3].end, 5);
    assert_eq!(index[4].start, 2);
    assert_eq!(index[4].end, 5);
    assert_eq!(index[5].start, 0);
    assert_eq!(index[5].end, 2);
    assert_eq!(index[3].is_empty(), true);
    assert_eq!(index[5].is_empty(), false);
}

#[test]
fn test_max_height_1() {
    let nodes = get_test_nodes_depth_5();
    let mut tree = Tree { nodes, root_node: 99, last_symbol_node_pos: 6 };

    set_max_height(&mut tree, 3).unwrap();

    assert_eq!(tree.nodes.iter().map(|n| n.number_bits).max().unwrap(), 3);
}

#[test]
fn test_max_height_check_limits() {
    let src: Vec<u8> = vec![1, 2, 3, 3, 4, 4, 4, 4, 4, 4, 4];

    let counts = count_simple(&src);
    let mut tree = build_tree_fast_1(&counts);

    let max_height = 2;
    set_max_height(&mut tree, max_height).unwrap();

    assert_eq!(tree.nodes.iter().map(|n| n.number_bits).max().unwrap(), 2);

    assert!(test_prefix_property(&tree_to_table(&tree)));
}

#[test]
fn test_max_height_too_small() {
    let src: Vec<u8> = vec![1, 2, 3, 3, 4, 4, 4, 4, 4, 4, 4, 5];

    let counts = count_simple(&src);
    let mut tree = build_tree_fast_1(&counts);
    let before: Vec<u8> = tree.nodes.iter().map(|n| n.number_bits).collect();

    let max_height = 2;
    assert_eq!(set_max_height(&mut tree, max_height), Err(HeightError::BelowMinimum));
    let after: Vec<u8> = tree.nodes.iter().map(|n| n.number_bits).collect();
    assert_eq!(before, after);
}

#[test]
fn test_max_height_2_special_case() {
    let src: Vec<u8> = vec![
        1, 2, 3, 3, 4, 4, 5, 5, 6, 6, 6, 6, 6, 6, 6, 6, 6, 6, 6, 6, 6, 6,
    ];

    let counts = count_simple(&src);
    let mut tree = build_tree_fast_1(&counts);

    let max_height = 3;
    set_max_height(&mut tree, max_height).unwrap();
    assert!(test_prefix_property(&tree_to_table(&tree)));
}

#[test]
fn issue_1_max_height_debt_repay() {
    let src: Vec<u8> = vec![
        1, 2, 3, 3, 4, 4, 5, 5, 6, 6, 6, 6, 6, 6, 6, 6, 6, 6, 6, 6, 6, 6, 7, 7, 7, 7, 7, 7, 7, 7,
        7, 7, 7, 7, 7, 7,
    ];

    let counts = count_simple(&src);
    let mut tree = build_tree_fast_1(&counts);

    let max_height = 4;
    set_max_height(&mut tree, max_height).unwrap();
    assert!(test_prefix_property(&tree_to_table(&tree)));
}

#[test]
fn test_biggest_count_symbol() {
    let src: Vec<u8> = vec![
        1, 2, 3, 3, 4, 4, 5, 5, 6, 6, 6, 6, 6, 6, 6, 6, 6, 6, 6, 6, 6, 6, 6, 6, 6, 6, 6, 6, 6, 7,
        7, 7, 7, 7, 7, 7, 7,
    ];

    let counts = count_simple(&src);
    let tree = build_tree_fast_1(&counts);
    assert_eq!(tree.nodes[tree.last_symbol_node_pos as usize].symbol, Some(6));
    assert!(test_prefix_property(&tree_to_table(&tree)));
}

#[test]
fn max_height_check_count_order() {
    let src: Vec<u8> = vec![
        1, 2, 3, 3, 4, 4, 5, 5, 5, 6, 6, 6, 6, 6, 6, 6, 6, 6, 7, 7, 7, 7, 7, 7, 7, 7, 7, 8,
    ];

    let counts = count_simple(&src);
    let mut tree = build_tree_fast_1(&counts);
    assert_eq!(tree.nodes[3].symbol, Some(3));
    assert_eq!(tree.nodes[3].number_bits, 3);

    let max_height = 4;
    set_max_height(&mut tree, max_height).unwrap();

    assert_eq!(tree.nodes[3].symbol, Some(3));
    assert_eq!(tree.nodes[3].number_bits, 4);
    assert!(test_prefix_property(&tree_to_table(&tree)));
}

#[test]
fn set_max_height_multiple_levels() {
    let src: Vec<u8> = vec![
        1, 1, 1, 1, 1, 1, 1, 1, 1, 1, 1, 1, 1, 1, 1, 1, 1, 1, 1, 1, 1, 2, 2, 2, 2, 2, 2, 2, 2, 2,
        2, 3, 3, 3, 3, 3, 3, 4, 4, 4, 5, 6,
    ];
    let counts = count_simple(&src);
    let mut tree = build_tree_fast(&counts).unwrap();
    // tree has height of 5
    assert_eq!(tree.nodes[0].number_bits, 5);

    let max_height = 3;
    set_max_height(&mut tree, max_height).unwrap();
    let _table = tree_to_table(&tree);
    assert!(test_prefix_property(&tree_to_table(&tree)));
    assert_eq!(max_bits(&tree), 3);
}

#[test]
fn fuzzer_issue_1_255_value() {
    let src: Vec<u8> = vec![255];
    let counts = count_simple(&src);
    let tree = build_tree_fast(&counts).unwrap();
    assert_eq!(tree.last_symbol_node_pos, 0);
    assert_eq!(tree.root_node, 511);
    assert_eq!(tree.nodes[0], leaf(255, 1, 1));
}

#[test]
fn fuzzer_issue_2_repay_debt() {
    let src: Vec<u8> = vec![
        183, 47, 40, 107, 107, 93, 107, 107, 107, 107, 107, 107, 107, 107, 107, 107, 104, 58, 43,
    ];
    let counts = count_simple(&src);
    let mut tree = build_tree_fast(&counts).unwrap();

    let min_tree_depth = minimum_tree_depth(tree.get_num_symbol_nodes() as usize);
    assert_eq!(min_tree_depth, 3);
    assert_eq!(tree.get_depth(), 4);
    set_max_height(&mut tree, 3).unwrap();
    assert_eq!(max_bits(&tree), 3);
}

#[test]
fn special_case() {
    let src: Vec<u8> = vec![
        1, 2, 3, 3, 4, 4, 5, 5, 6, 6, 6, 6, 6, 6, 6, 6, 6, 6, 6, 6, 6, 6,
    ];

    let counts = count_simple(&src);
    let tree = build_tree_fast(&counts).unwrap();

    assert!(test_prefix_property(&tree_to_table(&tree)));
}

#[test]
fn simple_balanced() {
    let src: Vec<u8> = vec![1, 2, 3, 4];

    let counts = count_simple(&src);
    let tree = build_tree_fast(&counts).unwrap();
    assert!(test_prefix_property(&tree_to_table(&tree)));
    for s in 1..=4 {
        assert_eq!(tree_to_table(&tree)[s].number_bits, 2);
    }
}

#[test]
fn balanced_tree_distribution() {
    let all_bytes = (0..=u8::MAX).collect::<Vec<u8>>();
    let counts = count_simple(&all_bytes);
    let tree = build_tree_fast(&counts).unwrap();
    let table = tree_to_table(&tree);
    assert!(test_prefix_property(&table));
    assert!(table.iter().all(|code| code.number_bits == 8));
    let mut values: Vec<u16> = table.iter().map(|code| code.val).collect();
    values.sort();
    assert_eq!(values, (0..256).collect::<Vec<u16>>());
}

fn gen_fibo_distribution(fibo_counts: &[u64]) -> Vec<u8> {
    let mut all_bytes = Vec::new();
    for (num, repeat) in fibo_counts.iter().enumerate() {
        all_bytes.extend(std::iter::repeat(num as u8).take(*repeat as usize));
    }
    all_bytes
}

fn validate_tree(tree: &Tree) {
    let mut all_nodes: Vec<Node> = tree.nodes.iter().filter(|n| n.count != 0).cloned().collect();
    all_nodes.retain(|n| n != tree.get_root_node());
    for (node, _transitions, _depth) in tree.walk_tree(tree.root_node) {
        all_nodes.retain(|n| *n != node);
    }
    assert_eq!(all_nodes.len(), 0);

    for (node, _transitions, _depth) in tree.walk_tree(tree.root_node) {
        if let Some(left) = node.left {
            let child_left = tree.get_node(left);
            assert!(child_left.count < node.count);
        }
    }
    assert!(test_prefix_property(&tree_to_table(tree)));
}

fn test_fibonacci(fibo_counts: &[u64]) {
    let all_bytes = gen_fibo_distribution(fibo_counts);

    let counts = count_simple(&all_bytes);
    let tree = build_tree_fast(&counts).unwrap();

    assert!(tree.nodes[tree.root_node].left.is_some());
    assert!(tree.nodes[tree.root_node].right.is_some());

    let root_left = tree.nodes[tree.root_node].left.unwrap();
    // the symbol with the biggest count stands directly under the root
    assert!(tree.nodes[root_left as usize].symbol.is_some());

    validate_tree(&tree);
}

#[test]
fn long_tree_distribution() {
    test_fibonacci(&[1_u64, 1, 2, 3]);
    test_fibonacci(&[1_u64, 1, 2, 3, 5]);
    test_fibonacci(&[1_u64, 1, 2, 3, 5, 8]);
    test_fibonacci(&[1_u64, 1, 2, 3, 5, 8, 13]);
    test_fibonacci(&[1_u64, 1, 2, 3, 5, 8, 13, 21]);
}

#[test]
fn test_example() {
    let test_data: Vec<u8> = vec![
        0, 0, 0, 0, 0, 0, 0, 0, 0, 0, 0, 0, 0, 0, 1, 1, 1, 1, 1, 1, 1, 2, 2, 2, 4, 5,
    ];
    let counts = count_simple(&test_data);
    let tree = build_tree_fast(&counts).unwrap();

    let table = tree_to_table(&tree);
    let mut out = vec![0; tree.estimate_compressed_size() + 16];
    ans_flex::huffman::compress_1x_rev(&table, &test_data, &mut out);
    assert_eq!(tree.estimate_compressed_size(), 6);
    assert_eq!(out[0] & 0b11, 0b01);
    assert!(out[6..].iter().all(|b| *b == 0 || *b == 1));
}

#[test]
fn test_prefix_codes_zstd_format_example() {
    let src: Vec<u8> = vec![
        0, 0, 0, 0, 0, 0, 0, 0, 0, 0, 0, 0, 0, 0, 1, 1, 1, 1, 1, 1, 1, 2, 2, 2, 4, 5,
    ];

    let counts = count_simple(&src);
    let tree = build_tree_fast(&counts).unwrap();

    let table = tree_to_table(&tree);
    assert!(test_prefix_property(&tree_to_table(&tree)));

    assert_eq!(table[0].val, 1); // 1
    assert_eq!(table[0].number_bits, 1);
    assert_eq!(table[1].val, 1); // 01
    assert_eq!(table[1].number_bits, 2);
    assert_eq!(table[2].val, 1); // 001
    assert_eq!(table[2].number_bits, 3);
    assert_eq!(table[3].val, 0);
    assert_eq!(table[3].number_bits, 0);
    assert_eq!(table[4].val, 0); // 0000
    assert_eq!(table[4].number_bits, 4);
    assert_eq!(table[5].val, 1); // 0001
    assert_eq!(table[5].number_bits, 4);
}

#[test]
fn tree_of_three_symbols() {
    let mut counts = [0usize; 256];
    counts[b'a' as usize] = 5;
    counts[b'b' as usize] = 2;
    counts[b'c' as usize] = 2;
    let tree = build_tree_fast_1(&counts);
    assert_eq!(tree.nodes.len(), 512);
    assert_eq!(tree.last_symbol_node_pos, 2);
    assert_eq!(tree.root_node, 510);
    assert_eq!(tree.nodes[0], leaf(b'b', 2, 2));
    assert_eq!(tree.nodes[1], leaf(b'c', 2, 2));
    assert_eq!(tree.nodes[2], leaf(b'a', 5, 1));
    assert_eq!(
        tree.nodes[511],
        Node { symbol: None, count: 4, left: Some(0), right: Some(1), number_bits: 1 }
    );
    assert_eq!(
        tree.nodes[510],
        Node { symbol: None, count: 9, left: Some(511), right: Some(2), number_bits: 0 }
    );
    assert_eq!(tree.nodes[3], Node::default());
    assert_eq!(tree.get_depth(), 2);
    assert_eq!(tree.get_num_symbol_nodes(), 3);
    assert_eq!(tree.get_symbol_nodes().len(), 3);
    assert_eq!(tree.get_root_node().count, 9);
    assert_eq!(tree.estimate_compressed_size(), 2);
    assert_eq!(tree.get_node_pos(leaf(b'a', 5, 1)), Some(2));
    assert_eq!(tree.get_node_pos(leaf(b'a', 5, 2)), None);
    assert!(same_node(&tree.nodes[0], &leaf(b'b', 2, 2)));
    assert!(!same_node(&tree.nodes[0], &tree.nodes[1]));

    let walk = tree.walk_tree(tree.root_node);
    assert_eq!(walk.len(), 4);
    assert_eq!(walk[0], (tree.nodes[511], 0b0, 1));
    assert_eq!(walk[1], (tree.nodes[0], 0b00, 2));
    assert_eq!(walk[2], (tree.nodes[1], 0b01, 2));
    assert_eq!(walk[3], (tree.nodes[2], 0b1, 1));

    let edges: Vec<(u16, u16, u8)> =
        tree.edges().iter().map(|e: &Edge| (e.from, e.to, e.transition)).collect();
    assert_eq!(edges, vec![(510, 511, 0), (510, 2, 1), (511, 0, 0), (511, 1, 1)]);
    assert_eq!(tree.nodes().len(), 5);
    assert_eq!(tree.source(&tree.edges()[1]).count, 9);
    assert_eq!(tree.target(&tree.edges()[1]).symbol, Some(b'a'));
}

#[test]
fn leaves_are_sorted_by_count_and_keep_their_order() {
    let mut nodes = vec![
        leaf(0, 7, 0),
        leaf(1, 3, 0),
        leaf(2, 7, 0),
        leaf(3, 1, 0),
        leaf(4, 3, 0),
        leaf(5, 0, 0),
    ];
    sort_leaves(&mut nodes, 5);
    let order: Vec<u8> = nodes.iter().map(|n| n.symbol.unwrap()).collect();
    assert_eq!(order, vec![3, 1, 4, 0, 2, 5]);
}

#[test]
fn height_limit_is_a_no_op_within_the_limit() {
    let nodes = get_test_nodes_depth_5();
    let mut tree = Tree { nodes: nodes.clone(), root_node: 99, last_symbol_node_pos: 6 };
    assert_eq!(set_max_height(&mut tree, 5), Ok(()));
    assert_eq!(tree.nodes, nodes);
    assert_eq!(set_max_height(&mut tree, 15), Ok(()));
    assert_eq!(tree.nodes, nodes);
}

#[test]
fn height_limit_moves_the_lowest_counts_down() {
    let nodes = get_test_nodes_depth_5();
    let mut tree = Tree { nodes, root_node: 99, last_symbol_node_pos: 6 };
    assert_eq!(set_max_height(&mut tree, 4), Ok(()));
    let bits: Vec<u8> = tree.nodes[..7].iter().map(|n| n.number_bits).collect();
    // the two leaves at depth 5 owe one unit; the leaf at depth 2 pays two,
    // and the last leaf at depth 4 takes the unit back that was paid too much
    assert_eq!(bits, vec![4, 4, 4, 4, 3, 3, 1]);
    assert_eq!(first_leaf_at(&tree, 4), Some(0));
    assert_eq!(last_leaf_at(&tree, 4), Some(3));
    assert_eq!(first_leaf_at(&tree, 2), None);
    assert_eq!(last_leaf_at(&tree, 1), Some(6));
}

#[test]
fn height_limit_reports_what_it_cannot_do() {
    let mut nodes = get_test_nodes_depth_5();
    nodes[0].number_bits = 40;
    let mut tree = Tree { nodes, root_node: 99, last_symbol_node_pos: 6 };
    assert_eq!(set_max_height(&mut tree, 5), Err(HeightError::DebtNotRepaid));

    let mut nodes = get_test_nodes_depth_5();
    nodes[1].number_bits = 6;
    let mut tree = Tree { nodes, root_node: 99, last_symbol_node_pos: 6 };
    assert_eq!(set_max_height(&mut tree, 3), Err(HeightError::DebtNotRepaid));
}

#[test]
fn prefix_test_finds_a_prefix() {
    let mut table = [MinNode::default(); 256];
    table[0] = MinNode { number_bits: 1, val: 1 };
    table[1] = MinNode { number_bits: 2, val: 1 };
    table[2] = MinNode { number_bits: 3, val: 1 };
    table[3] = MinNode { number_bits: 3, val: 0 };
    assert!(test_prefix_property(&table));
    table[3] = MinNode { number_bits: 3, val: 0b011 };
    assert!(!test_prefix_property(&table));
    table[3] = MinNode { number_bits: 3, val: 0b100 };
    assert!(!test_prefix_property(&table));
    table[3] = MinNode { number_bits: 20, val: 0 };
    assert!(test_prefix_property(&table));
}

#[test]
fn huffman_bounds_and_counts() {
    assert_eq!(huf_blockbound(1000), 1000 + 3 + 8);
    assert_eq!(huf_compressbound(1000), 1000 + 3 + 8 + 129);
    let counts = count_simple(b"abracadabra");
    assert_eq!(counts[b'a' as usize], 5);
    assert_eq!(counts[b'b' as usize], 2);
    assert_eq!(counts[b'z' as usize], 0);
    assert_eq!(get_max_value(&counts), 5);
    let mut cursor = 7usize;
    assert_eq!(increment_return_old(&mut cursor), 7);
    assert_eq!(cursor, 8);
    assert_eq!(decrement_return_old(&mut cursor), 8);
    assert_eq!(cursor, 7);
}

#[test]
fn code_of_a_symbol_goes_above_the_bits_before() {
    let mut table = vec![MinNode::default(); 256];
    table[9] = MinNode { number_bits: 3, val: 0b101 };
    let mut stream = ans_flex::bitstream::BitCstream::new();
    stream.add_bits_fast(1, 2);
    huf_encode_symbol(9, &mut stream, &table);
    assert_eq!(stream.bit_container, 0b101_01);
    assert_eq!(stream.bit_pos, 5);
}

#[test]
fn queue_built_tree_of_three_symbols() {
    let mut counts = [0usize; 256];
    counts[b'a' as usize] = 5;
    counts[b'b' as usize] = 2;
    counts[b'c' as usize] = 2;
    let nodes = ans_flex::huffman::build_tree_heap(&counts);
    assert_eq!(nodes.len(), 5);
    assert_eq!(nodes[0], leaf(b'b', 2, 0));
    assert_eq!(nodes[1], leaf(b'c', 2, 0));
    assert_eq!(nodes[2], Node { symbol: None, count: 4, left: Some(0), right: Some(1), number_bits: 0 });
    assert_eq!(nodes[3], leaf(b'a', 5, 0));
    assert_eq!(nodes[4], Node { symbol: None, count: 9, left: Some(2), right: Some(3), number_bits: 0 });
    assert!(ans_flex::huffman::build_tree_heap(&[0usize; 256]).is_empty());
    let mut queue = vec![leaf(1, 8, 0), leaf(2, 3, 0), leaf(3, 3, 0)];
    assert_eq!(ans_flex::huffman::pop_lowest(&mut queue), Some(leaf(2, 3, 0)));
    assert_eq!(queue, vec![leaf(1, 8, 0), leaf(3, 3, 0)]);
    let mut none: Vec<Node> = Vec::new();
    assert_eq!(ans_flex::huffman::pop_lowest(&mut none), None);
}

#[test]
fn built_trees_can_be_walked_and_a_loop_cannot() {
    let counts = count_simple(b"abracadabra");
    let mut tree = build_tree_fast(&counts).unwrap();
    assert!(tree.is_walkable());
    assert!(tree.child_is_ahead(510, Some(511)));
    assert!(tree.child_is_ahead(511, Some(0)));
    assert!(!tree.child_is_ahead(511, Some(510)));
    assert!(!tree.child_is_ahead(0, Some(512)));
    let root = tree.root_node;
    tree.nodes[511].right = Some(root as u16);
    assert!(!tree.is_walkable());

    let single = build_tree_fast(&count_simple(&[255])).unwrap();
    assert_eq!(single.nodes[511].right, Some(511));
    assert!(!single.is_walkable());
}

#[test]
fn leaves_can_be_changed_in_place() {
    let counts = count_simple(b"aabbbcccc");
    let mut tree = build_tree_fast_1(&counts);
    let before = tree.nodes.clone();
    {
        let leaves = tree.get_symbol_nodes_mut();
        assert_eq!(leaves.len(), 3);
        leaves[1].number_bits = 9;
    }
    assert_eq!(tree.nodes[1].number_bits, 9);
    assert_eq!(tree.nodes[0], before[0]);
    assert_eq!(&tree.nodes[2..], &before[2..]);
}

#[test]
fn lookup_tables_of_small_symbols() {
    let mut counts = [0usize; 256];
    counts[1] = 5;
    counts[2] = 2;
    counts[7] = 2;
    let mut tree = build_tree_fast_1(&counts);
    let codes = ans_flex::graph::build_lookup_tables_from_tree(&mut tree);
    assert_eq!(codes.code_length, [0, 1, 2, 0, 0, 0, 0, 2]);
    assert_eq!(codes.code, [0, 0b1, 0b00, 0, 0, 0, 0, 0b01]);
}

fn code_space_taken(tree: &Tree, top: u8) -> u64 {
    tree.get_symbol_nodes().iter().map(|leaf| 1u64 << (top - leaf.number_bits)).sum()
}

#[test]
fn leaves_of_a_built_tree_fill_the_code_space() {
    let mut counts = [0usize; 256];
    for (symbol, count) in [7usize, 1, 1, 2, 40, 3, 12, 5, 5, 9, 100, 1].iter().enumerate() {
        counts[symbol * 3] = *count;
    }
    let tree = build_tree_fast_1(&counts);
    let deepest = max_bits(&tree);
    assert!(tree.get_symbol_nodes().iter().all(|leaf| leaf.number_bits >= 1));
    assert!(tree.get_symbol_nodes().windows(2).all(|pair| pair[0].number_bits >= pair[1].number_bits));
    assert_eq!(tree.get_depth(), deepest);
    assert_eq!(code_space_taken(&tree, deepest), 1u64 << deepest);
    assert!(test_prefix_property(&tree_to_table(&tree)));
}

#[test]
fn deep_tree_is_limited_and_still_fills_the_code_space() {
    let mut counts = [0usize; 256];
    let (mut a, mut b) = (1usize, 1usize);
    for symbol in 0..20 {
        counts[symbol] = a;
        let next = a + b;
        a = b;
        b = next;
    }
    let unlimited = build_tree_fast_1(&counts);
    assert_eq!(max_bits(&unlimited), 19);
    assert_eq!(code_space_taken(&unlimited, 19), 1u64 << 19);

    let tree = build_tree_fast(&counts).unwrap();
    assert!(max_bits(&tree) <= 11);
    assert_eq!(code_space_taken(&tree, 11), 1u64 << 11);
    assert!(test_prefix_property(&tree_to_table(&tree)));
}

#[test]
fn limiting_to_any_height_keeps_the_code_space_filled() {
    let mut counts = [0usize; 256];
    let (mut a, mut b) = (1usize, 2usize);
    for symbol in 0..16 {
        counts[symbol * 2 + 1] = a;
        let next = a + b;
        a = b;
        b = next;
    }
    for limit in 4u8..=15 {
        let mut tree = build_tree_fast_1(&counts);
        if set_max_height(&mut tree, limit).is_ok() {
            let deepest = max_bits(&tree);
            assert!(deepest <= limit);
            assert_eq!(code_space_taken(&tree, deepest), 1u64 << deepest);
            assert!(test_prefix_property(&tree_to_table(&tree)));
        }
    }
}

#[test]
fn height_limit_goes_by_the_first_leaf() {
    let nodes = vec![leaf(0, 1, 2), leaf(1, 1, 3), leaf(2, 1, 3), leaf(3, 5, 1)];
    let mut tree = Tree { nodes, root_node: 0, last_symbol_node_pos: 3 };
    assert_eq!(set_max_height(&mut tree, 2), Ok(()));
    assert_eq!(max_bits(&tree), 3);
}
