use std::collections::HashSet;

use ans_flex::codes::{test_prefix_property, tree_to_table};
use ans_flex::height::build_tree_fast;
use ans_flex::hist::{get_max_symbol_value, get_normalized_counts};
use ans_flex::huffman::{compress_1x_rev, count_simple};
use ans_flex::table_log::fse_optimal_table_log;
use ans_flex::tree::{Node, Tree};
use ans_flex::{compress, decompress, FSE_DEFAULT_TABLELOG};

/// Text-like data of `len` bytes: words drawn from a small vocabulary by a
/// linear congruential generator.
fn text_data(len: usize, seed: u64) -> Vec<u8> {
    let words: [&[u8]; 14] = [
        b"the ", b"quick ", b"brown ", b"fox ", b"jumps ", b"over ", b"lazy ", b"dog. ",
        b"Entropy ", b"coding, ", b"state ", b"tables\n", b"{\"id\": 1234567890, ", b"\"x\": [0.5]}",
    ];
    let mut state = seed;
    let mut out = Vec::with_capacity(len + 32);
    while out.len() < len {
        state = state.wrapping_mul(6364136223846793005).wrapping_add(1442695040888963407);
        out.extend_from_slice(words[((state >> 33) % 14) as usize]);
    }
    out.truncate(len);
    out
}

/// Lines of hexadecimal digits and dashes, `len` bytes in all.
fn uuid_data(len: usize, seed: u64) -> Vec<u8> {
    let digits = b"0123456789abcdef";
    let mut state = seed;
    let mut out = Vec::with_capacity(len + 40);
    while out.len() < len {
        for i in 0..36 {
            state = state.wrapping_mul(6364136223846793005).wrapping_add(1442695040888963407);
            if i == 8 || i == 13 || i == 18 || i == 23 {
                out.push(b'-');
            } else {
                out.push(digits[((state >> 40) % 16) as usize]);
            }
        }
        out.push(b'\n');
    }
    out.truncate(len);
    out
}

fn inverse(test_data: &[u8]) {
    let out = compress(test_data).unwrap();
    let counts = ans_flex::hist::count_simple(test_data);
    let max_symbol_value = get_max_symbol_value(&counts);
    let table_log = fse_optimal_table_log(FSE_DEFAULT_TABLELOG, test_data.len(), max_symbol_value);
    let norm_counts = get_normalized_counts(&counts, table_log, test_data.len(), max_symbol_value);
    let decompressed = decompress(
        out.get_compressed_data(),
        &norm_counts,
        table_log,
        test_data.len(),
        max_symbol_value,
    );
    assert_eq!(decompressed, test_data);
}

fn validate_tree(tree: &Tree) {
    // all nodes are connected
    let mut all_nodes = tree
        .nodes
        .iter()
        .filter(|n| n.count != 0)
        .cloned()
        .collect::<HashSet<Node>>();
    all_nodes.remove(tree.get_root_node());
    for (node, _transitions, _depth) in tree.walk_tree(tree.root_node) {
        all_nodes.remove(&node);
    }
    assert_eq!(all_nodes.len(), 0);

    // the count of a child is lower than that of its parent
    for (node, _transitions, _depth) in tree.walk_tree(tree.root_node) {
        if let Some(left) = node.left {
            let child_left = tree.get_node(left);
            assert!(child_left.count < node.count);
        }
    }
    assert!(test_prefix_property(&tree_to_table(tree)));
}

fn test_tree(data: &[u8]) -> Tree {
    let counts = count_simple(data);
    let tree = build_tree_fast(&counts).unwrap();
    validate_tree(&tree);
    tree
}

#[test]
fn lib_test_66k_json() {
    let data = text_data(66_000, 66);
    let tree = test_tree(&data);
    assert!(tree.estimate_compressed_size() < data.len());
    inverse(&data);
}

#[test]
fn lib_test_65k_text() {
    let data = text_data(65_000, 65);
    let counts = count_simple(&data);
    let tree = build_tree_fast(&counts).unwrap();
    validate_tree(&tree);
    assert!(tree.estimate_compressed_size() < data.len());
    inverse(&data);
}

#[test]
fn lib_test_34k_text() {
    let data = text_data(34_000, 34);
    test_tree(&data);
    inverse(&data);
}

#[test]
fn lib_test_1k_text() {
    let data = text_data(1_000, 1);
    test_tree(&data);
    inverse(&data);
}

#[test]
fn lib_test_v4_uuids_19_k() {
    let data = uuid_data(19_000, 19);
    test_tree(&data);
    inverse(&data);
}

#[test]
fn lib_test_v4_uuids_93_k() {
    let data = uuid_data(93_000, 93);
    test_tree(&data);
    inverse(&data);
}

#[test]
fn test_compress() {
    let data = text_data(65_000, 65);
    let counts = count_simple(&data);
    let tree = build_tree_fast(&counts).unwrap();
    println!("estimate_compressed_size: {:?}", tree.estimate_compressed_size());
    println!(
        "ratio: {:?}",
        tree.estimate_compressed_size() as f32 / data.len() as f32
    );

    let table = tree_to_table(&tree);
    let mut out = vec![];
    out.resize(tree.estimate_compressed_size() + 16, 0);
    compress_1x_rev(&table, &data, &mut out);
    let size = tree.estimate_compressed_size();
    assert!(out[..size + 1].iter().any(|b| *b != 0));
    assert!(out[size + 1..].iter().all(|b| *b == 0));
}

#[test]
fn test_compress_simple() {
    const TEST_DATA: &'static [u8] = &[1, 1, 2, 3, 1, 1];
    let counts = count_simple(&TEST_DATA);
    let tree = build_tree_fast(&counts).unwrap();
    println!("estimate_compressed_size: {:?}", tree.estimate_compressed_size());
    println!(
        "ratio: {:?}",
        tree.estimate_compressed_size() as f32 / TEST_DATA.len() as f32
    );

    let table = tree_to_table(&tree);
    let mut out = vec![];
    out.resize(tree.estimate_compressed_size() + 16, 0);
    compress_1x_rev(&table, TEST_DATA, &mut out);
    println!("{:08b}", out[0]);
    println!("{:08b}", out[1]);
    println!("{:08b}", out[2]);
    // codes: 1 -> 1 (1 bit), 2 -> 00, 3 -> 01; last symbol first, end mark on top
    assert_eq!(tree.estimate_compressed_size(), 1);
    assert_eq!(table[1].number_bits, 1);
    assert_eq!(table[1].val, 1);
    assert_eq!(table[2].number_bits, 2);
    assert_eq!(table[3].number_bits, 2);
    assert_eq!(table[2].val + table[3].val, 1);
    let stream: u32 = 0b11
        | ((table[3].val as u32) << 2)
        | ((table[2].val as u32) << 4)
        | (0b11 << 6)
        | (1 << 8);
    assert_eq!(out[0], stream as u8);
    assert_eq!(out[1], (stream >> 8) as u8);
    assert_eq!(out[2], 0);
}
