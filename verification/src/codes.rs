//! Canonical codes: the codes of one length are consecutive numbers, and
//! the first code of each length follows from the codes one bit longer.

use vstd::prelude::*;
use vstd::arithmetic::power2::{pow2, lemma_pow2_pos, lemma2_to64, lemma_pow2_strictly_increases};
use crate::tree::{Tree, Node, MinNode};

verus! {

/// Number of the first `n` nodes at depth `depth`.
pub open spec fn count_at(nodes: Seq<Node>, depth: int, n: nat) -> nat
    decreases n,
{
    if n == 0 {
        0
    } else {
        count_at(nodes, depth, (n - 1) as nat) + if nodes[n - 1].number_bits == depth {
            1nat
        } else {
            0nat
        }
    }
}

/// Number of the first `n` nodes at depth `depth` that hold a symbol.
pub open spec fn coded_at(nodes: Seq<Node>, depth: int, n: nat) -> nat
    decreases n,
{
    if n == 0 {
        0
    } else {
        coded_at(nodes, depth, (n - 1) as nat) + if nodes[n - 1].number_bits == depth
            && nodes[n - 1].symbol is Some {
            1nat
        } else {
            0nat
        }
    }
}

/// The greatest depth up to `top` that a leaf has; 0 where there is none.
pub open spec fn deepest(nodes: Seq<Node>, leaves: nat, top: nat) -> nat
    decreases top,
{
    if top == 0 {
        0
    } else if count_at(nodes, top as int, leaves) != 0 {
        top
    } else {
        deepest(nodes, leaves, (top - 1) as nat)
    }
}

/// The first code of length `depth`: 0 for the longest codes; for any other
/// length, half of what follows the last code one bit longer, rounded
/// down.
pub open spec fn first_code(nodes: Seq<Node>, leaves: nat, depth: nat, longest: nat) -> nat
    decreases longest - depth,
{
    if depth >= longest {
        0
    } else {
        (first_code(nodes, leaves, depth + 1, longest) + count_at(
            nodes,
            (depth + 1) as int,
            leaves,
        )) / 2
    }
}

/// The code table after the first `n` leaves: each leaf with a symbol gets
/// the next code of its length.
pub open spec fn code_table(nodes: Seq<Node>, leaves: nat, n: nat) -> Seq<MinNode>
    decreases n,
{
    if n == 0 {
        Seq::new(256, |s: int| MinNode { number_bits: 0, val: 0 })
    } else {
        let before = code_table(nodes, leaves, (n - 1) as nat);
        let node = nodes[n - 1];
        match node.symbol {
            Some(symbol) => before.update(
                symbol as int,
                MinNode {
                    number_bits: node.number_bits,
                    val: (first_code(
                        nodes,
                        leaves,
                        node.number_bits as nat,
                        deepest(nodes, leaves, 15),
                    ) + coded_at(nodes, node.number_bits as int, (n - 1) as nat)) as u16,
                },
            ),
            None => before,
        }
    }
}

pub proof fn lemma_count_at(nodes: Seq<Node>, depth: int, n: nat)
    ensures
        coded_at(nodes, depth, n) <= count_at(nodes, depth, n) <= n,
    decreases n,
{
    if n > 0 {
        lemma_count_at(nodes, depth, (n - 1) as nat);
    }
}

pub proof fn lemma_count_at_monotone(nodes: Seq<Node>, depth: int, a: nat, b: nat)
    requires
        a <= b,
    ensures
        count_at(nodes, depth, a) <= count_at(nodes, depth, b),
        coded_at(nodes, depth, a) <= coded_at(nodes, depth, b),
    decreases b,
{
    if a < b {
        lemma_count_at_monotone(nodes, depth, a, (b - 1) as nat);
    }
}

pub proof fn lemma_first_code(nodes: Seq<Node>, leaves: nat, depth: nat, longest: nat)
    requires
        leaves <= 256,
    ensures
        first_code(nodes, leaves, depth, longest) <= 256,
    decreases longest - depth,
{
    if depth < longest {
        lemma_first_code(nodes, leaves, depth + 1, longest);
        lemma_count_at(nodes, (depth + 1) as int, leaves);
    }
}

/// Converts the depths of the leaves into a table of canonical codes.
/// Where two leaves or more fill the code space, the codes are free of
/// prefixes.
pub fn tree_to_table(tree: &Tree) -> (table: [MinNode; 256])
    requires
        tree.holds_leaves(),
        forall|i: int|
            0 <= i <= tree.last_symbol_node_pos ==> (#[trigger] tree.nodes@[i]).number_bits < 16,
    ensures
        table@ == code_table(
            tree.nodes@,
            (tree.last_symbol_node_pos + 1) as nat,
            (tree.last_symbol_node_pos + 1) as nat,
        ),
        tree.last_symbol_node_pos >= 1 && crate::code_space::is_full(tree.leaf_bits())
            ==> prefix_free(table@),
{
    proof {
        if tree.last_symbol_node_pos >= 1 && crate::code_space::is_full(tree.leaf_bits()) {
            crate::code_space::lemma_full_prefix_free(
                tree.nodes@,
                (tree.last_symbol_node_pos + 1) as nat,
            );
        }
    }
    let ghost nodes = tree.nodes@;
    let leaves = tree.last_symbol_node_pos as usize + 1;
    let mut num_nodes_per_depth = [0u16; 16];
    let mut node_values_per_depth = [0u16; 16];
    let mut i: usize = 0;
    while i < leaves
        invariant
            i <= leaves,
            leaves == tree.last_symbol_node_pos + 1,
            nodes == tree.nodes@,
            tree.holds_leaves(),
            forall|j: int| 0 <= j < leaves ==> (#[trigger] nodes[j]).number_bits < 16,
            forall|d: int|
                0 <= d < 16 ==> #[trigger] num_nodes_per_depth@[d] == count_at(nodes, d, i as nat),
        decreases leaves - i,
    {
        let depth = tree.nodes[i].number_bits as usize;
        proof {
            lemma_count_at(nodes, depth as int, i as nat);
        }
        num_nodes_per_depth[depth] = num_nodes_per_depth[depth] + 1;
        i += 1;
    }
    let mut max_depth: usize = 15;
    while max_depth > 0 && num_nodes_per_depth[max_depth] == 0
        invariant
            max_depth <= 15,
            forall|d: int|
                0 <= d < 16 ==> #[trigger] num_nodes_per_depth@[d] == count_at(
                    nodes,
                    d,
                    leaves as nat,
                ),
            deepest(nodes, leaves as nat, 15) == deepest(nodes, leaves as nat, max_depth as nat),
        decreases max_depth,
    {
        max_depth -= 1;
    }
    let ghost longest = max_depth as nat;
    assert(deepest(nodes, leaves as nat, 15) == longest);
    let mut min: u16 = 0;
    let mut depth: usize = max_depth + 1;
    while depth > 0
        invariant
            depth <= max_depth + 1 <= 16,
            longest == max_depth,
            leaves <= 256,
            forall|d: int|
                0 <= d < 16 ==> #[trigger] num_nodes_per_depth@[d] == count_at(
                    nodes,
                    d,
                    leaves as nat,
                ),
            forall|d: int|
                depth <= d <= max_depth ==> #[trigger] node_values_per_depth@[d] == first_code(
                    nodes,
                    leaves as nat,
                    d as nat,
                    longest,
                ),
            forall|d: int| max_depth < d < 16 ==> #[trigger] node_values_per_depth@[d] == 0,
            depth <= max_depth ==> min == (first_code(nodes, leaves as nat, depth as nat, longest)
                + count_at(nodes, depth as int, leaves as nat)) / 2,
            depth == max_depth + 1 ==> min == 0,
            min <= 256,
        decreases depth,
    {
        depth -= 1;
        proof {
            lemma_count_at(nodes, depth as int, leaves as nat);
            lemma_first_code(nodes, leaves as nat, depth as nat, longest);
        }
        node_values_per_depth[depth] = min;
        min = min + num_nodes_per_depth[depth];
        assert(min >> 1 == min / 2) by (bit_vector);
        min = min >> 1;
    }
    let ghost starts = node_values_per_depth@;
    let mut symbol_lookup_table = [MinNode { number_bits: 0, val: 0 }; 256];
    assert(symbol_lookup_table@ =~= code_table(nodes, leaves as nat, 0));
    let mut i: usize = 0;
    while i < leaves
        invariant
            i <= leaves <= 256,
            leaves == tree.last_symbol_node_pos + 1,
            nodes == tree.nodes@,
            tree.holds_leaves(),
            longest == deepest(nodes, leaves as nat, 15),
            longest <= 15,
            forall|j: int| 0 <= j < leaves ==> (#[trigger] nodes[j]).number_bits < 16,
            forall|d: int|
                0 <= d <= longest ==> #[trigger] node_values_per_depth@[d] == first_code(
                    nodes,
                    leaves as nat,
                    d as nat,
                    longest,
                ) + coded_at(nodes, d, i as nat),
            forall|d: int|
                longest < d < 16 ==> #[trigger] node_values_per_depth@[d] == coded_at(
                    nodes,
                    d,
                    i as nat,
                ),
            symbol_lookup_table@ == code_table(nodes, leaves as nat, i as nat),
        decreases leaves - i,
    {
        let node = tree.nodes[i];
        proof {
            lemma_count_at(nodes, node.number_bits as int, i as nat);
            lemma_first_code(nodes, leaves as nat, node.number_bits as nat, longest);
        }
        if let Some(byte) = node.symbol {
            symbol_lookup_table[byte as usize].val = node_values_per_depth[node.number_bits
                as usize];
            symbol_lookup_table[byte as usize].number_bits = node.number_bits;
            node_values_per_depth[node.number_bits as usize] = node_values_per_depth[node.number_bits
                as usize] + 1;
        }
        i += 1;
    }
    symbol_lookup_table
}

/// No code, cut down to the length of a shorter code, is that code.
/// Symbols of length 0 have no code.
pub open spec fn prefix_free(table: Seq<MinNode>) -> bool {
    forall|a: int, b: int|
        #![trigger table[a], table[b]]
        0 <= a < table.len() && 0 <= b < table.len() && 0 < table[b].number_bits
            < table[a].number_bits ==> table[a].val as nat / pow2(
            (table[a].number_bits - table[b].number_bits) as nat,
        ) != table[b].val
}

/// `code` cut down by `cut` bits.
pub fn cut_code(code: u16, cut: u8) -> (prefix: u16)
    ensures
        prefix == code as nat / pow2(cut as nat),
{
    proof {
        lemma2_to64();
        lemma_pow2_pos(cut as nat);
    }
    if cut >= 16 {
        proof {
            if cut > 16 {
                lemma_pow2_strictly_increases(16, cut as nat);
            }
            vstd::arithmetic::div_mod::lemma_basic_div(code as int, pow2(cut as nat) as int);
        }
        0
    } else {
        proof {
            vstd::bits::lemma_u16_shr_is_div(code, cut as u16);
        }
        code >> cut
    }
}

/// Tests whether the table is free of prefixes: whether no code, cut down
/// to the length of a shorter code, is that code.
pub fn test_prefix_property(table: &[MinNode; 256]) -> (holds: bool)
    ensures
        holds == prefix_free(table@),
{
    let mut a: usize = 0;
    while a < 256
        invariant
            a <= 256,
            forall|x: int, y: int|
                #![trigger table@[x], table@[y]]
                0 <= x < a && 0 <= y < 256 && 0 < table@[y].number_bits < table@[x].number_bits
                    ==> table@[x].val as nat / pow2(
                    (table@[x].number_bits - table@[y].number_bits) as nat,
                ) != table@[y].val,
        decreases 256 - a,
    {
        let mut b: usize = 0;
        while b < 256
            invariant
                a < 256,
                b <= 256,
                forall|y: int|
                    0 <= y < b && 0 < (#[trigger] table@[y]).number_bits < table@[a as int].number_bits
                        ==> table@[a as int].val as nat / pow2(
                        (table@[a as int].number_bits - table@[y].number_bits) as nat,
                    ) != table@[y].val,
            decreases 256 - b,
        {
            let long = table[a];
            let short = table[b];
            if 0 < short.number_bits && short.number_bits < long.number_bits {
                if cut_code(long.val, long.number_bits - short.number_bits) == short.val {
                    assert(!prefix_free(table@)) by {
                        assert(table@[a as int] == long && table@[b as int] == short);
                    }
                    return false;
                }
            }
            b += 1;
        }
        a += 1;
    }
    true
}

} // verus!
