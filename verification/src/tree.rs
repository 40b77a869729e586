//! The Huffman tree: an array of nodes, the leaves in front, sorted by
//! count, the parents at the end, built back to front.

use vstd::prelude::*;
use vstd::arithmetic::power2::{pow2, lemma_pow2_pos, lemma2_to64, lemma_pow2_strictly_increases, lemma_pow2_unfold};

verus! {

/// A node of the tree.
#[derive(Debug, Clone, Copy, PartialEq, Eq, Hash)]
pub struct Node {
    /// The symbol of a leaf.
    pub symbol: Option<u8>,
    /// Occurrences of the symbol, or of all symbols below a parent.
    pub count: u32,
    /// Position of the left child in the array.
    pub left: Option<u16>,
    /// Position of the right child in the array.
    pub right: Option<u16>,
    /// Depth of the node: the length of its code.
    pub number_bits: u8,
}

impl Default for Node {
    fn default() -> (node: Self)
        ensures
            node == empty_node(),
    {
        Node { symbol: None, count: 0, left: None, right: None, number_bits: 0 }
    }
}

/// The node that the unused places of the array hold.
pub open spec fn empty_node() -> Node {
    Node { symbol: None, count: 0, left: None, right: None, number_bits: 0 }
}

/// Code of a symbol: its bit pattern and its length.
#[derive(Debug, Clone, Copy)]
pub struct MinNode {
    pub number_bits: u8,
    pub val: u16,
}

impl Default for MinNode {
    fn default() -> (node: Self)
        ensures
            node.number_bits == 0,
            node.val == 0,
    {
        MinNode { number_bits: 0, val: 0 }
    }
}

/// The least depth of a binary tree with `num_symbols` leaves, and at
/// least 1: the least `d >= 1` with `num_symbols <= 2^d`.
pub open spec fn spec_minimum_depth(num_symbols: nat) -> nat
    decreases num_symbols,
{
    if num_symbols <= 2 {
        1
    } else {
        1 + spec_minimum_depth((num_symbols + 1) / 2)
    }
}

/// `spec_minimum_depth(n)` is `max(1, ceil(log2(n)))`.
pub proof fn lemma_minimum_depth(num_symbols: nat)
    ensures
        spec_minimum_depth(num_symbols) >= 1,
        num_symbols <= pow2(spec_minimum_depth(num_symbols)),
        spec_minimum_depth(num_symbols) > 1 ==> pow2((spec_minimum_depth(num_symbols) - 1) as nat)
            < num_symbols,
    decreases num_symbols,
{
    lemma2_to64();
    if num_symbols > 2 {
        lemma_minimum_depth((num_symbols + 1) / 2);
        lemma_pow2_unfold(spec_minimum_depth(num_symbols));
        if spec_minimum_depth(num_symbols) > 2 {
            lemma_pow2_unfold((spec_minimum_depth(num_symbols) - 1) as nat);
        }
    }
}

/// The least depth that a tree with `num_symbols` leaves can have, and at
/// least 1.
pub fn minimum_tree_depth(num_symbols: usize) -> (depth: usize)
    ensures
        depth == spec_minimum_depth(num_symbols as nat),
        depth >= 1,
        num_symbols <= pow2(depth as nat),
        depth > 1 ==> pow2((depth - 1) as nat) < num_symbols,
        depth <= 64,
{
    let mut depth: usize = 1;
    let mut rest: usize = num_symbols;
    proof {
        lemma2_to64();
        assert(rest as nat * 1 == rest);
    }
    while rest > 2
        invariant
            1 <= depth,
            depth + spec_minimum_depth(rest as nat) == 1 + spec_minimum_depth(num_symbols as nat),
            rest as nat * pow2((depth - 1) as nat) <= num_symbols as nat + pow2((depth - 1) as nat),
            depth <= 64,
            rest > 2 ==> depth < 64,
        decreases rest,
    {
        proof {
            lemma_pow2_unfold(depth as nat);
            lemma_pow2_pos((depth - 1) as nat);
            lemma_halving(rest as nat, num_symbols as nat, depth as nat);
        }
        rest = rest / 2 + rest % 2;
        depth += 1;
    }
    proof {
        lemma_minimum_depth(num_symbols as nat);
    }
    depth
}

proof fn lemma_halving(rest: nat, n: nat, depth: nat)
    requires
        rest > 2,
        depth >= 1,
        depth <= 64,
        n <= usize::MAX,
        rest * pow2((depth - 1) as nat) <= n + pow2((depth - 1) as nat),
    ensures
        rest / 2 + rest % 2 == (rest + 1) / 2,
        ((rest + 1) / 2) * pow2(depth) <= n + pow2(depth),
        (rest + 1) / 2 > 2 ==> depth + 1 < 64,
{
    let unit = pow2((depth - 1) as nat);
    lemma_pow2_unfold(depth);
    lemma_pow2_pos((depth - 1) as nat);
    let half = (rest + 1) / 2;
    assert(half * (2 * unit) <= (rest + 1) * unit) by (nonlinear_arith)
        requires
            2 * half <= rest + 1,
            unit >= 0,
    ;
    assert((rest + 1) * unit == rest * unit + unit) by (nonlinear_arith);
    if half > 2 && depth + 1 >= 64 {
        lemma2_to64();
        vstd::arithmetic::power2::lemma2_to64_rest();
        if depth > 63 {
            lemma_pow2_strictly_increases(63, depth);
        }
        assert(3 * pow2(depth) <= half * pow2(depth)) by (nonlinear_arith)
            requires
                half >= 3,
                pow2(depth) >= 0,
        ;
        assert(false);
    }
}

/// Number of nodes of the full binary tree of depth `depth`.
pub fn maximum_number_of_nodes(depth: u32) -> (nodes: usize)
    requires
        depth < 31,
    ensures
        nodes == pow2((depth + 1) as nat) - 1,
{
    let mut nodes: usize = 0;
    let mut level: u32 = 0;
    proof {
        lemma2_to64();
    }
    while level <= depth
        invariant
            level <= depth + 1,
            depth < 31,
            nodes == pow2(level as nat) - 1,
        decreases depth + 1 - level,
    {
        proof {
            crate::table::lemma_table_size(0);
            lemma_pow2_unfold((level + 1) as nat);
            lemma_pow2_strictly_increases(level as nat, 31);
            lemma2_to64();
            vstd::bits::lemma_usize_shl_is_mul(1, level as usize);
        }
        nodes = nodes + (1usize << level);
        level += 1;
    }
    nodes
}

/// Moves `val` one up and gives what it was.
pub fn increment_return_old(val: &mut usize) -> (before: usize)
    requires
        *old(val) < usize::MAX,
    ensures
        before == *old(val),
        *final(val) == *old(val) + 1,
{
    *val += 1;
    *val - 1
}

/// Moves `val` one down and gives what it was.
pub fn decrement_return_old(val: &mut usize) -> (before: usize)
    requires
        *old(val) > 0,
    ensures
        before == *old(val),
        *final(val) == *old(val) - 1,
{
    *val -= 1;
    *val + 1
}

/// A tree of nodes in one array.
#[derive(Debug)]
pub struct Tree {
    pub nodes: Vec<Node>,
    /// Position of the root, a parent: parents stand at the end of the array.
    pub root_node: usize,
    /// Position of the last leaf: the leaves stand at the start of the array.
    pub last_symbol_node_pos: u8,
}

/// The leaf of symbol `symbol` with `count` occurrences.
pub open spec fn leaf_node(symbol: u8, count: u32) -> Node {
    Node { symbol: Some(symbol), count, left: None, right: None, number_bits: 0 }
}

/// The count of a symbol as a node holds it: its low 32 bits.
pub open spec fn node_count(count: usize) -> u32 {
    (count as int % 0x1_0000_0000) as u32
}

/// The leaves of the symbols below `n` that occur, in symbol order.
pub open spec fn spec_leaves(counts: Seq<usize>, n: nat) -> Seq<Node>
    decreases n,
{
    if n == 0 {
        Seq::empty()
    } else if counts[n - 1] != 0 {
        spec_leaves(counts, (n - 1) as nat).push(leaf_node((n - 1) as u8, node_count(counts[n - 1])))
    } else {
        spec_leaves(counts, (n - 1) as nat)
    }
}

/// `sorted` with `node` put behind the last node whose count is not above
/// the count of `node`.
pub open spec fn insert_by_count(sorted: Seq<Node>, node: Node) -> Seq<Node>
    decreases sorted.len(),
{
    if sorted.len() > 0 && sorted.last().count > node.count {
        insert_by_count(sorted.drop_last(), node).push(sorted.last())
    } else {
        sorted.push(node)
    }
}

/// The nodes sorted by count, nodes of equal count in their given order.
pub open spec fn sort_by_count(nodes: Seq<Node>) -> Seq<Node>
    decreases nodes.len(),
{
    if nodes.len() == 0 {
        nodes
    } else {
        insert_by_count(sort_by_count(nodes.drop_last()), nodes.last())
    }
}

/// The counts of `nodes` do not fall.
pub open spec fn ascending(nodes: Seq<Node>) -> bool {
    forall|i: int, j: int| 0 <= i <= j < nodes.len() ==> nodes[i].count <= nodes[j].count
}

pub proof fn lemma_insert_by_count(sorted: Seq<Node>, node: Node)
    requires
        ascending(sorted),
    ensures
        ascending(insert_by_count(sorted, node)),
        insert_by_count(sorted, node).len() == sorted.len() + 1,
        insert_by_count(sorted, node).to_multiset() == sorted.to_multiset().insert(node),
        forall|i: int|
            0 <= i < sorted.len() + 1 ==> (#[trigger] insert_by_count(sorted, node)[i] == node || (
            exists|j: int| 0 <= j < sorted.len() && sorted[j] == insert_by_count(sorted, node)[i])),
    decreases sorted.len(),
{
    broadcast use vstd::seq_lib::group_to_multiset_ensures;

    let out = insert_by_count(sorted, node);
    if sorted.len() > 0 && sorted.last().count > node.count {
        let front = sorted.drop_last();
        lemma_insert_by_count(front, node);
        let inner = insert_by_count(front, node);
        assert(sorted =~= front.push(sorted.last()));
        assert forall|i: int, j: int| 0 <= i <= j < out.len() implies out[i].count
            <= out[j].count by {
            if j == out.len() - 1 && i < j {
                if inner[i] != node {
                    let k = choose|k: int| 0 <= k < front.len() && front[k] == inner[i];
                    assert(sorted[k].count <= sorted[sorted.len() - 1].count);
                }
            }
        }
        assert forall|i: int| 0 <= i < sorted.len() + 1 implies (#[trigger] out[i] == node || (
        exists|j: int| 0 <= j < sorted.len() && sorted[j] == out[i])) by {
            if i == out.len() - 1 {
                assert(sorted[sorted.len() - 1] == out[i]);
            } else if inner[i] != node {
                let k = choose|k: int| 0 <= k < front.len() && front[k] == inner[i];
                assert(sorted[k] == out[i]);
            }
        }
    } else {
        assert forall|i: int| 0 <= i < sorted.len() + 1 implies (#[trigger] out[i] == node || (
        exists|j: int| 0 <= j < sorted.len() && sorted[j] == out[i])) by {
            if i < sorted.len() {
                assert(sorted[i] == out[i]);
            }
        }
    }
}

/// Sorting keeps the nodes and puts their counts in order.
pub proof fn lemma_sort_by_count(nodes: Seq<Node>)
    ensures
        ascending(sort_by_count(nodes)),
        sort_by_count(nodes).len() == nodes.len(),
        sort_by_count(nodes).to_multiset() == nodes.to_multiset(),
    decreases nodes.len(),
{
    broadcast use vstd::seq_lib::group_to_multiset_ensures;

    if nodes.len() > 0 {
        lemma_sort_by_count(nodes.drop_last());
        lemma_insert_by_count(sort_by_count(nodes.drop_last()), nodes.last());
        assert(nodes =~= nodes.drop_last().push(nodes.last()));
    }
}

/// Puts the node at `i` into its place among the nodes before it, which
/// are in order: behind the last of them whose count is not above its own.
pub fn insert_leaf(nodes: &mut Vec<Node>, i: usize)
    requires
        i < old(nodes)@.len(),
    ensures
        final(nodes)@.len() == old(nodes)@.len(),
        final(nodes)@.subrange(0, i + 1) == insert_by_count(
            old(nodes)@.subrange(0, i as int),
            old(nodes)@[i as int],
        ),
        forall|x: int| i < x < old(nodes)@.len() ==> final(nodes)@[x] == old(nodes)@[x],
{
    let key = nodes[i];
    let ghost given = nodes@;
    let ghost sorted = nodes@.subrange(0, i as int);
    proof {
        assert(sorted.subrange(0, i as int) =~= sorted);
        assert(sorted.subrange(i as int, i as int) =~= Seq::<Node>::empty());
        assert(insert_by_count(sorted, key) =~= insert_by_count(sorted, key) + Seq::<
            Node,
        >::empty());
    }
    let mut j: usize = i;
    while j > 0 && nodes[j - 1].count > key.count
        invariant
            j <= i < given.len(),
            nodes@.len() == given.len(),
            sorted.len() == i,
            forall|x: int| 0 <= x < j ==> nodes@[x] == sorted[x],
            forall|x: int| j < x <= i ==> nodes@[x] == sorted[x - 1],
            forall|x: int| i < x < given.len() ==> nodes@[x] == given[x],
            insert_by_count(sorted, key) == insert_by_count(sorted.subrange(0, j as int), key)
                + sorted.subrange(j as int, i as int),
        decreases j,
    {
        let moved = nodes[j - 1];
        nodes[j] = moved;
        proof {
            let front = sorted.subrange(0, j as int);
            assert(front.last() == moved);
            assert(front.drop_last() =~= sorted.subrange(0, j - 1));
            assert(insert_by_count(front.drop_last(), key).push(moved) + sorted.subrange(
                j as int,
                i as int,
            ) =~= insert_by_count(front.drop_last(), key) + sorted.subrange(j - 1, i as int));
        }
        j -= 1;
    }
    nodes[j] = key;
    proof {
        let front = sorted.subrange(0, j as int);
        if j > 0 {
            assert(front.last() == sorted[j - 1]);
        }
        assert(nodes@.subrange(0, i + 1) =~= front.push(key) + sorted.subrange(j as int, i as int));
    }
}

/// Sorts the first `len` nodes by count; nodes of equal count keep their
/// order.
pub fn sort_leaves(nodes: &mut Vec<Node>, len: usize)
    requires
        len <= old(nodes)@.len(),
    ensures
        final(nodes)@.len() == old(nodes)@.len(),
        final(nodes)@.subrange(0, len as int) == sort_by_count(old(nodes)@.subrange(0, len as int)),
        forall|x: int| len <= x < old(nodes)@.len() ==> final(nodes)@[x] == old(nodes)@[x],
{
    let ghost given = nodes@;
    let mut i: usize = 0;
    assert(nodes@.subrange(0, 0) =~= sort_by_count(given.subrange(0, 0)));
    while i < len
        invariant
            i <= len <= given.len(),
            nodes@.len() == given.len(),
            nodes@.subrange(0, i as int) == sort_by_count(given.subrange(0, i as int)),
            forall|x: int| i <= x < given.len() ==> nodes@[x] == given[x],
        decreases len - i,
    {
        proof {
            assert(given.subrange(0, i + 1).drop_last() =~= given.subrange(0, i as int));
            assert(given.subrange(0, i + 1).last() == given[i as int]);
        }
        insert_leaf(nodes, i);
        i += 1;
    }
}

/// A parent with the given count and children.
pub open spec fn parent_node(count: u32, left: Option<u16>, right: Option<u16>) -> Node {
    Node { symbol: None, count, left, right, number_bits: 0 }
}

/// Sum of two counts as a node holds it: its low 32 bits.
pub open spec fn count_sum(a: u32, b: u32) -> u32 {
    ((a + b) % 0x1_0000_0000) as u32
}

/// The next node to merge is the leaf at `pos`: its count is below that of
/// the waiting parent at `check`, or no parent waits.
pub open spec fn takes_leaf(nodes: Seq<Node>, pos: int, check: int) -> bool {
    nodes[pos].count < nodes[check].count || nodes[check].count == 0
}

/// One merge: the two lowest nodes among the leaf at `pos` and the parent
/// at `check` get a parent at `create`. Where the second of them is an
/// empty place past the leaves, the next waiting parent takes its place.
/// Gives the nodes and the cursors `pos`, `check`, `create`.
pub open spec fn merge_step(nodes: Seq<Node>, pos: int, check: int, create: int) -> (
    Seq<Node>,
    int,
    int,
    int,
) {
    let first = takes_leaf(nodes, pos, check);
    let node1 = if first { pos } else { check };
    let pos1 = if first { pos + 1 } else { pos };
    let check1 = if first { check } else { check - 1 };
    let second = takes_leaf(nodes, pos1, check1);
    let node2 = if second { pos1 } else { check1 };
    let pos2 = if second { pos1 + 1 } else { pos1 };
    let check2 = if second { check1 } else { check1 - 1 };
    let sum = count_sum(nodes[node1].count, nodes[node2].count);
    let written = nodes.update(create, parent_node(sum, Some(node1 as u16), None));
    if written[node2].count != 0 {
        (
            nodes.update(create, parent_node(sum, Some(node1 as u16), Some(node2 as u16))),
            pos2,
            check2,
            create - 1,
        )
    } else if written[check2].count != 0 {
        (
            nodes.update(
                create,
                parent_node(
                    count_sum(sum, written[check2].count),
                    Some(node1 as u16),
                    Some(check2 as u16),
                ),
            ),
            pos2,
            check2 - 1,
            create - 1,
        )
    } else {
        (written, pos2, check2, create - 1)
    }
}

/// Merges until every leaf up to `last` has a parent.
pub open spec fn merge_leaves(nodes: Seq<Node>, pos: int, check: int, create: int, last: int) -> (
    Seq<Node>,
    int,
    int,
    int,
)
    decreases
        (if 0 <= pos <= last && create <= check {
            2 * (last + 2 - pos) + (check - create)
        } else {
            0
        }),
{
    if pos < 0 || pos > last || create > check {
        (nodes, pos, check, create)
    } else {
        let next = merge_step(nodes, pos, check, create);
        merge_leaves(next.0, next.1, next.2, next.3, last)
    }
}

/// Merges the parents that still wait, two at a time, the older first.
pub open spec fn finish_parents(nodes: Seq<Node>, check: int, create: int) -> (Seq<Node>, int, int)
    decreases check - create,
{
    if check - 1 <= create {
        (nodes, check, create)
    } else if nodes[check].count == 0 || nodes[check - 1].count == 0 {
        (nodes, check - 2, create)
    } else {
        finish_parents(
            nodes.update(
                create,
                parent_node(
                    count_sum(nodes[check].count, nodes[check - 1].count),
                    Some(check as u16),
                    Some((check - 1) as u16),
                ),
            ),
            check - 2,
            create - 1,
        )
    }
}

/// `node` at depth `number_bits`.
pub open spec fn at_depth(node: Node, number_bits: u8) -> Node {
    Node {
        symbol: node.symbol,
        count: node.count,
        left: node.left,
        right: node.right,
        number_bits,
    }
}

/// Depth of the children of a node at depth `number_bits`.
pub open spec fn child_depth(number_bits: u8) -> u8 {
    ((number_bits + 1) % 256) as u8
}

/// The depths below the parents from `p` on: every parent, from the root
/// towards the end of the array, puts its children one level below itself.
pub open spec fn assign_bits(nodes: Seq<Node>, p: int) -> Seq<Node>
    decreases 512 - p,
{
    if p < 0 || p >= 512 {
        nodes
    } else {
        let parent = nodes[p];
        let depth = child_depth(parent.number_bits);
        let first = match parent.left {
            Some(l) => nodes.update(l as int, at_depth(nodes[l as int], depth)),
            None => nodes,
        };
        let second = match parent.right {
            Some(r) => first.update(r as int, at_depth(first[r as int], depth)),
            None => first,
        };
        assign_bits(second, p + 1)
    }
}

/// The tree of the counts: its nodes, the position of its root and the
/// position of its last leaf.
pub open spec fn spec_tree(counts: Seq<usize>) -> (Seq<Node>, int, int) {
    let leaves = sort_by_count(spec_leaves(counts, 256));
    let last = leaves.len() - 1;
    let start = leaves + Seq::new((512 - leaves.len()) as nat, |i: int| empty_node());
    let merged = merge_leaves(start, 0, 511, 511, last);
    let finished = finish_parents(merged.0, merged.2, merged.3);
    (assign_bits(finished.0, finished.2 + 1), finished.2 + 1, last)
}

/// `link` is no child, or a child behind the node at `i`, or a leaf.
pub open spec fn link_ahead(link: Option<u16>, i: int, last: int) -> bool {
    match link {
        Some(child) => child < 512 && (child > i || child <= last),
        None => true,
    }
}

/// The children of every node stand behind it or are leaves.
pub open spec fn links_ahead(nodes: Seq<Node>, last: int) -> bool {
    forall|i: int|
        0 <= i < nodes.len() ==> link_ahead((#[trigger] nodes[i]).left, i, last) && link_ahead(
            nodes[i].right,
            i,
            last,
        )
}

/// No node points outside the array.
pub open spec fn links_within(nodes: Seq<Node>) -> bool {
    forall|i: int|
        0 <= i < nodes.len() ==> ((#[trigger] nodes[i]).left is Some ==> nodes[i].left->0
            < nodes.len()) && (nodes[i].right is Some ==> nodes[i].right->0 < nodes.len())
}

pub proof fn lemma_leaves_len(counts: Seq<usize>, n: nat)
    ensures
        spec_leaves(counts, n).len() <= n,
        forall|i: int|
            0 <= i < spec_leaves(counts, n).len() ==> (#[trigger] spec_leaves(counts, n)[i]).left
                is None && spec_leaves(counts, n)[i].right is None && ((forall|s: int|
                0 <= s < n ==> #[trigger] counts[s] <= u32::MAX) ==> spec_leaves(
                counts,
                n,
            )[i].count != 0),
        (exists|s: int| 0 <= s < n && counts[s] != 0) ==> spec_leaves(counts, n).len() > 0,
    decreases n,
{
    if n > 0 {
        lemma_leaves_len(counts, (n - 1) as nat);
        if counts[n - 1] == 0 && (exists|s: int| 0 <= s < n && counts[s] != 0) {
            let s = choose|s: int| 0 <= s < n && counts[s] != 0;
            assert(0 <= s < n - 1 && counts[s] != 0);
        }
    }
}

/// Builds the tree of the counts.
///
/// The leaves are the symbols that occur, sorted by count; the two lowest
/// nodes are merged again and again, leaves and parents taken from two
/// cursors, and every node gets its depth. Counts are taken and added
/// modulo `2^32`; where they add up to less, and two symbols or more
/// occur, the leaves fill the code space, and the first leaf is the
/// deepest.
pub fn build_tree_fast_1(counts: &[usize; 256]) -> (tree: Tree)
    requires
        exists|s: int| 0 <= s < 256 && counts@[s] != 0,
    ensures
        tree.nodes@ == spec_tree(counts@).0,
        tree.root_node == spec_tree(counts@).1,
        tree.last_symbol_node_pos == spec_tree(counts@).2,
        tree.nodes@.len() == 512,
        tree.root_node < 512,
        links_within(tree.nodes@),
        tree.last_symbol_node_pos >= 1 && (forall|s: int|
            0 <= s < 256 ==> #[trigger] counts@[s] <= u32::MAX) ==> crate::graph::walkable(
            tree.nodes@,
        ),
        tree.last_symbol_node_pos >= 1 && crate::full_tree::total_count(counts@, 256) <= u32::MAX
            ==> crate::code_space::is_full(tree.leaf_bits()) && forall|i: int, j: int|
            0 <= i <= j <= tree.last_symbol_node_pos ==> tree.nodes@[i].number_bits
                >= tree.nodes@[j].number_bits,
        ascending(sort_by_count(spec_leaves(counts@, 256))),
        sort_by_count(spec_leaves(counts@, 256)).to_multiset() == spec_leaves(
            counts@,
            256,
        ).to_multiset(),
{
    let ghost plain = forall|s: int| 0 <= s < 256 ==> #[trigger] counts@[s] <= u32::MAX;
    let mut nodes: Vec<Node> = vec![Node::default(); 512];
    let mut count: usize = 0;
    let mut byte: usize = 0;
    while byte < 256
        invariant
            byte <= 256,
            count <= byte,
            nodes@.len() == 512,
            count == spec_leaves(counts@, byte as nat).len(),
            nodes@.subrange(0, count as int) == spec_leaves(counts@, byte as nat),
            forall|i: int| count <= i < 512 ==> #[trigger] nodes@[i] == empty_node(),
        decreases 256 - byte,
    {
        if counts[byte] != 0 {
            let ghost before = nodes@;
            nodes[count] = Node {
                symbol: Some(byte as u8),
                count: #[verifier::truncate] (counts[byte] as u32),
                left: None,
                right: None,
                number_bits: 0,
            };
            proof {
                let low = counts@[byte as int] as u64;
                assert(low as u32 == low % 0x1_0000_0000u64) by (bit_vector);
                assert(nodes@.subrange(0, count + 1) =~= before.subrange(0, count as int).push(
                    nodes@[count as int],
                ));
            }
            count += 1;
        }
        byte += 1;
    }
    proof {
        lemma_leaves_len(counts@, 256);
        lemma_sort_by_count(spec_leaves(counts@, 256));
    }
    let last_symbol_node_pos: u8 = (count - 1) as u8;
    let ghost collected = nodes@;
    sort_leaves(&mut nodes, count);
    let ghost leaves = sort_by_count(spec_leaves(counts@, 256));
    let ghost last = leaves.len() - 1;
    let ghost start = leaves + Seq::new((512 - leaves.len()) as nat, |i: int| empty_node());
    proof {
        assert(nodes@ =~= start) by {
            assert forall|i: int| 0 <= i < 512 implies nodes@[i] == start[i] by {
                if i < count {
                    assert(nodes@.subrange(0, count as int)[i] == nodes@[i]);
                }
            }
        }
        assert forall|i: int| 0 <= i < 512 implies (#[trigger] nodes@[i]).left is None
            && nodes@[i].right is None && (i < count && plain ==> nodes@[i].count != 0) by {
            if i < count {
                let sorted = leaves;
                lemma_sorted_members(spec_leaves(counts@, 256), i);
            }
        }
    }
    let ghost merged = merge_leaves(start, 0, 511, 511, last);
    let mut pos: usize = 0;
    let mut parent_check_pos: usize = 511;
    let mut parent_create_pos: usize = 511;
    while pos <= last_symbol_node_pos as usize
        invariant
            nodes@.len() == 512,
            last == last_symbol_node_pos,
            last < 256,
            parent_create_pos <= parent_check_pos <= 511,
            pos <= last + 2,
            pos == 0 || parent_create_pos < 511,
            last >= 1 && plain ==> pos == 0 || parent_check_pos > parent_create_pos,
            forall|i: int|
                0 <= i <= last ==> (#[trigger] nodes@[i]).left is None && nodes@[i].right is None
                    && (plain ==> nodes@[i].count != 0),
            last >= 1 && plain ==> links_ahead(nodes@, last),
            (511 - parent_create_pos) + (parent_check_pos - parent_create_pos) + (last + 1 - pos)
                <= last + 1,
            forall|i: int| last < i <= parent_create_pos ==> (#[trigger] nodes@[i]).count == 0,
            links_within(nodes@),
            merge_leaves(
                nodes@,
                pos as int,
                parent_check_pos as int,
                parent_create_pos as int,
                last,
            ) == merged,
        decreases 2 * (last + 2 - pos) + (parent_check_pos - parent_create_pos),
    {
        let ghost entry = nodes@;
        let ghost step = merge_step(
            entry,
            pos as int,
            parent_check_pos as int,
            parent_create_pos as int,
        );
        assert(nodes@[parent_create_pos as int].count == 0);
        let node1_pos = if nodes[pos].count < nodes[parent_check_pos].count
            || nodes[parent_check_pos].count == 0 {
            increment_return_old(&mut pos)
        } else {
            decrement_return_old(&mut parent_check_pos)
        };
        let node2_pos = if nodes[pos].count < nodes[parent_check_pos].count
            || nodes[parent_check_pos].count == 0 {
            increment_return_old(&mut pos)
        } else {
            decrement_return_old(&mut parent_check_pos)
        };
        let sum = nodes[node1_pos].count.wrapping_add(nodes[node2_pos].count);
        nodes[parent_create_pos] = Node {
            symbol: None,
            count: sum,
            left: Some(node1_pos as u16),
            right: None,
            number_bits: 0,
        };
        if nodes[node2_pos].count != 0 {
            nodes[parent_create_pos].right = Some(node2_pos as u16);
        } else if nodes[parent_check_pos].count != 0 {
            let connect_parent = decrement_return_old(&mut parent_check_pos);
            nodes[parent_create_pos].right = Some(connect_parent as u16);
            let joined = nodes[parent_create_pos].count.wrapping_add(nodes[connect_parent].count);
            nodes[parent_create_pos].count = joined;
        }
        proof {
            assert(nodes@ =~= step.0);
            assert(pos == step.1 && parent_check_pos == step.2 && parent_create_pos - 1 == step.3);
        }
        parent_create_pos -= 1;
    }
    let ghost finished = finish_parents(
        merged.0,
        merged.2,
        merged.3,
    );
    while parent_check_pos - 1 > parent_create_pos
        invariant_except_break
            finish_parents(nodes@, parent_check_pos as int, parent_create_pos as int) == finished,
        invariant
            nodes@.len() == 512,
            last < 256,
            parent_create_pos <= parent_check_pos <= 511,
            parent_create_pos < 511,
            (511 - parent_create_pos) + (parent_check_pos - parent_create_pos) <= last + 2,
            links_within(nodes@),
            forall|i: int|
                0 <= i <= last ==> (#[trigger] nodes@[i]).left is None && nodes@[i].right is None
                    && (plain ==> nodes@[i].count != 0),
            last >= 1 && plain ==> links_ahead(nodes@, last),
        ensures
            finished == (nodes@, parent_check_pos as int, parent_create_pos as int),
        decreases parent_check_pos - parent_create_pos,
    {
        let node1_pos = decrement_return_old(&mut parent_check_pos);
        let node2_pos = decrement_return_old(&mut parent_check_pos);
        if nodes[node1_pos].count == 0 || nodes[node2_pos].count == 0 {
            break;
        }
        let sum = nodes[node1_pos].count.wrapping_add(nodes[node2_pos].count);
        nodes[parent_create_pos] = Node {
            symbol: None,
            count: sum,
            left: Some(node1_pos as u16),
            right: Some(node2_pos as u16),
            number_bits: 0,
        };
        parent_create_pos -= 1;
    }
    let root_node = parent_create_pos + 1;
    let ghost result = assign_bits(finished.0, root_node as int);
    let mut parent_node_pos: usize = root_node;
    while parent_node_pos < 512
        invariant
            nodes@.len() == 512,
            root_node <= parent_node_pos <= 512,
            links_within(nodes@),
            last >= 1 && plain ==> links_ahead(nodes@, last),
            last < 256,
            forall|i: int|
                0 <= i <= last ==> (#[trigger] nodes@[i]).left is None && nodes@[i].right is None,
            assign_bits(nodes@, parent_node_pos as int) == result,
        decreases 512 - parent_node_pos,
    {
        let parent = nodes[parent_node_pos];
        let depth = parent.number_bits.wrapping_add(1);
        if let Some(left) = parent.left {
            nodes[left as usize].number_bits = depth;
        }
        if let Some(right) = parent.right {
            nodes[right as usize].number_bits = depth;
        }
        parent_node_pos += 1;
    }
    proof {
        if last >= 1 && plain {
            assert(crate::graph::walkable(nodes@)) by {
                assert forall|i: int| 0 <= i < nodes@.len() implies crate::graph::child_ahead(
                    nodes@,
                    i,
                    (#[trigger] nodes@[i]).left,
                ) && crate::graph::child_ahead(nodes@, i, nodes@[i].right) by {
                    assert(link_ahead(nodes@[i].left, i, last));
                    assert(link_ahead(nodes@[i].right, i, last));
                }
            }
        }
    }
    proof {
        if last >= 1 && crate::full_tree::total_count(counts@, 256) <= u32::MAX {
            crate::full_tree::lemma_tree_is_full(counts@);
        }
    }
    Tree { nodes, root_node, last_symbol_node_pos }
}

/// The members of a sorted sequence are members of what was sorted.
pub proof fn lemma_sorted_members(nodes: Seq<Node>, i: int)
    requires
        0 <= i < nodes.len(),
    ensures
        sort_by_count(nodes).len() == nodes.len(),
        exists|j: int| 0 <= j < nodes.len() && nodes[j] == sort_by_count(nodes)[i],
    decreases nodes.len(),
{
    lemma_sort_by_count(nodes);
    let front = nodes.drop_last();
    lemma_sort_by_count(front);
    lemma_insert_by_count(sort_by_count(front), nodes.last());
    let out = sort_by_count(nodes);
    if out[i] == nodes.last() {
        assert(nodes[nodes.len() - 1] == out[i]);
    } else {
        let k = choose|k: int| 0 <= k < front.len() && sort_by_count(front)[k] == out[i];
        lemma_sorted_members(front, k);
        let j = choose|j: int| 0 <= j < front.len() && front[j] == sort_by_count(front)[k];
        assert(nodes[j] == out[i]);
    }
}

/// Depths of the first `n` nodes.
pub open spec fn depths_of(nodes: Seq<Node>, n: nat) -> Seq<u8> {
    Seq::new(n, |i: int| nodes[i].number_bits)
}

impl Tree {
    /// The array holds the leaves: the last leaf stands inside it.
    pub open spec fn holds_leaves(&self) -> bool {
        self.last_symbol_node_pos < self.nodes@.len()
    }

    /// Depths of the leaves, in the order of the array.
    pub open spec fn leaf_bits(&self) -> Seq<u8> {
        depths_of(self.nodes@, (self.last_symbol_node_pos + 1) as nat)
    }

    /// The node at `node_pos`.
    pub fn get_node(&self, node_pos: u16) -> (node: &Node)
        requires
            node_pos < self.nodes@.len(),
        ensures
            *node == self.nodes@[node_pos as int],
    {
        &self.nodes[node_pos as usize]
    }

    /// Depth of the first leaf, the deepest of a tree as built.
    pub fn get_depth(&self) -> (depth: u8)
        requires
            self.nodes@.len() > 0,
        ensures
            depth == self.nodes@[0].number_bits,
    {
        self.nodes[0].number_bits
    }

    /// Number of leaves.
    pub fn get_num_symbol_nodes(&self) -> (count: u16)
        ensures
            count == self.last_symbol_node_pos + 1,
    {
        self.last_symbol_node_pos as u16 + 1
    }

    /// The root.
    pub fn get_root_node(&self) -> (node: &Node)
        requires
            self.root_node < self.nodes@.len(),
        ensures
            *node == self.nodes@[self.root_node as int],
    {
        &self.nodes[self.root_node]
    }

    /// The leaves.
    pub fn get_symbol_nodes(&self) -> (leaves: &[Node])
        requires
            self.holds_leaves(),
        ensures
            leaves@ == self.nodes@.subrange(0, self.last_symbol_node_pos + 1),
    {
        vstd::slice::slice_subrange(
            self.nodes.as_slice(),
            0,
            self.last_symbol_node_pos as usize + 1,
        )
    }

    /// The leaves, to be changed in place.
    pub fn get_symbol_nodes_mut(&mut self) -> (leaves: &mut [Node])
        requires
            old(self).holds_leaves(),
        ensures
            leaves@ == old(self).nodes@.subrange(0, old(self).last_symbol_node_pos + 1),
            final(self).nodes@ == final(leaves)@ + old(self).nodes@.subrange(
                old(self).last_symbol_node_pos + 1,
                old(self).nodes@.len() as int,
            ),
            final(self).root_node == old(self).root_node,
            final(self).last_symbol_node_pos == old(self).last_symbol_node_pos,
    {
        let count = self.last_symbol_node_pos as usize + 1;
        let (leaves, _) = self.nodes.as_mut_slice().split_at_mut(count);
        leaves
    }

    /// Bits that the leaves take: the count of each times its depth.
    pub open spec fn spec_size_in_bits(&self, n: nat) -> nat
        decreases n,
    {
        if n == 0 {
            0
        } else {
            self.spec_size_in_bits((n - 1) as nat) + (self.nodes@[n - 1].count
                * self.nodes@[n - 1].number_bits) as nat
        }
    }

    /// Bytes that the input takes when coded with the depths of the leaves
    /// as code lengths, a started byte counted as one.
    pub fn estimate_compressed_size(&self) -> (size: usize)
        requires
            self.holds_leaves(),
            self.spec_size_in_bits((self.last_symbol_node_pos + 1) as nat) + 7 <= usize::MAX,
        ensures
            size == (self.spec_size_in_bits((self.last_symbol_node_pos + 1) as nat) + 7) / 8,
    {
        let mut size_in_bits: u64 = 0;
        let count = self.last_symbol_node_pos as usize + 1;
        let mut i: usize = 0;
        while i < count
            invariant
                i <= count,
                count == self.last_symbol_node_pos + 1,
                self.holds_leaves(),
                size_in_bits == self.spec_size_in_bits(i as nat),
                size_in_bits <= i * 0x1_0000_0000_00,
            decreases count - i,
        {
            let node = &self.nodes[i];
            assert(node.count as u64 * node.number_bits as u64 <= 0x1_0000_0000_00u64)
                by (nonlinear_arith)
                requires
                    node.count <= 0xffff_ffffu64,
                    node.number_bits <= 255,
            ;
            size_in_bits = size_in_bits + node.count as u64 * node.number_bits as u64;
            i += 1;
        }
        ((size_in_bits + 7) / 8) as usize
    }
}

} // verus!
