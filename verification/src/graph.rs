//! The tree as a graph: its nodes, its edges, and the walk from the root.

use vstd::prelude::*;
use crate::tree::{Tree, Node};

verus! {

/// An edge from a parent to a child; `transition` is 0 for the left child
/// and 1 for the right one.
#[derive(Debug, Clone)]
pub struct Edge {
    pub from: u16,
    pub to: u16,
    pub transition: u8,
}

/// The edges of the first `n` nodes: of each node the edge to its left
/// child, then the edge to its right child.
pub open spec fn spec_edges(nodes: Seq<Node>, n: nat) -> Seq<(u16, u16, u8)>
    decreases n,
{
    if n == 0 {
        Seq::empty()
    } else {
        let before = spec_edges(nodes, (n - 1) as nat);
        let node = nodes[n - 1];
        let with_left = match node.left {
            Some(left) => before.push(((n - 1) as u16, left, 0u8)),
            None => before,
        };
        match node.right {
            Some(right) => with_left.push(((n - 1) as u16, right, 1u8)),
            None => with_left,
        }
    }
}

/// The nodes among the first `n` that have a count.
pub open spec fn spec_counted_nodes(nodes: Seq<Node>, n: nat) -> Seq<Node>
    decreases n,
{
    if n == 0 {
        Seq::empty()
    } else if nodes[n - 1].count != 0 {
        spec_counted_nodes(nodes, (n - 1) as nat).push(nodes[n - 1])
    } else {
        spec_counted_nodes(nodes, (n - 1) as nat)
    }
}

/// First position among the first `n` of a node equal to `node`.
pub open spec fn spec_node_pos(nodes: Seq<Node>, node: Node, from: int) -> Option<usize>
    decreases nodes.len() - from,
{
    if from < 0 || from >= nodes.len() {
        None
    } else if nodes[from] == node {
        Some(from as usize)
    } else {
        spec_node_pos(nodes, node, from + 1)
    }
}

/// The two nodes are equal in every field.
pub fn same_node(a: &Node, b: &Node) -> (same: bool)
    ensures
        same == (*a == *b),
{
    let symbols = match (a.symbol, b.symbol) {
        (Some(x), Some(y)) => x == y,
        (None, None) => true,
        _ => false,
    };
    let lefts = match (a.left, b.left) {
        (Some(x), Some(y)) => x == y,
        (None, None) => true,
        _ => false,
    };
    let rights = match (a.right, b.right) {
        (Some(x), Some(y)) => x == y,
        (None, None) => true,
        _ => false,
    };
    symbols && lefts && rights && a.count == b.count && a.number_bits == b.number_bits
}

/// Every child stands inside the array, and the child of a node is a node
/// without children or stands behind it: a walk along the children ends.
pub open spec fn walkable(nodes: Seq<Node>) -> bool {
    forall|i: int|
        0 <= i < nodes.len() ==> child_ahead(nodes, i, (#[trigger] nodes[i]).left) && child_ahead(
            nodes,
            i,
            nodes[i].right,
        )
}

/// `child` is no child, or a child of the node at `i` that a walk can go to.
pub open spec fn child_ahead(nodes: Seq<Node>, i: int, child: Option<u16>) -> bool {
    match child {
        Some(c) => c < nodes.len() && (c > i || (nodes[c as int].left is None
            && nodes[c as int].right is None)),
        None => true,
    }
}

/// The nodes below the node at `start`, each with the turns that lead to it
/// as a number, a 0 bit for each left turn and a 1 bit for each right turn,
/// the last turn lowest, and with its depth; every node before the nodes
/// below it, the left side before the right side.
pub open spec fn spec_walk(nodes: Seq<Node>, start: int, depth: usize, transitions: usize) -> Seq<
    (Node, usize, usize),
>
    decreases nodes.len() - start, 2nat,
{
    if start < 0 || start >= nodes.len() {
        Seq::empty()
    } else {
        spec_walk_child(nodes, start, nodes[start].left, depth, transitions, 0) + spec_walk_child(
            nodes,
            start,
            nodes[start].right,
            depth,
            transitions,
            1,
        )
    }
}

/// The level below `depth`; the count of levels starts over past the
/// largest number.
pub open spec fn level_below(depth: usize) -> usize {
    if depth == usize::MAX {
        0
    } else {
        (depth + 1) as usize
    }
}

/// The walk into one child of the node at `parent`.
pub open spec fn spec_walk_child(
    nodes: Seq<Node>,
    parent: int,
    child: Option<u16>,
    depth: usize,
    transitions: usize,
    turn: usize,
) -> Seq<(Node, usize, usize)>
    decreases nodes.len() - parent, 1nat,
{
    match child {
        Some(c) => {
            let below = level_below(depth);
            let path = if turn == 0 { transitions << 1usize } else { (transitions << 1usize) | 1usize };
            if c < nodes.len() && c > parent {
                seq![(nodes[c as int], path, below)] + spec_walk(nodes, c as int, below, path)
            } else if c < nodes.len() {
                seq![(nodes[c as int], path, below)]
            } else {
                Seq::empty()
            }
        },
        None => Seq::empty(),
    }
}

impl Tree {
    /// Position of the first node equal to `node`.
    pub fn get_node_pos(&self, node: Node) -> (pos: Option<usize>)
        ensures
            pos == spec_node_pos(self.nodes@, node, 0),
    {
        let mut i: usize = 0;
        while i < self.nodes.len()
            invariant
                i <= self.nodes@.len(),
                spec_node_pos(self.nodes@, node, 0) == spec_node_pos(self.nodes@, node, i as int),
            decreases self.nodes@.len() - i,
        {
            if same_node(&self.nodes[i], &node) {
                return Some(i);
            }
            i += 1;
        }
        None
    }

    /// The nodes that have a count: the leaves and the parents.
    pub fn nodes(&self) -> (counted: Vec<Node>)
        ensures
            counted@ == spec_counted_nodes(self.nodes@, self.nodes@.len()),
    {
        let mut counted: Vec<Node> = Vec::new();
        let mut i: usize = 0;
        while i < self.nodes.len()
            invariant
                i <= self.nodes@.len(),
                counted@ == spec_counted_nodes(self.nodes@, i as nat),
            decreases self.nodes@.len() - i,
        {
            if self.nodes[i].count != 0 {
                counted.push(self.nodes[i]);
            }
            i += 1;
        }
        counted
    }

    /// The edges of the tree, in the order of the parents.
    pub fn edges(&self) -> (edges: Vec<Edge>)
        requires
            self.nodes@.len() <= 65536,
        ensures
            edges@.len() == spec_edges(self.nodes@, self.nodes@.len()).len(),
            forall|k: int|
                0 <= k < edges@.len() ==> (#[trigger] edges@[k].from, edges@[k].to, edges@[k].transition)
                    == spec_edges(self.nodes@, self.nodes@.len())[k],
    {
        let mut edges: Vec<Edge> = Vec::new();
        let mut i: usize = 0;
        while i < self.nodes.len()
            invariant
                i <= self.nodes@.len() <= 65536,
                edges@.len() == spec_edges(self.nodes@, i as nat).len(),
                forall|k: int|
                    0 <= k < edges@.len() ==> (
                        #[trigger] edges@[k].from,
                        edges@[k].to,
                        edges@[k].transition,
                    ) == spec_edges(self.nodes@, i as nat)[k],
            decreases self.nodes@.len() - i,
        {
            let node = &self.nodes[i];
            if let Some(left) = node.left {
                edges.push(Edge { from: i as u16, to: left, transition: 0 });
            }
            if let Some(right) = node.right {
                edges.push(Edge { from: i as u16, to: right, transition: 1 });
            }
            i += 1;
        }
        edges
    }

    /// The node that the edge starts at.
    pub fn source(&self, e: &Edge) -> (node: Node)
        requires
            e.from < self.nodes@.len(),
        ensures
            node == self.nodes@[e.from as int],
    {
        self.nodes[e.from as usize]
    }

    /// The node that the edge leads to.
    pub fn target(&self, e: &Edge) -> (node: Node)
        requires
            e.to < self.nodes@.len(),
        ensures
            node == self.nodes@[e.to as int],
    {
        self.nodes[e.to as usize]
    }

    /// The nodes below the node at `start_node_pos`, in the order of a walk
    /// that takes the left side first: each with the turns that lead to it
    /// and with its depth below the start.
    pub fn walk_tree(&self, start_node_pos: usize) -> (visits: Vec<(Node, usize, usize)>)
        requires
            walkable(self.nodes@),
            start_node_pos < self.nodes@.len(),
        ensures
            visits@ == spec_walk(self.nodes@, start_node_pos as int, 0, 0),
    {
        let mut visits: Vec<(Node, usize, usize)> = Vec::new();
        self.walk_graph_internal(0, 0, start_node_pos, &mut visits);
        visits
    }

    /// Adds to `visits` the nodes below the node at `start_node_pos`, which
    /// lies `depth` levels below the start of the walk, `transitions` being
    /// the turns that lead to it.
    #[verifier::rlimit(60)]
    pub fn walk_graph_internal(
        &self,
        depth: usize,
        transitions: usize,
        start_node_pos: usize,
        visits: &mut Vec<(Node, usize, usize)>,
    )
        requires
            walkable(self.nodes@),
            start_node_pos < self.nodes@.len(),
        ensures
            final(visits)@ == old(visits)@ + spec_walk(
                self.nodes@,
                start_node_pos as int,
                depth,
                transitions,
            ),
        decreases self.nodes@.len() - start_node_pos,
    {
        let ghost given = visits@;
        let ghost nodes = self.nodes@;
        let node = self.nodes[start_node_pos];
        assert(child_ahead(nodes, start_node_pos as int, nodes[start_node_pos as int].left));
        assert(child_ahead(nodes, start_node_pos as int, nodes[start_node_pos as int].right));
        if let Some(left) = node.left {
            let left_node = self.nodes[left as usize];
            let below = depth.wrapping_add(1);
            let path = transitions << 1;
            visits.push((left_node, path, below));
            if left as usize > start_node_pos {
                self.walk_graph_internal(below, path, left as usize, visits);
            }
        }
        let ghost middle = visits@;
        assert(middle =~= given + spec_walk_child(
            nodes,
            start_node_pos as int,
            node.left,
            depth,
            transitions,
            0,
        ));
        if let Some(right) = node.right {
            let right_node = self.nodes[right as usize];
            let below = depth.wrapping_add(1);
            let path = (transitions << 1) | 1;
            visits.push((right_node, path, below));
            if right as usize > start_node_pos {
                self.walk_graph_internal(below, path, right as usize, visits);
            }
        }
        assert(visits@ =~= middle + spec_walk_child(
            nodes,
            start_node_pos as int,
            node.right,
            depth,
            transitions,
            1,
        ));
    }
}

impl Tree {
    /// Tests whether a walk along the children ends: whether every child
    /// stands inside the array and is a node without children or stands
    /// behind its parent.
    pub fn is_walkable(&self) -> (ok: bool)
        ensures
            ok == walkable(self.nodes@),
    {
        let mut i: usize = 0;
        while i < self.nodes.len()
            invariant
                i <= self.nodes@.len(),
                forall|j: int|
                    0 <= j < i ==> child_ahead(self.nodes@, j, (#[trigger] self.nodes@[j]).left)
                        && child_ahead(self.nodes@, j, self.nodes@[j].right),
            decreases self.nodes@.len() - i,
        {
            let node = self.nodes[i];
            if !self.child_is_ahead(i, node.left) || !self.child_is_ahead(i, node.right) {
                assert(!walkable(self.nodes@)) by {
                    assert(self.nodes@[i as int] == node);
                }
                return false;
            }
            i += 1;
        }
        true
    }

    /// Tests whether `child` is no child, or a child of the node at `i` that
    /// a walk can go to.
    pub fn child_is_ahead(&self, i: usize, child: Option<u16>) -> (ok: bool)
        ensures
            ok == child_ahead(self.nodes@, i as int, child),
    {
        match child {
            Some(c) => {
                if (c as usize) < self.nodes.len() {
                    let below = &self.nodes[c as usize];
                    let childless = match (below.left, below.right) {
                        (None, None) => true,
                        _ => false,
                    };
                    c as usize > i || childless
                } else {
                    false
                }
            },
            None => true,
        }
    }
}

/// Code lengths and codes of the symbols 0 to 7, as the walk of the tree
/// gives them.
#[derive(Debug)]
pub struct HuffmanCodes {
    /// Length of the code of each symbol.
    pub code_length: [u8; 8],
    /// Code of each symbol: the turns that lead to its leaf.
    pub code: [u8; 8],
}

/// The low eight bits of a number.
pub open spec fn low_byte(n: usize) -> u8 {
    (n as int % 256) as u8
}

/// Lengths after the first `n` visits of a walk: each visit of a leaf
/// enters the depth of the leaf at its symbol.
pub open spec fn visit_lengths(visits: Seq<(Node, usize, usize)>, n: nat) -> Seq<u8>
    decreases n,
{
    if n == 0 {
        Seq::new(8, |i: int| 0u8)
    } else {
        let before = visit_lengths(visits, (n - 1) as nat);
        match visits[n - 1].0.symbol {
            Some(symbol) => before.update(symbol as int, low_byte(visits[n - 1].2)),
            None => before,
        }
    }
}

/// Codes after the first `n` visits of a walk: each visit of a leaf enters
/// the turns that lead to the leaf at its symbol.
pub open spec fn visit_codes(visits: Seq<(Node, usize, usize)>, n: nat) -> Seq<u8>
    decreases n,
{
    if n == 0 {
        Seq::new(8, |i: int| 0u8)
    } else {
        let before = visit_codes(visits, (n - 1) as nat);
        match visits[n - 1].0.symbol {
            Some(symbol) => before.update(symbol as int, low_byte(visits[n - 1].1)),
            None => before,
        }
    }
}

/// Builds the lengths and codes of the symbols 0 to 7 from a walk of the
/// tree that starts at its root.
pub fn build_lookup_tables_from_tree(tree: &mut Tree) -> (codes: HuffmanCodes)
    requires
        walkable(old(tree).nodes@),
        old(tree).root_node < old(tree).nodes@.len(),
        forall|i: int|
            0 <= i < old(tree).nodes@.len() ==> match (#[trigger] old(tree).nodes@[i]).symbol {
                Some(symbol) => symbol < 8,
                None => true,
            },
    ensures
        *final(tree) == *old(tree),
        ({
            let visits = spec_walk(old(tree).nodes@, old(tree).root_node as int, 0, 0);
            &&& codes.code_length@ == visit_lengths(visits, visits.len())
            &&& codes.code@ == visit_codes(visits, visits.len())
        }),
{
    let mut code_length = [0u8; 8];
    let mut code = [0u8; 8];
    let visits = tree.walk_tree(tree.root_node);
    proof {
        lemma_walk_nodes(tree.nodes@, tree.root_node as int, 0, 0);
    }
    assert(code_length@ =~= visit_lengths(visits@, 0));
    assert(code@ =~= visit_codes(visits@, 0));
    let mut i: usize = 0;
    while i < visits.len()
        invariant
            i <= visits@.len(),
            code_length@ == visit_lengths(visits@, i as nat),
            code@ == visit_codes(visits@, i as nat),
            forall|k: int|
                0 <= k < visits@.len() ==> match (#[trigger] visits@[k]).0.symbol {
                    Some(symbol) => symbol < 8,
                    None => true,
                },
        decreases visits@.len() - i,
    {
        let (node, transitions, depth) = visits[i];
        if let Some(symbol) = node.symbol {
            assert(depth as u8 == depth % 256 && transitions as u8 == transitions % 256)
                by (bit_vector);
            code_length[symbol as usize] = #[verifier::truncate] (depth as u8);
            code[symbol as usize] = #[verifier::truncate] (transitions as u8);
        }
        i += 1;
    }
    HuffmanCodes { code_length, code }
}

/// Every visit of a walk is a node of the tree.
pub proof fn lemma_walk_nodes(nodes: Seq<Node>, start: int, depth: usize, transitions: usize)
    requires
        0 <= start,
    ensures
        forall|k: int|
            0 <= k < spec_walk(nodes, start, depth, transitions).len() ==> exists|i: int|
                0 <= i < nodes.len() && nodes[i] == (#[trigger] spec_walk(
                    nodes,
                    start,
                    depth,
                    transitions,
                )[k]).0,
    decreases nodes.len() - start, 2nat,
{
    if start < nodes.len() {
        lemma_walk_child_nodes(nodes, start, nodes[start].left, depth, transitions, 0);
        lemma_walk_child_nodes(nodes, start, nodes[start].right, depth, transitions, 1);
        let left = spec_walk_child(nodes, start, nodes[start].left, depth, transitions, 0);
        let right = spec_walk_child(nodes, start, nodes[start].right, depth, transitions, 1);
        assert forall|k: int| 0 <= k < (left + right).len() implies exists|i: int|
            0 <= i < nodes.len() && nodes[i] == (#[trigger] (left + right)[k]).0 by {
            if k < left.len() {
                assert((left + right)[k] == left[k]);
            } else {
                assert((left + right)[k] == right[k - left.len()]);
            }
        }
    }
}

pub proof fn lemma_walk_child_nodes(
    nodes: Seq<Node>,
    parent: int,
    child: Option<u16>,
    depth: usize,
    transitions: usize,
    turn: usize,
)
    requires
        0 <= parent < nodes.len(),
    ensures
        forall|k: int|
            0 <= k < spec_walk_child(nodes, parent, child, depth, transitions, turn).len()
                ==> exists|i: int|
                0 <= i < nodes.len() && nodes[i] == (#[trigger] spec_walk_child(
                    nodes,
                    parent,
                    child,
                    depth,
                    transitions,
                    turn,
                )[k]).0,
    decreases nodes.len() - parent, 1nat,
{
    match child {
        Some(c) => {
            let below = level_below(depth);
            let path = if turn == 0 { transitions << 1usize } else { (transitions << 1usize) | 1usize };
            let first = seq![(nodes[c as int], path, below)];
            if c < nodes.len() && c > parent {
                lemma_walk_nodes(nodes, c as int, below, path);
                let rest = spec_walk(nodes, c as int, below, path);
                assert forall|k: int| 0 <= k < (first + rest).len() implies exists|i: int|
                    0 <= i < nodes.len() && nodes[i] == (#[trigger] (first + rest)[k]).0 by {
                    if k == 0 {
                        assert(nodes[c as int] == (first + rest)[k].0);
                    } else {
                        assert((first + rest)[k] == rest[k - 1]);
                    }
                }
            } else if c < nodes.len() {
                assert(nodes[c as int] == first[0].0);
            }
        },
        None => {},
    }
}

} // verus!
