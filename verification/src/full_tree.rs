//! The tree of the counts is full: every parent has two children, every
//! other node one parent, and so the leaves fill the code space.

use vstd::prelude::*;
use vstd::arithmetic::power2::{pow2, lemma_pow2_unfold};
use crate::code_space::{space, is_full};
use crate::tree::{
    Node, merge_step, merge_leaves, finish_parents, takes_leaf, count_sum, parent_node,
    assign_bits, at_depth, child_depth, spec_tree, spec_leaves, sort_by_count, insert_by_count,
    empty_node, leaf_node, node_count, lemma_sort_by_count, lemma_sorted_members,
    lemma_leaves_len, depths_of,
};

verus! {

/// Sum of the weights at the positions from `from` up to `upto`, `upto`
/// left out.
pub open spec fn range_sum(w: Seq<int>, from: int, upto: int) -> int
    decreases upto - from,
{
    if from >= upto {
        0
    } else {
        range_sum(w, from, upto - 1) + w[upto - 1]
    }
}

pub proof fn lemma_range_sum_first(w: Seq<int>, from: int, upto: int)
    requires
        from < upto,
    ensures
        range_sum(w, from, upto) == w[from] + range_sum(w, from + 1, upto),
    decreases upto - from,
{
    if from + 1 < upto {
        lemma_range_sum_first(w, from, upto - 1);
    } else {
        assert(range_sum(w, from, upto - 1) == 0);
    }
}

pub proof fn lemma_range_sum_same(a: Seq<int>, b: Seq<int>, from: int, upto: int)
    requires
        forall|i: int| from <= i < upto ==> a[i] == b[i],
    ensures
        range_sum(a, from, upto) == range_sum(b, from, upto),
    decreases upto - from,
{
    if from < upto {
        lemma_range_sum_same(a, b, from, upto - 1);
    }
}

pub proof fn lemma_range_sum_sign(w: Seq<int>, from: int, upto: int)
    requires
        forall|j: int| from <= j < upto ==> w[j] >= 0,
    ensures
        range_sum(w, from, upto) >= 0,
    decreases upto - from,
{
    if from < upto {
        lemma_range_sum_sign(w, from, upto - 1);
    }
}

/// The counts of the nodes as weights.
pub open spec fn counts_of_nodes(nodes: Seq<Node>) -> Seq<int> {
    Seq::new(nodes.len(), |i: int| nodes[i].count as int)
}

/// Weight of the nodes that wait for a parent: the leaves from `pos` on
/// and the parents behind `create` up to `check`.
pub open spec fn waiting(w: Seq<int>, pos: int, check: int, create: int, last: int) -> int {
    range_sum(w, pos, last + 1) + range_sum(w, create + 1, check + 1)
}

/// `child` has got its parent at `p`: it is a leaf before `pos`, or a
/// parent behind `check`, which stands behind its own parent.
pub open spec fn taken(child: Option<u16>, p: int, pos: int, check: int, last: int) -> bool {
    match child {
        Some(c) => (c <= last && c < pos) || (check < c <= 511 && p < c),
        None => false,
    }
}

/// The parents `p` and `q` share no child.
pub open spec fn apart(p: Node, q: Node) -> bool {
    &&& p.left != q.left
    &&& p.left != q.right
    &&& p.right != q.left
    &&& p.right != q.right
}

/// The cursors while the tree is built: as many nodes wait as leaves have
/// not yet got a parent of their own, and a parent waits once a leaf has
/// been taken.
pub open spec fn cursors(pos: int, check: int, create: int, last: int) -> bool {
    &&& 1 <= last < 256
    &&& 0 <= pos <= last + 2
    &&& last < create <= check <= 511
    &&& pos > 0 ==> create < check
    &&& (511 - create) + (check - create) + (if pos <= last {
        last + 1 - pos
    } else {
        0
    }) == last + 1
}

/// The counts while the tree is built: leaves and waiting parents have a
/// count, the places between the last leaf and `create` have none, and the
/// counts of the waiting nodes add up to `total`.
pub open spec fn counted(
    nodes: Seq<Node>,
    pos: int,
    check: int,
    create: int,
    last: int,
    total: int,
) -> bool {
    &&& forall|i: int| 0 <= i <= last ==> (#[trigger] nodes[i]).count > 0
    &&& forall|i: int| last < i <= create ==> (#[trigger] nodes[i]).count == 0
    &&& forall|i: int| create < i <= check ==> (#[trigger] nodes[i]).count > 0
    &&& waiting(counts_of_nodes(nodes), pos, check, create, last) == total
    &&& total <= u32::MAX
}

/// The links while the tree is built: every parent has two children that
/// have been taken, no two parents share a child, and no parent has got a
/// depth yet.
pub open spec fn linked(nodes: Seq<Node>, pos: int, check: int, create: int, last: int) -> bool {
    &&& forall|p: int|
        create < p <= 511 ==> taken((#[trigger] nodes[p]).left, p, pos, check, last) && taken(
            nodes[p].right,
            p,
            pos,
            check,
            last,
        ) && nodes[p].left != nodes[p].right && nodes[p].number_bits == 0
    &&& forall|p: int, q: int|
        create < p < q <= 511 ==> apart(#[trigger] nodes[p], #[trigger] nodes[q])
}

/// The forest while the tree is built. The leaves before `pos` and the
/// parents behind `check` have a parent, each of them one; the leaves from
/// `pos` on and the parents from `check` down to `create`, `create` left
/// out, wait for one; the places from the last leaf to `create` are
/// empty. The counts of the waiting nodes add up to `total`.
pub open spec fn forest(
    nodes: Seq<Node>,
    pos: int,
    check: int,
    create: int,
    last: int,
    total: int,
) -> bool {
    &&& nodes.len() == 512
    &&& cursors(pos, check, create, last)
    &&& counted(nodes, pos, check, create, last, total)
    &&& linked(nodes, pos, check, create, last)
}

/// The two nodes that a merge takes, and the cursors after it: two
/// leaves, a leaf and a parent, or two parents, the lower count first, a
/// leaf before a parent of the same count.
pub open spec fn takes(
    pos: int,
    check: int,
    last: int,
    a: int,
    b: int,
    pos2: int,
    check2: int,
) -> bool {
    ||| a == pos && b == pos + 1 && pos + 1 <= last && pos2 == pos + 2 && check2 == check
    ||| a == pos && b == check && check2 == check - 1 && (pos2 == pos + 1 || (pos == last && pos2
        == pos + 2))
    ||| a == check && b == pos && check2 == check - 1 && pos2 == pos + 1
    ||| a == check && b == check - 1 && check2 == check - 2 && pos2 == pos
}

/// The counts of the nodes that a merge may take: the next two leaves
/// and the next two waiting parents have counts, any two of which stay
/// within `total`; the places behind the last leaf and at `create` have
/// none.
proof fn lemma_waiting_counts(
    nodes: Seq<Node>,
    pos: int,
    check: int,
    create: int,
    last: int,
    total: int,
)
    requires
        nodes.len() == 512,
        cursors(pos, check, create, last),
        counted(nodes, pos, check, create, last, total),
        pos <= last,
    ensures
        nodes[pos].count > 0,
        nodes[create].count == 0,
        nodes[last + 1].count == 0,
        last + 1 < create,
        check == create ==> pos + 1 <= last,
        pos + 1 <= last ==> nodes[pos + 1].count > 0 && nodes[pos].count + nodes[pos + 1].count
            <= total,
        check > create ==> nodes[check].count > 0 && nodes[pos].count + nodes[check].count
            <= total,
        check - 1 > create ==> nodes[check - 1].count > 0 && nodes[check].count + nodes[check
            - 1].count <= total,
        total <= u32::MAX,
{
    let counts = counts_of_nodes(nodes);
    assert(nodes[pos].count > 0);
    assert(nodes[create].count == 0);
    assert(nodes[last + 1].count == 0);
    assert forall|j: int| 0 <= j < 512 implies counts[j] >= 0 by {}
    lemma_range_sum_sign(counts, pos, last + 1);
    lemma_range_sum_sign(counts, create + 1, check + 1);
    lemma_range_sum_first(counts, pos, last + 1);
    lemma_range_sum_sign(counts, pos + 1, last + 1);
    if pos + 1 <= last {
        assert(nodes[pos + 1].count > 0);
        lemma_range_sum_first(counts, pos + 1, last + 1);
        lemma_range_sum_sign(counts, pos + 2, last + 1);
    }
    if check > create {
        assert(nodes[check].count > 0);
        lemma_range_sum_sign(counts, create + 1, check);
        if check - 1 > create {
            assert(nodes[check - 1].count > 0);
            lemma_range_sum_sign(counts, create + 1, check - 1);
        }
    }
}

/// What one merge does: it writes the parent of two waiting nodes to
/// `create`.
pub proof fn lemma_merge_outcome(
    nodes: Seq<Node>,
    pos: int,
    check: int,
    create: int,
    last: int,
    total: int,
)
    requires
        nodes.len() == 512,
        cursors(pos, check, create, last),
        counted(nodes, pos, check, create, last, total),
        pos <= last,
    ensures
        ({
            let next = merge_step(nodes, pos, check, create);
            let parent = next.0[create];
            &&& next.0 == nodes.update(create, parent)
            &&& next.3 == create - 1
            &&& parent.left is Some
            &&& parent.right is Some
            &&& parent.number_bits == 0
            &&& parent.count == nodes[parent.left->0 as int].count + nodes[parent.right->0
                as int].count
            &&& takes(
                pos,
                check,
                last,
                parent.left->0 as int,
                parent.right->0 as int,
                next.1,
                next.2,
            )
            &&& (parent.left->0 == check || parent.right->0 == check) ==> create < check
            &&& parent.right->0 == check - 1 ==> create < check - 1
        }),
{
    lemma_waiting_counts(nodes, pos, check, create, last, total);
    let first = takes_leaf(nodes, pos, check);
    let node1 = if first { pos } else { check };
    let pos1 = if first { pos + 1 } else { pos };
    let check1 = if first { check } else { check - 1 };
    let second = takes_leaf(nodes, pos1, check1);
    let node2 = if second { pos1 } else { check1 };
    let sum = count_sum(nodes[node1].count, nodes[node2].count);
    let written = nodes.update(create, parent_node(sum, Some(node1 as u16), None));
    assert(node2 != create);
    assert(written[node2] == nodes[node2]);
    if first {
        if pos + 1 <= last {
            assert(nodes[node2].count != 0);
        } else {
            assert(second);
            assert(nodes[node2].count == 0);
            assert(written[check] == nodes[check]);
        }
    } else {
        assert(nodes[node2].count != 0);
    }
}

/// The counts after one merge.
proof fn lemma_merge_counts(
    nodes: Seq<Node>,
    pos: int,
    check: int,
    create: int,
    last: int,
    total: int,
)
    requires
        forest(nodes, pos, check, create, last, total),
        pos <= last,
    ensures
        ({
            let next = merge_step(nodes, pos, check, create);
            &&& cursors(next.1, next.2, next.3, last)
            &&& counted(next.0, next.1, next.2, next.3, last, total)
        }),
{
    let next = merge_step(nodes, pos, check, create);
    let parent = next.0[create];
    let a = parent.left->0 as int;
    let b = parent.right->0 as int;
    lemma_merge_outcome(nodes, pos, check, create, last, total);
    let counts = counts_of_nodes(nodes);
    let after = counts_of_nodes(next.0);
    assert(nodes[a].count > 0 && nodes[b].count > 0);
    lemma_range_sum_first(counts, pos, last + 1);
    if pos + 1 <= last {
        lemma_range_sum_first(counts, pos + 1, last + 1);
    } else {
        assert(range_sum(counts, pos + 1, last + 1) == 0);
        assert(range_sum(counts, pos + 2, last + 1) == 0);
    }
    lemma_range_sum_same(counts, after, next.1, last + 1);
    lemma_range_sum_same(counts, after, create + 1, next.2 + 1);
    lemma_range_sum_first(after, create, next.2 + 1);
    assert(after[create] == parent.count);
    assert(counts[a] == nodes[a].count && counts[b] == nodes[b].count);
    assert forall|i: int| next.3 < i <= next.2 implies (#[trigger] next.0[i]).count > 0 by {
        if i != create {
            assert(nodes[i].count > 0);
        }
    }
    assert forall|i: int| last < i <= next.3 implies (#[trigger] next.0[i]).count == 0 by {
        assert(nodes[i].count == 0);
    }
    assert forall|i: int| 0 <= i <= last implies (#[trigger] next.0[i]).count > 0 by {
        assert(nodes[i].count > 0);
    }
    assert(range_sum(counts, create + 1, check + 1) == range_sum(counts, create + 1, next.2 + 1)
        + (if a == check || b == check { counts[check] } else { 0 }) + (if b == check - 1 {
        counts[check - 1]
    } else {
        0
    })) by {
        if check > create {
            assert(range_sum(counts, create + 1, check + 1) == range_sum(
                counts,
                create + 1,
                check,
            ) + counts[check]);
            if check - 1 > create {
                assert(range_sum(counts, create + 1, check) == range_sum(
                    counts,
                    create + 1,
                    check - 1,
                ) + counts[check - 1]);
            }
        }
    }
    assert(range_sum(counts, pos, last + 1) == range_sum(counts, next.1, last + 1) + (if a
        == pos || b == pos { counts[pos] } else { 0 }) + (if b == pos + 1 {
        counts[pos + 1]
    } else {
        0
    })) by {
        assert(range_sum(counts, last + 2, last + 1) == 0);
        assert(range_sum(counts, last + 1, last + 1) == 0);
    }
    assert(cursors(next.1, next.2, next.3, last));
    assert(waiting(after, next.1, next.2, next.3, last) == total);
}

/// The links after one merge.
proof fn lemma_merge_links(
    nodes: Seq<Node>,
    pos: int,
    check: int,
    create: int,
    last: int,
    total: int,
)
    requires
        forest(nodes, pos, check, create, last, total),
        pos <= last,
    ensures
        ({
            let next = merge_step(nodes, pos, check, create);
            linked(next.0, next.1, next.2, next.3, last)
        }),
{
    let next = merge_step(nodes, pos, check, create);
    lemma_merge_outcome(nodes, pos, check, create, last, total);
    assert forall|p: int|
        next.3 < p <= 511 implies taken((#[trigger] next.0[p]).left, p, next.1, next.2, last)
        && taken(next.0[p].right, p, next.1, next.2, last) && next.0[p].left
        != next.0[p].right && next.0[p].number_bits == 0 by {
        if p > create {
            assert(taken(nodes[p].left, p, pos, check, last));
            assert(taken(nodes[p].right, p, pos, check, last));
            assert(nodes[p].left != nodes[p].right);
        }
    }
    assert forall|p: int, q: int| next.3 < p < q <= 511 implies apart(
        #[trigger] next.0[p],
        #[trigger] next.0[q],
    ) by {
        if p > create {
            assert(apart(nodes[p], nodes[q]));
        } else {
            assert(taken(nodes[q].left, q, pos, check, last));
            assert(taken(nodes[q].right, q, pos, check, last));
        }
    }
}

/// One merge keeps the forest, and touches nothing but the place of the
/// new parent.
pub proof fn lemma_merge_step(
    nodes: Seq<Node>,
    pos: int,
    check: int,
    create: int,
    last: int,
    total: int,
)
    requires
        forest(nodes, pos, check, create, last, total),
        pos <= last,
    ensures
        ({
            let next = merge_step(nodes, pos, check, create);
            &&& forest(next.0, next.1, next.2, next.3, last, total)
            &&& next.3 == create - 1
            &&& next.0 == nodes.update(create, next.0[create])
        }),
{
    lemma_merge_outcome(nodes, pos, check, create, last, total);
    lemma_merge_counts(nodes, pos, check, create, last, total);
    lemma_merge_links(nodes, pos, check, create, last, total);
}

/// The nodes once all merges are done, with the cursors `check` and
/// `create`: the root stands right behind `create`.
pub open spec fn built(nodes: Seq<Node>, pos: int, check: int, create: int, last: int) -> (
    Seq<Node>,
    int,
    int,
) {
    let merged = merge_leaves(nodes, pos, check, create, last);
    finish_parents(merged.0, merged.2, merged.3)
}

/// The weights add up from children to parent, for the parents from
/// `from` up to `upto`.
pub open spec fn adds_up(w: Seq<int>, nodes: Seq<Node>, from: int, upto: int) -> bool {
    forall|p: int|
        from <= p <= upto ==> #[trigger] w[p] == w[nodes[p].left->0 as int] + w[nodes[p].right->0
            as int]
}

/// The weights of the waiting nodes before and after one merge.
proof fn lemma_merge_weights(
    nodes: Seq<Node>,
    pos: int,
    check: int,
    create: int,
    last: int,
    total: int,
    w: Seq<int>,
)
    requires
        forest(nodes, pos, check, create, last, total),
        pos <= last,
    ensures
        ({
            let next = merge_step(nodes, pos, check, create);
            let parent = next.0[create];
            waiting(w, pos, check, create, last) + w[create] == waiting(
                w,
                next.1,
                next.2,
                next.3,
                last,
            ) + w[parent.left->0 as int] + w[parent.right->0 as int]
        }),
{
    let next = merge_step(nodes, pos, check, create);
    let parent = next.0[create];
    let a = parent.left->0 as int;
    let b = parent.right->0 as int;
    lemma_merge_outcome(nodes, pos, check, create, last, total);
    lemma_range_sum_first(w, pos, last + 1);
    if pos + 1 <= last {
        lemma_range_sum_first(w, pos + 1, last + 1);
    }
    lemma_range_sum_first(w, create, next.2 + 1);
    assert(range_sum(w, create + 1, check + 1) == range_sum(w, create + 1, next.2 + 1) + (if a
        == check || b == check { w[check] } else { 0 }) + (if b == check - 1 {
        w[check - 1]
    } else {
        0
    })) by {
        if check > create {
            assert(range_sum(w, create + 1, check + 1) == range_sum(w, create + 1, check)
                + w[check]);
            if check - 1 > create {
                assert(range_sum(w, create + 1, check) == range_sum(w, create + 1, check - 1)
                    + w[check - 1]);
            }
        }
    }
    assert(range_sum(w, pos, last + 1) == range_sum(w, next.1, last + 1) + (if a == pos || b
        == pos { w[pos] } else { 0 }) + (if b == pos + 1 { w[pos + 1] } else { 0 })) by {
        assert(range_sum(w, last + 2, last + 1) == 0);
        assert(range_sum(w, last + 1, last + 1) == 0);
    }
}

/// One merge of two waiting parents keeps the forest.
proof fn lemma_finish_step(
    nodes: Seq<Node>,
    pos: int,
    check: int,
    create: int,
    last: int,
    total: int,
)
    requires
        forest(nodes, pos, check, create, last, total),
        pos > last,
        check - 1 > create,
    ensures
        forest(
            nodes.update(
                create,
                parent_node(
                    count_sum(nodes[check].count, nodes[check - 1].count),
                    Some(check as u16),
                    Some((check - 1) as u16),
                ),
            ),
            pos,
            check - 2,
            create - 1,
            last,
            total,
        ),
{
    assert(nodes[check].count > 0 && nodes[check - 1].count > 0);
    let sum = count_sum(nodes[check].count, nodes[check - 1].count);
    let parent = parent_node(sum, Some(check as u16), Some((check - 1) as u16));
    let next = nodes.update(create, parent);
    let counts = counts_of_nodes(nodes);
    let sum = count_sum(nodes[check].count, nodes[check - 1].count);
    let parent = parent_node(sum, Some(check as u16), Some((check - 1) as u16));
    let next = nodes.update(create, parent);
    let after = counts_of_nodes(next);
    assert forall|j: int| 0 <= j < 512 implies counts[j] >= 0 by {}
    assert(range_sum(counts, pos, last + 1) == 0);
    assert(range_sum(after, pos, last + 1) == 0);
    assert(range_sum(counts, create + 1, check + 1) == range_sum(counts, create + 1, check)
        + counts[check]);
    assert(range_sum(counts, create + 1, check) == range_sum(counts, create + 1, check - 1)
        + counts[check - 1]);
    lemma_range_sum_sign(counts, create + 1, check - 1);
    lemma_range_sum_same(counts, after, create + 1, check - 1);
    lemma_range_sum_first(after, create, check - 1);
    assert(after[create] == parent.count);
    assert(nodes[create].count == 0);
    assert(cursors(pos, check - 2, create - 1, last));
    assert(counted(next, pos, check - 2, create - 1, last, total)) by {
        assert forall|i: int| create - 1 < i <= check - 2 implies (#[trigger] next[i]).count
            > 0 by {
            if i != create {
                assert(nodes[i].count > 0);
            }
        }
        assert forall|i: int| last < i <= create - 1 implies (#[trigger] next[i]).count
            == 0 by {
            assert(nodes[i].count == 0);
        }
        assert forall|i: int| 0 <= i <= last implies (#[trigger] next[i]).count > 0 by {
            assert(nodes[i].count > 0);
        }
    }
    assert(linked(next, pos, check - 2, create - 1, last)) by {
        assert forall|p: int|
            create - 1 < p <= 511 implies taken(
            (#[trigger] next[p]).left,
            p,
            pos,
            check - 2,
            last,
        ) && taken(next[p].right, p, pos, check - 2, last) && next[p].left
            != next[p].right && next[p].number_bits == 0 by {
            if p > create {
                assert(taken(nodes[p].left, p, pos, check, last));
                assert(taken(nodes[p].right, p, pos, check, last));
                assert(nodes[p].left != nodes[p].right);
            }
        }
        assert forall|p: int, q: int| create - 1 < p < q <= 511 implies apart(
            #[trigger] next[p],
            #[trigger] next[q],
        ) by {
            if p > create {
                assert(apart(nodes[p], nodes[q]));
            } else {
                assert(taken(nodes[q].left, q, pos, check, last));
                assert(taken(nodes[q].right, q, pos, check, last));
            }
        }
    }
}

/// Once the leaves are taken, the waiting parents are merged into one
/// tree: the forest stays one, the nodes behind `create` and the leaves
/// are left as they are, one parent is left waiting, the root, and where
/// the weights add up from children to parent, its weight is that of the
/// nodes that waited.
pub proof fn lemma_finish(
    nodes: Seq<Node>,
    pos: int,
    check: int,
    create: int,
    last: int,
    total: int,
    w: Seq<int>,
)
    requires
        forest(nodes, pos, check, create, last, total),
        pos > last,
    ensures
        ({
            let done = finish_parents(nodes, check, create);
            &&& forest(done.0, pos, done.1, done.2, last, total)
            &&& done.1 == done.2 + 1
            &&& done.2 <= create
            &&& forall|i: int| create < i <= 511 || 0 <= i <= last ==> done.0[i] == nodes[i]
            &&& adds_up(w, done.0, done.2 + 1, create) ==> waiting(w, pos, check, create, last)
                == w[done.1]
        }),
    decreases check - create,
{
    if check - 1 <= create {
        assert(range_sum(w, pos, last + 1) == 0);
        assert(range_sum(w, create + 1, check) == 0);
        assert(range_sum(w, create + 1, check + 1) == range_sum(w, create + 1, check) + w[check]);
    } else {
        assert(nodes[check].count > 0 && nodes[check - 1].count > 0);
        let sum = count_sum(nodes[check].count, nodes[check - 1].count);
        let parent = parent_node(sum, Some(check as u16), Some((check - 1) as u16));
        let next = nodes.update(create, parent);
        lemma_finish_step(nodes, pos, check, create, last, total);
        lemma_finish(next, pos, check - 2, create - 1, last, total, w);
        let done = finish_parents(nodes, check, create);
        assert(done.0[create] == next[create]);
        assert forall|i: int| create < i <= 511 || 0 <= i <= last implies done.0[i]
            == nodes[i] by {
            assert(done.0[i] == next[i]);
        }
        if adds_up(w, done.0, done.2 + 1, create) {
            assert(w[create] == w[check] + w[check - 1]);
        }
        assert(range_sum(w, create + 1, check + 1) == range_sum(w, create + 1, check) + w[check]);
        assert(range_sum(w, create + 1, check) == range_sum(w, create + 1, check - 1) + w[check
            - 1]);
        lemma_range_sum_first(w, create, check - 1);
    }
}

/// The merges make one tree of the forest: the forest stays one, the
/// nodes behind `create` and the leaves are left as they are, one parent
/// is left waiting, the root, and where the weights add up from children
/// to parent from the root on, its weight is that of the nodes that
/// waited.
pub proof fn lemma_built(
    nodes: Seq<Node>,
    pos: int,
    check: int,
    create: int,
    last: int,
    total: int,
    w: Seq<int>,
)
    requires
        forest(nodes, pos, check, create, last, total),
    ensures
        ({
            let done = built(nodes, pos, check, create, last);
            &&& forest(done.0, last + 1, done.1, done.2, last, total)
            &&& done.1 == done.2 + 1
            &&& done.2 <= create
            &&& forall|i: int| create < i <= 511 || 0 <= i <= last ==> done.0[i] == nodes[i]
            &&& adds_up(w, done.0, done.2 + 1, create) ==> waiting(w, pos, check, create, last)
                == w[done.1]
        }),
    decreases
        (if 0 <= pos <= last && create <= check {
            2 * (last + 2 - pos) + (check - create)
        } else {
            0
        }),
{
    if pos > last {
        lemma_finish(nodes, pos, check, create, last, total, w);
        let done = finish_parents(nodes, check, create);
        assert(forest(done.0, last + 1, done.1, done.2, last, total)) by {
            assert(range_sum(counts_of_nodes(done.0), pos, last + 1) == 0);
            assert(range_sum(counts_of_nodes(done.0), last + 1, last + 1) == 0);
            assert forall|p: int|
                done.2 < p <= 511 implies taken(
                (#[trigger] done.0[p]).left,
                p,
                last + 1,
                done.1,
                last,
            ) && taken(done.0[p].right, p, last + 1, done.1, last) && done.0[p].number_bits
                == 0 by {
                assert(taken(done.0[p].left, p, pos, done.1, last));
                assert(taken(done.0[p].right, p, pos, done.1, last));
            }
        }
    } else {
        let next = merge_step(nodes, pos, check, create);
        lemma_merge_step(nodes, pos, check, create, last, total);
        lemma_merge_outcome(nodes, pos, check, create, last, total);
        lemma_merge_weights(nodes, pos, check, create, last, total, w);
        lemma_built(next.0, next.1, next.2, next.3, last, total, w);
        let done = built(nodes, pos, check, create, last);
        assert(done.0[create] == next.0[create]);
        if adds_up(w, done.0, done.2 + 1, create) {
            assert(w[create] == w[done.0[create].left->0 as int] + w[done.0[create].right->0
                as int]);
        }
        assert forall|i: int| create < i <= 511 || 0 <= i <= last implies done.0[i]
            == nodes[i] by {
            assert(done.0[i] == next.0[i]);
        }
    }
}

/// A full tree: every parent from the root on has two children, each a
/// leaf or a parent behind it, and no two parents share a child.
pub open spec fn full(nodes: Seq<Node>, root: int, last: int) -> bool {
    &&& nodes.len() == 512
    &&& 1 <= last < 256 < root <= 511
    &&& forall|p: int|
        root <= p <= 511 ==> taken((#[trigger] nodes[p]).left, p, last + 1, root, last) && taken(
            nodes[p].right,
            p,
            last + 1,
            root,
            last,
        ) && nodes[p].left != nodes[p].right
    &&& forall|p: int, q: int|
        root <= p < q <= 511 ==> apart(#[trigger] nodes[p], #[trigger] nodes[q])
}

/// No parent from `p` on has the node at `i` as a child.
pub open spec fn untouched(nodes: Seq<Node>, i: int, p: int) -> bool {
    forall|q: int|
        p <= q <= 511 ==> (#[trigger] nodes[q]).left != Some(i as u16) && nodes[q].right != Some(
            i as u16,
        )
}

/// The depths stand one below the other: in a full tree, once the parents
/// from `p` on have put their children below themselves, each of them
/// has its children one level below itself; nothing but depths has
/// changed, and no depth of a node that is no child of theirs.
pub proof fn lemma_assign(nodes: Seq<Node>, p: int, root: int, last: int)
    requires
        full(nodes, root, last),
        root <= p <= 512,
        forall|i: int| p <= i <= 511 ==> (#[trigger] nodes[i]).number_bits <= i - root,
    ensures
        ({
            let done = assign_bits(nodes, p);
            &&& done.len() == 512
            &&& forall|i: int|
                0 <= i < 512 ==> #[trigger] done[i] == at_depth(nodes[i], done[i].number_bits)
            &&& forall|i: int|
                0 <= i < 512 && untouched(nodes, i, p) ==> (#[trigger] done[i]).number_bits
                    == nodes[i].number_bits
            &&& forall|q: int|
                p <= q <= 511 ==> done[nodes[q].left->0 as int].number_bits == (
                #[trigger] done[q]).number_bits + 1 && done[nodes[q].right->0 as int].number_bits
                    == done[q].number_bits + 1
        }),
    decreases 512 - p,
{
    if p < 512 {
        let parent = nodes[p];
        let depth = child_depth(parent.number_bits);
        assert(taken(parent.left, p, last + 1, root, last));
        assert(taken(parent.right, p, last + 1, root, last));
        let l = parent.left->0 as int;
        let r = parent.right->0 as int;
        let first = nodes.update(l, at_depth(nodes[l], depth));
        let second = first.update(r, at_depth(first[r], depth));
        assert(depth == parent.number_bits + 1);
        assert forall|i: int| 0 <= i < 512 implies (#[trigger] second[i]).left == nodes[i].left
            && second[i].right == nodes[i].right && (i != l && i != r ==> second[i] == nodes[i])
            && (i == l || i == r ==> second[i] == at_depth(nodes[i], depth)) by {}
        assert(full(second, root, last)) by {
            assert forall|a: int|
                root <= a <= 511 implies taken(
                (#[trigger] second[a]).left,
                a,
                last + 1,
                root,
                last,
            ) && taken(second[a].right, a, last + 1, root, last) && second[a].left
                != second[a].right by {
                assert(taken(nodes[a].left, a, last + 1, root, last));
                assert(taken(nodes[a].right, a, last + 1, root, last));
            }
            assert forall|a: int, b: int| root <= a < b <= 511 implies apart(
                #[trigger] second[a],
                #[trigger] second[b],
            ) by {
                assert(apart(nodes[a], nodes[b]));
            }
        }
        assert forall|i: int| p + 1 <= i <= 511 implies (#[trigger] second[i]).number_bits <= i
            - root by {
            assert(nodes[i].number_bits <= i - root);
        }
        lemma_assign(second, p + 1, root, last);
        let done = assign_bits(nodes, p);
        assert(done == assign_bits(second, p + 1));
        assert forall|i: int| 0 <= i < 512 && untouched(nodes, i, p) implies (
        #[trigger] done[i]).number_bits == nodes[i].number_bits by {
            assert(untouched(second, i, p + 1)) by {
                assert forall|q: int| p + 1 <= q <= 511 implies (#[trigger] second[q]).left
                    != Some(i as u16) && second[q].right != Some(i as u16) by {
                    assert(nodes[q].left != Some(i as u16));
                }
            }
            assert(nodes[p].left != Some(i as u16) && nodes[p].right != Some(i as u16));
        }
        assert(untouched(second, l, p + 1) && untouched(second, r, p + 1) && untouched(
            second,
            p,
            p + 1,
        )) by {
            assert forall|q: int| p + 1 <= q <= 511 implies (#[trigger] second[q]).left != Some(
                l as u16,
            ) && second[q].right != Some(l as u16) && second[q].left != Some(r as u16)
                && second[q].right != Some(r as u16) && second[q].left != Some(p as u16)
                && second[q].right != Some(p as u16) by {
                assert(apart(nodes[p], nodes[q]));
                assert(taken(nodes[q].left, q, last + 1, root, last));
                assert(taken(nodes[q].right, q, last + 1, root, last));
            }
        }
        assert forall|q: int| p <= q <= 511 implies done[nodes[q].left->0 as int].number_bits
            == (#[trigger] done[q]).number_bits + 1 && done[nodes[q].right->0
            as int].number_bits == done[q].number_bits + 1 by {
            if q > p {
                assert(second[q].left == nodes[q].left);
            }
        }
    }
}

/// The code space that each node takes, counted in codes of length 256.
pub open spec fn code_weights(nodes: Seq<Node>) -> Seq<int> {
    Seq::new(nodes.len(), |i: int| pow2((256 - nodes[i].number_bits) as nat) as int)
}

/// The leaves of the finished tree take the code space of the root, which
/// is all of it.
pub proof fn lemma_leaves_weigh_all(start: Seq<Node>, last: int, total: int)
    requires
        forest(start, 0, 511, 511, last, total),
    ensures
        ({
            let done = built(start, 0, 511, 511, last);
            let tree = assign_bits(done.0, done.2 + 1);
            &&& tree.len() == 512
            &&& done.2 + 1 > last
            &&& is_full(depths_of(tree, (last + 1) as nat))
        }),
{
    let done = built(start, 0, 511, 511, last);
    let root = done.2 + 1;
    let tree = assign_bits(done.0, root);
    let w = code_weights(tree);
    lemma_built(start, 0, 511, 511, last, total, w);
    assert(full(done.0, root, last));
    assert forall|i: int| root <= i <= 511 implies (#[trigger] done.0[i]).number_bits <= i
        - root by {}
    lemma_assign(done.0, root, root, last);
    assert(untouched(done.0, root, root)) by {
        assert forall|q: int| root <= q <= 511 implies (#[trigger] done.0[q]).left != Some(
            root as u16,
        ) && done.0[q].right != Some(root as u16) by {
            assert(taken(done.0[q].left, q, last + 1, root, last));
            assert(taken(done.0[q].right, q, last + 1, root, last));
        }
    }
    assert(tree[root].number_bits == 0);
    assert forall|p: int| root <= p <= 511 implies #[trigger] w[p] == w[done.0[p].left->0
        as int] + w[done.0[p].right->0 as int] by {
        assert(taken(done.0[p].left, p, last + 1, root, last));
        assert(taken(done.0[p].right, p, last + 1, root, last));
        let l = done.0[p].left->0 as int;
        assert(tree[l].number_bits == tree[p].number_bits + 1);
        lemma_pow2_unfold((256 - tree[p].number_bits) as nat);
    }
    assert(adds_up(w, done.0, root, 511));
    assert(range_sum(w, 512, 512) == 0);
    lemma_weights_as_space(tree, (last + 1) as nat, (last + 1) as nat);
}

/// The code space of the leaves as the sum of their weights.
proof fn lemma_weights_as_space(nodes: Seq<Node>, n: nat, m: nat)
    requires
        m <= n <= nodes.len(),
    ensures
        range_sum(code_weights(nodes), 0, m as int) == space(depths_of(nodes, n), m, 256),
    decreases m,
{
    if m > 0 {
        lemma_weights_as_space(nodes, n, (m - 1) as nat);
        assert(depths_of(nodes, n)[m - 1] == nodes[m - 1].number_bits);
    }
}

/// The child `a` was taken before the child `b`: where both are leaves,
/// `a` stands before `b`; where both are parents, `a` stands behind `b`.
pub open spec fn child_before(a: Option<u16>, b: Option<u16>, last: int) -> bool {
    match (a, b) {
        (Some(x), Some(y)) => (x <= last && y <= last ==> x < y) && (x > last && y > last ==> x
            > y),
        _ => true,
    }
}

/// The children of `p` were taken before the children of `q`.
pub open spec fn before(p: Node, q: Node, last: int) -> bool {
    &&& child_before(p.left, q.left, last)
    &&& child_before(p.left, q.right, last)
    &&& child_before(p.right, q.left, last)
    &&& child_before(p.right, q.right, last)
}

/// The node at `i` is a child of the parent at `p`.
pub open spec fn child_of(nodes: Seq<Node>, i: int, p: int) -> bool {
    nodes[p].left == Some(i as u16) || nodes[p].right == Some(i as u16)
}

/// The node at `i` has a parent behind `create`.
pub open spec fn has_parent(nodes: Seq<Node>, i: int, create: int) -> bool {
    exists|p: int| create < p <= 511 && #[trigger] child_of(nodes, i, p)
}

/// The order in which the nodes are taken: the children of a parent were
/// taken before those of every parent made after it, and every node that
/// has been taken has a parent.
pub open spec fn ordered(nodes: Seq<Node>, pos: int, check: int, create: int, last: int) -> bool {
    &&& forall|p: int, q: int|
        create < q < p <= 511 ==> before(#[trigger] nodes[p], #[trigger] nodes[q], last)
    &&& forall|i: int| 0 <= i <= last && i < pos ==> #[trigger] has_parent(nodes, i, create)
    &&& forall|i: int| check < i <= 511 ==> #[trigger] has_parent(nodes, i, create)
}

/// A node keeps its parent when a place before the parent is written.
proof fn lemma_keeps_parent(nodes: Seq<Node>, after: Seq<Node>, i: int, create: int)
    requires
        has_parent(nodes, i, create),
        forall|p: int| create < p <= 511 ==> after[p] == nodes[p],
    ensures
        has_parent(after, i, create - 1),
{
    let p = choose|p: int| create < p <= 511 && #[trigger] child_of(nodes, i, p);
    assert(child_of(after, i, p));
}

/// One merge keeps the order.
proof fn lemma_merge_order(
    nodes: Seq<Node>,
    pos: int,
    check: int,
    create: int,
    last: int,
    total: int,
)
    requires
        forest(nodes, pos, check, create, last, total),
        ordered(nodes, pos, check, create, last),
        pos <= last,
    ensures
        ({
            let next = merge_step(nodes, pos, check, create);
            ordered(next.0, next.1, next.2, next.3, last)
        }),
{
    let next = merge_step(nodes, pos, check, create);
    lemma_merge_outcome(nodes, pos, check, create, last, total);
    let parent = next.0[create];
    assert forall|p: int, q: int| next.3 < q < p <= 511 implies before(
        #[trigger] next.0[p],
        #[trigger] next.0[q],
        last,
    ) by {
        if q > create {
            assert(before(nodes[p], nodes[q], last));
        } else {
            assert(taken(nodes[p].left, p, pos, check, last));
            assert(taken(nodes[p].right, p, pos, check, last));
        }
    }
    assert(child_of(next.0, parent.left->0 as int, create));
    assert(child_of(next.0, parent.right->0 as int, create));
    assert forall|i: int| 0 <= i <= last && i < next.1 implies #[trigger] has_parent(
        next.0,
        i,
        next.3,
    ) by {
        if i < pos {
            lemma_keeps_parent(nodes, next.0, i, create);
        }
    }
    assert forall|i: int| next.2 < i <= 511 implies #[trigger] has_parent(next.0, i, next.3) by {
        if i > check {
            lemma_keeps_parent(nodes, next.0, i, create);
        }
    }
}

/// The merges keep the order.
pub proof fn lemma_built_order(
    nodes: Seq<Node>,
    pos: int,
    check: int,
    create: int,
    last: int,
    total: int,
)
    requires
        forest(nodes, pos, check, create, last, total),
        ordered(nodes, pos, check, create, last),
    ensures
        ({
            let done = built(nodes, pos, check, create, last);
            ordered(done.0, last + 1, done.1, done.2, last)
        }),
    decreases
        (if 0 <= pos <= last && create <= check {
            2 * (last + 2 - pos) + (check - create)
        } else {
            0
        }),
{
    if pos > last {
        lemma_finish_order(nodes, pos, check, create, last, total);
    } else {
        let next = merge_step(nodes, pos, check, create);
        lemma_merge_step(nodes, pos, check, create, last, total);
        lemma_merge_order(nodes, pos, check, create, last, total);
        lemma_built_order(next.0, next.1, next.2, next.3, last, total);
    }
}

/// Merging the parents that still wait keeps the order.
proof fn lemma_finish_order(
    nodes: Seq<Node>,
    pos: int,
    check: int,
    create: int,
    last: int,
    total: int,
)
    requires
        forest(nodes, pos, check, create, last, total),
        ordered(nodes, pos, check, create, last),
        pos > last,
    ensures
        ({
            let done = finish_parents(nodes, check, create);
            ordered(done.0, last + 1, done.1, done.2, last)
        }),
    decreases check - create,
{
    if check - 1 <= create {
        assert forall|i: int| 0 <= i <= last && i < last + 1 implies #[trigger] has_parent(
            nodes,
            i,
            create,
        ) by {}
    } else {
        assert(nodes[check].count > 0 && nodes[check - 1].count > 0);
        let sum = count_sum(nodes[check].count, nodes[check - 1].count);
        let parent = parent_node(sum, Some(check as u16), Some((check - 1) as u16));
        let next = nodes.update(create, parent);
        lemma_finish_step(nodes, pos, check, create, last, total);
        assert forall|p: int, q: int| create - 1 < q < p <= 511 implies before(
            #[trigger] next[p],
            #[trigger] next[q],
            last,
        ) by {
            if q > create {
                assert(before(nodes[p], nodes[q], last));
            } else {
                assert(taken(nodes[p].left, p, pos, check, last));
                assert(taken(nodes[p].right, p, pos, check, last));
            }
        }
        assert(child_of(next, check, create));
        assert(child_of(next, check - 1, create));
        assert forall|i: int| 0 <= i <= last && i < pos implies #[trigger] has_parent(
            next,
            i,
            create - 1,
        ) by {
            lemma_keeps_parent(nodes, next, i, create);
        }
        assert forall|i: int| check - 2 < i <= 511 implies #[trigger] has_parent(
            next,
            i,
            create - 1,
        ) by {
            if i > check {
                lemma_keeps_parent(nodes, next, i, create);
            }
        }
        lemma_finish_order(next, pos, check - 2, create - 1, last, total);
    }
}

/// The finished tree: it is full, its nodes were taken in order, the root
/// stands at depth 0 and the children of every parent one level below it.
pub open spec fn settled(tree: Seq<Node>, root: int, last: int) -> bool {
    &&& full(tree, root, last)
    &&& ordered(tree, last + 1, root, root - 1, last)
    &&& tree[root].number_bits == 0
    &&& forall|q: int|
        root <= q <= 511 ==> tree[tree[q].left->0 as int].number_bits == (
        #[trigger] tree[q]).number_bits + 1 && tree[tree[q].right->0 as int].number_bits
            == tree[q].number_bits + 1
}

/// The tree that the merges and the depths make of a forest is settled.
pub proof fn lemma_settled(start: Seq<Node>, last: int, total: int)
    requires
        forest(start, 0, 511, 511, last, total),
    ensures
        ({
            let done = built(start, 0, 511, 511, last);
            let tree = assign_bits(done.0, done.2 + 1);
            settled(tree, done.2 + 1, last)
        }),
{
    let done = built(start, 0, 511, 511, last);
    let root = done.2 + 1;
    let tree = assign_bits(done.0, root);
    let w = code_weights(tree);
    lemma_built(start, 0, 511, 511, last, total, w);
    assert(ordered(start, 0, 511, 511, last));
    lemma_built_order(start, 0, 511, 511, last, total);
    assert(full(done.0, root, last));
    assert forall|i: int| root <= i <= 511 implies (#[trigger] done.0[i]).number_bits <= i
        - root by {}
    lemma_assign(done.0, root, root, last);
    assert(untouched(done.0, root, root)) by {
        assert forall|q: int| root <= q <= 511 implies (#[trigger] done.0[q]).left != Some(
            root as u16,
        ) && done.0[q].right != Some(root as u16) by {
            assert(taken(done.0[q].left, q, last + 1, root, last));
            assert(taken(done.0[q].right, q, last + 1, root, last));
        }
    }
    assert forall|i: int| 0 <= i < 512 implies (#[trigger] tree[i]).left == done.0[i].left
        && tree[i].right == done.0[i].right by {}
    assert(full(tree, root, last)) by {
        assert forall|p: int|
            root <= p <= 511 implies taken((#[trigger] tree[p]).left, p, last + 1, root, last)
            && taken(tree[p].right, p, last + 1, root, last) && tree[p].left
            != tree[p].right by {
            assert(taken(done.0[p].left, p, last + 1, root, last));
            assert(taken(done.0[p].right, p, last + 1, root, last));
        }
        assert forall|p: int, q: int| root <= p < q <= 511 implies apart(
            #[trigger] tree[p],
            #[trigger] tree[q],
        ) by {
            assert(apart(done.0[p], done.0[q]));
        }
    }
    assert(ordered(tree, last + 1, root, root - 1, last)) by {
        assert forall|p: int, q: int| root - 1 < q < p <= 511 implies before(
            #[trigger] tree[p],
            #[trigger] tree[q],
            last,
        ) by {
            assert(before(done.0[p], done.0[q], last));
        }
        assert forall|i: int|
            (0 <= i <= last && i < last + 1) || root < i <= 511 implies #[trigger] has_parent(
            tree,
            i,
            root - 1,
        ) by {
            assert(has_parent(done.0, i, root - 1));
            let p = choose|p: int| root - 1 < p <= 511 && #[trigger] child_of(done.0, i, p);
            assert(child_of(tree, i, p));
        }
    }
    assert forall|q: int| root <= q <= 511 implies tree[tree[q].left->0 as int].number_bits
        == (#[trigger] tree[q]).number_bits + 1 && tree[tree[q].right->0 as int].number_bits
        == tree[q].number_bits + 1 by {
        assert(tree[q].left == done.0[q].left);
    }
}

/// In a settled tree a parent made earlier does not stand above a parent
/// made later.
pub proof fn lemma_parents_descend(tree: Seq<Node>, root: int, last: int, p: int, q: int)
    requires
        settled(tree, root, last),
        root <= q <= p <= 511,
    ensures
        tree[p].number_bits >= tree[q].number_bits,
    decreases p,
{
    if q > root && p > q {
        assert(has_parent(tree, p, root - 1));
        assert(has_parent(tree, q, root - 1));
        let above_p = choose|a: int| root - 1 < a <= 511 && #[trigger] child_of(tree, p, a);
        let above_q = choose|a: int| root - 1 < a <= 511 && #[trigger] child_of(tree, q, a);
        assert(taken(tree[above_p].left, above_p, last + 1, root, last));
        assert(taken(tree[above_p].right, above_p, last + 1, root, last));
        assert(taken(tree[above_q].left, above_q, last + 1, root, last));
        assert(taken(tree[above_q].right, above_q, last + 1, root, last));
        if above_p < above_q {
            assert(before(tree[above_q], tree[above_p], last));
        }
        lemma_parents_descend(tree, root, last, above_p, above_q);
        assert(tree[p].number_bits == tree[above_p].number_bits + 1);
        assert(tree[q].number_bits == tree[above_q].number_bits + 1);
    }
}

/// In a settled tree no leaf stands above a leaf that comes after it: the
/// first leaf is the deepest.
pub proof fn lemma_leaves_descend(tree: Seq<Node>, root: int, last: int, i: int, j: int)
    requires
        settled(tree, root, last),
        0 <= i <= j <= last,
    ensures
        tree[i].number_bits >= tree[j].number_bits,
{
    if i < j {
        assert(has_parent(tree, i, root - 1));
        assert(has_parent(tree, j, root - 1));
        let above_i = choose|a: int| root - 1 < a <= 511 && #[trigger] child_of(tree, i, a);
        let above_j = choose|a: int| root - 1 < a <= 511 && #[trigger] child_of(tree, j, a);
        if above_i < above_j {
            assert(before(tree[above_j], tree[above_i], last));
        }
        lemma_parents_descend(tree, root, last, above_i, above_j);
        assert(tree[i].number_bits == tree[above_i].number_bits + 1);
        assert(tree[j].number_bits == tree[above_j].number_bits + 1);
    }
}

/// Sum of the first `n` counts.
pub open spec fn total_count(counts: Seq<usize>, n: nat) -> nat
    decreases n,
{
    if n == 0 {
        0
    } else {
        total_count(counts, (n - 1) as nat) + counts[n - 1] as nat
    }
}

/// Sum of the counts that the nodes hold.
pub open spec fn held(nodes: Seq<Node>) -> int
    decreases nodes.len(),
{
    if nodes.len() == 0 {
        0
    } else {
        held(nodes.drop_last()) + nodes.last().count
    }
}

proof fn lemma_held_leaves(counts: Seq<usize>, n: nat)
    requires
        total_count(counts, n) <= u32::MAX,
    ensures
        held(spec_leaves(counts, n)) == total_count(counts, n),
        forall|s: int| 0 <= s < n ==> #[trigger] counts[s] <= u32::MAX,
    decreases n,
{
    if n > 0 {
        lemma_held_leaves(counts, (n - 1) as nat);
        let before = spec_leaves(counts, (n - 1) as nat);
        if counts[n - 1] != 0 {
            let leaf = leaf_node((n - 1) as u8, node_count(counts[n - 1]));
            assert(before.push(leaf).drop_last() =~= before);
        }
    }
}

proof fn lemma_held_insert(sorted: Seq<Node>, node: Node)
    ensures
        held(insert_by_count(sorted, node)) == held(sorted) + node.count,
    decreases sorted.len(),
{
    if sorted.len() > 0 && sorted.last().count > node.count {
        lemma_held_insert(sorted.drop_last(), node);
        let inner = insert_by_count(sorted.drop_last(), node);
        assert(inner.push(sorted.last()).drop_last() =~= inner);
    } else {
        assert(sorted.push(node).drop_last() =~= sorted);
    }
}

proof fn lemma_held_sorted(nodes: Seq<Node>)
    ensures
        held(sort_by_count(nodes)) == held(nodes),
    decreases nodes.len(),
{
    if nodes.len() > 0 {
        lemma_held_sorted(nodes.drop_last());
        lemma_held_insert(sort_by_count(nodes.drop_last()), nodes.last());
    }
}

proof fn lemma_held_range(nodes: Seq<Node>, leaves: Seq<Node>, n: nat)
    requires
        n <= leaves.len() <= nodes.len(),
        forall|i: int| 0 <= i < leaves.len() ==> nodes[i] == leaves[i],
    ensures
        range_sum(counts_of_nodes(nodes), 0, n as int) == held(leaves.subrange(0, n as int)),
    decreases n,
{
    if n > 0 {
        lemma_held_range(nodes, leaves, (n - 1) as nat);
        assert(leaves.subrange(0, n as int).drop_last() =~= leaves.subrange(0, n - 1));
    }
}

/// The tree of the counts is full: where two symbols or more occur and
/// the counts add up to `u32::MAX` at most, its leaves fill the code
/// space, and no leaf stands above a leaf that comes after it.
pub proof fn lemma_tree_is_full(counts: Seq<usize>)
    requires
        counts.len() == 256,
        total_count(counts, 256) <= u32::MAX,
        spec_tree(counts).2 >= 1,
    ensures
        is_full(depths_of(spec_tree(counts).0, (spec_tree(counts).2 + 1) as nat)),
        forall|i: int, j: int|
            0 <= i <= j <= spec_tree(counts).2 ==> spec_tree(counts).0[i].number_bits
                >= spec_tree(counts).0[j].number_bits,
{
    let unsorted = spec_leaves(counts, 256);
    let leaves = sort_by_count(unsorted);
    let last = leaves.len() - 1;
    let start = leaves + Seq::new((512 - leaves.len()) as nat, |i: int| empty_node());
    let total = total_count(counts, 256) as int;
    lemma_leaves_len(counts, 256);
    lemma_sort_by_count(unsorted);
    lemma_held_leaves(counts, 256);
    lemma_held_sorted(unsorted);
    lemma_held_range(start, leaves, leaves.len());
    assert(leaves.subrange(0, leaves.len() as int) =~= leaves);
    assert(range_sum(counts_of_nodes(start), 512, 512) == 0);
    assert forall|i: int| 0 <= i <= last implies (#[trigger] start[i]).count > 0 by {
        lemma_sorted_members(unsorted, i);
    }
    assert(forest(start, 0, 511, 511, last, total));
    lemma_leaves_weigh_all(start, last, total);
    lemma_settled(start, last, total);
    let tree = spec_tree(counts).0;
    assert forall|i: int, j: int| 0 <= i <= j <= last implies tree[i].number_bits
        >= tree[j].number_bits by {
        lemma_leaves_descend(tree, spec_tree(counts).1, last, i, j);
    }
}

} // verus!
