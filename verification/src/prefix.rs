//! Why canonical codes are free of prefixes: where the leaves fill the
//! code space, the codes of every length end where the codes one bit
//! shorter start.

use vstd::prelude::*;
use vstd::arithmetic::power2::{
    pow2, lemma_pow2_pos, lemma2_to64, lemma_pow2_strictly_increases, lemma_pow2_unfold,
};
use vstd::arithmetic::div_mod::lemma_div_denominator;
use crate::tree::{Node, MinNode};
use crate::codes::{
    count_at, coded_at, deepest, first_code, code_table, prefix_free, lemma_count_at,
    lemma_count_at_monotone,
};

verus! {

/// The code space that the leaves of the levels `1..=depth` take, counted
/// in codes of length `depth`: a leaf one level higher takes two of them.
pub open spec fn levels_used(nodes: Seq<Node>, leaves: nat, depth: nat) -> nat
    decreases depth,
{
    if depth == 0 {
        0
    } else {
        2 * levels_used(nodes, leaves, (depth - 1) as nat) + count_at(nodes, depth as int, leaves)
    }
}

/// The leaves fill the code space: the codes of the length of the deepest
/// leaf are all taken, each by a leaf at that level or by a leaf above.
pub open spec fn fills_code_space(nodes: Seq<Node>, leaves: nat) -> bool {
    let longest = deepest(nodes, leaves, 15);
    &&& leaves <= nodes.len()
    &&& forall|i: int| 0 <= i < leaves ==> (#[trigger] nodes[i]).number_bits <= 15
    &&& levels_used(nodes, leaves, longest) == pow2(longest)
}

/// No leaf of a depth up to `top` lies deeper than the deepest.
pub proof fn lemma_deepest(nodes: Seq<Node>, leaves: nat, top: nat, depth: int)
    requires
        deepest(nodes, leaves, top) < depth <= top,
    ensures
        count_at(nodes, depth, leaves) == 0,
    decreases top,
{
    if top > 0 && count_at(nodes, top as int, leaves) == 0 && depth < top {
        lemma_deepest(nodes, leaves, (top - 1) as nat, depth);
    }
}

pub proof fn lemma_deepest_within(nodes: Seq<Node>, leaves: nat, top: nat)
    ensures
        deepest(nodes, leaves, top) <= top,
    decreases top,
{
    if top > 0 {
        lemma_deepest_within(nodes, leaves, (top - 1) as nat);
    }
}

/// A level with no node among the first `n` holds none of them.
pub proof fn lemma_counted_level(nodes: Seq<Node>, depth: int, n: nat, i: int)
    requires
        0 <= i < n,
        nodes[i].number_bits == depth,
    ensures
        count_at(nodes, depth, n) > 0,
    decreases n,
{
    if i < n - 1 {
        lemma_counted_level(nodes, depth, (n - 1) as nat, i);
    }
}

/// Where the leaves fill the code space, the first code of a length is
/// what the levels above and at that length leave of the codes of that
/// length.
pub proof fn lemma_first_code_fills(nodes: Seq<Node>, leaves: nat, depth: nat, longest: nat)
    requires
        levels_used(nodes, leaves, longest) == pow2(longest),
        depth <= longest,
    ensures
        levels_used(nodes, leaves, depth) + first_code(nodes, leaves, depth, longest) == pow2(
            depth,
        ),
        depth < longest ==> first_code(nodes, leaves, depth + 1, longest) + count_at(
            nodes,
            (depth + 1) as int,
            leaves,
        ) == 2 * first_code(nodes, leaves, depth, longest),
    decreases longest - depth,
{
    if depth < longest {
        lemma_first_code_fills(nodes, leaves, depth + 1, longest);
        lemma_pow2_unfold(depth + 1);
    }
}

/// A code below the end of the codes of its length, cut down to a shorter
/// length, lies below the first code of that length.
pub proof fn lemma_cut_below(
    nodes: Seq<Node>,
    leaves: nat,
    longest: nat,
    code: nat,
    long: nat,
    short: nat,
)
    requires
        levels_used(nodes, leaves, longest) == pow2(longest),
        short < long <= longest,
        code < first_code(nodes, leaves, long, longest) + count_at(nodes, long as int, leaves),
    ensures
        code / pow2((long - short) as nat) < first_code(nodes, leaves, short, longest),
    decreases long - short,
{
    let cut = (long - short - 1) as nat;
    let part = code / pow2(cut);
    lemma_pow2_pos(cut);
    lemma_pow2_unfold(cut + 1);
    if short + 1 < long {
        lemma_cut_below(nodes, leaves, longest, code, long, short + 1);
    } else {
        assert(pow2(0) == 1) by {
            lemma2_to64();
        }
    }
    lemma_first_code_fills(nodes, leaves, short, longest);
    assert(part < 2 * first_code(nodes, leaves, short, longest));
    lemma_div_denominator(code as int, pow2(cut) as int, 2);
    assert(pow2(cut) * 2 == pow2(cut + 1));
}

/// The entry of a symbol in the code table: none, or the depth of a leaf
/// of the symbol with the next code of that length.
pub proof fn lemma_code_entry(nodes: Seq<Node>, leaves: nat, n: nat, s: int) -> (i: int)
    requires
        0 <= s < 256,
    ensures
        code_table(nodes, leaves, n).len() == 256,
        i < 0 ==> code_table(nodes, leaves, n)[s] == (MinNode { number_bits: 0, val: 0 }),
        i >= 0 ==> i < n && code_table(nodes, leaves, n)[s] == (MinNode {
            number_bits: nodes[i].number_bits,
            val: (first_code(
                nodes,
                leaves,
                nodes[i].number_bits as nat,
                deepest(nodes, leaves, 15),
            ) + coded_at(nodes, nodes[i].number_bits as int, i as nat)) as u16,
        }) && nodes[i].symbol is Some,
    decreases n,
{
    if n == 0 {
        -1
    } else {
        let before = lemma_code_entry(nodes, leaves, (n - 1) as nat, s);
        if nodes[n - 1].symbol == Some(s as u8) {
            n - 1
        } else {
            before
        }
    }
}

/// Canonical codes of leaves that fill the code space are free of
/// prefixes: no code, cut down to the length of a shorter code, is that
/// code.
pub proof fn lemma_canonical_prefix_free(nodes: Seq<Node>, leaves: nat)
    requires
        fills_code_space(nodes, leaves),
    ensures
        prefix_free(code_table(nodes, leaves, leaves)),
{
    let table = code_table(nodes, leaves, leaves);
    let longest = deepest(nodes, leaves, 15);
    lemma2_to64();
    lemma_deepest_within(nodes, leaves, 15);
    let first = lemma_code_entry(nodes, leaves, leaves, 0);
    assert forall|a: int, b: int|
        #![trigger table[a], table[b]]
        0 <= a < table.len() && 0 <= b < table.len() && 0 < table[b].number_bits
            < table[a].number_bits implies table[a].val as nat / pow2(
        (table[a].number_bits - table[b].number_bits) as nat,
    ) != table[b].val by {
        let i = lemma_code_entry(nodes, leaves, leaves, a);
        let j = lemma_code_entry(nodes, leaves, leaves, b);
        let long = nodes[i].number_bits as nat;
        let short = nodes[j].number_bits as nat;
        lemma_counted_level(nodes, long as int, leaves, i);
        if long > longest {
            lemma_deepest(nodes, leaves, 15, long as int);
        }
        let high = first_code(nodes, leaves, long, longest) + coded_at(nodes, long as int, i as nat);
        let low = first_code(nodes, leaves, short, longest) + coded_at(
            nodes,
            short as int,
            j as nat,
        );
        lemma_count_at_monotone(nodes, long as int, (i + 1) as nat, leaves);
        lemma_count_at(nodes, long as int, leaves);
        lemma_count_at_monotone(nodes, short as int, (j + 1) as nat, leaves);
        lemma_count_at(nodes, short as int, leaves);
        lemma_first_code_fills(nodes, leaves, long, longest);
        lemma_first_code_fills(nodes, leaves, short, longest);
        lemma_pow2_strictly_increases(long, 16);
        lemma_pow2_strictly_increases(short, 16);
        assert(high < first_code(nodes, leaves, long, longest) + count_at(
            nodes,
            long as int,
            leaves,
        ));
        lemma_cut_below(nodes, leaves, longest, high, long, short);
    }
}

} // verus!
