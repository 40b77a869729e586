//! Limiting the depth of a tree: leaves deeper than the limit are put at
//! the limit, and what that takes from the other codes is paid back by
//! moving leaves of other levels down, one level at a time.

use vstd::prelude::*;
use vstd::arithmetic::power2::{pow2, lemma_pow2_pos, lemma2_to64, lemma_pow2_strictly_increases};
use crate::tree::{Tree, Node, minimum_tree_depth, spec_minimum_depth, at_depth, build_tree_fast_1, spec_tree, depths_of};
use crate::huffman::HUF_TABLELOG_ABSOLUTEMAX;

verus! {

/// Why the depth of a tree was not limited.
#[derive(Debug, PartialEq, Eq, Clone, Copy, Structural)]
pub enum HeightError {
    /// No tree with that many leaves is as low as the limit.
    BelowMinimum,
    /// The first leaf is more than 30 levels below the limit or not the
    /// deepest one, or no leaf is left to pay the debt back with.
    DebtNotRepaid,
}

/// First position from `from` on with depth `depth`; the length where
/// there is none.
pub open spec fn first_at(bits: Seq<u8>, depth: int, from: int) -> int
    decreases bits.len() - from,
{
    if from < 0 || from >= bits.len() {
        bits.len() as int
    } else if bits[from] == depth {
        from
    } else {
        first_at(bits, depth, from + 1)
    }
}

/// Last position below `upto` with depth `depth`; -1 where there is none.
pub open spec fn last_at(bits: Seq<u8>, depth: int, upto: int) -> int
    decreases upto,
{
    if upto <= 0 || upto > bits.len() {
        -1
    } else if bits[upto - 1] == depth {
        upto - 1
    } else {
        last_at(bits, depth, upto - 1)
    }
}

/// The depths with everything below the limit put at the limit.
pub open spec fn clamped(bits: Seq<u8>, limit: u8) -> Seq<u8> {
    Seq::new(bits.len(), |i: int| if bits[i] > limit { limit } else { bits[i] })
}

/// What the first `n` leaves owe once they are put at the limit, in units
/// of the code space of a leaf at depth `largest`: a leaf that moves up
/// from depth `d` to the limit takes `2^(largest - limit) - 2^(largest - d)`.
pub open spec fn clamp_debt(bits: Seq<u8>, largest: u8, limit: u8, n: nat) -> int
    decreases n,
{
    if n == 0 {
        0
    } else {
        clamp_debt(bits, largest, limit, (n - 1) as nat) + (if bits[n - 1] > limit {
            pow2((largest - limit) as nat) - pow2((largest - bits[n - 1]) as nat)
        } else {
            0
        })
    }
}

/// Pays the debt back: at the level `check`, the first leaf there, the
/// one with the lowest count, moves one level down, which pays
/// `2^(limit - check - 1)`; the same level is looked at again before the
/// next higher one. Gives the depths and what is left of the debt, which
/// is negative where too much was paid.
pub open spec fn repay(bits: Seq<u8>, debt: int, check: int, limit: int) -> (Seq<u8>, int)
    decreases (if debt > 0 { debt } else { 0 }), (if check > 0 { check } else { 0 }),
{
    if debt <= 0 || check <= 0 || check >= limit {
        (bits, debt)
    } else {
        let at = first_at(bits, check, 0);
        if at >= bits.len() {
            repay(bits, debt, check - 1, limit)
        } else {
            proof {
                lemma_pow2_pos((limit - check - 1) as nat);
            }
            repay(
                bits.update(at, (check + 1) as u8),
                debt - pow2((limit - check - 1) as nat),
                if check != limit - 1 { check + 1 } else { check },
                limit,
            )
        }
    }
}

/// Takes back what was paid too much: the last leaf at the level `check`
/// moves one level up, one unit each; an empty level passes to the next
/// higher one. There is no result where the levels run out.
pub open spec fn take_back(bits: Seq<u8>, debt: int, check: int) -> Option<Seq<u8>>
    decreases (if debt < 0 { -debt } else { 0 }), (if check > 0 { check } else { 0 }),
{
    if debt >= 0 {
        Some(bits)
    } else if check <= 0 {
        None
    } else {
        let at = last_at(bits, check, bits.len() as int);
        if at < 0 {
            if check - 1 == 0 {
                None
            } else {
                take_back(bits, debt, check - 1)
            }
        } else {
            take_back(bits.update(at, (check - 1) as u8), debt + 1, check)
        }
    }
}

/// The depths of the leaves once the tree is limited to `limit` levels.
pub open spec fn spec_limit_height(bits: Seq<u8>, limit: u8) -> Result<Seq<u8>, HeightError> {
    let largest = bits[0];
    if spec_minimum_depth(bits.len()) > limit {
        Err(HeightError::BelowMinimum)
    } else if largest <= limit {
        Ok(bits)
    } else if largest - limit > 30 || exists|i: int| 0 <= i < bits.len() && bits[i] > largest {
        Err(HeightError::DebtNotRepaid)
    } else {
        let debt = clamp_debt(bits, largest, limit, bits.len()) / (pow2(
            (largest - limit) as nat,
        ) as int);
        let paid = repay(clamped(bits, limit), debt, limit - 1, limit as int);
        if paid.1 > 0 {
            Err(HeightError::DebtNotRepaid)
        } else {
            match take_back(paid.0, paid.1, limit as int) {
                Some(done) => Ok(done),
                None => Err(HeightError::DebtNotRepaid),
            }
        }
    }
}

/// Paying back keeps every leaf at or above the limit.
pub proof fn lemma_repay_within(bits: Seq<u8>, debt: int, check: int, limit: int)
    requires
        forall|i: int| 0 <= i < bits.len() ==> bits[i] <= limit,
        limit <= 255,
    ensures
        repay(bits, debt, check, limit).0.len() == bits.len(),
        forall|i: int| 0 <= i < bits.len() ==> #[trigger] repay(bits, debt, check, limit).0[i]
            <= limit,
    decreases (if debt > 0 { debt } else { 0 }), (if check > 0 { check } else { 0 }),
{
    if debt <= 0 || check <= 0 || check >= limit {
    } else {
        let at = first_at(bits, check, 0);
        lemma_first_at(bits, check, 0);
        if at >= bits.len() {
            lemma_repay_within(bits, debt, check - 1, limit);
        } else {
            lemma_pow2_pos((limit - check - 1) as nat);
            lemma_repay_within(
                bits.update(at, (check + 1) as u8),
                debt - pow2((limit - check - 1) as nat),
                if check != limit - 1 { check + 1 } else { check },
                limit,
            );
        }
    }
}

/// Taking back keeps every leaf at or above the limit.
pub proof fn lemma_take_back_within(bits: Seq<u8>, debt: int, check: int, limit: int)
    requires
        forall|i: int| 0 <= i < bits.len() ==> bits[i] <= limit,
        check <= limit <= 255,
        take_back(bits, debt, check) is Some,
    ensures
        take_back(bits, debt, check)->0.len() == bits.len(),
        forall|i: int| 0 <= i < bits.len() ==> #[trigger] take_back(bits, debt, check)->0[i]
            <= limit,
    decreases (if debt < 0 { -debt } else { 0 }), (if check > 0 { check } else { 0 }),
{
    if debt >= 0 || check <= 0 {
    } else {
        let at = last_at(bits, check, bits.len() as int);
        lemma_last_at(bits, check, bits.len() as int);
        if at < 0 {
            if check - 1 != 0 {
                lemma_take_back_within(bits, debt, check - 1, limit);
            }
        } else {
            lemma_take_back_within(bits.update(at, (check - 1) as u8), debt + 1, check, limit);
        }
    }
}

pub proof fn lemma_first_at(bits: Seq<u8>, depth: int, from: int)
    requires
        0 <= from <= bits.len(),
    ensures
        from <= first_at(bits, depth, from) <= bits.len(),
        first_at(bits, depth, from) < bits.len() ==> bits[first_at(bits, depth, from)] == depth,
        forall|i: int| from <= i < first_at(bits, depth, from) ==> bits[i] != depth,
    decreases bits.len() - from,
{
    if from < bits.len() && bits[from] != depth {
        lemma_first_at(bits, depth, from + 1);
    }
}

pub proof fn lemma_last_at(bits: Seq<u8>, depth: int, upto: int)
    requires
        0 <= upto <= bits.len(),
    ensures
        -1 <= last_at(bits, depth, upto) < upto,
        last_at(bits, depth, upto) >= 0 ==> bits[last_at(bits, depth, upto)] == depth,
        forall|i: int| last_at(bits, depth, upto) < i < upto ==> bits[i] != depth,
    decreases upto,
{
    if upto > 0 && bits[upto - 1] != depth {
        lemma_last_at(bits, depth, upto - 1);
    }
}

/// A limited tree has no leaf below the limit, where the first leaf was the
/// deepest one or lay below the limit; and a tree whose first leaf lies
/// within the limit is left as it is.
pub proof fn lemma_limit_height(bits: Seq<u8>, limit: u8)
    requires
        bits.len() > 0,
        spec_limit_height(bits, limit) is Ok,
    ensures
        spec_limit_height(bits, limit)->Ok_0.len() == bits.len(),
        bits[0] <= limit ==> spec_limit_height(bits, limit)->Ok_0 == bits,
        bits[0] > limit || (forall|i: int| 0 <= i < bits.len() ==> #[trigger] bits[i] <= bits[0])
            ==> forall|i: int|
            0 <= i < bits.len() ==> #[trigger] spec_limit_height(bits, limit)->Ok_0[i] <= limit,
        spec_minimum_depth(bits.len()) <= limit,
{
    let largest = bits[0];
    if largest > limit {
        let debt = clamp_debt(bits, largest, limit, bits.len()) / (pow2(
            (largest - limit) as nat,
        ) as int);
        let start = clamped(bits, limit);
        lemma_repay_within(start, debt, limit - 1, limit as int);
        let paid = repay(start, debt, limit - 1, limit as int);
        lemma_take_back_within(paid.0, paid.1, limit as int, limit as int);
    }
}

/// Position of the first leaf at depth `depth`.
pub fn first_leaf_at(tree: &Tree, depth: u8) -> (found: Option<usize>)
    requires
        tree.holds_leaves(),
    ensures
        match found {
            Some(at) => at == first_at(tree.leaf_bits(), depth as int, 0) && at
                <= tree.last_symbol_node_pos && tree.nodes@[at as int].number_bits == depth,
            None => first_at(tree.leaf_bits(), depth as int, 0) >= tree.leaf_bits().len(),
        },
{
    let count = tree.last_symbol_node_pos as usize + 1;
    let ghost bits = tree.leaf_bits();
    let mut i: usize = 0;
    while i < count
        invariant
            i <= count,
            count == bits.len(),
            bits == tree.leaf_bits(),
            tree.holds_leaves(),
            first_at(bits, depth as int, 0) == first_at(bits, depth as int, i as int),
        decreases count - i,
    {
        if tree.nodes[i].number_bits == depth {
            return Some(i);
        }
        i += 1;
    }
    None
}

/// Position of the last leaf at depth `depth`.
pub fn last_leaf_at(tree: &Tree, depth: u8) -> (found: Option<usize>)
    requires
        tree.holds_leaves(),
    ensures
        match found {
            Some(at) => at == last_at(
                tree.leaf_bits(),
                depth as int,
                tree.leaf_bits().len() as int,
            ) && at <= tree.last_symbol_node_pos && tree.nodes@[at as int].number_bits == depth,
            None => last_at(tree.leaf_bits(), depth as int, tree.leaf_bits().len() as int) < 0,
        },
{
    let count = tree.last_symbol_node_pos as usize + 1;
    let ghost bits = tree.leaf_bits();
    let mut i: usize = count;
    while i > 0
        invariant
            i <= count,
            count == bits.len(),
            bits == tree.leaf_bits(),
            tree.holds_leaves(),
            last_at(bits, depth as int, count as int) == last_at(bits, depth as int, i as int),
        decreases i,
    {
        if tree.nodes[i - 1].number_bits == depth {
            return Some(i - 1);
        }
        i -= 1;
    }
    None
}

/// `after` is `before` with other depths for its leaves.
pub open spec fn only_depths_differ(before: Tree, after: Tree) -> bool {
    &&& after.nodes@.len() == before.nodes@.len()
    &&& after.root_node == before.root_node
    &&& after.last_symbol_node_pos == before.last_symbol_node_pos
    &&& forall|i: int|
        0 <= i < before.nodes@.len() ==> #[trigger] after.nodes@[i] == at_depth(
            before.nodes@[i],
            after.nodes@[i].number_bits,
        )
    &&& forall|i: int|
        before.last_symbol_node_pos < i < before.nodes@.len() ==> #[trigger] after.nodes@[i]
            == before.nodes@[i]
}

proof fn lemma_clamp_debt_bounds(bits: Seq<u8>, largest: u8, limit: u8, n: nat)
    requires
        n <= bits.len(),
        limit < largest,
        largest - limit <= 30,
        forall|i: int| 0 <= i < n ==> bits[i] <= largest,
    ensures
        0 <= clamp_debt(bits, largest, limit, n) <= n * pow2((largest - limit) as nat),
    decreases n,
{
    let unit = pow2((largest - limit) as nat);
    if n > 0 {
        lemma_clamp_debt_bounds(bits, largest, limit, (n - 1) as nat);
        lemma_pow2_pos((largest - bits[n - 1]) as nat);
        if bits[n - 1] > limit && largest - bits[n - 1] < largest - limit {
            lemma_pow2_strictly_increases(
                (largest - bits[n - 1]) as nat,
                (largest - limit) as nat,
            );
        }
        assert(n * unit == (n - 1) * unit + unit) by (nonlinear_arith);
    } else {
        assert(0 * unit == 0);
    }
}

/// Limits the depth of the tree to `max_bits` levels.
///
/// A tree whose first leaf lies within the limit is left as it is. Of any
/// other tree the leaves below the limit are put at the limit, and leaves
/// of the levels above it move down, the lowest count first, until what
/// the moved leaves took is paid back. Only the depths of the leaves
/// change; where the limit cannot be met the tree is left with some of
/// them changed.
pub fn set_max_height(tree: &mut Tree, max_bits: u8) -> (result: Result<(), HeightError>)
    requires
        old(tree).holds_leaves(),
        max_bits <= HUF_TABLELOG_ABSOLUTEMAX,
    ensures
        only_depths_differ(*old(tree), *final(tree)),
        match result {
            Ok(_) => spec_limit_height(old(tree).leaf_bits(), max_bits) == Ok::<
                Seq<u8>,
                HeightError,
            >(final(tree).leaf_bits()),
            Err(e) => spec_limit_height(old(tree).leaf_bits(), max_bits) == Err::<
                Seq<u8>,
                HeightError,
            >(e),
        },
        result is Ok && old(tree).nodes@[0].number_bits <= max_bits ==> *final(tree) == *old(tree),
        result is Ok && (old(tree).nodes@[0].number_bits > max_bits || forall|i: int|
            0 <= i <= old(tree).last_symbol_node_pos ==> (#[trigger] old(tree).nodes@[i]).number_bits
                <= old(tree).nodes@[0].number_bits) ==> forall|i: int|
            0 <= i <= old(tree).last_symbol_node_pos ==> (#[trigger] final(tree).nodes@[i]).number_bits <= max_bits,
        (result == Err::<(), HeightError>(HeightError::BelowMinimum)) == (spec_minimum_depth(
            (old(tree).last_symbol_node_pos + 1) as nat,
        ) > max_bits),
        result is Ok && crate::code_space::is_full(old(tree).leaf_bits())
            ==> crate::code_space::is_full(final(tree).leaf_bits()),
{
    let ghost given = *tree;
    let ghost bits = tree.leaf_bits();
    proof {
        if spec_limit_height(bits, max_bits) is Ok && crate::code_space::is_full(bits) {
            crate::code_space::lemma_limit_keeps_full(bits, max_bits);
        }
    }
    let count = tree.last_symbol_node_pos as usize + 1;
    if minimum_tree_depth(tree.get_num_symbol_nodes() as usize) > max_bits as usize {
        return Err(HeightError::BelowMinimum);
    }
    let largest_bits = tree.get_depth();
    assert(bits[0] == largest_bits);
    if largest_bits <= max_bits {
        proof {
            lemma_limit_height(bits, max_bits);
        }
        return Ok(());
    }
    if largest_bits - max_bits > 30 {
        return Err(HeightError::DebtNotRepaid);
    }
    let shift: u32 = (largest_bits - max_bits) as u32;
    proof {
        lemma2_to64();
        lemma_pow2_strictly_increases(shift as nat, 31);
        vstd::bits::lemma_u64_shl_is_mul(1, shift as u64);
    }
    let base_cost: u64 = 1u64 << shift;
    let mut debt_sum: u64 = 0;
    let mut i: usize = 0;
    while i < count
        invariant
            i <= count,
            count == bits.len(),
            count <= 256,
            bits == given.leaf_bits(),
            given == *old(tree),
            given.holds_leaves(),
            only_depths_differ(given, *tree),
            spec_minimum_depth(bits.len()) <= max_bits,
            largest_bits == bits[0],
            max_bits < largest_bits,
            shift == largest_bits - max_bits,
            shift <= 30,
            base_cost == pow2(shift as nat),
            forall|j: int| 0 <= j < i ==> bits[j] <= largest_bits,
            debt_sum == clamp_debt(bits, largest_bits, max_bits, i as nat),
            debt_sum <= i * pow2(shift as nat),
            pow2(shift as nat) <= 0x4000_0000,
            forall|j: int|
                0 <= j < count ==> (#[trigger] tree.nodes@[j]).number_bits == (if j < i && bits[j]
                    > max_bits {
                    max_bits
                } else {
                    bits[j]
                }),
        decreases count - i,
    {
        let number_bits = tree.nodes[i].number_bits;
        assert(number_bits == bits[i as int]);
        if number_bits > max_bits {
            if number_bits > largest_bits {
                return Err(HeightError::DebtNotRepaid);
            }
            let diff: u32 = (largest_bits - number_bits) as u32;
            proof {
                lemma_clamp_debt_bounds(bits, largest_bits, max_bits, (i + 1) as nat);
                lemma_pow2_strictly_increases(diff as nat, shift as nat);
                vstd::bits::lemma_u64_shl_is_mul(1, diff as u64);
                assert((i + 1) * pow2(shift as nat) <= 256 * 0x4000_0000) by (nonlinear_arith)
                    requires
                        i + 1 <= 256,
                        pow2(shift as nat) <= 0x4000_0000,
                ;
            }
            debt_sum = debt_sum + (base_cost - (1u64 << diff));
            tree.nodes[i].number_bits = max_bits;
        } else {
            proof {
                lemma_clamp_debt_bounds(bits, largest_bits, max_bits, (i + 1) as nat);
            }
        }
        i += 1;
    }
    proof {
        assert(tree.leaf_bits() =~= clamped(bits, max_bits));
        assert(!(exists|j: int| 0 <= j < bits.len() && bits[j] > largest_bits));
        lemma_pow2_pos(shift as nat);
        assert(count * pow2(shift as nat) <= 256 * pow2(shift as nat)) by (nonlinear_arith)
            requires
                count <= 256,
        ;
        vstd::arithmetic::div_mod::lemma_div_is_ordered(
            debt_sum as int,
            256 * (pow2(shift as nat) as int),
            pow2(shift as nat) as int,
        );
        vstd::arithmetic::div_mod::lemma_div_by_multiple(256, pow2(shift as nat) as int);
        vstd::arithmetic::div_mod::lemma_div_pos_is_pos(
            debt_sum as int,
            pow2(shift as nat) as int,
        );
    }
    let mut debt: i64 = (debt_sum / base_cost) as i64;
    let ghost paid = repay(clamped(bits, max_bits), debt as int, max_bits - 1, max_bits as int);
    let mut check_depth: u8 = max_bits - 1;
    while debt > 0 && check_depth != 0
        invariant
            given.holds_leaves(),
            only_depths_differ(given, *tree),
            count == tree.leaf_bits().len(),
            max_bits <= 15,
            check_depth < max_bits,
            debt <= 256,
            -16384 <= debt,
            forall|j: int| 0 <= j < count ==> (#[trigger] tree.nodes@[j]).number_bits <= max_bits,
            repay(tree.leaf_bits(), debt as int, check_depth as int, max_bits as int) == paid,
        decreases (if debt > 0 { debt } else { 0 }), check_depth,
    {
        let ghost now = tree.leaf_bits();
        match first_leaf_at(tree, check_depth) {
            None => {
                check_depth -= 1;
            },
            Some(at) => {
                tree.nodes[at].number_bits = tree.nodes[at].number_bits + 1;
                let exponent: u32 = (max_bits - check_depth - 1) as u32;
                proof {
                    lemma2_to64();
                    if exponent < 14 {
                        lemma_pow2_strictly_increases(exponent as nat, 14);
                    }
                    vstd::bits::lemma_u64_shl_is_mul(1, exponent as u64);
                    lemma_pow2_pos(exponent as nat);
                    assert(tree.leaf_bits() =~= now.update(at as int, (check_depth + 1) as u8));
                }
                let payment: i64 = (1u64 << exponent) as i64;
                if check_depth != max_bits - 1 {
                    check_depth += 1;
                }
                debt -= payment;
            },
        }
    }
    if debt > 0 {
        return Err(HeightError::DebtNotRepaid);
    }
    let ghost undone = take_back(tree.leaf_bits(), debt as int, max_bits as int);
    assert(paid == (tree.leaf_bits(), debt as int));
    assert(spec_limit_height(bits, max_bits) == (match undone {
        Some(done) => Ok::<Seq<u8>, HeightError>(done),
        None => Err::<Seq<u8>, HeightError>(HeightError::DebtNotRepaid),
    }));
    if debt < 0 {
        let mut check_depth: u8 = max_bits;
        while debt < 0
            invariant
                given == *old(tree),
                bits == given.leaf_bits(),
                spec_minimum_depth(bits.len()) <= max_bits,
                spec_limit_height(bits, max_bits) == (match undone {
                    Some(done) => Ok::<Seq<u8>, HeightError>(done),
                    None => Err::<Seq<u8>, HeightError>(HeightError::DebtNotRepaid),
                }),
                given.holds_leaves(),
                only_depths_differ(given, *tree),
                count == tree.leaf_bits().len(),
                1 <= check_depth <= max_bits <= 15,
                debt <= 0,
                forall|j: int|
                    0 <= j < count ==> (#[trigger] tree.nodes@[j]).number_bits <= max_bits,
                take_back(tree.leaf_bits(), debt as int, check_depth as int) == undone,
            decreases (if debt < 0 { -debt } else { 0 }), check_depth,
        {
            let ghost now = tree.leaf_bits();
            match last_leaf_at(tree, check_depth) {
                None => {
                    check_depth -= 1;
                    if check_depth == 0 {
                        return Err(HeightError::DebtNotRepaid);
                    }
                },
                Some(at) => {
                    tree.nodes[at].number_bits = tree.nodes[at].number_bits - 1;
                    proof {
                        assert(tree.leaf_bits() =~= now.update(at as int, (check_depth - 1) as u8));
                    }
                    debt += 1;
                },
            }
        }
    }
    proof {
        lemma_limit_height(bits, max_bits);
    }
    Ok(())
}

/// Builds the tree of the counts and limits its depth to 11 levels. Where
/// two symbols or more occur and the counts add up to `u32::MAX` at most,
/// no leaf is left below the limit, and the leaves fill the code space.
pub fn build_tree_fast(counts: &[usize; 256]) -> (result: Result<Tree, HeightError>)
    requires
        exists|s: int| 0 <= s < 256 && counts@[s] != 0,
    ensures
        match result {
            Ok(tree) => {
                &&& tree.nodes@.len() == 512
                &&& tree.root_node == spec_tree(counts@).1
                &&& tree.last_symbol_node_pos == spec_tree(counts@).2
                &&& forall|i: int|
                    0 <= i < 512 ==> #[trigger] tree.nodes@[i] == at_depth(
                        spec_tree(counts@).0[i],
                        tree.nodes@[i].number_bits,
                    )
                &&& forall|i: int|
                    spec_tree(counts@).2 < i < 512 ==> #[trigger] tree.nodes@[i] == spec_tree(
                        counts@,
                    ).0[i]
                &&& spec_limit_height(
                    depths_of(spec_tree(counts@).0, (spec_tree(counts@).2 + 1) as nat),
                    11,
                ) == Ok::<Seq<u8>, HeightError>(tree.leaf_bits())
                &&& forall|i: int|
                    0 <= i <= tree.last_symbol_node_pos ==> (#[trigger] tree.nodes@[i]).number_bits
                        <= 11 || spec_tree(counts@).0[0].number_bits <= 11
                &&& tree.last_symbol_node_pos >= 1 && crate::full_tree::total_count(counts@, 256)
                    <= u32::MAX ==> crate::code_space::is_full(tree.leaf_bits()) && forall|i: int|
                    0 <= i <= tree.last_symbol_node_pos ==> (#[trigger] tree.nodes@[i]).number_bits
                        <= 11
            },
            Err(e) => spec_limit_height(
                depths_of(spec_tree(counts@).0, (spec_tree(counts@).2 + 1) as nat),
                11,
            ) == Err::<Seq<u8>, HeightError>(e),
        },
{
    let mut tree = build_tree_fast_1(counts);
    let max_height: u8 = 11;
    match set_max_height(&mut tree, max_height) {
        Ok(_) => Ok(tree),
        Err(e) => Err(e),
    }
}

/// Positions of the nodes of one depth: from `start` up to `end`, `end`
/// left out.
#[derive(Debug, Clone, Copy)]
pub struct RangeExlusive {
    pub start: u16,
    pub end: u16,
}

impl Default for RangeExlusive {
    fn default() -> (range: Self)
        ensures
            range.start == 0,
            range.end == 0,
    {
        RangeExlusive { start: 0, end: 0 }
    }
}

impl RangeExlusive {
    /// The range holds no position.
    pub fn is_empty(&self) -> (empty: bool)
        ensures
            empty == (self.start == self.end),
    {
        self.start == self.end
    }
}

/// The index with the levels from `from` up to `to`, `to` left out, set to
/// the empty range at `pos`.
pub open spec fn levels_skipped(
    index: Seq<RangeExlusive>,
    from: int,
    to: int,
    pos: int,
) -> Seq<RangeExlusive> {
    Seq::new(
        index.len(),
        |d: int|
            if from <= d < to {
                RangeExlusive { start: pos as u16, end: pos as u16 }
            } else {
                index[d]
            },
    )
}

/// The index of the levels once the nodes from `pos` on are looked at,
/// `current` being the level of the node before `pos`: a node of another
/// level ends the range of `current` and starts the range of its own level,
/// and the levels between the two, when it lies above, get the empty range
/// at its position. The first node of depth 0 ends the scan.
pub open spec fn depth_scan(
    nodes: Seq<Node>,
    index: Seq<RangeExlusive>,
    current: int,
    pos: int,
) -> Seq<RangeExlusive>
    decreases nodes.len() - pos,
{
    if pos < 0 || pos >= nodes.len() || nodes[pos].number_bits == 0 {
        index.update(current, RangeExlusive { start: index[current].start, end: pos as u16 })
    } else if nodes[pos].number_bits != current {
        let level = nodes[pos].number_bits as int;
        let skipped = levels_skipped(index, level, current, pos);
        let closed = skipped.update(
            current,
            RangeExlusive { start: skipped[current].start, end: pos as u16 },
        );
        let opened = closed.update(level, RangeExlusive { start: pos as u16, end: closed[level].end });
        depth_scan(nodes, opened, level, pos + 1)
    } else {
        depth_scan(nodes, index, current, pos + 1)
    }
}

/// The nodes up to the first one of depth 0 lie less than 16 levels deep,
/// and there is such a node.
pub open spec fn scannable(nodes: Seq<Node>, pos: int) -> bool
    decreases nodes.len() - pos,
{
    if pos < 0 || pos >= nodes.len() || pos >= 65536 {
        false
    } else if nodes[pos].number_bits == 0 {
        true
    } else {
        nodes[pos].number_bits < 16 && scannable(nodes, pos + 1)
    }
}

/// Builds the index of the levels: for each depth the positions of the
/// nodes of that depth, for nodes that stand in order of depth, the
/// deepest first.
pub fn get_depth_index(nodes: &[Node]) -> (index: [RangeExlusive; 16])
    requires
        scannable(nodes@, 0),
    ensures
        index@ == depth_scan(
            nodes@,
            Seq::new(16, |d: int| RangeExlusive { start: 0, end: 0 }),
            nodes@[0].number_bits as int,
            0,
        ),
{
    let mut depth_index = [RangeExlusive { start: 0, end: 0 }; 16];
    let ghost empty = Seq::new(16, |d: int| RangeExlusive { start: 0, end: 0 });
    assert(depth_index@ =~= empty);
    let ghost target = depth_scan(nodes@, empty, nodes@[0].number_bits as int, 0);
    depth_index[nodes[0].number_bits as usize].start = 0;
    assert(depth_index@ =~= empty);
    let mut current_num_bits: u8 = nodes[0].number_bits;
    let mut pos: usize = 0;
    while nodes[pos].number_bits > 0
        invariant
            scannable(nodes@, pos as int),
            current_num_bits < 16,
            depth_index@.len() == 16,
            depth_scan(nodes@, depth_index@, current_num_bits as int, pos as int) == target,
        decreases nodes@.len() - pos,
    {
        if nodes[pos].number_bits != current_num_bits {
            let level = nodes[pos].number_bits;
            let ghost before = depth_index@;
            let mut num_bits: u8 = level;
            while num_bits < current_num_bits
                invariant
                    level <= num_bits,
                    num_bits <= current_num_bits || num_bits == level,
                    current_num_bits < 16,
                    pos < 65536,
                    depth_index@.len() == 16,
                    before.len() == 16,
                    forall|d: int|
                        0 <= d < 16 ==> #[trigger] depth_index@[d] == (if level <= d < num_bits {
                            RangeExlusive { start: pos as u16, end: pos as u16 }
                        } else {
                            before[d]
                        }),
                decreases current_num_bits - num_bits,
            {
                depth_index[num_bits as usize] = RangeExlusive { start: pos as u16, end: pos as u16 };
                num_bits += 1;
            }
            assert(depth_index@ =~= levels_skipped(
                before,
                level as int,
                current_num_bits as int,
                pos as int,
            ));
            depth_index[current_num_bits as usize].end = pos as u16;
            current_num_bits = level;
            depth_index[current_num_bits as usize].start = pos as u16;
        }
        pos += 1;
    }
    depth_index[current_num_bits as usize].end = pos as u16;
    depth_index
}

} // verus!
