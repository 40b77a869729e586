//! The code space that leaves take, and why limiting the depth of a tree
//! keeps it filled: what the leaves put at the limit take too much is paid
//! back to the last code.

use vstd::prelude::*;
use vstd::arithmetic::power2::{
    pow2, lemma_pow2_pos, lemma_pow2_unfold, lemma_pow2_adds, lemma2_to64,
    lemma_pow2_strictly_increases,
};
use vstd::arithmetic::div_mod::lemma_div_by_multiple;
use crate::height::{
    first_at, last_at, clamped, clamp_debt, repay, take_back, spec_limit_height, lemma_first_at,
    lemma_last_at,
};
use crate::tree::{Node, depths_of, lemma_minimum_depth};
use crate::codes::{count_at, deepest, code_table, prefix_free};
use crate::prefix::{
    levels_used, fills_code_space, lemma_deepest, lemma_deepest_within, lemma_counted_level,
    lemma_canonical_prefix_free,
};

verus! {

/// The code space that the first `n` leaves take, counted in codes of
/// length `top`: a leaf at depth `d` takes `2^(top - d)` of them. Leaves
/// below `top` are left out.
pub open spec fn space(bits: Seq<u8>, n: nat, top: nat) -> nat
    decreases n,
{
    if n == 0 {
        0
    } else {
        space(bits, (n - 1) as nat, top) + if bits[n - 1] <= top {
            pow2((top - bits[n - 1]) as nat)
        } else {
            0
        }
    }
}

/// Number of the first `n` leaves at depth `level`.
pub open spec fn at_level(bits: Seq<u8>, n: nat, level: int) -> nat
    decreases n,
{
    if n == 0 {
        0
    } else {
        at_level(bits, (n - 1) as nat, level) + if bits[n - 1] == level {
            1nat
        } else {
            0nat
        }
    }
}

/// The leaves fill the code space: the codes of length 256, a length that
/// no leaf exceeds, are all taken.
pub open spec fn is_full(bits: Seq<u8>) -> bool {
    space(bits, bits.len(), 256) == pow2(256)
}

/// Moving one leaf to another depth takes its old share out and puts its
/// new share in.
pub proof fn lemma_space_update(bits: Seq<u8>, n: nat, at: int, depth: u8, top: nat)
    requires
        0 <= at < n <= bits.len(),
        bits[at] <= top,
        depth <= top,
    ensures
        space(bits.update(at, depth), n, top) + pow2((top - bits[at]) as nat) == space(
            bits,
            n,
            top,
        ) + pow2((top - depth) as nat),
    decreases n,
{
    if at < n - 1 {
        lemma_space_update(bits, (n - 1) as nat, at, depth, top);
    } else {
        lemma_space_same(bits, bits.update(at, depth), (n - 1) as nat, top);
    }
}

pub proof fn lemma_space_same(a: Seq<u8>, b: Seq<u8>, n: nat, top: nat)
    requires
        forall|i: int| 0 <= i < n ==> a[i] == b[i],
    ensures
        space(a, n, top) == space(b, n, top),
    decreases n,
{
    if n > 0 {
        lemma_space_same(a, b, (n - 1) as nat, top);
    }
}

pub proof fn lemma_at_level_same(a: Seq<u8>, b: Seq<u8>, n: nat, level: int)
    requires
        forall|i: int| 0 <= i < n ==> a[i] == b[i],
    ensures
        at_level(a, n, level) == at_level(b, n, level),
    decreases n,
{
    if n > 0 {
        lemma_at_level_same(a, b, (n - 1) as nat, level);
    }
}

/// Moving one leaf to another depth takes it out of its old level and
/// puts it into its new one.
pub proof fn lemma_at_level_update(bits: Seq<u8>, n: nat, at: int, depth: u8, level: int)
    requires
        0 <= at < n <= bits.len(),
    ensures
        at_level(bits.update(at, depth), n, level) + (if bits[at] == level {
            1nat
        } else {
            0nat
        }) == at_level(bits, n, level) + (if depth == level {
            1nat
        } else {
            0nat
        }),
    decreases n,
{
    if at < n - 1 {
        lemma_at_level_update(bits, (n - 1) as nat, at, depth, level);
    } else {
        lemma_at_level_same(bits, bits.update(at, depth), (n - 1) as nat, level);
    }
}

/// A level that holds none of the leaves.
pub proof fn lemma_at_level_none(bits: Seq<u8>, n: nat, level: int)
    requires
        forall|i: int| 0 <= i < n ==> bits[i] != level,
    ensures
        at_level(bits, n, level) == 0,
    decreases n,
{
    if n > 0 {
        lemma_at_level_none(bits, (n - 1) as nat, level);
    }
}

/// The code space counted in shorter or longer codes.
pub proof fn lemma_space_scale(bits: Seq<u8>, n: nat, top: nat, longer: nat)
    requires
        top <= longer,
        forall|i: int| 0 <= i < n ==> bits[i] <= top,
    ensures
        space(bits, n, longer) == space(bits, n, top) * pow2((longer - top) as nat),
    decreases n,
{
    let unit = pow2((longer - top) as nat);
    if n > 0 {
        lemma_space_scale(bits, (n - 1) as nat, top, longer);
        let before = space(bits, (n - 1) as nat, top);
        let here = pow2((top - bits[n - 1]) as nat);
        lemma_pow2_adds((top - bits[n - 1]) as nat, (longer - top) as nat);
        assert((before + here) * unit == before * unit + here * unit) by (nonlinear_arith);
    } else {
        assert(0 * unit == 0);
    }
}

/// The leaves put at the limit: counted in codes of the length of the
/// deepest leaf, they take what they took before and the debt; and the
/// debt is less than what the leaves at the limit take.
pub proof fn lemma_clamped_space(bits: Seq<u8>, n: nat, largest: u8, limit: u8)
    requires
        n <= bits.len(),
        limit < largest,
        forall|i: int| 0 <= i < n ==> bits[i] <= largest,
    ensures
        space(clamped(bits, limit), n, limit as nat) * pow2((largest - limit) as nat) == space(
            bits,
            n,
            largest as nat,
        ) + clamp_debt(bits, largest, limit, n),
        clamp_debt(bits, largest, limit, n) >= 0,
        clamp_debt(bits, largest, limit, n) + at_level(clamped(bits, limit), n, limit as int)
            <= at_level(clamped(bits, limit), n, limit as int) * pow2((largest - limit) as nat),
    decreases n,
{
    let unit = pow2((largest - limit) as nat);
    lemma_pow2_pos((largest - limit) as nat);
    if n > 0 {
        lemma_clamped_space(bits, (n - 1) as nat, largest, limit);
        let low = clamped(bits, limit);
        let depth = bits[n - 1];
        let before = space(low, (n - 1) as nat, limit as nat);
        let level = at_level(low, (n - 1) as nat, limit as int);
        lemma_pow2_pos((largest - depth) as nat);
        if depth > limit {
            assert(pow2(0) == 1) by {
                lemma2_to64();
            }
            lemma_pow2_strictly_increases((largest - depth) as nat, (largest - limit) as nat);
            assert((before + 1) * unit == before * unit + unit) by (nonlinear_arith);
            assert((level + 1) * unit == level * unit + unit) by (nonlinear_arith);
        } else {
            let here = pow2((limit - depth) as nat);
            lemma_pow2_adds((limit - depth) as nat, (largest - limit) as nat);
            assert((before + here) * unit == before * unit + here * unit) by (nonlinear_arith);
            assert((level + 1) * unit == level * unit + unit) by (nonlinear_arith);
        }
    } else {
        assert(0 * unit == 0);
    }
}

/// Where no leaf stands between the level `check` and the limit, the code
/// space is what the leaves at the limit take and a multiple of the share
/// of a leaf at `check`.
pub proof fn lemma_level_multiple(bits: Seq<u8>, n: nat, limit: nat, check: nat) -> (x: nat)
    requires
        check < limit,
        forall|i: int| 0 <= i < n ==> bits[i] <= check || bits[i] == limit,
    ensures
        space(bits, n, limit) == at_level(bits, n, limit as int) + pow2((limit - check) as nat)
            * x,
    decreases n,
{
    let unit = pow2((limit - check) as nat);
    if n > 0 {
        let before = lemma_level_multiple(bits, (n - 1) as nat, limit, check);
        let depth = bits[n - 1] as nat;
        if depth == limit {
            assert(pow2(0) == 1) by {
                lemma2_to64();
            }
            before
        } else {
            let here = pow2((check - depth) as nat);
            lemma_pow2_adds((limit - check) as nat, (check - depth) as nat);
            assert(unit * (before + here) == unit * before + unit * here) by (nonlinear_arith);
            before + here
        }
    } else {
        assert(unit * 0 == 0);
        0
    }
}

/// What holds while the debt is paid back. The leaves take the code space
/// and the debt. While a debt is left, no leaf stands between the level
/// `check` and the limit, and more leaves stand at the limit than the
/// debt counts; once too much is paid, as many leaves stand at the limit
/// as were paid too much.
pub open spec fn paying(bits: Seq<u8>, debt: int, check: int, limit: int) -> bool {
    &&& 1 <= limit <= 255
    &&& forall|i: int| 0 <= i < bits.len() ==> bits[i] <= limit
    &&& space(bits, bits.len(), limit as nat) == pow2(limit as nat) + debt
    &&& debt > 0 ==> check < limit && at_level(bits, bits.len(), limit) >= debt + 1 && forall|
        i: int,
    | 0 <= i < bits.len() ==> bits[i] <= check || bits[i] == limit
    &&& debt <= 0 ==> at_level(bits, bits.len(), limit) >= -debt
}

/// Paying back, where it succeeds, leaves the code space short of what was
/// paid too much, and as many leaves at the limit.
pub proof fn lemma_repay(bits: Seq<u8>, debt: int, check: int, limit: int)
    requires
        paying(bits, debt, check, limit),
        repay(bits, debt, check, limit).1 <= 0,
    ensures
        ({
            let paid = repay(bits, debt, check, limit);
            &&& paid.0.len() == bits.len()
            &&& paying(paid.0, paid.1, check, limit)
        }),
    decreases (if debt > 0 { debt } else { 0 }), (if check > 0 { check } else { 0 }),
{
    let n = bits.len();
    if debt <= 0 || check <= 0 || check >= limit {
    } else {
        let at = first_at(bits, check, 0);
        lemma_first_at(bits, check, 0);
        if at >= bits.len() {
            assert forall|i: int| 0 <= i < n implies bits[i] <= check - 1 || bits[i] == limit by {
                assert(bits[i] != check);
            }
            lemma_repay(bits, debt, check - 1, limit);
        } else {
            let pay = pow2((limit - check - 1) as nat) as int;
            let moved = bits.update(at, (check + 1) as u8);
            let rest = debt - pay;
            let next = if check != limit - 1 { check + 1 } else { check };
            lemma_pow2_pos((limit - check - 1) as nat);
            lemma_pow2_unfold((limit - check) as nat);
            lemma_space_update(bits, n, at, (check + 1) as u8, limit as nat);
            lemma_at_level_update(bits, n, at, (check + 1) as u8, limit);
            assert(space(moved, n, limit as nat) == pow2(limit as nat) + rest);
            assert forall|i: int| 0 <= i < n implies moved[i] <= limit && (moved[i] <= next
                || moved[i] == limit) by {
                if i != at {
                    assert(bits[i] <= check || bits[i] == limit);
                }
            }
            if rest <= 0 && check != limit - 1 {
                let x = lemma_level_multiple(bits, n, limit as nat, check as nat);
                let unit = pow2((limit - check) as nat) as int;
                lemma_pow2_adds((limit - check) as nat, check as nat);
                lemma_pow2_pos(check as nat);
                let level = at_level(bits, n, limit) as int;
                let whole = pow2(check as nat) as int;
                assert(level - debt == unit * (whole - x)) by (nonlinear_arith)
                    requires
                        level + unit * x == unit * whole + debt,
                ;
                assert(whole - x >= 1) by (nonlinear_arith)
                    requires
                        unit * (whole - x) >= 1,
                        unit > 0,
                ;
                assert(unit * (whole - x) >= unit) by (nonlinear_arith)
                    requires
                        whole - x >= 1,
                        unit > 0,
                ;
            } else if rest <= 0 {
                assert(pow2(0) == 1) by {
                    lemma2_to64();
                }
            }
            assert(paying(moved, rest, next, limit));
            lemma_repay(moved, rest, next, limit);
            let paid = repay(bits, debt, check, limit);
            assert(paid == repay(moved, rest, next, limit));
            assert(paid.1 <= 0);
        }
    }
}

/// A level that holds a leaf: the last leaf of the level is found.
pub proof fn lemma_last_at_found(bits: Seq<u8>, level: int)
    requires
        at_level(bits, bits.len(), level) > 0,
    ensures
        0 <= last_at(bits, level, bits.len() as int) < bits.len(),
        bits[last_at(bits, level, bits.len() as int)] == level,
{
    lemma_last_at(bits, level, bits.len() as int);
    if last_at(bits, level, bits.len() as int) < 0 {
        lemma_at_level_none(bits, bits.len(), level);
    }
}

/// Taking back what was paid too much, from leaves at the limit, fills
/// the code space.
pub proof fn lemma_take_back(bits: Seq<u8>, debt: int, limit: int)
    requires
        paying(bits, debt, limit, limit),
        debt <= 0,
    ensures
        take_back(bits, debt, limit) is Some,
        take_back(bits, debt, limit)->0.len() == bits.len(),
        paying(take_back(bits, debt, limit)->0, 0, limit, limit),
    decreases -debt,
{
    if debt < 0 {
        let n = bits.len();
        lemma_last_at_found(bits, limit);
        let at = last_at(bits, limit, n as int);
        let moved = bits.update(at, (limit - 1) as u8);
        lemma_space_update(bits, n, at, (limit - 1) as u8, limit as nat);
        lemma_at_level_update(bits, n, at, (limit - 1) as u8, limit);
        assert(pow2(0) == 1 && pow2(1) == 2) by {
            lemma2_to64();
        }
        assert forall|i: int| 0 <= i < n implies moved[i] <= limit by {
            if i != at {
                assert(bits[i] <= limit);
            }
        }
        lemma_take_back(moved, debt + 1, limit);
    }
}

/// A level that holds a leaf.
pub proof fn lemma_at_level_holds(bits: Seq<u8>, n: nat, i: int)
    requires
        0 <= i < n,
    ensures
        at_level(bits, n, bits[i] as int) >= 1,
    decreases n,
{
    if i < n - 1 {
        lemma_at_level_holds(bits, (n - 1) as nat, i);
    }
}

/// Limiting the depth keeps the code space filled.
pub proof fn lemma_limit_keeps_full(bits: Seq<u8>, limit: u8)
    requires
        bits.len() >= 1,
        is_full(bits),
        spec_limit_height(bits, limit) is Ok,
    ensures
        is_full(spec_limit_height(bits, limit)->Ok_0),
{
    let n = bits.len();
    let largest = bits[0];
    lemma_minimum_depth(n);
    if largest > limit {
        let unit = pow2((largest - limit) as nat) as int;
        let low = clamped(bits, limit);
        let owed = clamp_debt(bits, largest, limit, n);
        let debt = owed / unit;
        lemma_pow2_pos((largest - limit) as nat);
        lemma_pow2_pos((256 - largest) as nat);
        lemma_pow2_adds(largest as nat, (256 - largest) as nat);
        lemma_pow2_adds(limit as nat, (largest - limit) as nat);
        lemma_pow2_adds(limit as nat, (256 - limit) as nat);
        assert forall|i: int| 0 <= i < n implies bits[i] <= largest by {}
        lemma_space_scale(bits, n, largest as nat, 256);
        let before = space(bits, n, largest as nat) as int;
        let scale = pow2((256 - largest) as nat) as int;
        assert(before == pow2(largest as nat)) by (nonlinear_arith)
            requires
                before * scale == pow2(largest as nat) * scale,
                scale > 0,
        ;
        lemma_clamped_space(bits, n, largest, limit);
        let taken = space(low, n, limit as nat) as int;
        let whole = pow2(limit as nat) as int;
        let level = at_level(low, n, limit as int) as int;
        assert(owed == (taken - whole) * unit) by (nonlinear_arith)
            requires
                taken * unit == whole * unit + owed,
        ;
        assert(taken - whole >= 0) by (nonlinear_arith)
            requires
                owed == (taken - whole) * unit,
                owed >= 0,
                unit > 0,
        ;
        lemma_div_by_multiple(taken - whole, unit);
        assert(debt == taken - whole);
        lemma_at_level_holds(low, n, 0);
        assert(level - debt >= 1) by (nonlinear_arith)
            requires
                debt * unit + level <= level * unit,
                level >= 1,
                unit > 0,
        ;
        assert(paying(low, debt, limit - 1, limit as int));
        let paid = repay(low, debt, limit - 1, limit as int);
        lemma_repay(low, debt, limit - 1, limit as int);
        assert(paying(paid.0, paid.1, limit as int, limit as int));
        lemma_take_back(paid.0, paid.1, limit as int);
        let done = take_back(paid.0, paid.1, limit as int)->0;
        lemma_space_scale(done, n, limit as nat, 256);
    }
}

/// Of two leaves neither takes more than the others leave.
proof fn lemma_space_two(bits: Seq<u8>, n: nat, top: nat, i: int, j: int)
    requires
        0 <= i < j < n,
        bits[i] <= top,
        bits[j] <= top,
    ensures
        pow2((top - bits[i]) as nat) + pow2((top - bits[j]) as nat) <= space(bits, n, top),
    decreases n,
{
    if j < n - 1 {
        lemma_space_two(bits, (n - 1) as nat, top, i, j);
    } else {
        lemma_space_one(bits, (n - 1) as nat, top, i);
    }
}

proof fn lemma_space_one(bits: Seq<u8>, n: nat, top: nat, i: int)
    requires
        0 <= i < n,
        bits[i] <= top,
    ensures
        pow2((top - bits[i]) as nat) <= space(bits, n, top),
    decreases n,
{
    if i < n - 1 {
        lemma_space_one(bits, (n - 1) as nat, top, i);
    }
}

proof fn lemma_space_doubles(nodes: Seq<Node>, n: nat, m: nat, top: nat)
    requires
        top >= 1,
        m <= n,
    ensures
        space(depths_of(nodes, n), m, top) == 2 * space(
            depths_of(nodes, n),
            m,
            (top - 1) as nat,
        ) + count_at(nodes, top as int, m),
    decreases m,
{
    if m > 0 {
        lemma_space_doubles(nodes, n, (m - 1) as nat, top);
        let depth = nodes[m - 1].number_bits;
        assert(depths_of(nodes, n)[m - 1] == depth);
        if depth < top {
            lemma_pow2_unfold((top - depth) as nat);
        } else if depth == top {
            lemma2_to64();
        }
    }
}

proof fn lemma_space_at_zero(nodes: Seq<Node>, n: nat, m: nat)
    requires
        m <= n,
        forall|i: int| 0 <= i < n ==> (#[trigger] nodes[i]).number_bits >= 1,
    ensures
        space(depths_of(nodes, n), m, 0) == 0,
    decreases m,
{
    if m > 0 {
        lemma_space_at_zero(nodes, n, (m - 1) as nat);
        assert(depths_of(nodes, n)[m - 1] == nodes[m - 1].number_bits);
    }
}

/// The code space counted level by level is the code space counted leaf
/// by leaf, where no leaf stands at depth 0.
pub proof fn lemma_levels_as_space(nodes: Seq<Node>, n: nat, top: nat)
    requires
        forall|i: int| 0 <= i < n ==> (#[trigger] nodes[i]).number_bits >= 1,
    ensures
        levels_used(nodes, n, top) == space(depths_of(nodes, n), n, top),
    decreases top,
{
    if top > 0 {
        lemma_levels_as_space(nodes, n, (top - 1) as nat);
        lemma_space_doubles(nodes, n, n, top);
    } else {
        lemma_space_at_zero(nodes, n, n);
    }
}

/// Two leaves or more that fill the code space, none of them deeper than
/// 15 levels, fill the codes of the length of the deepest of them.
pub proof fn lemma_full_fills(nodes: Seq<Node>, n: nat)
    requires
        2 <= n <= nodes.len(),
        is_full(depths_of(nodes, n)),
        forall|i: int| 0 <= i < n ==> (#[trigger] nodes[i]).number_bits <= 15,
    ensures
        fills_code_space(nodes, n),
{
    let bits = depths_of(nodes, n);
    let longest = deepest(nodes, n, 15);
    lemma_deepest_within(nodes, n, 15);
    assert forall|i: int| 0 <= i < n implies 1 <= (#[trigger] nodes[i]).number_bits
        <= longest by {
        let depth = nodes[i].number_bits as int;
        assert(bits[i] == depth);
        if depth == 0 {
            let other = if i == 0 { 1int } else { 0int };
            assert(bits[other] == nodes[other].number_bits);
            lemma_pow2_pos((256 - bits[other]) as nat);
            if i == 0 {
                lemma_space_two(bits, n, 256, 0, 1);
            } else {
                lemma_space_two(bits, n, 256, 0, i);
            }
        }
        lemma_counted_level(nodes, depth, n, i);
        if depth > longest {
            lemma_deepest(nodes, n, 15, depth);
        }
    }
    assert forall|i: int| 0 <= i < n implies bits[i] <= longest by {
        assert(bits[i] == nodes[i].number_bits);
    }
    lemma_space_scale(bits, n, longest, 256);
    lemma_levels_as_space(nodes, n, longest);
    lemma_pow2_adds(longest, (256 - longest) as nat);
    lemma_pow2_pos((256 - longest) as nat);
    let taken = space(bits, n, longest);
    let unit = pow2((256 - longest) as nat);
    assert(taken == pow2(longest)) by (nonlinear_arith)
        requires
            taken * unit == pow2(longest) * unit,
            unit > 0,
    ;
}

/// Canonical codes of a full tree are free of prefixes: where two leaves
/// or more fill the code space and none of them lies deeper than 15
/// levels, no code, cut down to the length of a shorter code, is that
/// code.
pub proof fn lemma_full_prefix_free(nodes: Seq<Node>, n: nat)
    requires
        2 <= n <= nodes.len(),
        is_full(depths_of(nodes, n)),
        forall|i: int| 0 <= i < n ==> (#[trigger] nodes[i]).number_bits <= 15,
    ensures
        prefix_free(code_table(nodes, n, n)),
{
    lemma_full_fills(nodes, n);
    lemma_canonical_prefix_free(nodes, n);
}

} // verus!
