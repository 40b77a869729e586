//! Why the stride walk fills the state table: the stride is odd, so the walk
//! visits every slot once before it returns to slot 0, and every symbol ends
//! up with exactly the slots that its normalized count gives it.

use vstd::prelude::*;
use vstd::arithmetic::power2::{pow2, lemma_pow2_pos, lemma_pow2_unfold, lemma2_to64, lemma_pow2_adds};
use vstd::arithmetic::div_mod::{
    lemma_fundamental_div_mod, lemma_mod_multiples_basic, lemma_small_mod, lemma_mod_equivalence,
    lemma_mod_bound,
};
use vstd::set_lib::{set_int_range, lemma_int_range, lemma_map_size, lemma_subset_equality};
use vstd::relations::injective_on;
use crate::table::{
    slots_of, slots_before, rare_before, valid_distribution, lemma_slots_monotone,
    spec_tablestep, walk_pos, walk_succ, walk_skip, rare_table, spread_state, spread_table,
    lemma_table_size,
};

verus! {

/// The stride of a table of at least 16 slots is odd.
pub proof fn lemma_step_odd(table_log: u32)
    requires
        4 <= table_log <= 16,
    ensures
        spec_tablestep(pow2(table_log as nat)) % 2 == 1,
{
    lemma_pow2_adds(4, (table_log - 4) as nat);
    lemma2_to64();
    let m = pow2((table_log - 4) as nat);
    assert(pow2(table_log as nat) == 16 * m);
}

/// An odd factor cannot supply the twos of a power of two.
pub proof fn lemma_odd_factor(d: nat, m: nat, n: nat)
    requires
        m % 2 == 1,
        (d * m) % pow2(n) == 0,
    ensures
        d % pow2(n) == 0,
    decreases n,
{
    lemma2_to64();
    if n > 0 {
        let p = pow2((n - 1) as nat);
        lemma_pow2_unfold(n);
        lemma_pow2_pos((n - 1) as nat);
        let q = ((d * m) as int) / ((2 * p) as int);
        lemma_fundamental_div_mod((d * m) as int, (2 * p) as int);
        assert(d * m == (2 * p) * q);
        if d % 2 == 1 {
            let a = d / 2;
            let b = m / 2;
            assert(d * m == 2 * (2 * a * b + a + b) + 1) by (nonlinear_arith)
                requires
                    d == 2 * a + 1,
                    m == 2 * b + 1,
            ;
            assert((2 * p) * q == 2 * (p * q)) by (nonlinear_arith);
            assert(false);
        }
        let d2 = d / 2;
        assert(d2 * m == q * p) by (nonlinear_arith)
            requires
                d * m == (2 * p) * q,
                d == 2 * d2,
        ;
        lemma_mod_multiples_basic(q, p as int);
        lemma_odd_factor(d2, m, (n - 1) as nat);
        let q2 = (d2 as int) / (p as int);
        lemma_fundamental_div_mod(d2 as int, p as int);
        assert(d == q2 * (2 * p)) by (nonlinear_arith)
            requires
                d == 2 * d2,
                d2 == p * q2,
        ;
        lemma_mod_multiples_basic(q2, (2 * p) as int);
    }
}

/// Two walk indices below the table size lead to different slots.
pub proof fn lemma_walk_injective(a: nat, b: nat, table_log: u32)
    requires
        4 <= table_log <= 16,
        a < pow2(table_log as nat),
        b < pow2(table_log as nat),
        a != b,
    ensures
        walk_pos(a, pow2(table_log as nat)) != walk_pos(b, pow2(table_log as nat)),
{
    let ts = pow2(table_log as nat);
    let step = spec_tablestep(ts);
    lemma_step_odd(table_log);
    lemma_pow2_pos(table_log as nat);
    if walk_pos(a, ts) == walk_pos(b, ts) {
        let (lo, hi) = if a < b { (a, b) } else { (b, a) };
        lemma_mod_equivalence((hi * step) as int, (lo * step) as int, ts as int);
        assert((hi - lo) * step == hi * step - lo * step) by (nonlinear_arith);
        lemma_odd_factor((hi - lo) as nat, step, table_log as nat);
        lemma_small_mod((hi - lo) as nat, ts);
    }
}

/// Every slot is reached by a walk index below the table size.
pub proof fn lemma_walk_onto(table_log: u32, p: nat) -> (k: nat)
    requires
        4 <= table_log <= 16,
        p < pow2(table_log as nat),
    ensures
        k < pow2(table_log as nat),
        walk_pos(k, pow2(table_log as nat)) == p,
{
    let ts = pow2(table_log as nat);
    lemma_pow2_pos(table_log as nat);
    let dom = set_int_range(0, ts as int);
    let f = |k: int| walk_pos(k as nat, ts) as int;
    lemma_int_range(0, ts as int);
    assert(injective_on(f, dom)) by {
        assert forall|a: int, b: int|
            dom.contains(a) && dom.contains(b) && #[trigger] f(a) == #[trigger] f(b) implies a
            == b by {
            if a != b {
                lemma_walk_injective(a as nat, b as nat, table_log);
            }
        }
    }
    let img = dom.map(f);
    lemma_map_size(dom, img, f);
    assert(img.subset_of(dom)) by {
        assert forall|y: int| img.contains(y) implies dom.contains(y) by {
            let x = choose|x: int| dom.contains(x) && y == f(x);
            lemma_mod_bound((x as nat * spec_tablestep(ts)) as int, ts as int);
        }
    }
    lemma_subset_equality(img, dom);
    assert(dom.contains(p as int));
    assert(img.contains(p as int));
    let k = choose|k: int| dom.contains(k) && p as int == f(k);
    k as nat
}

/// Number of entries equal to `x` among the first `n` of `marks`.
pub open spec fn count_of(marks: Seq<int>, x: int, n: nat) -> nat
    decreases n,
{
    if n == 0 {
        0
    } else {
        count_of(marks, x, (n - 1) as nat) + if marks[n - 1] == x { 1nat } else { 0nat }
    }
}

pub proof fn lemma_count_update(marks: Seq<int>, p: int, v: int, x: int, n: nat)
    requires
        0 <= p < marks.len(),
        n <= marks.len(),
    ensures
        count_of(marks.update(p, v), x, n) == count_of(marks, x, n) - (if p < n && marks[p] == x {
            1int
        } else {
            0int
        }) + (if p < n && v == x { 1int } else { 0int }),
    decreases n,
{
    if n > 0 {
        lemma_count_update(marks, p, v, x, (n - 1) as nat);
    }
}

pub proof fn lemma_count_witness(marks: Seq<int>, x: int, n: nat) -> (p: int)
    requires
        count_of(marks, x, n) > 0,
    ensures
        0 <= p < n,
        marks[p] == x,
    decreases n,
{
    if marks[n - 1] == x {
        n - 1
    } else {
        lemma_count_witness(marks, x, (n - 1) as nat)
    }
}

pub proof fn lemma_count_none(marks: Seq<int>, x: int, n: nat)
    requires
        count_of(marks, x, n) == 0,
    ensures
        forall|p: int| 0 <= p < n ==> marks[p] != x,
    decreases n,
{
    if n > 0 {
        lemma_count_none(marks, x, (n - 1) as nat);
    }
}

pub proof fn lemma_count_fresh(marks: Seq<int>, x: int, n: nat)
    requires
        forall|p: int| 0 <= p < n ==> marks[p] != x,
    ensures
        count_of(marks, x, n) == 0,
    decreases n,
{
    if n > 0 {
        lemma_count_fresh(marks, x, (n - 1) as nat);
    }
}

pub proof fn lemma_count_all(marks: Seq<int>, x: int, n: nat)
    requires
        forall|p: int| 0 <= p < n ==> marks[p] == x,
    ensures
        count_of(marks, x, n) == n,
    decreases n,
{
    if n > 0 {
        lemma_count_all(marks, x, (n - 1) as nat);
    }
}

/// Number of slots among the first `n` that hold symbol `x`.
pub open spec fn occurrences(table: Seq<u8>, x: u8, n: nat) -> nat
    decreases n,
{
    if n == 0 {
        0
    } else {
        occurrences(table, x, (n - 1) as nat) + if table[n - 1] == x { 1nat } else { 0nat }
    }
}

pub proof fn lemma_occurrences_monotone(table: Seq<u8>, x: u8, a: nat, b: nat)
    requires
        a <= b,
    ensures
        occurrences(table, x, a) <= occurrences(table, x, b),
    decreases b,
{
    if a < b {
        lemma_occurrences_monotone(table, x, a, (b - 1) as nat);
    }
}

proof fn lemma_occurrences_as_count(table: Seq<u8>, marks: Seq<int>, x: u8, n: nat)
    requires
        n <= table.len(),
        n <= marks.len(),
        forall|p: int| 0 <= p < n ==> marks[p] == table[p],
    ensures
        occurrences(table, x, n) == count_of(marks, x as int, n),
    decreases n,
{
    if n > 0 {
        lemma_occurrences_as_count(table, marks, x, (n - 1) as nat);
    }
}

/// Where `walk_skip` stops when a slot below `free` lies ahead.
pub proof fn lemma_skip_finds(a: nat, target: nat, table_size: nat, free: nat)
    requires
        1 <= a <= target < table_size,
        walk_pos(target, table_size) < free,
    ensures
        a <= walk_skip(a, table_size, free) <= target,
        walk_pos(walk_skip(a, table_size, free), table_size) < free,
        forall|i: nat|
            a <= i < walk_skip(a, table_size, free) ==> walk_pos(i, table_size) >= free,
    decreases target - a,
{
    if walk_pos(a, table_size) < free {
    } else {
        lemma_skip_finds(a + 1, target, table_size, free);
    }
}

pub proof fn lemma_skip_stays(a: nat, table_size: nat, free: nat)
    requires
        a < table_size,
    ensures
        walk_skip(a, table_size, free) < table_size,
    decreases (if a == 0 { 0 } else { table_size - a }),
{
    if a == 0 || walk_pos(a, table_size) < free {
    } else {
        lemma_skip_stays(walk_succ(a, table_size), table_size, free);
    }
}

/// Copies of a symbol that the walk places (rare symbols are placed apart).
pub open spec fn copies_of(count: i16) -> nat {
    if count > 0 {
        count as nat
    } else {
        0
    }
}

/// Slots that symbol `x` holds once the rare symbols, every symbol below
/// `s`, and `r` copies of `s` have been placed.
pub open spec fn placed(norm: Seq<i16>, x: int, s: nat, r: nat) -> nat {
    if norm[x] == -1 {
        1
    } else if x < s {
        copies_of(norm[x])
    } else if x == s {
        r
    } else {
        0
    }
}

/// What holds of the slot table `state.0` and the walk index `state.1` at
/// each point of the spread; `marks` records which symbol each slot has
/// received, `-1` for none yet.
pub open spec fn spread_inv(
    norm: Seq<i16>,
    table_log: u32,
    max_symbol_value: u32,
    s: nat,
    r: nat,
    state: (Seq<u8>, nat),
    marks: Seq<int>,
) -> bool {
    let ts = pow2(table_log as nat);
    let symbols = (max_symbol_value + 1) as nat;
    let free = ts - rare_before(norm, symbols);
    let done = slots_before(norm, s) - rare_before(norm, s) + r;
    let (table, k) = state;
    &&& table.len() == ts
    &&& marks.len() == ts
    &&& k < ts
    &&& 0 <= done <= free
    &&& forall|p: int| 0 <= p < ts ==> -1 <= #[trigger] marks[p] <= max_symbol_value
    &&& forall|p: int| 0 <= p < ts && marks[p] >= 0 ==> #[trigger] table[p] == marks[p]
    &&& forall|p: int| free <= p < ts ==> #[trigger] marks[p] >= 0
    &&& forall|x: int|
        0 <= x <= max_symbol_value ==> #[trigger] count_of(marks, x, ts) == placed(norm, x, s, r)
    &&& count_of(marks, -1, ts) == free - done
    &&& done < free ==> {
        &&& walk_pos(k, ts) < free
        &&& forall|i: nat|
            i < ts && walk_pos(i, ts) < free ==> (#[trigger] marks[walk_pos(i, ts) as int] >= 0
                <==> i < k)
    }
}

proof fn lemma_rare_invariant(norm: Seq<i16>, table_log: u32, max_symbol_value: u32, n: nat) -> (marks:
    Seq<int>)
    requires
        valid_distribution(norm, table_log, max_symbol_value),
        n <= max_symbol_value + 1,
    ensures
        ({
            let ts = pow2(table_log as nat);
            let table = rare_table(norm, ts, n);
            let free = ts - rare_before(norm, n);
            &&& table.len() == ts
            &&& marks.len() == ts
            &&& 0 <= free
            &&& forall|p: int| 0 <= p < ts ==> -1 <= #[trigger] marks[p] <= max_symbol_value
            &&& forall|p: int| 0 <= p < ts && marks[p] >= 0 ==> #[trigger] table[p] == marks[p]
            &&& forall|p: int| 0 <= p < ts ==> (#[trigger] marks[p] >= 0 <==> free <= p)
            &&& forall|x: int|
                0 <= x <= max_symbol_value ==> #[trigger] count_of(marks, x, ts) == (if x < n
                    && norm[x] == -1 {
                    1nat
                } else {
                    0nat
                })
            &&& count_of(marks, -1, ts) == free
        }),
    decreases n,
{
    let ts = pow2(table_log as nat);
    lemma_pow2_pos(table_log as nat);
    if n == 0 {
        let marks = Seq::new(ts, |i: int| -1int);
        lemma_count_all(marks, -1, ts);
        assert forall|x: int| 0 <= x <= max_symbol_value implies #[trigger] count_of(marks, x, ts)
            == 0 by {
            lemma_count_fresh(marks, x, ts);
        }
        marks
    } else {
        let prev = lemma_rare_invariant(norm, table_log, max_symbol_value, (n - 1) as nat);
        lemma_slots_monotone(norm, (n - 1) as nat, n);
        lemma_slots_monotone(norm, n, (max_symbol_value + 1) as nat);
        if norm[n - 1] == -1 {
            let taken = rare_before(norm, (n - 1) as nat);
            let at = ts - 1 - taken;
            let marks = prev.update(at, n - 1);
            assert forall|x: int| 0 <= x <= max_symbol_value implies #[trigger] count_of(
                marks,
                x,
                ts,
            ) == (if x < n && norm[x] == -1 {
                1nat
            } else {
                0nat
            }) by {
                lemma_count_update(prev, at, n - 1, x, ts);
                assert(count_of(prev, x, ts) == (if x < n - 1 && norm[x] == -1 {
                    1nat
                } else {
                    0nat
                }));
            }
            lemma_count_update(prev, at, n - 1, -1, ts);
            marks
        } else {
            assert forall|x: int| 0 <= x <= max_symbol_value implies #[trigger] count_of(
                prev,
                x,
                ts,
            ) == (if x < n && norm[x] == -1 {
                1nat
            } else {
                0nat
            }) by {
                assert(count_of(prev, x, ts) == (if x < n - 1 && norm[x] == -1 {
                    1nat
                } else {
                    0nat
                }));
            }
            prev
        }
    }
}

proof fn lemma_spread_invariant(
    norm: Seq<i16>,
    table_log: u32,
    max_symbol_value: u32,
    s: nat,
    r: nat,
) -> (marks: Seq<int>)
    requires
        valid_distribution(norm, table_log, max_symbol_value),
        s <= max_symbol_value + 1,
        s <= max_symbol_value ==> r <= copies_of(norm[s as int]),
        s == max_symbol_value + 1 ==> r == 0,
    ensures
        spread_inv(
            norm,
            table_log,
            max_symbol_value,
            s,
            r,
            spread_state(
                norm,
                pow2(table_log as nat),
                (max_symbol_value + 1) as nat,
                s,
                r,
            ),
            marks,
        ),
    decreases s, r,
{
    let ts = pow2(table_log as nat);
    let symbols = (max_symbol_value + 1) as nat;
    let free = ts - rare_before(norm, symbols);
    lemma_table_size(table_log);
    lemma_slots_monotone(norm, s, symbols);
    if r > 0 {
        let marks = lemma_spread_invariant(norm, table_log, max_symbol_value, s, (r - 1) as nat);
        let (table, k) = spread_state(norm, ts, symbols, s, (r - 1) as nat);
        let done = slots_before(norm, s) - rare_before(norm, s) + r;
        lemma_slots_monotone(norm, s, s + 1);
        lemma_slots_monotone(norm, s + 1, symbols);
        assert(done <= free);
        let at = walk_pos(k, ts) as int;
        assert(marks[walk_pos(k, ts) as int] == -1);
        let next = marks.update(at, s as int);
        let k2 = walk_skip(walk_succ(k, ts), ts, free as nat);
        lemma_skip_stays(walk_succ(k, ts), ts, free as nat);
        assert forall|x: int| 0 <= x <= max_symbol_value implies #[trigger] count_of(next, x, ts)
            == placed(norm, x, s, r) by {
            lemma_count_update(marks, at, s as int, x, ts);
            assert(count_of(marks, x, ts) == placed(norm, x, s, (r - 1) as nat));
        }
        lemma_count_update(marks, at, s as int, -1, ts);
        if done < free {
            let p = lemma_count_witness(next, -1, ts);
            assert(p < free);
            assert(p != at);
            let target = lemma_walk_onto(table_log, p as nat);
            assert(marks[walk_pos(target, ts) as int] == -1);
            assert(target > k);
            lemma_skip_finds(k + 1, target, ts, free as nat);
            assert forall|i: nat| i < ts && walk_pos(i, ts) < free implies (#[trigger] next[walk_pos(
                i,
                ts,
            ) as int] >= 0 <==> i < k2) by {
                if i != k {
                    lemma_walk_injective(i, k, table_log);
                    assert(marks[walk_pos(i, ts) as int] >= 0 <==> i < k);
                }
            }
        }
        next
    } else if s > 0 {
        let copies = copies_of(norm[s - 1]);
        let marks = lemma_spread_invariant(
            norm,
            table_log,
            max_symbol_value,
            (s - 1) as nat,
            copies,
        );
        assert forall|x: int| 0 <= x <= max_symbol_value implies #[trigger] count_of(marks, x, ts)
            == placed(norm, x, s, 0) by {
            assert(count_of(marks, x, ts) == placed(norm, x, (s - 1) as nat, copies));
        }
        marks
    } else {
        let marks = lemma_rare_invariant(norm, table_log, max_symbol_value, symbols);
        lemma_small_mod(0, ts);
        assert(0 * spec_tablestep(ts) == 0);
        assert forall|x: int| 0 <= x <= max_symbol_value implies #[trigger] count_of(marks, x, ts)
            == placed(norm, x, 0, 0) by {
            assert(count_of(marks, x, ts) == (if x < symbols && norm[x] == -1 {
                1nat
            } else {
                0nat
            }));
        }
        marks
    }
}

/// In the spread table every symbol holds exactly the slots that its
/// normalized count gives it, and no slot holds a symbol above the largest.
pub proof fn lemma_spread_counts(norm: Seq<i16>, table_log: u32, max_symbol_value: u32)
    requires
        valid_distribution(norm, table_log, max_symbol_value),
    ensures
        spread_table(norm, table_log, max_symbol_value).len() == pow2(table_log as nat),
        forall|p: int|
            0 <= p < pow2(table_log as nat) ==> #[trigger] spread_table(
                norm,
                table_log,
                max_symbol_value,
            )[p] <= max_symbol_value,
        forall|s: int|
            0 <= s <= max_symbol_value ==> #[trigger] occurrences(
                spread_table(norm, table_log, max_symbol_value),
                s as u8,
                pow2(table_log as nat),
            ) == slots_of(norm[s]),
{
    let ts = pow2(table_log as nat);
    let symbols = (max_symbol_value + 1) as nat;
    let table = spread_table(norm, table_log, max_symbol_value);
    let marks = lemma_spread_invariant(norm, table_log, max_symbol_value, symbols, 0);
    lemma_count_none(marks, -1, ts);
    assert forall|s: int| 0 <= s <= max_symbol_value implies #[trigger] occurrences(
        table,
        s as u8,
        ts,
    ) == slots_of(norm[s]) by {
        lemma_occurrences_as_count(table, marks, s as u8, ts);
        assert(count_of(marks, s, ts) == placed(norm, s, symbols, 0));
    }
}

} // verus!
