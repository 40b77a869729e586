//! Symbol counts and their normalization to a power of two.

use vstd::prelude::*;
use vstd::arithmetic::power2::{pow2, lemma_pow2_pos, lemma2_to64, lemma_pow2_strictly_increases, lemma_pow2_adds};
use crate::{CountsTable, NormCountsTable};
use crate::spread::occurrences;
use crate::table::{slots_of, slots_before};

verus! {

/// The count that a counter reports for a symbol that occurs `n` times.
pub open spec fn saturated(n: nat) -> u32 {
    if n > u32::MAX {
        u32::MAX
    } else {
        n as u32
    }
}

/// `counts` holds, for every byte value, how often it occurs in `input`.
pub open spec fn counts_of(counts: Seq<u32>, input: Seq<u8>) -> bool {
    &&& counts.len() == 256
    &&& forall|s: int|
        0 <= s < 256 ==> #[trigger] counts[s] == saturated(
            occurrences(input, s as u8, input.len()),
        )
}

/// The highest symbol that occurs.
pub fn get_max_symbol_value(counts: &CountsTable) -> (max_symbol_value: u32)
    requires
        exists|s: int| 0 <= s < 256 && counts@[s] != 0,
    ensures
        max_symbol_value <= 255,
        counts@[max_symbol_value as int] != 0,
        forall|s: int| max_symbol_value < s < 256 ==> counts@[s] == 0,
{
    let mut max_symbol_value: u32 = crate::MAX_SYMBOL_VALUE;
    while counts[max_symbol_value as usize] == 0
        invariant
            max_symbol_value <= 255,
            exists|s: int| 0 <= s < 256 && counts@[s] != 0,
            forall|s: int| max_symbol_value < s < 256 ==> counts@[s] == 0,
        decreases max_symbol_value,
    {
        max_symbol_value -= 1;
    }
    max_symbol_value
}

/// Counts the occurrences of each byte value, one byte at a time.
pub fn count_simple(input: &[u8]) -> (counts: CountsTable)
    ensures
        counts_of(counts@, input@),
{
    let mut counts = [0u32; 256];
    let mut i: usize = 0;
    while i < input.len()
        invariant
            i <= input@.len(),
            forall|s: int|
                0 <= s < 256 ==> #[trigger] counts@[s] == saturated(
                    occurrences(input@, s as u8, i as nat),
                ),
        decreases input@.len() - i,
    {
        let byte = input[i];
        counts[byte as usize] = counts[byte as usize].saturating_add(1);
        i += 1;
    }
    counts
}

/// Counts the occurrences of each byte value with four tables that take
/// turns, eight bytes at a time, and adds the tables up.
pub fn count_multi(input: &[u8]) -> (counts: CountsTable)
    ensures
        counts_of(counts@, input@),
{
    let mut counts1 = [0u32; 256];
    let mut counts2 = [0u32; 256];
    let mut counts3 = [0u32; 256];
    let mut counts4 = [0u32; 256];
    let len = input.len();
    let mut i: usize = 0;
    while len - i >= 8
        invariant
            i <= len,
            len == input@.len(),
            lanes_hold(counts1@, counts2@, counts3@, counts4@, input@, i as nat),
        decreases len - i,
    {
        let ghost (a, b, c, d) = (counts1@, counts2@, counts3@, counts4@);
        counts1[input[i] as usize] = counts1[input[i] as usize].saturating_add(1);
        proof {
            lemma_lane_step(a, b, c, d, counts1@, counts2@, counts3@, counts4@, input@, (i + 0) as nat);
        }
        let ghost (a, b, c, d) = (counts1@, counts2@, counts3@, counts4@);
        counts2[input[i + 1] as usize] = counts2[input[i + 1] as usize].saturating_add(1);
        proof {
            lemma_lane_step(a, b, c, d, counts1@, counts2@, counts3@, counts4@, input@, (i + 1) as nat);
        }
        let ghost (a, b, c, d) = (counts1@, counts2@, counts3@, counts4@);
        counts3[input[i + 2] as usize] = counts3[input[i + 2] as usize].saturating_add(1);
        proof {
            lemma_lane_step(a, b, c, d, counts1@, counts2@, counts3@, counts4@, input@, (i + 2) as nat);
        }
        let ghost (a, b, c, d) = (counts1@, counts2@, counts3@, counts4@);
        counts4[input[i + 3] as usize] = counts4[input[i + 3] as usize].saturating_add(1);
        proof {
            lemma_lane_step(a, b, c, d, counts1@, counts2@, counts3@, counts4@, input@, (i + 3) as nat);
        }
        let ghost (a, b, c, d) = (counts1@, counts2@, counts3@, counts4@);
        counts1[input[i + 4] as usize] = counts1[input[i + 4] as usize].saturating_add(1);
        proof {
            lemma_lane_step(a, b, c, d, counts1@, counts2@, counts3@, counts4@, input@, (i + 4) as nat);
        }
        let ghost (a, b, c, d) = (counts1@, counts2@, counts3@, counts4@);
        counts2[input[i + 5] as usize] = counts2[input[i + 5] as usize].saturating_add(1);
        proof {
            lemma_lane_step(a, b, c, d, counts1@, counts2@, counts3@, counts4@, input@, (i + 5) as nat);
        }
        let ghost (a, b, c, d) = (counts1@, counts2@, counts3@, counts4@);
        counts3[input[i + 6] as usize] = counts3[input[i + 6] as usize].saturating_add(1);
        proof {
            lemma_lane_step(a, b, c, d, counts1@, counts2@, counts3@, counts4@, input@, (i + 6) as nat);
        }
        let ghost (a, b, c, d) = (counts1@, counts2@, counts3@, counts4@);
        counts4[input[i + 7] as usize] = counts4[input[i + 7] as usize].saturating_add(1);
        proof {
            lemma_lane_step(a, b, c, d, counts1@, counts2@, counts3@, counts4@, input@, (i + 7) as nat);
        }
        i += 8;
    }
    while i < len
        invariant
            i <= len,
            len == input@.len(),
            lanes_hold(counts1@, counts2@, counts3@, counts4@, input@, i as nat),
        decreases len - i,
    {
        let ghost (a, b, c, d) = (counts1@, counts2@, counts3@, counts4@);
        counts1[input[i] as usize] = counts1[input[i] as usize].saturating_add(1);
        proof {
            lemma_lane_step(a, b, c, d, counts1@, counts2@, counts3@, counts4@, input@, (i + 0) as nat);
        }
        i += 1;
    }
    let ghost first = counts1@;
    let mut s: usize = 0;
    while s < 256
        invariant
            s <= 256,
            len == input@.len(),
            lanes_hold(first, counts2@, counts3@, counts4@, input@, len as nat),
            forall|x: int| s <= x < 256 ==> counts1@[x] == first[x],
            forall|x: int|
                0 <= x < s ==> #[trigger] counts1@[x] == saturated(
                    occurrences(input@, x as u8, len as nat),
                ),
        decreases 256 - s,
    {
        assert(lane_exact(first, counts2@, counts3@, counts4@, input@, len as nat, s as int));
        counts1[s] = counts1[s].saturating_add(counts2[s]).saturating_add(
            counts3[s],
        ).saturating_add(counts4[s]);
        s += 1;
    }
    counts1
}

/// One more byte, counted in one of the four tables, keeps the tables in
/// step with the input.
proof fn lemma_lane_step(
    a: Seq<u32>,
    b: Seq<u32>,
    c: Seq<u32>,
    d: Seq<u32>,
    a2: Seq<u32>,
    b2: Seq<u32>,
    c2: Seq<u32>,
    d2: Seq<u32>,
    input: Seq<u8>,
    n: nat,
)
    requires
        lanes_hold(a, b, c, d, input, n),
        n < input.len(),
        a2.len() == 256 && b2.len() == 256 && c2.len() == 256 && d2.len() == 256,
        forall|s: int|
            0 <= s < 256 && s != input[n as int] ==> a2[s] == a[s] && b2[s] == b[s] && c2[s]
                == c[s] && d2[s] == d[s],
        ({
            let x = input[n as int] as int;
            let bumped = |old: u32, new: u32| new == (if old == u32::MAX { old } else { (old + 1) as u32 });
            ||| (bumped(a[x], a2[x]) && b2[x] == b[x] && c2[x] == c[x] && d2[x] == d[x])
            ||| (a2[x] == a[x] && bumped(b[x], b2[x]) && c2[x] == c[x] && d2[x] == d[x])
            ||| (a2[x] == a[x] && b2[x] == b[x] && bumped(c[x], c2[x]) && d2[x] == d[x])
            ||| (a2[x] == a[x] && b2[x] == b[x] && c2[x] == c[x] && bumped(d[x], d2[x]))
        }),
    ensures
        lanes_hold(a2, b2, c2, d2, input, n + 1),
{
    assert forall|s: int| 0 <= s < 256 implies #[trigger] lane_exact(
        a2,
        b2,
        c2,
        d2,
        input,
        n + 1,
        s,
    ) by {
        assert(lane_exact(a, b, c, d, input, n, s));
    }
}

/// Sum of the four tables at `s`.
pub open spec fn lane_sum(a: Seq<u32>, b: Seq<u32>, c: Seq<u32>, d: Seq<u32>, s: int) -> int {
    a[s] + b[s] + c[s] + d[s]
}

/// One of the four tables has reached the highest count at `s`.
pub open spec fn lane_full(a: Seq<u32>, b: Seq<u32>, c: Seq<u32>, d: Seq<u32>, s: int) -> bool {
    a[s] == u32::MAX || b[s] == u32::MAX || c[s] == u32::MAX || d[s] == u32::MAX
}

/// At `s` the four tables add up to the occurrences among the first `n`
/// bytes, unless one of them is full, and never to more.
pub open spec fn lane_exact(
    a: Seq<u32>,
    b: Seq<u32>,
    c: Seq<u32>,
    d: Seq<u32>,
    input: Seq<u8>,
    n: nat,
    s: int,
) -> bool {
    &&& lane_sum(a, b, c, d, s) <= occurrences(input, s as u8, n)
    &&& lane_sum(a, b, c, d, s) >= occurrences(input, s as u8, n) || lane_full(a, b, c, d, s)
}

/// The four tables account for the first `n` bytes.
pub open spec fn lanes_hold(
    a: Seq<u32>,
    b: Seq<u32>,
    c: Seq<u32>,
    d: Seq<u32>,
    input: Seq<u8>,
    n: nat,
) -> bool {
    &&& a.len() == 256 && b.len() == 256 && c.len() == 256 && d.len() == 256
    &&& forall|s: int| 0 <= s < 256 ==> #[trigger] lane_exact(a, b, c, d, input, n, s)
}

/// Remainder that a probability below 8 has to beat to be rounded up, in
/// units of `2^-20`.
pub open spec fn spec_rest_to_beat(proba: int) -> nat {
    if proba == 0 {
        0
    } else if proba == 1 {
        473195
    } else if proba == 2 {
        504333
    } else if proba == 3 {
        520860
    } else if proba == 4 {
        550000
    } else if proba == 5 {
        700000
    } else if proba == 6 {
        750000
    } else {
        830000
    }
}

/// Remainder that a probability below 8 has to beat to be rounded up.
pub fn rest_to_beat(proba: i16) -> (rest: u32)
    requires
        0 <= proba < 8,
    ensures
        rest == spec_rest_to_beat(proba as int),
{
    if proba == 0 {
        0
    } else if proba == 1 {
        473195
    } else if proba == 2 {
        504333
    } else if proba == 3 {
        520860
    } else if proba == 4 {
        550000
    } else if proba == 5 {
        700000
    } else if proba == 6 {
        750000
    } else {
        830000
    }
}

/// Share of `count` in `total`, scaled to `2^table_log` and cut off; a
/// share below 8 is rounded up where the part cut off beats the threshold
/// of that share.
pub open spec fn spec_proba(count: nat, table_log: u32, total: nat) -> int {
    let scaled = count * (pow2(62) / total);
    let unit = pow2((62 - table_log) as nat);
    let proba = (scaled / unit) as int;
    if proba < 8 && scaled - proba * unit > pow2((42 - table_log) as nat) * spec_rest_to_beat(
        proba,
    ) {
        proba + 1
    } else {
        proba
    }
}

/// What a symbol gets before the rest is handed out: nothing where it does
/// not occur, the mark `-1` where it occurs less than once in
/// `2^table_log`, else its share.
pub open spec fn first_norm(count: u32, table_log: u32, total: nat) -> int {
    if count == 0 {
        0
    } else if count < total / pow2(table_log as nat) {
        -1
    } else {
        spec_proba(count as nat, table_log, total)
    }
}

/// The largest share among the first `n` symbols and the first symbol that
/// has it; `(0, 0)` where no symbol has a share.
pub open spec fn largest_upto(counts: Seq<u32>, table_log: u32, total: nat, n: nat) -> (int, int)
    decreases n,
{
    if n == 0 {
        (0, 0)
    } else {
        let (share, symbol) = largest_upto(counts, table_log, total, (n - 1) as nat);
        let here = first_norm(counts[n - 1], table_log, total);
        if here > share {
            (here, n - 1)
        } else {
            (share, symbol)
        }
    }
}

/// Slots that the first `n` symbols take before the rest is handed out.
pub open spec fn first_slots(counts: Seq<u32>, table_log: u32, total: nat, n: nat) -> int
    decreases n,
{
    if n == 0 {
        0
    } else {
        let here = first_norm(counts[n - 1], table_log, total);
        first_slots(counts, table_log, total, (n - 1) as nat) + (if here < 0 { 1 } else { here })
    }
}

/// The normalized counts: the symbol with the largest share takes what is
/// left of the `2^table_log` slots, or gives back what was handed out too
/// much. There is none where that would cost it half of its share or more.
pub open spec fn spec_normalized(
    counts: Seq<u32>,
    table_log: u32,
    total: nat,
    max_symbol_value: u32,
) -> Option<Seq<i16>> {
    let n = (max_symbol_value + 1) as nat;
    let largest = largest_upto(counts, table_log, total, n).1;
    let left = pow2(table_log as nat) - first_slots(counts, table_log, total, n);
    let share = first_norm(counts[largest], table_log, total);
    if -left >= share / 2 {
        None
    } else {
        Some(
            Seq::new(
                256,
                |s: int|
                    if s > max_symbol_value {
                        0i16
                    } else if s == largest {
                        (share + left) as i16
                    } else {
                        first_norm(counts[s], table_log, total) as i16
                    },
            ),
        )
    }
}

/// Counts that can be normalized: a table of at most `2^14` slots, a total
/// between 1 and `u32::MAX`, and no symbol that makes up the whole input.
pub open spec fn normalizable(
    counts: Seq<u32>,
    table_log: u32,
    total: nat,
    max_symbol_value: u32,
) -> bool {
    &&& counts.len() == 256
    &&& table_log <= 14
    &&& 1 <= total <= u32::MAX
    &&& max_symbol_value <= 255
    &&& forall|s: int| 0 <= s <= max_symbol_value ==> #[trigger] counts[s] < total
}

pub proof fn lemma_first_norm_bounds(count: u32, table_log: u32, total: nat)
    requires
        table_log <= 14,
        1 <= total <= u32::MAX,
        count < total,
    ensures
        -1 <= first_norm(count, table_log, total) <= pow2(table_log as nat),
        first_norm(count, table_log, total) <= 16384,
        count as nat * (pow2(62) / total) < pow2(62),
        (count as nat * (pow2(62) / total)) / pow2((62 - table_log) as nat) < pow2(
            table_log as nat,
        ),
        pow2(table_log as nat) <= 16384,
{
    lemma2_to64();
    vstd::arithmetic::power2::lemma2_to64_rest();
    if table_log < 14 {
        lemma_pow2_strictly_increases(table_log as nat, 14);
    }
    let step = pow2(62) / total;
    let unit = pow2((62 - table_log) as nat);
    lemma_pow2_pos((62 - table_log) as nat);
    lemma_pow2_adds((62 - table_log) as nat, table_log as nat);
    vstd::arithmetic::div_mod::lemma_fundamental_div_mod(pow2(62) as int, total as int);
    vstd::arithmetic::div_mod::lemma_div_non_zero(pow2(62) as int, total as int);
    let scaled = count as nat * step;
    assert(scaled < pow2(62)) by (nonlinear_arith)
        requires
            scaled == count as nat * step,
            count < total,
            total * step <= pow2(62),
            step >= 1,
    {
        assert(step >= 1);
    }
    vstd::arithmetic::div_mod::lemma_multiply_divide_lt(
        scaled as int,
        unit as int,
        pow2(table_log as nat) as int,
    );
}

pub proof fn lemma_first_norm_floor(count: u32, table_log: u32, total: nat)
    ensures
        first_norm(count, table_log, total) >= -1,
{
    let scaled = count as nat * (pow2(62) / total);
    let unit = pow2((62 - table_log) as nat);
    lemma_pow2_pos((62 - table_log) as nat);
    assert(scaled >= 0);
    vstd::arithmetic::div_mod::lemma_div_pos_is_pos(scaled as int, unit as int);
}

pub proof fn lemma_largest(counts: Seq<u32>, table_log: u32, total: nat, n: nat)
    ensures
        ({
            let (share, symbol) = largest_upto(counts, table_log, total, n);
            &&& share >= 0
            &&& 0 <= symbol
            &&& n > 0 ==> symbol < n
            &&& share > 0 ==> symbol < n && first_norm(counts[symbol], table_log, total) == share
            &&& forall|s: int|
                0 <= s < n ==> first_norm(#[trigger] counts[s], table_log, total) <= share
        }),
    decreases n,
{
    if n > 0 {
        lemma_largest(counts, table_log, total, (n - 1) as nat);
    }
}

/// Slots of a distribution in which one symbol's count has been changed.
pub proof fn lemma_slots_update(norm: Seq<i16>, at: int, value: i16, n: nat)
    requires
        0 <= at < norm.len(),
        n <= norm.len(),
    ensures
        slots_before(norm.update(at, value), n) == slots_before(norm, n) + (if at < n {
            slots_of(value) - slots_of(norm[at])
        } else {
            0
        }),
    decreases n,
{
    if n > 0 {
        lemma_slots_update(norm, at, value, (n - 1) as nat);
    }
}

/// Slots of the distribution that the first pass leaves.
pub proof fn lemma_first_slots(
    norm: Seq<i16>,
    counts: Seq<u32>,
    table_log: u32,
    total: nat,
    n: nat,
)
    requires
        n <= norm.len(),
        n <= counts.len(),
        forall|s: int| 0 <= s < n ==> #[trigger] norm[s] == first_norm(counts[s], table_log, total),
    ensures
        slots_before(norm, n) == first_slots(counts, table_log, total, n),
    decreases n,
{
    if n > 0 {
        lemma_first_slots(norm, counts, table_log, total, (n - 1) as nat);
        let here = first_norm(counts[n - 1], table_log, total);
        assert(norm[n - 1] == here);
        lemma_first_norm_floor(counts[n - 1], table_log, total);
    }
}

/// Normalizes the counts, where the way of handing out the rest allows it.
///
/// Where a symbol has a share, that is where some symbol occurs at least
/// once in `2^table_log`, the result is a distribution over exactly
/// `2^table_log` slots.
pub fn try_normalized_counts(
    counts: &CountsTable,
    table_log: u32,
    src_size: usize,
    max_symbol_value: u32,
) -> (result: Option<NormCountsTable>)
    requires
        normalizable(counts@, table_log, src_size as nat, max_symbol_value),
    ensures
        match result {
            Some(norm) => spec_normalized(counts@, table_log, src_size as nat, max_symbol_value)
                == Some(norm@),
            None => spec_normalized(counts@, table_log, src_size as nat, max_symbol_value)
                is None,
        },
        result is Some && largest_upto(
            counts@,
            table_log,
            src_size as nat,
            (max_symbol_value + 1) as nat,
        ).0 > 0 ==> slots_before(result->0@, (max_symbol_value + 1) as nat) == pow2(
            table_log as nat,
        ) && forall|s: int| 0 <= s < 256 ==> #[trigger] result->0@[s] >= -1,
        result is Some ==> forall|s: int|
            0 <= s <= max_symbol_value && counts@[s] != 0 ==> #[trigger] result->0@[s] != 0,
{
    let ghost total_nat = src_size as nat;
    let ghost symbols = (max_symbol_value + 1) as nat;
    let total: u64 = src_size as u64;
    let mut norm_counts = [0i16; 256];
    proof {
        lemma2_to64();
        vstd::arithmetic::power2::lemma2_to64_rest();
        vstd::bits::lemma_u64_shl_is_mul(1, 62);
        vstd::bits::lemma_u64_shl_is_mul(1, (42 - table_log) as u64);
        lemma_pow2_strictly_increases((42 - table_log) as nat, 43);
        vstd::bits::lemma_u64_shr_is_div(total, table_log as u64);
        if table_log < 14 {
            lemma_pow2_strictly_increases(table_log as nat, 14);
        }
        crate::table::lemma_table_size(table_log);
        lemma_pow2_pos(table_log as nat);
        vstd::arithmetic::div_mod::lemma_div_nonincreasing(
            total as int,
            pow2(table_log as nat) as int,
        );
    }
    let scale: u64 = 62 - table_log as u64;
    let step: u64 = (1u64 << 62) / total;
    let v_step: u64 = 1u64 << (scale - 20);
    let mut still_to_distribute: i32 = (1u32 << table_log) as i32;
    let mut largest: u32 = 0;
    let mut largest_p: i16 = 0;
    let low_threshold: u32 = (total >> table_log) as u32;
    let mut symbol: usize = 0;
    while symbol <= max_symbol_value as usize
        invariant
            normalizable(counts@, table_log, total_nat, max_symbol_value),
            total_nat == total,
            symbols == max_symbol_value + 1,
            symbol <= symbols,
            scale == 62 - table_log,
            step == pow2(62) / total_nat,
            v_step == pow2((42 - table_log) as nat),
            low_threshold == total_nat / pow2(table_log as nat),
            pow2(table_log as nat) <= 16384,
            forall|s: int|
                0 <= s < symbol ==> #[trigger] norm_counts@[s] == first_norm(
                    counts@[s],
                    table_log,
                    total_nat,
                ),
            forall|s: int| symbol <= s < 256 ==> #[trigger] norm_counts@[s] == 0,
            still_to_distribute == pow2(table_log as nat) - first_slots(
                counts@,
                table_log,
                total_nat,
                symbol as nat,
            ),
            -16384 * symbol <= still_to_distribute <= 16384,
            (largest_p as int, largest as int) == largest_upto(
                counts@,
                table_log,
                total_nat,
                symbol as nat,
            ),
            largest <= 255,
        decreases symbols - symbol,
    {
        let symbol_count: u32 = counts[symbol];
        proof {
            lemma2_to64();
            vstd::arithmetic::power2::lemma2_to64_rest();
            lemma_pow2_strictly_increases((42 - table_log) as nat, 43);
            lemma_pow2_pos(scale as nat);
            lemma_first_norm_bounds(symbol_count, table_log, total_nat);
            lemma_largest(counts@, table_log, total_nat, symbol as nat);
        }
        if symbol_count == 0 {
        } else if symbol_count < low_threshold {
            norm_counts[symbol] = -1;
            still_to_distribute -= 1;
        } else {
            let scaled: u64 = symbol_count as u64 * step;
            proof {
                vstd::bits::lemma_u64_shr_is_div(scaled, scale);
            }
            let mut proba: i16 = (scaled >> scale) as i16;
            if proba < 8 {
                proof {
                    vstd::arithmetic::div_mod::lemma_fundamental_div_mod(
                        scaled as int,
                        pow2(scale as nat) as int,
                    );
                    assert(proba as int * pow2(scale as nat) == pow2(scale as nat) * (proba as int))
                        by (nonlinear_arith);
                    vstd::bits::lemma_u64_shl_is_mul(proba as u64, scale);
                    assert(v_step * spec_rest_to_beat(proba as int) <= 8796093022208 * 830000)
                        by (nonlinear_arith)
                        requires
                            v_step <= 8796093022208,
                            spec_rest_to_beat(proba as int) <= 830000,
                    ;
                    assert(proba as int * pow2(scale as nat) == pow2(scale as nat) * (proba as int))
                        by (nonlinear_arith);
                }
                let rest_to_beat: u64 = v_step * rest_to_beat(proba) as u64;
                if scaled - ((proba as u64) << scale) > rest_to_beat {
                    proba += 1;
                }
            }
            assert(proba == first_norm(symbol_count, table_log, total_nat));
            if proba > largest_p {
                largest_p = proba;
                largest = symbol as u32;
            }
            norm_counts[symbol] = proba;
            still_to_distribute -= proba as i32;
        }
        symbol += 1;
    }
    let ghost first = norm_counts@;
    let at_largest: i32 = norm_counts[largest as usize] as i32;
    let half: i32 = if at_largest < 0 { -1 } else { at_largest / 2 };
    proof {
        lemma_largest(counts@, table_log, total_nat, symbols);
        lemma_first_norm_bounds(counts@[largest as int], table_log, total_nat);
        lemma_first_slots(first, counts@, table_log, total_nat, symbols);
        lemma_slots_update(first, largest as int, (at_largest + still_to_distribute) as i16, symbols);
        assert forall|s: int| 0 <= s <= max_symbol_value && counts@[s] != 0 implies #[trigger]
            first[s] != 0 by {
            lemma_proba_positive(counts@[s], table_log, total_nat);
        }
    }
    if -still_to_distribute >= half {
        None
    } else {
        norm_counts[largest as usize] = norm_counts[largest as usize] + still_to_distribute as i16;
        proof {
            assert(norm_counts@ =~= spec_normalized(
                counts@,
                table_log,
                total_nat,
                max_symbol_value,
            )->0);
        }
        Some(norm_counts)
    }
}

/// Normalizes the counts: the frequencies add up to `2^table_log`.
pub fn get_normalized_counts(
    counts: &CountsTable,
    table_log: u32,
    src_size: usize,
    max_symbol_value: u32,
) -> (norm: NormCountsTable)
    requires
        normalizable(counts@, table_log, src_size as nat, max_symbol_value),
        spec_normalized(counts@, table_log, src_size as nat, max_symbol_value) is Some,
    ensures
        Some(norm@) == spec_normalized(counts@, table_log, src_size as nat, max_symbol_value),
        largest_upto(counts@, table_log, src_size as nat, (max_symbol_value + 1) as nat).0 > 0
            ==> slots_before(norm@, (max_symbol_value + 1) as nat) == pow2(table_log as nat)
            && forall|s: int| 0 <= s < 256 ==> #[trigger] norm@[s] >= -1,
        forall|s: int| 0 <= s <= max_symbol_value && counts@[s] != 0 ==> #[trigger] norm@[s] != 0,
{
    match try_normalized_counts(counts, table_log, src_size, max_symbol_value) {
        Some(norm) => norm,
        None => [0i16; 256],
    }
}

/// Occurrences among the first `n` bytes of all byte values below `symbols`.
pub open spec fn counted(input: Seq<u8>, n: nat, symbols: nat) -> nat
    decreases symbols,
{
    if symbols == 0 {
        0
    } else {
        counted(input, n, (symbols - 1) as nat) + occurrences(input, (symbols - 1) as u8, n)
    }
}

proof fn lemma_counted_step(input: Seq<u8>, n: nat, symbols: nat)
    requires
        n < input.len(),
        symbols <= 256,
    ensures
        counted(input, n + 1, symbols) == counted(input, n, symbols) + (if input[n as int]
            < symbols {
            1nat
        } else {
            0nat
        }),
    decreases symbols,
{
    if symbols > 0 {
        lemma_counted_step(input, n, (symbols - 1) as nat);
    }
}

/// Every byte is counted once.
pub proof fn lemma_counted_all(input: Seq<u8>, n: nat)
    requires
        n <= input.len(),
    ensures
        counted(input, n, 256) == n,
    decreases n,
{
    if n > 0 {
        lemma_counted_all(input, (n - 1) as nat);
        lemma_counted_step(input, (n - 1) as nat, 256);
    } else {
        lemma_counted_none(input, 256);
    }
}

proof fn lemma_counted_none(input: Seq<u8>, symbols: nat)
    ensures
        counted(input, 0, symbols) == 0,
    decreases symbols,
{
    if symbols > 0 {
        lemma_counted_none(input, (symbols - 1) as nat);
    }
}

/// Symbols that occur at most `most` times each cannot make up more than
/// `most` times their number; symbols that do not occur add nothing.
pub proof fn lemma_counted_bound(input: Seq<u8>, n: nat, symbols: nat, top: nat, most: nat)
    requires
        symbols <= 256,
        forall|s: int| 0 <= s < 256 ==> #[trigger] occurrences(input, s as u8, n) <= most,
        forall|s: int| top < s < 256 ==> #[trigger] occurrences(input, s as u8, n) == 0,
    ensures
        counted(input, n, symbols) <= most * (if symbols <= top + 1 { symbols } else { top + 1 }),
    decreases symbols,
{
    if symbols > 0 {
        lemma_counted_bound(input, n, (symbols - 1) as nat, top, most);
        let s = (symbols - 1) as int;
        assert(occurrences(input, s as u8, n) <= most);
        if s > top {
            assert(occurrences(input, s as u8, n) == 0);
        } else {
            assert(most * symbols == most * (symbols - 1) + most) by (nonlinear_arith);
        }
    } else {
        assert(most * 0 == 0);
    }
}

/// A symbol that occurs, and is not rare, has a share of at least one slot.
pub proof fn lemma_proba_positive(count: u32, table_log: u32, total: nat)
    requires
        count >= 1,
        1 <= total <= u32::MAX,
        table_log <= 14,
    ensures
        spec_proba(count as nat, table_log, total) >= 1,
{
    lemma2_to64();
    vstd::arithmetic::power2::lemma2_to64_rest();
    let step = pow2(62) / total;
    vstd::arithmetic::div_mod::lemma_div_non_zero(pow2(62) as int, total as int);
    let scaled = count as nat * step;
    assert(scaled >= 1) by (nonlinear_arith)
        requires
            scaled == count as nat * step,
            count >= 1,
            step >= 1,
    ;
    let unit = pow2((62 - table_log) as nat);
    lemma_pow2_pos((62 - table_log) as nat);
    lemma_pow2_pos((42 - table_log) as nat);
    vstd::arithmetic::div_mod::lemma_div_pos_is_pos(scaled as int, unit as int);
    let proba = (scaled / unit) as int;
    if proba == 0 {
        assert(0 * unit == 0);
        assert(pow2((42 - table_log) as nat) * 0 == 0);
    }
}

/// Counts the occurrences of each byte value with four tables that take
/// turns, four bytes at a time, and adds the tables up.
pub fn count_blocked_unsafe(input: &[u8]) -> (counts: Vec<u32>)
    ensures
        counts_of(counts@, input@),
{
    let mut counts1 = [0u32; 256];
    let mut counts2 = [0u32; 256];
    let mut counts3 = [0u32; 256];
    let mut counts4 = [0u32; 256];
    let len = input.len();
    let mut i: usize = 0;
    while len - i >= 4
        invariant
            i <= len,
            len == input@.len(),
            lanes_hold(counts1@, counts2@, counts3@, counts4@, input@, i as nat),
        decreases len - i,
    {
        let ghost (a, b, c, d) = (counts1@, counts2@, counts3@, counts4@);
        counts1[input[i] as usize] = counts1[input[i] as usize].saturating_add(1);
        proof {
            lemma_lane_step(a, b, c, d, counts1@, counts2@, counts3@, counts4@, input@, i as nat);
        }
        let ghost (a, b, c, d) = (counts1@, counts2@, counts3@, counts4@);
        counts2[input[i + 1] as usize] = counts2[input[i + 1] as usize].saturating_add(1);
        proof {
            lemma_lane_step(a, b, c, d, counts1@, counts2@, counts3@, counts4@, input@, (i + 1) as nat);
        }
        let ghost (a, b, c, d) = (counts1@, counts2@, counts3@, counts4@);
        counts3[input[i + 2] as usize] = counts3[input[i + 2] as usize].saturating_add(1);
        proof {
            lemma_lane_step(a, b, c, d, counts1@, counts2@, counts3@, counts4@, input@, (i + 2) as nat);
        }
        let ghost (a, b, c, d) = (counts1@, counts2@, counts3@, counts4@);
        counts4[input[i + 3] as usize] = counts4[input[i + 3] as usize].saturating_add(1);
        proof {
            lemma_lane_step(a, b, c, d, counts1@, counts2@, counts3@, counts4@, input@, (i + 3) as nat);
        }
        i += 4;
    }
    while i < len
        invariant
            i <= len,
            len == input@.len(),
            lanes_hold(counts1@, counts2@, counts3@, counts4@, input@, i as nat),
        decreases len - i,
    {
        let ghost (a, b, c, d) = (counts1@, counts2@, counts3@, counts4@);
        counts1[input[i] as usize] = counts1[input[i] as usize].saturating_add(1);
        proof {
            lemma_lane_step(a, b, c, d, counts1@, counts2@, counts3@, counts4@, input@, i as nat);
        }
        i += 1;
    }
    let mut counts: Vec<u32> = Vec::new();
    let mut s: usize = 0;
    while s < 256
        invariant
            s <= 256,
            len == input@.len(),
            lanes_hold(counts1@, counts2@, counts3@, counts4@, input@, len as nat),
            counts@.len() == s,
            forall|x: int|
                0 <= x < s ==> #[trigger] counts@[x] == saturated(
                    occurrences(input@, x as u8, len as nat),
                ),
        decreases 256 - s,
    {
        assert(lane_exact(counts1@, counts2@, counts3@, counts4@, input@, len as nat, s as int));
        counts.push(
            counts1[s].saturating_add(counts2[s]).saturating_add(counts3[s]).saturating_add(
                counts4[s],
            ),
        );
        s += 1;
    }
    counts
}

/// Counts the symbols of `data`, chooses the table size and normalizes the
/// counts: gives the normalized counts, the largest symbol and the table
/// size.
pub fn get_normalized_counts_from_data(data: &[u8]) -> (result: (NormCountsTable, u32, u32))
    requires
        1 < data@.len() <= u32::MAX,
        forall|s: int| 0 <= s < 256 ==> #[trigger] occurrences(data@, s as u8, data@.len())
            < data@.len(),
        ({
            let counts = Seq::new(256, |s: int| saturated(occurrences(data@, s as u8, data@.len())));
            let top = crate::spec_max_symbol(counts, 256) as u32;
            spec_normalized(
                counts,
                crate::table_log::spec_optimal_table_log(
                    crate::FSE_DEFAULT_TABLELOG,
                    data@.len(),
                    top,
                    2,
                ) as u32,
                data@.len(),
                top,
            ) is Some
        }),
    ensures
        ({
            let counts = Seq::new(256, |s: int| saturated(occurrences(data@, s as u8, data@.len())));
            let top = crate::spec_max_symbol(counts, 256) as u32;
            let table_log = crate::table_log::spec_optimal_table_log(
                crate::FSE_DEFAULT_TABLELOG,
                data@.len(),
                top,
                2,
            ) as u32;
            &&& result.1 == top
            &&& result.2 == table_log
            &&& Some(result.0@) == spec_normalized(counts, table_log, data@.len(), top)
        }),
{
    let counts = count_simple(data);
    let ghost spec_counts = Seq::new(
        256,
        |s: int| saturated(occurrences(data@, s as u8, data@.len())),
    );
    assert(counts@ =~= spec_counts);
    proof {
        crate::hist::lemma_counted_all(data@, data@.len());
        if forall|s: int| 0 <= s < 256 ==> counts@[s] == 0 {
            assert forall|s: int| 0 <= s < 256 implies #[trigger] occurrences(
                data@,
                s as u8,
                data@.len(),
            ) <= 0 by {
                assert(counts@[s] == 0);
            }
            lemma_counted_bound(data@, data@.len(), 256, 255, 0);
            assert(0 * 256 == 0);
        }
    }
    let max_symbol_value = get_max_symbol_value(&counts);
    proof {
        crate::lemma_max_symbol(counts@, 256, max_symbol_value as int);
    }
    let table_log = crate::table_log::fse_optimal_table_log(
        crate::FSE_DEFAULT_TABLELOG,
        data.len(),
        max_symbol_value,
    );
    let norm_counts = get_normalized_counts(&counts, table_log, data.len(), max_symbol_value);
    (norm_counts, max_symbol_value, table_log)
}

/// Sum of the first `n` counts.
pub open spec fn counts_sum(counts: Seq<u32>, n: nat) -> nat
    decreases n,
{
    if n == 0 {
        0
    } else {
        counts_sum(counts, (n - 1) as nat) + counts[n - 1] as nat
    }
}

/// Where no symbol has a share, each symbol that occurs is rare: the counts
/// add up to at most one less than the threshold for each slot taken.
proof fn lemma_all_rare(counts: Seq<u32>, table_log: u32, total: nat, n: nat)
    requires
        largest_upto(counts, table_log, total, n).0 == 0,
        1 <= total <= u32::MAX,
        table_log <= 14,
    ensures
        first_slots(counts, table_log, total, n) >= 0,
        counts_sum(counts, n) <= first_slots(counts, table_log, total, n) * (total / pow2(
            table_log as nat,
        ) - 1),
    decreases n,
{
    let low = (total / pow2(table_log as nat)) as int;
    if n > 0 {
        lemma_largest(counts, table_log, total, (n - 1) as nat);
        lemma_all_rare(counts, table_log, total, (n - 1) as nat);
        let here = first_norm(counts[n - 1], table_log, total);
        let before = first_slots(counts, table_log, total, (n - 1) as nat);
        if counts[n - 1] != 0 {
            if counts[n - 1] >= low {
                lemma_proba_positive(counts[n - 1], table_log, total);
                assert(false);
            }
            assert((before + 1) * (low - 1) == before * (low - 1) + (low - 1)) by (nonlinear_arith);
        }
    } else {
        assert(0 * (low - 1) == 0);
    }
}

/// The normalized counts of counts that add up to the size of the input
/// take exactly the `2^table_log` slots of the table.
pub proof fn lemma_normalized_fill_the_table(
    counts: Seq<u32>,
    table_log: u32,
    total: nat,
    max_symbol_value: u32,
)
    requires
        normalizable(counts, table_log, total, max_symbol_value),
        counts_sum(counts, (max_symbol_value + 1) as nat) == total,
        spec_normalized(counts, table_log, total, max_symbol_value) is Some,
    ensures
        slots_before(
            spec_normalized(counts, table_log, total, max_symbol_value)->0,
            (max_symbol_value + 1) as nat,
        ) == pow2(table_log as nat),
        forall|s: int|
            0 <= s <= max_symbol_value ==> #[trigger] spec_normalized(
                counts,
                table_log,
                total,
                max_symbol_value,
            )->0[s] >= -1,
{
    let n = (max_symbol_value + 1) as nat;
    let size = pow2(table_log as nat) as int;
    let (share, largest) = largest_upto(counts, table_log, total, n);
    let left = size - first_slots(counts, table_log, total, n);
    lemma_largest(counts, table_log, total, n);
    lemma_pow2_pos(table_log as nat);
    if share == 0 {
        lemma_all_rare(counts, table_log, total, n);
        let low = (total / (size as nat)) as int;
        let slots = first_slots(counts, table_log, total, n);
        vstd::arithmetic::div_mod::lemma_fundamental_div_mod(total as int, size);
        vstd::arithmetic::div_mod::lemma_mod_bound(total as int, size);
        lemma_first_norm_floor(counts[largest], table_log, total);
        // the counts make up the input, so more slots are taken than the table has
        assert(slots > size) by (nonlinear_arith)
            requires
                total <= slots * (low - 1),
                total >= size * low,
                total >= 1,
                size >= 1,
                slots >= 0,
                low >= 0,
        ;
        assert(false);
    }
    let norm = spec_normalized(counts, table_log, total, max_symbol_value)->0;
    let first = Seq::new(256, |s: int| first_norm(counts[s], table_log, total) as i16);
    assert forall|s: int| 0 <= s < n implies #[trigger] first[s] == first_norm(
        counts[s],
        table_log,
        total,
    ) && first[s] >= -1 by {
        lemma_first_norm_bounds(counts[s], table_log, total);
    }
    lemma_first_slots(first, counts, table_log, total, n);
    lemma_first_norm_bounds(counts[largest], table_log, total);
    lemma_first_slots_floor(counts, table_log, total, n, largest);
    lemma_slots_update(first, largest, (share + left) as i16, n);
    lemma_slots_same(norm, first.update(largest, (share + left) as i16), n);
    assert forall|s: int| 0 <= s <= max_symbol_value implies #[trigger] norm[s] >= -1 by {
        assert(first[s] >= -1);
    }
}

/// The slots of the first pass are at least the share of any one symbol.
proof fn lemma_first_slots_floor(counts: Seq<u32>, table_log: u32, total: nat, n: nat, s: int)
    requires
        0 <= s < n,
    ensures
        first_slots(counts, table_log, total, n) >= first_norm(counts[s], table_log, total),
        first_slots(counts, table_log, total, n) >= 0,
    decreases n,
{
    lemma_first_slots_sign(counts, table_log, total, (n - 1) as nat);
    lemma_first_norm_floor(counts[n - 1], table_log, total);
    if s < n - 1 {
        lemma_first_slots_floor(counts, table_log, total, (n - 1) as nat, s);
    }
}

proof fn lemma_first_slots_sign(counts: Seq<u32>, table_log: u32, total: nat, n: nat)
    ensures
        first_slots(counts, table_log, total, n) >= 0,
    decreases n,
{
    if n > 0 {
        lemma_first_slots_sign(counts, table_log, total, (n - 1) as nat);
        lemma_first_norm_floor(counts[n - 1], table_log, total);
    }
}

/// Distributions that agree on the first `n` symbols take the same slots.
proof fn lemma_slots_same(a: Seq<i16>, b: Seq<i16>, n: nat)
    requires
        n <= a.len(),
        n <= b.len(),
        forall|s: int| 0 <= s < n ==> a[s] == b[s],
    ensures
        slots_before(a, n) == slots_before(b, n),
    decreases n,
{
    if n > 0 {
        lemma_slots_same(a, b, (n - 1) as nat);
    }
}

/// Normalizing takes no symbol out: a symbol that occurs has a count other
/// than 0.
pub proof fn lemma_normalized_keeps(
    counts: Seq<u32>,
    table_log: u32,
    total: nat,
    max_symbol_value: u32,
    s: int,
)
    requires
        normalizable(counts, table_log, total, max_symbol_value),
        spec_normalized(counts, table_log, total, max_symbol_value) is Some,
        0 <= s <= max_symbol_value,
        counts[s] != 0,
    ensures
        spec_normalized(counts, table_log, total, max_symbol_value)->0[s] != 0,
{
    let n = (max_symbol_value + 1) as nat;
    let (share, largest) = largest_upto(counts, table_log, total, n);
    let left = pow2(table_log as nat) - first_slots(counts, table_log, total, n);
    lemma_largest(counts, table_log, total, n);
    lemma_first_norm_bounds(counts[s], table_log, total);
    if s == largest {
        lemma_first_slots_floor(counts, table_log, total, n, s);
        assert(first_norm(counts[s], table_log, total) <= share);
        if share > 0 {
            assert(first_norm(counts[largest], table_log, total) == share);
        } else {
            lemma_first_norm_floor(counts[s], table_log, total);
        }
    } else {
        lemma_proba_positive(counts[s], table_log, total);
    }
}

} // verus!
