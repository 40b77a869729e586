//! State-transition tables of the finite-state-entropy coder.

use vstd::prelude::*;
use vstd::arithmetic::power2::{pow2, lemma_pow2_pos, lemma_pow2_unfold, lemma2_to64, lemma_pow2_strictly_increases, lemma_pow2_adds};
use vstd::arithmetic::div_mod::{lemma_add_mod_noop_right, lemma_mod_multiples_basic, lemma_small_mod};
use vstd::bits::{low_bits_mask, lemma_usize_low_bits_mask_is_mod, lemma_usize_shl_is_mul, lemma_u32_shl_is_mul};
use crate::bitstream::{highbit_pos, spec_highbit, lemma_highbit_bounds};
use crate::NormCountsTable;
use crate::spread::{occurrences, lemma_occurrences_monotone, lemma_spread_counts};

verus! {

/// Slots of the state table that a symbol with normalized count `count` owns.
pub open spec fn slots_of(count: i16) -> nat {
    if count == -1 {
        1
    } else if count > 0 {
        count as nat
    } else {
        0
    }
}

/// Slots owned by the symbols below `s`.
pub open spec fn slots_before(norm: Seq<i16>, s: nat) -> nat
    decreases s,
{
    if s == 0 {
        0
    } else {
        slots_before(norm, (s - 1) as nat) + slots_of(norm[s - 1])
    }
}

/// Number of rare (`-1`) symbols below `s`.
pub open spec fn rare_before(norm: Seq<i16>, s: nat) -> nat
    decreases s,
{
    if s == 0 {
        0
    } else {
        rare_before(norm, (s - 1) as nat) + if norm[s - 1] == -1 { 1nat } else { 0nat }
    }
}

/// A normalized distribution over the symbols `0..=max_symbol_value`: a
/// table of at least 32 and at most 32768 slots, no count below `-1`, and
/// the slots add up to `2^table_log`.
pub open spec fn valid_distribution(norm: Seq<i16>, table_log: u32, max_symbol_value: u32) -> bool {
    &&& norm.len() == 256
    &&& max_symbol_value <= 255
    &&& 5 <= table_log <= 15
    &&& forall|s: int| 0 <= s <= max_symbol_value ==> #[trigger] norm[s] >= -1
    &&& slots_before(norm, (max_symbol_value + 1) as nat) == pow2(table_log as nat)
}

pub proof fn lemma_slots_monotone(norm: Seq<i16>, a: nat, b: nat)
    requires
        a <= b,
    ensures
        slots_before(norm, a) <= slots_before(norm, b),
        rare_before(norm, a) <= rare_before(norm, b),
        rare_before(norm, a) <= slots_before(norm, a),
        slots_before(norm, b) - slots_before(norm, a) >= rare_before(norm, b) - rare_before(norm, a),
    decreases b,
{
    if a < b {
        lemma_slots_monotone(norm, a, (b - 1) as nat);
    } else if a > 0 {
        lemma_slots_monotone(norm, (a - 1) as nat, (a - 1) as nat);
    }
}

/// A symbol with a positive count leaves room below the rare symbols' slots.
pub proof fn lemma_positive_leaves_room(norm: Seq<i16>, n: nat, s: nat)
    requires
        s < n,
        norm[s as int] > 0,
    ensures
        rare_before(norm, n) + norm[s as int] <= slots_before(norm, n),
    decreases n,
{
    if s == n - 1 {
        lemma_slots_monotone(norm, s, s);
    } else {
        lemma_positive_leaves_room(norm, (n - 1) as nat, s);
    }
}

/// Stride of the walk that spreads the symbols over the table.
pub open spec fn spec_tablestep(table_size: nat) -> nat {
    table_size / 2 + table_size / 8 + 3
}

/// Stride with which symbols are spread over a table of `table_size` slots.
pub fn fse_tablestep(table_size: usize) -> (step: usize)
    ensures
        step == spec_tablestep(table_size as nat),
{
    assert(table_size >> 1 == table_size / 2 && table_size >> 3 == table_size / 8) by (bit_vector);
    (table_size >> 1) + (table_size >> 3) + 3
}

/// Slot that the walk reaches after `k` strides from slot 0.
pub open spec fn walk_pos(k: nat, table_size: nat) -> nat {
    (k * spec_tablestep(table_size)) % table_size
}

/// Walk index that follows `k`; the walk is taken modulo the table size.
pub open spec fn walk_succ(k: nat, table_size: nat) -> nat {
    if k + 1 >= table_size {
        0
    } else {
        k + 1
    }
}

/// First walk index from `k` on whose slot lies below `free`, the start of
/// the rare symbols' area; index 0 (slot 0) ends the search in any case.
pub open spec fn walk_skip(k: nat, table_size: nat, free: nat) -> nat
    decreases (if k == 0 || k >= table_size { 0 } else { table_size - k }),
{
    if k == 0 || k >= table_size || walk_pos(k, table_size) < free {
        k
    } else {
        walk_skip(walk_succ(k, table_size), table_size, free)
    }
}

/// The slot table with only the rare symbols among the first `s` placed:
/// they take the highest slots, in descending order.
pub open spec fn rare_table(norm: Seq<i16>, table_size: nat, s: nat) -> Seq<u8>
    decreases s,
{
    if s == 0 {
        Seq::new(table_size, |i: int| 0u8)
    } else {
        let prev = rare_table(norm, table_size, (s - 1) as nat);
        let taken = rare_before(norm, (s - 1) as nat);
        if norm[s - 1] == -1 && taken < table_size {
            prev.update(table_size - 1 - taken, (s - 1) as u8)
        } else {
            prev
        }
    }
}

/// Slot table and walk index once every symbol below `s` has been spread and
/// `r` copies of symbol `s` have been placed.
pub open spec fn spread_state(
    norm: Seq<i16>,
    table_size: nat,
    symbols: nat,
    s: nat,
    r: nat,
) -> (Seq<u8>, nat)
    decreases s, r,
{
    let free = (table_size - rare_before(norm, symbols)) as nat;
    if r > 0 {
        let (table, k) = spread_state(norm, table_size, symbols, s, (r - 1) as nat);
        (
            table.update(walk_pos(k, table_size) as int, s as u8),
            walk_skip(walk_succ(k, table_size), table_size, free),
        )
    } else if s > 0 {
        let copies = if norm[s - 1] > 0 { norm[s - 1] as nat } else { 0nat };
        spread_state(norm, table_size, symbols, (s - 1) as nat, copies)
    } else {
        (rare_table(norm, table_size, symbols), 0nat)
    }
}

/// Symbol that each slot of the state table holds.
pub open spec fn spread_table(norm: Seq<i16>, table_log: u32, max_symbol_value: u32) -> Seq<u8> {
    spread_state(
        norm,
        pow2(table_log as nat),
        (max_symbol_value + 1) as nat,
        (max_symbol_value + 1) as nat,
        0,
    ).0
}

/// Per-symbol record that lets the encoder advance its state in constant time.
#[derive(Debug, Clone, Copy)]
pub struct FseSymbolCompressionTransform {
    pub delta_find_state: i32,
    pub delta_nb_bits: u32,
}

impl Default for FseSymbolCompressionTransform {
    fn default() -> (r: Self)
        ensures
            r.delta_find_state == 0,
            r.delta_nb_bits == 0,
    {
        FseSymbolCompressionTransform { delta_find_state: 0, delta_nb_bits: 0 }
    }
}

/// What `delta_nb_bits` and the table size lack of the next whole number of
/// bits, in sixteen fractional bits.
pub open spec fn spec_cost_delta(delta_nb_bits: u32, table_log: u32) -> int {
    (delta_nb_bits / 65536 + 1) * 65536 - (delta_nb_bits + pow2(table_log as nat))
}

/// The cost of a symbol in bits with `accuracy_log` fractional bits: the
/// most bits that the symbol takes, less the part of a bit that
/// `spec_cost_delta` makes of the table size.
pub open spec fn spec_bit_cost(delta_nb_bits: u32, table_log: u32, accuracy_log: u32) -> int {
    (delta_nb_bits / 65536 + 1) * pow2(accuracy_log as nat) - (spec_cost_delta(
        delta_nb_bits,
        table_log,
    ) * pow2(accuracy_log as nat)) / (pow2(table_log as nat) as int)
}

impl FseSymbolCompressionTransform {
    /// The most bits that the symbol takes: `delta_nb_bits` in whole bits,
    /// rounded up.
    pub fn fse_get_max_nb_bits(&self) -> (bits: u32)
        requires
            self.delta_nb_bits <= u32::MAX - 65535,
        ensures
            bits == (self.delta_nb_bits + 65535) / 65536,
    {
        assert((1u32 << 16) == 65536) by (bit_vector);
        let sum: u32 = self.delta_nb_bits + ((1u32 << 16) - 1);
        assert(sum >> 16 == sum / 65536) by (bit_vector);
        sum >> 16
    }

    /// The cost of the symbol in bits, with `accuracy_log` fractional bits,
    /// by linear interpolation between two whole numbers of bits.
    pub fn fse_bit_cost(&self, table_log: u32, accuracy_log: u32) -> (cost: u32)
        requires
            table_log < 16,
            accuracy_log < 31 - table_log,
            self.delta_nb_bits < 0xffff_0000,
            0 <= spec_cost_delta(self.delta_nb_bits, table_log),
            spec_cost_delta(self.delta_nb_bits, table_log) * pow2(accuracy_log as nat) <= u32::MAX,
            (spec_cost_delta(self.delta_nb_bits, table_log) * pow2(accuracy_log as nat)) / (pow2(
                table_log as nat,
            ) as int) <= pow2(accuracy_log as nat),
            (self.delta_nb_bits / 65536 + 1) * pow2(accuracy_log as nat) <= u32::MAX,
        ensures
            cost == spec_bit_cost(self.delta_nb_bits, table_log, accuracy_log),
    {
        let delta: u32 = self.delta_nb_bits;
        assert(delta >> 16 == delta / 65536) by (bit_vector);
        let min_nb_bits: u32 = delta >> 16;
        proof {
            lemma2_to64();
            lemma_table_size(table_log);
            lemma_pow2_pos(accuracy_log as nat);
            lemma_pow2_strictly_increases(accuracy_log as nat, 31);
            vstd::arithmetic::power2::lemma2_to64_rest();
            lemma_u32_shl_is_mul((min_nb_bits + 1) as u32, 16);
            lemma_u32_shl_is_mul(1, accuracy_log);
        }
        let threshold: u32 = (min_nb_bits + 1) << 16;
        let table_size: u32 = 1u32 << table_log;
        let delta_from_threshold: u32 = threshold - (delta + table_size);
        proof {
            lemma_u32_shl_is_mul(delta_from_threshold, accuracy_log);
            vstd::bits::lemma_u32_shr_is_div(
                (delta_from_threshold << accuracy_log) as u32,
                table_log,
            );
        }
        let normalized_delta_from_threshold: u32 = (delta_from_threshold << accuracy_log)
            >> table_log;
        let bit_multiplier: u32 = 1u32 << accuracy_log;
        assert((min_nb_bits + 1) * bit_multiplier >= bit_multiplier) by (nonlinear_arith);
        (min_nb_bits + 1) * bit_multiplier - normalized_delta_from_threshold
    }
}

/// Encoding tables: the next state for each slot, sorted by symbol, and one
/// transform per symbol.
#[derive(Debug, Clone)]
pub struct CompressionTable {
    pub state_table: Vec<u16>,
    pub symbol_tt: Vec<FseSymbolCompressionTransform>,
}

/// The transform of symbol `s`.
///
/// A symbol that does not occur gets a placeholder that costs
/// `table_log + 1` bits; a symbol with one slot always emits `table_log`
/// bits; any other emits `max_bits_out` or one bit less.
pub open spec fn spec_symbol_transform(
    norm: Seq<i16>,
    table_log: u32,
    s: nat,
) -> FseSymbolCompressionTransform {
    let count = norm[s as int];
    let total = slots_before(norm, s);
    if count == 0 {
        FseSymbolCompressionTransform {
            delta_find_state: 0,
            delta_nb_bits: ((table_log + 1) * 65536 - pow2(table_log as nat)) as u32,
        }
    } else if count == -1 || count == 1 {
        FseSymbolCompressionTransform {
            delta_find_state: (total - 1) as i32,
            delta_nb_bits: (table_log * 65536 - pow2(table_log as nat)) as u32,
        }
    } else {
        let max_bits_out = (table_log - spec_highbit((count - 1) as nat)) as nat;
        FseSymbolCompressionTransform {
            delta_find_state: (total - count) as i32,
            delta_nb_bits: (max_bits_out * 65536 - count * pow2(max_bits_out)) as u32,
        }
    }
}

/// State table and running slot cursors after the first `u` slots have been
/// entered: the state that leads into slot `u` is entered at the cursor of
/// the symbol that the slot holds, and the cursor moves on.
pub open spec fn state_fill(
    symbols: Seq<u8>,
    starts: Seq<u32>,
    table_size: nat,
    u: nat,
) -> (Seq<u16>, Seq<u32>)
    decreases u,
{
    if u == 0 {
        (Seq::new(table_size + 1, |i: int| 0u16), starts)
    } else {
        let (states, cursors) = state_fill(symbols, starts, table_size, (u - 1) as nat);
        let s = symbols[u - 1] as int;
        (
            states.update(cursors[s] as int, (table_size + u - 1) as u16),
            cursors.update(s, (cursors[s] + 1) as u32),
        )
    }
}

/// First slot of each symbol `0..=max_symbol_value`, followed by one entry
/// past the table.
pub open spec fn slot_starts(norm: Seq<i16>, table_log: u32, max_symbol_value: u32) -> Seq<u32> {
    Seq::new(
        (max_symbol_value + 2) as nat,
        |u: int|
            if u == max_symbol_value + 1 {
                (pow2(table_log as nat) + 1) as u32
            } else {
                slots_before(norm, u as nat) as u32
            },
    )
}

/// The state table of the encoder.
pub open spec fn spec_state_table(norm: Seq<i16>, table_log: u32, max_symbol_value: u32) -> Seq<u16> {
    state_fill(
        spread_table(norm, table_log, max_symbol_value),
        slot_starts(norm, table_log, max_symbol_value),
        pow2(table_log as nat),
        pow2(table_log as nat),
    ).0
}

/// The symbol that owns slot `i` of the state table.
pub proof fn lemma_slot_owner(norm: Seq<i16>, n: nat, i: nat) -> (s: nat)
    requires
        i < slots_before(norm, n),
    ensures
        s < n,
        slots_before(norm, s) <= i < slots_before(norm, s + 1),
    decreases n,
{
    if i >= slots_before(norm, (n - 1) as nat) {
        (n - 1) as nat
    } else {
        lemma_slot_owner(norm, (n - 1) as nat, i)
    }
}

pub proof fn lemma_table_size(table_log: u32)
    requires
        table_log <= 16,
    ensures
        (1usize << table_log) == pow2(table_log as nat),
        (1u32 << table_log) == pow2(table_log as nat),
        1 <= pow2(table_log as nat) <= 65536,
        table_log <= 15 ==> pow2(table_log as nat) <= 32768,
        table_log >= 1 ==> pow2(table_log as nat) >= 2,
        ((1usize << table_log) - 1) as usize == low_bits_mask(table_log as nat),
{
    lemma2_to64();
    lemma_pow2_pos(table_log as nat);
    if table_log < 16 {
        lemma_pow2_strictly_increases(table_log as nat, 16);
    }
    if table_log < 15 {
        lemma_pow2_strictly_increases(table_log as nat, 15);
    }
    if table_log > 1 {
        lemma_pow2_strictly_increases(1, table_log as nat);
    }
    lemma_usize_shl_is_mul(1, table_log as usize);
    lemma_u32_shl_is_mul(1, table_log);
}

/// One stride of the walk, as the masked addition computes it.
pub proof fn lemma_walk_stride(k: nat, table_log: u32, position: usize, step: usize, mask: usize)
    requires
        table_log <= 16,
        k < pow2(table_log as nat),
        position == walk_pos(k, pow2(table_log as nat)),
        step == spec_tablestep(pow2(table_log as nat)),
        mask == pow2(table_log as nat) - 1,
    ensures
        ((position + step) as usize) & mask == walk_pos(
            walk_succ(k, pow2(table_log as nat)),
            pow2(table_log as nat),
        ),
        walk_pos(walk_succ(k, pow2(table_log as nat)), pow2(table_log as nat)) < pow2(
            table_log as nat,
        ),
        walk_pos(0, pow2(table_log as nat)) == 0,
{
    let ts = pow2(table_log as nat);
    lemma_table_size(table_log);
    let sum = (position + step) as usize;
    lemma_usize_low_bits_mask_is_mod(sum, table_log as nat);
    assert(sum & (low_bits_mask(table_log as nat) as usize) == sum % (ts as usize));
    lemma_add_mod_noop_right(step as int, (k * step) as int, ts as int);
    assert((k + 1) * step == k * step + step) by (nonlinear_arith);
    assert((sum as int) % (ts as int) == (((k + 1) * step) as int) % (ts as int));
    if k + 1 >= ts {
        lemma_mod_multiples_basic(step as int, ts as int);
        assert((k + 1) * step == step * ts) by (nonlinear_arith)
            requires
                k + 1 == ts,
        ;
    }
    assert(0 * step == 0);
    lemma_small_mod(0, ts);
}

/// Spreads the symbols over the `2^table_log` slots: the rare symbols take
/// the highest slots, the others follow the stride walk from slot 0, which
/// steps over the rare symbols' area.
pub fn spread_symbols(
    norm_counts: &NormCountsTable,
    table_log: u32,
    max_symbol_value: u32,
) -> (table_symbol: Vec<u8>)
    requires
        valid_distribution(norm_counts@, table_log, max_symbol_value),
    ensures
        table_symbol@ == spread_table(norm_counts@, table_log, max_symbol_value),
{
    let ghost norm = norm_counts@;
    let ghost symbols = (max_symbol_value + 1) as nat;
    let ghost ts = pow2(table_log as nat);
    proof {
        lemma_table_size(table_log);
    }
    let table_size: usize = 1usize << table_log;
    let table_mask: usize = table_size - 1;
    let mut free: usize = table_size;
    let mut table_symbol: Vec<u8> = vec![0u8; table_size];
    assert(table_symbol@ =~= rare_table(norm, ts, 0));

    let mut symbol: u32 = 0;
    while symbol <= max_symbol_value
        invariant
            valid_distribution(norm, table_log, max_symbol_value),
            norm == norm_counts@,
            symbols == max_symbol_value + 1,
            ts == pow2(table_log as nat),
            ts == table_size,
            symbol <= symbols,
            table_symbol@.len() == ts,
            free == ts - rare_before(norm, symbol as nat),
            table_symbol@ == rare_table(norm, ts, symbol as nat),
        decreases symbols - symbol,
    {
        proof {
            lemma_slots_monotone(norm, (symbol + 1) as nat, symbols);
            lemma_slots_monotone(norm, symbol as nat, (symbol + 1) as nat);
        }
        if norm_counts[symbol as usize] == -1 {
            table_symbol[free - 1] = symbol as u8;
            free -= 1;
        }
        symbol += 1;
    }

    let step = fse_tablestep(table_size);
    let mut position: usize = 0;
    let ghost mut k: nat = 0;
    let mut symbol: u32 = 0;
    proof {
        lemma_walk_stride(0, table_log, 0, step, table_mask);
    }
    while symbol <= max_symbol_value
        invariant
            valid_distribution(norm, table_log, max_symbol_value),
            norm == norm_counts@,
            symbols == max_symbol_value + 1,
            ts == pow2(table_log as nat),
            ts == table_size,
            table_mask == table_size - 1,
            table_log <= 15,
            ts <= 32768,
            step == spec_tablestep(ts),
            free == ts - rare_before(norm, symbols),
            symbol <= symbols,
            table_symbol@.len() == ts,
            k < ts,
            position == walk_pos(k, ts),
            position < ts,
            (table_symbol@, k) == spread_state(norm, ts, symbols, symbol as nat, 0),
        decreases symbols - symbol,
    {
        let freq: i16 = norm_counts[symbol as usize];
        let mut n: i16 = 0;
        while n < freq
            invariant
                valid_distribution(norm, table_log, max_symbol_value),
                norm == norm_counts@,
                symbols == max_symbol_value + 1,
                ts == pow2(table_log as nat),
                ts == table_size,
                table_mask == table_size - 1,
                table_log <= 15,
                ts <= 32768,
                step == spec_tablestep(ts),
                free == ts - rare_before(norm, symbols),
                symbol <= max_symbol_value,
                freq == norm[symbol as int],
                0 <= n,
                n <= freq || n == 0,
                table_symbol@.len() == ts,
                k < ts,
                position == walk_pos(k, ts),
                position < ts,
                (table_symbol@, k) == spread_state(norm, ts, symbols, symbol as nat, n as nat),
            decreases freq - n,
        {
            proof {
                lemma_positive_leaves_room(norm, symbols, symbol as nat);
                lemma_walk_stride(k, table_log, position, step, table_mask);
            }
            table_symbol[position] = symbol as u8;
            position = (position + step) & table_mask;
            proof {
                k = walk_succ(k, ts);
            }
            while position >= free
                invariant
                    ts == pow2(table_log as nat),
                    ts == table_size,
                    table_mask == table_size - 1,
                    table_log <= 15,
                    ts <= 32768,
                    0 <= n,
                    step == spec_tablestep(ts),
                    1 <= free <= ts,
                    k < ts,
                    position == walk_pos(k, ts),
                    position < ts,
                    walk_skip(k, ts, free as nat) == walk_skip(
                        walk_succ(
                            spread_state(norm, ts, symbols, symbol as nat, n as nat).1,
                            ts,
                        ),
                        ts,
                        free as nat,
                    ),
                decreases (if k == 0 { 0 } else { ts - k }),
            {
                proof {
                    lemma_walk_stride(k, table_log, position, step, table_mask);
                    lemma_walk_stride(0, table_log, 0, step, table_mask);
                }
                position = (position + step) & table_mask;
                proof {
                    k = walk_succ(k, ts);
                }
            }
            n += 1;
        }
        assert((table_symbol@, k) == spread_state(norm, ts, symbols, (symbol + 1) as nat, 0));
        symbol += 1;
    }
    table_symbol
}

/// Builds the encoding tables from a normalized distribution.
///
/// The state table lists, symbol by symbol and in slot order, the states
/// that lead into the slots of that symbol; every one of its first
/// `2^table_log` entries is a state, a number from `2^table_log` up to
/// `2^(table_log+1) - 1`. Every transform can be priced.
pub fn build_compression_table(
    norm_counts: &NormCountsTable,
    table_log: u32,
    max_symbol_value: u32,
) -> (table: CompressionTable)
    requires
        valid_distribution(
            norm_counts@,
            table_log,
            if max_symbol_value < 255 { max_symbol_value } else { 255 },
        ),
    ensures
        ({
            let top = if max_symbol_value < 255 { max_symbol_value } else { 255 };
            &&& table.state_table@ == spec_state_table(norm_counts@, table_log, top)
            &&& table.state_table@.len() == pow2(table_log as nat) + 1
            &&& forall|i: int|
                0 <= i < pow2(table_log as nat) ==> pow2(table_log as nat)
                    <= #[trigger] table.state_table@[i] < 2 * pow2(table_log as nat)
            &&& table.symbol_tt@.len() == top + 1
            &&& forall|s: int|
                0 <= s <= top ==> #[trigger] table.symbol_tt@[s] == spec_symbol_transform(
                    norm_counts@,
                    table_log,
                    s as nat,
                )
            &&& table_log <= 12 ==> forall|s: u8|
                s <= top && norm_counts@[s as int] != 0 ==> #[trigger] table.encodes(s)
            &&& forall|s: int|
                0 <= s <= top ==> (#[trigger] table.symbol_tt@[s]).delta_nb_bits < 0xffff_0000
        }),
{
    let max_symbol_value: u32 = if max_symbol_value < 255 { max_symbol_value } else { 255 };
    let ghost norm = norm_counts@;
    let ghost symbols = (max_symbol_value + 1) as nat;
    let ghost ts = pow2(table_log as nat);
    proof {
        lemma_table_size(table_log);
    }
    let table_size: usize = 1usize << table_log;
    let mut cumul: Vec<u32> = vec![0u32; max_symbol_value as usize + 2];

    // first slot of every symbol
    let mut u: usize = 1;
    while u <= max_symbol_value as usize + 1
        invariant
            valid_distribution(norm, table_log, max_symbol_value),
            norm == norm_counts@,
            symbols == max_symbol_value + 1,
            ts == pow2(table_log as nat),
            ts <= 32768,
            1 <= u <= symbols + 1,
            cumul@.len() == symbols + 1,
            forall|i: int| 0 <= i < u ==> #[trigger] cumul@[i] == slots_before(norm, i as nat),
        decreases symbols + 1 - u,
    {
        proof {
            lemma_slots_monotone(norm, u as nat, symbols);
            lemma_slots_monotone(norm, (u - 1) as nat, u as nat);
        }
        if norm_counts[u - 1] == -1 {
            cumul[u] = cumul[u - 1] + 1;
        } else {
            cumul[u] = cumul[u - 1] + norm_counts[u - 1] as u32;
        }
        u += 1;
    }
    cumul[max_symbol_value as usize + 1] = table_size as u32 + 1;
    let ghost starts = slot_starts(norm, table_log, max_symbol_value);
    assert(cumul@ =~= starts);

    let table_symbol = spread_symbols(norm_counts, table_log, max_symbol_value);
    proof {
        lemma_spread_counts(norm, table_log, max_symbol_value);
    }

    // enter the states, symbol by symbol
    let mut state_table: Vec<u16> = vec![0u16; cumul[max_symbol_value as usize + 1] as usize];
    assert(state_table@ =~= state_fill(table_symbol@, starts, ts, 0).0);
    let mut u: usize = 0;
    while u < table_size
        invariant
            valid_distribution(norm, table_log, max_symbol_value),
            symbols == max_symbol_value + 1,
            ts == pow2(table_log as nat),
            ts == table_size,
            ts <= 32768,
            u <= ts,
            table_symbol@ == spread_table(norm, table_log, max_symbol_value),
            table_symbol@.len() == ts,
            state_table@.len() == ts + 1,
            cumul@.len() == symbols + 1,
            forall|i: int| 0 <= i < ts ==> #[trigger] table_symbol@[i] <= max_symbol_value,
            forall|s: int|
                0 <= s <= max_symbol_value ==> #[trigger] occurrences(table_symbol@, s as u8, ts)
                    == slots_of(norm[s]),
            forall|s: int|
                0 <= s <= max_symbol_value ==> #[trigger] cumul@[s] == slots_before(norm, s as nat)
                    + occurrences(table_symbol@, s as u8, u as nat),
            forall|s: int, i: int|
                #![trigger slots_before(norm, s as nat), state_table@[i]]
                0 <= s <= max_symbol_value && slots_before(norm, s as nat) <= i < slots_before(
                    norm,
                    s as nat,
                ) + occurrences(table_symbol@, s as u8, u as nat) ==> ts <= state_table@[i] < 2
                    * ts,
            (state_table@, cumul@) == state_fill(table_symbol@, starts, ts, u as nat),
        decreases ts - u,
    {
        let s = table_symbol[u] as usize;
        let ghost before = state_table@;
        let ghost at = cumul@[s as int] as int;
        proof {
            lemma_occurrences_monotone(table_symbol@, s as u8, (u + 1) as nat, ts);
            lemma_slots_monotone(norm, (s + 1) as nat, symbols);
        }
        state_table[cumul[s] as usize] = table_size as u16 + u as u16;
        cumul[s] = cumul[s] + 1;
        proof {
            assert forall|x: int, i: int|
                #![trigger slots_before(norm, x as nat), state_table@[i]]
                0 <= x <= max_symbol_value && slots_before(norm, x as nat) <= i < slots_before(
                    norm,
                    x as nat,
                ) + occurrences(table_symbol@, x as u8, (u + 1) as nat) implies ts
                <= state_table@[i] < 2 * ts by {
                lemma_occurrences_monotone(table_symbol@, x as u8, (u + 1) as nat, ts);
                lemma_slots_monotone(norm, (x + 1) as nat, symbols);
                assert(slots_before(norm, (x + 1) as nat) == slots_before(norm, x as nat)
                    + slots_of(norm[x]));
                assert(slots_before(norm, (s + 1) as nat) == slots_before(norm, s as nat)
                    + slots_of(norm[s as int]));
                assert(occurrences(table_symbol@, s as u8, (u + 1) as nat) == occurrences(
                    table_symbol@,
                    s as u8,
                    u as nat,
                ) + 1);
                if x != s {
                    assert(occurrences(table_symbol@, x as u8, (u + 1) as nat) == occurrences(
                        table_symbol@,
                        x as u8,
                        u as nat,
                    ));
                    if x < s {
                        lemma_slots_monotone(norm, (x + 1) as nat, s as nat);
                    } else {
                        lemma_slots_monotone(norm, (s + 1) as nat, x as nat);
                    }
                    assert(i != at);
                    assert(ts <= before[i] < 2 * ts);
                } else if i != at {
                    assert(ts <= before[i] < 2 * ts);
                }
            }
        }
        u += 1;
    }
    proof {
        assert forall|i: int| 0 <= i < ts implies ts <= #[trigger] state_table@[i] < 2 * ts by {
            let s = lemma_slot_owner(norm, symbols, i as nat);
            assert(occurrences(table_symbol@, s as u8, ts) == slots_of(norm[s as int]));
            assert(slots_before(norm, s) <= i < slots_before(norm, s) + occurrences(
                table_symbol@,
                s as u8,
                ts,
            ));
        }
    }

    // the symbol transforms
    let mut symbol_tt: Vec<FseSymbolCompressionTransform> = vec![
        FseSymbolCompressionTransform::default();
        max_symbol_value as usize + 1
    ];
    let mut total: i32 = 0;
    let mut symbol: usize = 0;
    while symbol <= max_symbol_value as usize
        invariant
            valid_distribution(norm, table_log, max_symbol_value),
            norm == norm_counts@,
            symbols == max_symbol_value + 1,
            ts == pow2(table_log as nat),
            symbol <= symbols,
            symbol_tt@.len() == symbols,
            total == slots_before(norm, symbol as nat),
            forall|s: int|
                symbol <= s < symbols ==> (#[trigger] symbol_tt@[s]).delta_find_state == 0,
            forall|s: int|
                0 <= s < symbol ==> #[trigger] symbol_tt@[s] == spec_symbol_transform(
                    norm,
                    table_log,
                    s as nat,
                ),
        decreases symbols - symbol,
    {
        proof {
            lemma_slots_monotone(norm, symbol as nat, (symbol + 1) as nat);
            lemma_slots_monotone(norm, (symbol + 1) as nat, symbols);
            lemma_table_size(table_log);
        }
        let norm_count: i16 = norm_counts[symbol];
        if norm_count == 0 {
            proof {
                lemma_shift_16((table_log + 1) as u32);
            }
            symbol_tt[symbol].delta_nb_bits = ((table_log + 1) << 16) - (1u32 << table_log);
        } else if norm_count == -1 || norm_count == 1 {
            proof {
                lemma_shift_16(table_log);
            }
            symbol_tt[symbol].delta_nb_bits = (table_log << 16) - (1u32 << table_log);
            symbol_tt[symbol].delta_find_state = total - 1;
            total += 1;
        } else {
            let high = highbit_pos(norm_count as u32 - 1);
            proof {
                lemma_highbit_bounds((norm_count - 1) as nat);
                lemma_transform_bounds(norm_count, table_log);
            }
            let max_bits_out: u32 = table_log - high;
            let min_state_plus: u32 = (norm_count as u32) << max_bits_out;
            proof {
                lemma_shift_16(max_bits_out);
                lemma_u32_shl_is_mul(norm_count as u32, max_bits_out);
            }
            symbol_tt[symbol].delta_nb_bits = (max_bits_out << 16) - min_state_plus;
            symbol_tt[symbol].delta_find_state = total - norm_count as i32;
            total += norm_count as i32;
        }
        symbol += 1;
    }

    let table = CompressionTable { state_table, symbol_tt };
    proof {
        assert forall|s: int| 0 <= s <= max_symbol_value implies (
        #[trigger] table.symbol_tt@[s]).delta_nb_bits < 0xffff_0000 by {
            lemma_bit_cost_ready(norm, table_log, max_symbol_value, s as nat, 0);
        }
    }
    proof {
        if table_log <= 12 {
            assert forall|s: u8| s <= max_symbol_value && norm[s as int] != 0 implies #[trigger]
                table.encodes(s) by {
                lemma_table_encodes(table, norm, table_log, max_symbol_value, s);
            }
        }
    }
    table
}

impl CompressionTable {
    /// Number of states of the machine.
    pub open spec fn table_size(&self) -> int {
        self.state_table@.len() - 1
    }

    /// The states are the numbers from the table size up to twice of it.
    pub open spec fn is_state(&self, value: int) -> bool {
        self.table_size() <= value < 2 * self.table_size()
    }

    /// Bits that the encoder emits when it encodes `symbol` in state `value`.
    pub open spec fn bits_out(&self, symbol: u8, value: int) -> int {
        (value + self.symbol_tt@[symbol as int].delta_nb_bits) / 65536
    }

    /// Place in the state table of the state that follows `value` on `symbol`.
    pub open spec fn next_index(&self, symbol: u8, value: int) -> int {
        value / (pow2(self.bits_out(symbol, value) as nat) as int)
            + self.symbol_tt@[symbol as int].delta_find_state
    }

    /// State that follows `value` on `symbol`.
    pub open spec fn next_state(&self, symbol: u8, value: int) -> int {
        self.state_table@[self.next_index(symbol, value)] as int
    }

    /// Bits that the first state of `symbol` is derived with.
    pub open spec fn start_bits(&self, symbol: u8) -> int {
        (self.symbol_tt@[symbol as int].delta_nb_bits + 32768) / 65536
    }

    /// Place in the state table of the state that a coder starts in when
    /// `symbol` is the first symbol it sees.
    pub open spec fn start_index(&self, symbol: u8) -> int {
        (self.start_bits(symbol) * 65536 - self.symbol_tt@[symbol as int].delta_nb_bits) / (pow2(
            self.start_bits(symbol) as nat,
        ) as int) + self.symbol_tt@[symbol as int].delta_find_state
    }

    /// State that a coder starts in when `symbol` is the first symbol it sees.
    pub open spec fn start_state(&self, symbol: u8) -> int {
        self.state_table@[self.start_index(symbol)] as int
    }

    /// `symbol` can be encoded: a coder can start with it, and from every
    /// state it emits at most `FSE_MAX_TABLELOG` bits and moves to a state.
    #[verifier::opaque]
    pub open spec fn encodes(&self, symbol: u8) -> bool {
        &&& 2 <= self.table_size() <= 4096
        &&& symbol < self.symbol_tt@.len()
        &&& 0 <= self.start_bits(symbol) <= 12
        &&& self.symbol_tt@[symbol as int].delta_nb_bits <= self.start_bits(symbol) * 65536
        &&& 0 <= self.start_index(symbol) < self.table_size()
        &&& self.is_state(self.start_state(symbol))
        &&& forall|value: int| self.is_state(value) ==> #[trigger] self.steps(symbol, value)
    }

    /// In state `value` the symbol emits at most `FSE_MAX_TABLELOG` bits and
    /// leads to a state.
    pub open spec fn steps(&self, symbol: u8, value: int) -> bool {
        &&& 0 <= self.bits_out(symbol, value) <= 12
        &&& 0 <= self.next_index(symbol, value) < self.table_size()
        &&& self.is_state(self.next_state(symbol, value))
    }
}

/// A symbol with a single slot: every step emits `table_log` bits.
pub proof fn lemma_step_single(table_log: u32, value: int)
    requires
        5 <= table_log <= 12,
        pow2(table_log as nat) <= value < 2 * pow2(table_log as nat),
    ensures
        (value + (table_log * 65536 - pow2(table_log as nat))) / 65536 == table_log,
        value / (pow2(table_log as nat) as int) == 1,
        ((table_log * 65536 - pow2(table_log as nat)) + 32768) / 65536 == table_log,
{
    lemma_table_size(table_log);
    lemma_pow2_strictly_increases(table_log as nat, 13);
    lemma2_to64();
    let ts = pow2(table_log as nat) as int;
    assert(value / ts == 1) by (nonlinear_arith)
        requires
            ts <= value < 2 * ts,
            ts > 0,
    ;
}

/// A symbol with `count >= 2` slots: a step emits `max_bits_out` bits, or
/// one less, and what is left of the state lies from `count` up to
/// `2 * count - 1`.
pub proof fn lemma_step_multi(count: int, table_log: u32, value: int)
    requires
        5 <= table_log <= 12,
        2 <= count <= pow2(table_log as nat),
        pow2(table_log as nat) <= value < 2 * pow2(table_log as nat),
    ensures
        ({
            let out = (table_log - spec_highbit((count - 1) as nat)) as int;
            let delta = out * 65536 - count * pow2(out as nat);
            let bits = (value + delta) / 65536;
            &&& 1 <= out <= table_log
            &&& 0 <= delta
            &&& out - 1 <= bits <= out
            &&& count <= value / (pow2(bits as nat) as int) < 2 * count
            &&& (delta + 32768) / 65536 == out
            &&& (out * 65536 - delta) / (pow2(out as nat) as int) == count
        }),
{
    let ts = pow2(table_log as nat) as int;
    let high = spec_highbit((count - 1) as nat);
    lemma_table_size(table_log);
    lemma_pow2_strictly_increases(table_log as nat, 13);
    lemma2_to64();
    lemma_highbit_bounds((count - 1) as nat);
    lemma_transform_bounds(count as i16, table_log);
    let out = (table_log - high) as nat;
    let unit = pow2(out) as int;
    let half = pow2((out - 1) as nat) as int;
    let top = pow2(high) as int;
    lemma_pow2_pos(out);
    lemma_pow2_pos((out - 1) as nat);
    lemma_pow2_unfold(out);
    lemma_pow2_adds(high, out);
    let reach = count * unit;
    assert(reach > ts) by (nonlinear_arith)
        requires
            count >= top + 1,
            top * unit == ts,
            unit >= 1,
            reach == count * unit,
    ;
    let delta = out * 65536 - reach;
    let bits = (value + delta) / 65536;
    if value >= reach {
        assert(bits == out);
        assert(count <= value / unit < 2 * count) by (nonlinear_arith)
            requires
                count * unit <= value,
                value < 2 * (top * unit),
                2 * top <= 2 * count - 2,
                unit >= 1,
                top >= 1,
        ;
    } else {
        assert(bits == out - 1);
        assert(count <= value / half < 2 * count) by (nonlinear_arith)
            requires
                value < count * (2 * half),
                value >= top * (2 * half),
                count <= 2 * top,
                half >= 1,
        ;
    }
    assert(reach / unit == count) by (nonlinear_arith)
        requires
            reach == count * unit,
            unit >= 1,
    ;
}

/// Every symbol that the distribution gives a slot can be encoded with the
/// tables built from it.
pub proof fn lemma_table_encodes(
    table: CompressionTable,
    norm: Seq<i16>,
    table_log: u32,
    max_symbol_value: u32,
    symbol: u8,
)
    requires
        valid_distribution(norm, table_log, max_symbol_value),
        table_log <= 12,
        symbol <= max_symbol_value,
        norm[symbol as int] != 0,
        table.state_table@.len() == pow2(table_log as nat) + 1,
        forall|i: int|
            0 <= i < pow2(table_log as nat) ==> pow2(table_log as nat)
                <= #[trigger] table.state_table@[i] < 2 * pow2(table_log as nat),
        table.symbol_tt@.len() == max_symbol_value + 1,
        table.symbol_tt@[symbol as int] == spec_symbol_transform(norm, table_log, symbol as nat),
    ensures
        table.encodes(symbol),
{
    reveal(CompressionTable::encodes);
    let ts = pow2(table_log as nat) as int;
    let count = slots_of(norm[symbol as int]) as int;
    let total = slots_before(norm, symbol as nat) as int;
    lemma_table_size(table_log);
    lemma_pow2_strictly_increases(table_log as nat, 13);
    lemma2_to64();
    lemma_slots_monotone(norm, symbol as nat, (symbol + 1) as nat);
    lemma_slots_monotone(norm, (symbol + 1) as nat, (max_symbol_value + 1) as nat);
    assert(slots_before(norm, (symbol + 1) as nat) == total + count);
    let record = table.symbol_tt@[symbol as int];
    if count == 1 {
        lemma_step_single(table_log, ts);
        assert forall|value: int| table.is_state(value) implies #[trigger] table.steps(
            symbol,
            value,
        ) by {
            lemma_step_single(table_log, value);
        }
    } else {
        lemma_step_multi(count, table_log, ts);
        assert forall|value: int| table.is_state(value) implies #[trigger] table.steps(
            symbol,
            value,
        ) by {
            lemma_step_multi(count, table_log, value);
        }
    }
}

/// One cell of the decoding table: the symbol that a state stands for, the
/// number of bits to read next, and the base of the state that follows.
#[derive(Debug, Clone, Copy)]
pub struct FseDecode {
    pub new_state: u16,
    pub symbol: u8,
    pub nb_bits: u8,
}

impl Default for FseDecode {
    fn default() -> (r: Self)
        ensures
            r.new_state == 0,
            r.symbol == 0,
            r.nb_bits == 0,
    {
        FseDecode { new_state: 0, symbol: 0, nb_bits: 0 }
    }
}

/// Decoding table, indexed by the decoder's state.
#[derive(Debug)]
pub struct DecompressionTable {
    pub table: Vec<FseDecode>,
    pub fast: bool,
}

impl DecompressionTable {
    /// Every cell keeps the decoder inside a table of `2^table_log` states:
    /// it reads at most `table_log` bits, and whatever these bits are, adding
    /// them to `new_state` gives a state of the table.
    pub open spec fn steps_within(&self, table_log: u32) -> bool {
        &&& table_log <= 12
        &&& self.table@.len() == pow2(table_log as nat)
        &&& forall|u: int|
            0 <= u < self.table@.len() ==> (#[trigger] self.table@[u]).nb_bits <= table_log
                && self.table@[u].new_state + pow2(self.table@[u].nb_bits as nat)
                <= self.table@.len()
    }

    /// Every cell reads at most `FSE_MAX_TABLELOG` bits, and whatever these
    /// bits are, adding them to `new_state` gives a state of the table.
    pub open spec fn closed(&self) -> bool {
        forall|u: int|
            0 <= u < self.table@.len() ==> (#[trigger] self.table@[u]).nb_bits <= 12
                && self.table@[u].new_state + pow2(self.table@[u].nb_bits as nat)
                <= self.table@.len()
    }

    /// Every cell reads at least one bit, which the unchecked read needs.
    pub open spec fn fast_ready(&self) -> bool {
        forall|u: int| 0 <= u < self.table@.len() ==> (#[trigger] self.table@[u]).nb_bits >= 1
    }
}

/// The cell of state `u`.
///
/// The slots of a symbol with count `c` are numbered `c, c + 1, ..` in slot
/// order; a slot numbered `n` reads `table_log - highbit(n)` bits and leads
/// to the states from `n * 2^bits - 2^table_log` on.
pub open spec fn spec_decode_entry(
    norm: Seq<i16>,
    table_log: u32,
    max_symbol_value: u32,
    u: nat,
) -> FseDecode {
    let table = spread_table(norm, table_log, max_symbol_value);
    let symbol = table[u as int];
    let number = slots_of(norm[symbol as int]) + occurrences(table, symbol, u);
    let nb_bits = (table_log - spec_highbit(number)) as nat;
    FseDecode {
        new_state: (number * pow2(nb_bits) - pow2(table_log as nat)) as u16,
        symbol,
        nb_bits: nb_bits as u8,
    }
}

/// No symbol owns more than half of the table.
pub open spec fn spec_fast_mode(norm: Seq<i16>, table_log: u32, max_symbol_value: u32) -> bool {
    forall|s: int|
        0 <= s <= max_symbol_value ==> #[trigger] norm[s] <= pow2((table_log - 1) as nat)
}

/// A number below `2^e` has its highest bit below `e`.
pub proof fn lemma_highbit_below(number: nat, e: nat)
    requires
        1 <= number < pow2(e),
    ensures
        spec_highbit(number) < e,
{
    lemma_highbit_bounds(number);
    if spec_highbit(number) > e {
        lemma_pow2_strictly_increases(e, spec_highbit(number));
    }
}

/// A slot number within two table sizes: the bits it reads and the states it
/// leads to stay inside the table.
pub proof fn lemma_decode_entry(number: nat, table_log: u32)
    requires
        1 <= number < 2 * pow2(table_log as nat),
        table_log <= 15,
    ensures
        spec_highbit(number) <= table_log,
        pow2(table_log as nat) <= number * pow2((table_log - spec_highbit(number)) as nat),
        (number + 1) * pow2((table_log - spec_highbit(number)) as nat) <= 2 * pow2(
            table_log as nat,
        ),
        pow2((table_log - spec_highbit(number)) as nat) <= pow2(table_log as nat),
        number * pow2((table_log - spec_highbit(number)) as nat) + pow2(
            (table_log - spec_highbit(number)) as nat,
        ) <= 2 * pow2(table_log as nat),
{
    let high = spec_highbit(number);
    lemma_highbit_bounds(number);
    lemma_pow2_unfold((table_log + 1) as nat);
    if high > table_log {
        if high > table_log + 1 {
            lemma_pow2_strictly_increases((table_log + 1) as nat, high);
        }
        assert(false);
    }
    let bits = (table_log - high) as nat;
    lemma_pow2_adds(high, bits);
    lemma_pow2_pos(bits);
    lemma_pow2_pos(high);
    assert(pow2(high) * pow2(bits) <= number * pow2(bits)) by (nonlinear_arith)
        requires
            pow2(high) <= number,
    ;
    assert((number + 1) * pow2(bits) <= (2 * pow2(high)) * pow2(bits)) by (nonlinear_arith)
        requires
            number + 1 <= 2 * pow2(high),
    ;
    assert((2 * pow2(high)) * pow2(bits) == 2 * (pow2(high) * pow2(bits))) by (nonlinear_arith);
    assert(pow2(bits) <= pow2(high) * pow2(bits)) by (nonlinear_arith)
        requires
            pow2(high) >= 1,
    ;
    assert(number * pow2(bits) + pow2(bits) == (number + 1) * pow2(bits)) by (nonlinear_arith);
}

/// Builds the decoding table from a normalized distribution.
///
/// Every cell keeps the decoder inside the table: from state `u`, reading
/// `nb_bits` bits and adding them to `new_state` gives a state below
/// `2^table_log`.
pub fn build_decompression_table(
    norm_counts: &NormCountsTable,
    table_log: u32,
    max_symbol_value: u32,
) -> (table: DecompressionTable)
    requires
        valid_distribution(norm_counts@, table_log, max_symbol_value),
        table_log <= crate::FSE_MAX_TABLELOG,
    ensures
        table.table@.len() == pow2(table_log as nat),
        forall|u: int|
            0 <= u < pow2(table_log as nat) ==> #[trigger] table.table@[u] == spec_decode_entry(
                norm_counts@,
                table_log,
                max_symbol_value,
                u as nat,
            ),
        forall|u: int|
            0 <= u < pow2(table_log as nat) ==> (#[trigger] table.table@[u]).nb_bits <= table_log
                && table.table@[u].new_state + pow2(table.table@[u].nb_bits as nat) <= pow2(
                table_log as nat,
            ),
        table.fast == spec_fast_mode(norm_counts@, table_log, max_symbol_value),
        table.steps_within(table_log),
        table.fast ==> table.fast_ready(),
{
    let ghost norm = norm_counts@;
    let ghost symbols = (max_symbol_value + 1) as nat;
    let ghost ts = pow2(table_log as nat);
    proof {
        lemma_table_size(table_log);
        lemma_table_size((table_log - 1) as u32);
        lemma_pow2_strictly_increases((table_log - 1) as nat, 15);
        lemma2_to64();
    }
    let mut next_symbol_table: Vec<u16> = vec![0u16; max_symbol_value as usize + 1];
    let table_size: usize = 1usize << table_log;
    let mut table_decode: Vec<FseDecode> = vec![FseDecode::default(); table_size];

    let large_limit: i16 = (1u32 << (table_log - 1)) as i16;
    let mut fast_mode = true;
    let mut symbol: usize = 0;
    while symbol <= max_symbol_value as usize
        invariant
            valid_distribution(norm, table_log, max_symbol_value),
            norm == norm_counts@,
            symbols == max_symbol_value + 1,
            symbol <= symbols,
            large_limit == pow2((table_log - 1) as nat),
            next_symbol_table@.len() == symbols,
            forall|s: int| 0 <= s < symbol ==> #[trigger] next_symbol_table@[s] == slots_of(norm[s]),
            fast_mode == (forall|s: int|
                0 <= s < symbol ==> #[trigger] norm[s] <= pow2((table_log - 1) as nat)),
        decreases symbols - symbol,
    {
        let norm_count: i16 = norm_counts[symbol];
        if norm_count == -1 {
            next_symbol_table[symbol] = 1;
        } else {
            if norm_count > large_limit {
                fast_mode = false;
            }
            next_symbol_table[symbol] = norm_count as u16;
        }
        symbol += 1;
    }

    let table_symbol = spread_symbols(norm_counts, table_log, max_symbol_value);
    proof {
        lemma_spread_counts(norm, table_log, max_symbol_value);
    }

    let mut u: usize = 0;
    while u < table_size
        invariant
            valid_distribution(norm, table_log, max_symbol_value),
            table_log <= 12,
            symbols == max_symbol_value + 1,
            ts == pow2(table_log as nat),
            ts == table_size,
            ts <= 32768,
            u <= ts,
            table_symbol@ == spread_table(norm, table_log, max_symbol_value),
            table_symbol@.len() == ts,
            table_decode@.len() == ts,
            next_symbol_table@.len() == symbols,
            forall|i: int| 0 <= i < ts ==> #[trigger] table_symbol@[i] <= max_symbol_value,
            forall|s: int|
                0 <= s <= max_symbol_value ==> #[trigger] occurrences(table_symbol@, s as u8, ts)
                    == slots_of(norm[s]),
            forall|s: int|
                0 <= s <= max_symbol_value ==> #[trigger] next_symbol_table@[s] == slots_of(
                    norm[s],
                ) + occurrences(table_symbol@, s as u8, u as nat),
            forall|i: int|
                0 <= i < u ==> #[trigger] table_decode@[i] == spec_decode_entry(
                    norm,
                    table_log,
                    max_symbol_value,
                    i as nat,
                ),
            forall|i: int|
                0 <= i < u ==> (#[trigger] table_decode@[i]).nb_bits <= table_log
                    && table_decode@[i].new_state + pow2(table_decode@[i].nb_bits as nat) <= ts,
            fast_mode == spec_fast_mode(norm, table_log, max_symbol_value),
            fast_mode ==> forall|i: int| 0 <= i < u ==> (#[trigger] table_decode@[i]).nb_bits >= 1,
        decreases ts - u,
    {
        let symbol = table_symbol[u];
        let next_state: u16 = next_symbol_table[symbol as usize];
        proof {
            lemma_occurrences_monotone(table_symbol@, symbol, (u + 1) as nat, ts);
            assert(occurrences(table_symbol@, symbol, (u + 1) as nat) == occurrences(
                table_symbol@,
                symbol,
                u as nat,
            ) + 1);
            assert(occurrences(table_symbol@, symbol as int as u8, ts) == slots_of(
                norm[symbol as int],
            ));
            lemma_slots_monotone(norm, symbol as nat, (symbol + 1) as nat);
            lemma_slots_monotone(norm, (symbol + 1) as nat, symbols);
            assert(slots_before(norm, (symbol + 1) as nat) == slots_before(norm, symbol as nat)
                + slots_of(norm[symbol as int]));
            lemma_decode_entry(next_state as nat, table_log);
            if fast_mode {
                assert(norm[symbol as int] <= pow2((table_log - 1) as nat));
                lemma_pow2_unfold(table_log as nat);
                lemma_highbit_below(next_state as nat, table_log as nat);
            }
        }
        next_symbol_table[symbol as usize] = next_state + 1;
        let nb_bits: u8 = table_log as u8 - highbit_pos(next_state as u32) as u8;
        proof {
            lemma_u32_shl_is_mul(next_state as u32, nb_bits as u32);
        }
        let new_state: u16 = (((next_state as u32) << (nb_bits as u32)) - table_size as u32) as u16;
        table_decode[u] = FseDecode { new_state, symbol, nb_bits };
        proof {
            assert forall|s: int| 0 <= s <= max_symbol_value implies #[trigger] next_symbol_table@[s]
                == slots_of(norm[s]) + occurrences(table_symbol@, s as u8, (u + 1) as nat) by {
                if s != symbol {
                    assert(occurrences(table_symbol@, s as u8, (u + 1) as nat) == occurrences(
                        table_symbol@,
                        s as u8,
                        u as nat,
                    ));
                }
            }
        }
        u += 1;
    }

    DecompressionTable { table: table_decode, fast: fast_mode }
}

pub proof fn lemma_shift_16(x: u32)
    requires
        x <= 16,
    ensures
        (x << 16) == x * 65536,
{
    assert(x <= 16 ==> (x << 16) == x * 65536) by (bit_vector);
}

/// A count of at least two in a table of `2^table_log` slots: its highest
/// bit lies below `table_log`, and the count shifted to state width stays
/// within two table sizes.
pub proof fn lemma_transform_bounds(count: i16, table_log: u32)
    requires
        2 <= count <= pow2(table_log as nat),
        table_log <= 15,
    ensures
        spec_highbit((count - 1) as nat) < table_log,
        count * pow2((table_log - spec_highbit((count - 1) as nat)) as nat) <= 2 * pow2(
            table_log as nat,
        ),
        2 * pow2(table_log as nat) <= 65536,
{
    let high = spec_highbit((count - 1) as nat);
    lemma_highbit_bounds((count - 1) as nat);
    lemma2_to64();
    lemma_pow2_strictly_increases(table_log as nat, 16);
    if high >= table_log {
        if high > table_log {
            lemma_pow2_strictly_increases(table_log as nat, high);
        }
        assert(false);
    }
    let out = (table_log - high) as nat;
    lemma_pow2_adds(high, out);
    lemma_pow2_pos(out);
    assert(count <= 2 * pow2(high));
    assert(count * pow2(out) <= (2 * pow2(high)) * pow2(out)) by (nonlinear_arith)
        requires
            count <= 2 * pow2(high),
            pow2(out) > 0,
    ;
    assert((2 * pow2(high)) * pow2(out) == 2 * (pow2(high) * pow2(out))) by (nonlinear_arith);
}

/// Tests whether `norm_counts` is a normalized distribution over the
/// symbols up to `max_symbol_value` for a table of `2^table_log` slots.
pub fn is_valid_distribution(
    norm_counts: &NormCountsTable,
    table_log: u32,
    max_symbol_value: u32,
) -> (ok: bool)
    ensures
        ok == valid_distribution(norm_counts@, table_log, max_symbol_value),
{
    if max_symbol_value > 255 || table_log < 5 || table_log > 15 {
        return false;
    }
    proof {
        lemma_table_size(table_log);
    }
    let table_size: u32 = 1u32 << table_log;
    let mut slots: u32 = 0;
    let mut symbol: usize = 0;
    while symbol <= max_symbol_value as usize
        invariant
            max_symbol_value <= 255,
            symbol <= max_symbol_value + 1,
            table_size == pow2(table_log as nat),
            table_size <= 32768,
            slots == slots_before(norm_counts@, symbol as nat),
            slots <= table_size,
            forall|s: int| 0 <= s < symbol ==> #[trigger] norm_counts@[s] >= -1,
        decreases max_symbol_value + 1 - symbol,
    {
        let count = norm_counts[symbol];
        if count < -1 {
            return false;
        }
        let own: u32 = if count == -1 { 1 } else { count as u32 };
        if own > table_size - slots {
            proof {
                lemma_slots_monotone(
                    norm_counts@,
                    (symbol + 1) as nat,
                    (max_symbol_value + 1) as nat,
                );
            }
            return false;
        }
        slots += own;
        symbol += 1;
    }
    slots == table_size
}

/// The transforms of a distribution can be priced: each of them meets what
/// `fse_get_max_nb_bits` and `fse_bit_cost` ask for, at any accuracy that
/// the table size leaves room for.
pub proof fn lemma_bit_cost_ready(
    norm: Seq<i16>,
    table_log: u32,
    max_symbol_value: u32,
    s: nat,
    accuracy_log: u32,
)
    requires
        valid_distribution(norm, table_log, max_symbol_value),
        s <= max_symbol_value,
        accuracy_log < 31 - table_log,
    ensures
        ({
            let delta = spec_symbol_transform(norm, table_log, s).delta_nb_bits;
            let lacks = spec_cost_delta(delta, table_log);
            &&& delta < 0xffff_0000
            &&& 0 <= lacks <= pow2(table_log as nat)
            &&& lacks * pow2(accuracy_log as nat) <= u32::MAX
            &&& (lacks * pow2(accuracy_log as nat)) / (pow2(table_log as nat) as int) <= pow2(
                accuracy_log as nat,
            )
            &&& (delta / 65536 + 1) * pow2(accuracy_log as nat) <= u32::MAX
        }),
{
    let count = norm[s as int];
    let size = pow2(table_log as nat) as int;
    let unit = pow2(accuracy_log as nat) as int;
    let delta = spec_symbol_transform(norm, table_log, s).delta_nb_bits;
    let lacks = spec_cost_delta(delta, table_log);
    lemma2_to64();
    vstd::arithmetic::power2::lemma2_to64_rest();
    lemma_table_size(table_log);
    lemma_pow2_pos(accuracy_log as nat);
    lemma_pow2_adds(table_log as nat, accuracy_log as nat);
    if table_log + accuracy_log < 30 {
        lemma_pow2_strictly_increases((table_log + accuracy_log) as nat, 30);
    }
    lemma_slots_monotone(norm, s, s + 1);
    lemma_slots_monotone(norm, s + 1, (max_symbol_value + 1) as nat);
    assert(table_log + 1 <= size) by {
        lemma_pow2_strictly_increases(4, table_log as nat);
    }
    if count >= 2 {
        lemma_transform_bounds(count, table_log);
        let high = spec_highbit((count - 1) as nat);
        let out = (table_log - high) as nat;
        lemma_highbit_bounds((count - 1) as nat);
        lemma_pow2_adds(high, out);
        lemma_pow2_pos(out);
        let shifted = count * pow2(out);
        assert(shifted >= size + 1) by (nonlinear_arith)
            requires
                shifted == count * pow2(out),
                count >= pow2(high) + 1,
                pow2(high) * pow2(out) == size,
                pow2(out) >= 1,
        ;
        assert(delta == out * 65536 - shifted);
        assert(delta / 65536 == out - 1);
        assert(lacks == shifted - size);
    } else if count != 0 {
        assert(delta == table_log * 65536 - size);
        assert(delta / 65536 == table_log - 1);
        assert(lacks == 0);
    } else {
        assert(delta == (table_log + 1) * 65536 - size);
        assert(delta / 65536 == table_log);
        assert(lacks == 0);
    }
    assert(lacks * unit <= size * unit) by (nonlinear_arith)
        requires
            0 <= lacks <= size,
            unit >= 0,
    ;
    vstd::arithmetic::div_mod::lemma_div_is_ordered(lacks * unit, size * unit, size);
    vstd::arithmetic::div_mod::lemma_div_multiples_vanish(unit, size);
    assert((delta / 65536 + 1) * unit <= size * unit) by (nonlinear_arith)
        requires
            0 <= delta / 65536 + 1 <= size,
            unit >= 0,
    ;
}

} // verus!
