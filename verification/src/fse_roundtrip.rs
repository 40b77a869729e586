//! Decoding gives back what was encoded: the state that the encoder
//! reaches on a symbol is the state from which the decoder gives the symbol
//! back and returns to where the encoder came from.

use vstd::prelude::*;
use vstd::arithmetic::power2::{
    pow2, lemma_pow2_pos, lemma2_to64, lemma_pow2_strictly_increases, lemma_pow2_adds,
    lemma_pow2_unfold,
};
use vstd::arithmetic::div_mod::{
    lemma_fundamental_div_mod, lemma_fundamental_div_mod_converse, lemma_mod_bound, lemma_small_mod,
};
use crate::{
    compress_result, holds_stream, is_compression_table, is_decompression_table, spec_counts,
    spec_max_symbol, lemma_compressible, FSE_DEFAULT_TABLELOG, FSE_MAX_TABLELOG,
};
use crate::bitstream::{
    BitCstreamOwned, BitDStreamReverse, BitDstreamStatus, spec_highbit, lemma_highbit_bounds,
    lemma_highbit_bracket, le_value, lemma_le_value_bound, lemma_le_value_append,
    lemma_le_value_single, spec_look_bits, spec_look_bits_fast, spec_reload,
    lemma_look_bits_agree, fields_bits, fields_value, lemma_push_field,
};
use crate::compress::{coder_state, symbol_fields, spec_fse_fields};
use crate::decompress::{
    reader_after, spec_reader, spec_decode_step, spec_first_state, spec_decode_groups,
    spec_decode_tail, spec_fse_decode,
};
use crate::header::{bits_at, lemma_le_value_tail};
use crate::header_roundtrip::{
    lemma_bits_within, fields_fit, is_prefix, lemma_prefix_field, lemma_prefix_trans,
    lemma_bits_last, lemma_fields_value_bound,
};
use crate::hist::{spec_normalized, lemma_normalized_keeps};
use crate::spread::{occurrences, lemma_occurrences_monotone, lemma_spread_counts};
use crate::table::{
    valid_distribution, slots_before, slots_of, lemma_slots_monotone, spread_table, state_fill,
    slot_starts, spec_state_table, spec_symbol_transform, spec_decode_entry, lemma_table_size,
    lemma_step_single, lemma_step_multi, CompressionTable, DecompressionTable,
    lemma_highbit_below,
};
use crate::table_log::spec_optimal_table_log;

verus! {

/// Place in the state table of the state that leads into slot `u`: the
/// slots of a symbol stand together, in slot order.
pub open spec fn slot_place(norm: Seq<i16>, table_log: u32, top: u32, u: int) -> int {
    let table = spread_table(norm, table_log, top);
    (slots_before(norm, table[u] as nat) + occurrences(table, table[u], u as nat)) as int
}

/// The place of a slot lies among the places of its symbol.
pub proof fn lemma_slot_place(norm: Seq<i16>, table_log: u32, top: u32, u: int)
    requires
        valid_distribution(norm, table_log, top),
        0 <= u < pow2(table_log as nat),
    ensures
        ({
            let table = spread_table(norm, table_log, top);
            let s = table[u] as nat;
            &&& s <= top
            &&& slots_of(norm[s as int]) >= 1
            &&& slots_before(norm, s) <= slot_place(norm, table_log, top, u) < slots_before(
                norm,
                s + 1,
            )
            &&& slots_before(norm, s + 1) == slots_before(norm, s) + slots_of(norm[s as int])
            &&& slots_before(norm, s + 1) <= pow2(table_log as nat)
            &&& occurrences(table, table[u], u as nat) < slots_of(norm[s as int])
        }),
{
    let table = spread_table(norm, table_log, top);
    let s = table[u];
    lemma_spread_counts(norm, table_log, top);
    lemma_occurrences_monotone(table, s, (u + 1) as nat, pow2(table_log as nat));
    assert(occurrences(table, s, (u + 1) as nat) == occurrences(table, s, u as nat) + 1);
    assert(occurrences(table, (s as int) as u8, pow2(table_log as nat)) == slots_of(norm[s as int]));
    lemma_slots_monotone(norm, (s + 1) as nat, (top + 1) as nat);
    lemma_slots_monotone(norm, s as nat, (s + 1) as nat);
}

/// Different slots have different places.
pub proof fn lemma_slot_places_differ(norm: Seq<i16>, table_log: u32, top: u32, a: int, b: int)
    requires
        valid_distribution(norm, table_log, top),
        0 <= a < b < pow2(table_log as nat),
    ensures
        slot_place(norm, table_log, top, a) != slot_place(norm, table_log, top, b),
{
    let table = spread_table(norm, table_log, top);
    lemma_slot_place(norm, table_log, top, a);
    lemma_slot_place(norm, table_log, top, b);
    let s = table[a];
    let t = table[b];
    if s == t {
        lemma_occurrences_monotone(table, s, (a + 1) as nat, b as nat);
        assert(occurrences(table, s, (a + 1) as nat) == occurrences(table, s, a as nat) + 1);
    } else if s < t {
        lemma_slots_monotone(norm, (s + 1) as nat, t as nat);
    } else {
        lemma_slots_monotone(norm, (t + 1) as nat, s as nat);
    }
}

/// The state table after the first `u` slots: the cursor of each symbol
/// has moved past the slots of the symbol so far, and the place of each of
/// these slots holds the state that leads into the slot.
pub proof fn lemma_state_fill(norm: Seq<i16>, table_log: u32, top: u32, u: nat)
    requires
        valid_distribution(norm, table_log, top),
        u <= pow2(table_log as nat),
    ensures
        ({
            let size = pow2(table_log as nat);
            let table = spread_table(norm, table_log, top);
            let filled = state_fill(table, slot_starts(norm, table_log, top), size, u);
            &&& filled.0.len() == size + 1
            &&& filled.1.len() == top + 2
            &&& forall|s: int|
                0 <= s <= top ==> #[trigger] filled.1[s] == slots_before(norm, s as nat)
                    + occurrences(table, s as u8, u)
            &&& forall|v: int|
                0 <= v < u ==> filled.0[#[trigger] slot_place(norm, table_log, top, v)] == size + v
        }),
    decreases u,
{
    let size = pow2(table_log as nat);
    let table = spread_table(norm, table_log, top);
    let starts = slot_starts(norm, table_log, top);
    lemma_table_size(table_log);
    lemma_spread_counts(norm, table_log, top);
    if u == 0 {
        assert forall|s: int| 0 <= s <= top implies #[trigger] starts[s] == slots_before(
            norm,
            s as nat,
        ) + occurrences(table, s as u8, 0) by {
            lemma_slots_monotone(norm, s as nat, (top + 1) as nat);
        }
    } else {
        lemma_state_fill(norm, table_log, top, (u - 1) as nat);
        let before = state_fill(table, starts, size, (u - 1) as nat);
        let after = state_fill(table, starts, size, u);
        let s = table[u - 1];
        lemma_slot_place(norm, table_log, top, u - 1);
        assert(before.1[s as int] == slot_place(norm, table_log, top, u - 1));
        assert forall|x: int| 0 <= x <= top implies #[trigger] after.1[x] == slots_before(
            norm,
            x as nat,
        ) + occurrences(table, x as u8, u) by {
            lemma_slots_monotone(norm, (x + 1) as nat, (top + 1) as nat);
            lemma_slots_monotone(norm, x as nat, (x + 1) as nat);
            lemma_occurrences_monotone(table, x as u8, u, size);
            assert(occurrences(table, (x as u8) as int as u8, size) == slots_of(norm[x]));
            assert(before.1[x] == slots_before(norm, x as nat) + occurrences(
                table,
                x as u8,
                (u - 1) as nat,
            ));
        }
        assert forall|v: int| 0 <= v < u implies after.0[#[trigger] slot_place(
            norm,
            table_log,
            top,
            v,
        )] == size + v by {
            lemma_slot_place(norm, table_log, top, v);
            if v < u - 1 {
                lemma_slot_places_differ(norm, table_log, top, v, u - 1);
                assert(before.0[slot_place(norm, table_log, top, v)] == size + v);
            }
        }
    }
}

/// The slot of the `j`-th occurrence of a symbol.
pub proof fn lemma_nth_occurrence(table: Seq<u8>, symbol: u8, j: nat, n: nat) -> (u: nat)
    requires
        occurrences(table, symbol, n) > j,
    ensures
        u < n,
        table[u as int] == symbol,
        occurrences(table, symbol, u) == j,
    decreases n,
{
    if table[n - 1] == symbol && occurrences(table, symbol, (n - 1) as nat) == j {
        (n - 1) as nat
    } else {
        lemma_nth_occurrence(table, symbol, j, (n - 1) as nat)
    }
}

/// The state at place `j` of symbol `s` leads into the slot of the `j`-th
/// occurrence of `s`.
pub proof fn lemma_state_of_place(norm: Seq<i16>, table_log: u32, top: u32, s: u8, j: nat) -> (u:
    nat)
    requires
        valid_distribution(norm, table_log, top),
        s <= top,
        j < slots_of(norm[s as int]),
    ensures
        u < pow2(table_log as nat),
        spread_table(norm, table_log, top)[u as int] == s,
        occurrences(spread_table(norm, table_log, top), s, u) == j,
        spec_state_table(norm, table_log, top)[(slots_before(norm, s as nat) + j) as int] == pow2(
            table_log as nat,
        ) + u,
        slots_before(norm, s as nat) + j < pow2(table_log as nat),
{
    let size = pow2(table_log as nat);
    let table = spread_table(norm, table_log, top);
    lemma_spread_counts(norm, table_log, top);
    assert(occurrences(table, (s as int) as u8, size) == slots_of(norm[s as int]));
    let u = lemma_nth_occurrence(table, s, j, size);
    lemma_state_fill(norm, table_log, top, size);
    lemma_slot_place(norm, table_log, top, u as int);
    lemma_table_size(table_log);
    assert(spec_state_table(norm, table_log, top)[slot_place(norm, table_log, top, u as int)]
        == size + u);
    u
}

/// A number cut down by `bits` bits has its highest bit `bits` lower.
pub proof fn lemma_highbit_of_quotient(value: nat, high: nat, bits: nat)
    requires
        bits <= high,
        pow2(high) <= value < 2 * pow2(high),
    ensures
        pow2((high - bits) as nat) <= value / pow2(bits) < 2 * pow2((high - bits) as nat),
        spec_highbit(value / pow2(bits)) == high - bits,
{
    let unit = pow2(bits);
    let rest = pow2((high - bits) as nat);
    lemma_pow2_pos(bits);
    lemma_pow2_pos((high - bits) as nat);
    lemma_pow2_adds(bits, (high - bits) as nat);
    let q = value / unit;
    lemma_fundamental_div_mod(value as int, unit as int);
    lemma_mod_bound(value as int, unit as int);
    assert(rest <= q < 2 * rest) by (nonlinear_arith)
        requires
            unit * rest <= value,
            value < 2 * (unit * rest),
            value == unit * q + (value % unit),
            0 <= value % unit < unit,
            unit > 0,
    ;
    lemma_highbit_bracket(q, (high - bits) as nat);
}

/// A step of the decoder undoes a step of the encoder: the slot that the
/// encoder's next state leads into holds the symbol, reads as many bits as
/// the encoder has put out, and with these bits leads back to the state
/// that the encoder came from.
pub proof fn lemma_step_undone(
    comp: &CompressionTable,
    norm: Seq<i16>,
    table_log: u32,
    top: u32,
    symbol: u8,
    value: int,
)
    requires
        valid_distribution(norm, table_log, top),
        table_log <= 12,
        is_compression_table(comp, norm, table_log, top),
        symbol <= top,
        norm[symbol as int] != 0,
        pow2(table_log as nat) <= value < 2 * pow2(table_log as nat),
    ensures
        ({
            let size = pow2(table_log as nat) as int;
            let slot = comp.next_state(symbol, value) - size;
            let cell = spec_decode_entry(norm, table_log, top, slot as nat);
            &&& 0 <= slot < size
            &&& cell.symbol == symbol
            &&& cell.nb_bits == comp.bits_out(symbol, value)
            &&& 0 <= comp.bits_out(symbol, value) <= table_log
            &&& cell.new_state + value % (pow2(cell.nb_bits as nat) as int) == value - size
        }),
{
    let size = pow2(table_log as nat) as int;
    let count = slots_of(norm[symbol as int]) as int;
    let total = slots_before(norm, symbol as nat) as int;
    let table = spread_table(norm, table_log, top);
    lemma_table_size(table_log);
    lemma_pow2_strictly_increases(table_log as nat, 13);
    lemma2_to64();
    lemma_slots_monotone(norm, symbol as nat, (symbol + 1) as nat);
    lemma_slots_monotone(norm, (symbol + 1) as nat, (top + 1) as nat);
    assert(slots_before(norm, (symbol + 1) as nat) == total + count);
    assert(comp.symbol_tt@[symbol as int] == spec_symbol_transform(
        norm,
        table_log,
        symbol as nat,
    ));
    if count == 1 {
        lemma_step_single(table_log, value);
        let u = lemma_state_of_place(norm, table_log, top, symbol, 0);
        assert(comp.bits_out(symbol, value) == table_log);
        assert(comp.next_index(symbol, value) == total);
        assert(comp.next_state(symbol, value) == size + u);
        lemma_fundamental_div_mod_converse(value, size, 1, value - size);
        assert(spec_highbit(1) == 0);
        let cell = spec_decode_entry(norm, table_log, top, u);
        assert(cell.symbol == symbol);
        assert(cell.nb_bits == table_log);
        assert(1 * pow2(table_log as nat) == pow2(table_log as nat));
        assert(cell.new_state == 0);
    } else {
        lemma_step_multi(count, table_log, value);
        let bits = comp.bits_out(symbol, value);
        let q = value / (pow2(bits as nat) as int);
        let j = (q - count) as nat;
        let u = lemma_state_of_place(norm, table_log, top, symbol, j);
        assert(comp.next_index(symbol, value) == total + j);
        assert(comp.next_state(symbol, value) == size + u);
        lemma_pow2_unfold((table_log + 1) as nat);
        lemma_highbit_of_quotient(value as nat, table_log as nat, bits as nat);
        lemma_pow2_pos(bits as nat);
        lemma_fundamental_div_mod(value, pow2(bits as nat) as int);
        lemma_mod_bound(value, pow2(bits as nat) as int);
        assert(q * pow2(bits as nat) == pow2(bits as nat) * q) by (nonlinear_arith);
        let cell = spec_decode_entry(norm, table_log, top, u);
        assert(cell.symbol == symbol);
        assert(count + j == q);
        assert(cell.nb_bits == bits);
        lemma_pow2_adds(bits as nat, (table_log - bits) as nat);
        assert(q * pow2(bits as nat) >= size) by (nonlinear_arith)
            requires
                q >= pow2((table_log - bits) as nat),
                pow2(bits as nat) * pow2((table_log - bits) as nat) == size,
                pow2(bits as nat) > 0,
        ;
        assert(cell.new_state == q * pow2(bits as nat) - size);
    }
}

/// The state that a coder starts in with a symbol leads into a slot of
/// that symbol, which reads at least one bit where the symbol does not own
/// the whole table.
pub proof fn lemma_start_undone(
    comp: &CompressionTable,
    norm: Seq<i16>,
    table_log: u32,
    top: u32,
    symbol: u8,
)
    requires
        valid_distribution(norm, table_log, top),
        table_log <= 12,
        is_compression_table(comp, norm, table_log, top),
        symbol <= top,
        norm[symbol as int] != 0,
        slots_of(norm[symbol as int]) < pow2(table_log as nat),
    ensures
        ({
            let size = pow2(table_log as nat) as int;
            let slot = comp.start_state(symbol) - size;
            let cell = spec_decode_entry(norm, table_log, top, slot as nat);
            &&& 0 <= slot < size
            &&& cell.symbol == symbol
            &&& 1 <= cell.nb_bits <= table_log
        }),
{
    let size = pow2(table_log as nat) as int;
    let count = slots_of(norm[symbol as int]) as int;
    let total = slots_before(norm, symbol as nat) as int;
    lemma_table_size(table_log);
    lemma_pow2_strictly_increases(table_log as nat, 13);
    lemma2_to64();
    lemma_slots_monotone(norm, symbol as nat, (symbol + 1) as nat);
    lemma_slots_monotone(norm, (symbol + 1) as nat, (top + 1) as nat);
    assert(comp.symbol_tt@[symbol as int] == spec_symbol_transform(
        norm,
        table_log,
        symbol as nat,
    ));
    let u = lemma_state_of_place(norm, table_log, top, symbol, 0);
    if count == 1 {
        lemma_step_single(table_log, size);
        assert(spec_highbit(1) == 0);
    } else {
        lemma_step_multi(count, table_log, size);
    }
    assert(comp.start_index(symbol) == total);
    lemma_highbit_below(count as nat, table_log as nat);
}

/// Position in the stream of the next bit that the reader reads, counted
/// from the low end of the stream: the reader reads downwards from it.
pub open spec fn cursor(reader: BitDStreamReverse) -> int {
    8 * (reader.input_pos + 8) - reader.bits_consumed
}

/// The reader reads `data`: its register holds the 64 bits of `data` from
/// its position on.
pub open spec fn sees(reader: BitDStreamReverse, data: Seq<u8>) -> bool {
    &&& reader.attached(data)
    &&& reader.bit_container == bits_at(le_value(data), (8 * reader.input_pos) as nat, 64)
}

/// The 64 bits of `data` from byte `at` on are its bytes from `at` on, as
/// far as it has them.
pub proof fn lemma_window_64(data: Seq<u8>, at: int)
    requires
        0 <= at <= data.len(),
    ensures
        bits_at(le_value(data), (8 * at) as nat, 64) == le_value(
            data.subrange(at, if at + 8 <= data.len() { at + 8 } else { data.len() as int }),
        ),
        bits_at(le_value(data), (8 * at) as nat, 64) < pow2(64),
{
    lemma2_to64();
    lemma_le_value_tail(data, at);
    let tail = data.subrange(at, data.len() as int);
    if tail.len() >= 8 {
        let first = tail.subrange(0, 8);
        let rest = tail.subrange(8, tail.len() as int);
        assert(tail =~= first + rest);
        assert(first =~= data.subrange(at, at + 8));
        lemma_le_value_append(first, rest);
        lemma_le_value_bound(first);
        assert(pow2(64) * le_value(rest) == le_value(rest) * pow2(64)) by (nonlinear_arith);
        lemma_fundamental_div_mod_converse(
            le_value(tail) as int,
            pow2(64) as int,
            le_value(rest) as int,
            le_value(first) as int,
        );
    } else {
        lemma_le_value_bound(tail);
        if 8 * tail.len() < 64 {
            lemma_pow2_strictly_increases(8 * tail.len(), 64);
        }
        lemma_small_mod(le_value(tail), pow2(64));
    }
}

/// The reader at the end of a stream of `bits` bits, the highest of which
/// is set: it sees the stream, and its cursor stands right below the
/// highest bit.
pub proof fn lemma_reader_starts(data: Seq<u8>, bits: nat)
    requires
        bits >= 1,
        pow2((bits - 1) as nat) <= le_value(data) < pow2(bits),
        data.len() == (bits + 7) / 8,
        data.len() <= usize::MAX,
    ensures
        data.len() >= 1,
        data[data.len() - 1] != 0,
        sees(spec_reader(data), data),
        cursor(spec_reader(data)) == bits - 1,
        spec_reader(data).bits_consumed <= 64,
        spec_reader(data).input_pos == 0 || spec_reader(data).bits_consumed <= 8,
{
    let n = le_value(data);
    let len = data.len() as int;
    let below = (8 * (len - 1)) as nat;
    let last = data[len - 1];
    lemma2_to64();
    lemma_le_value_tail(data, len - 1);
    assert(data.subrange(len - 1, len) =~= seq![last]);
    lemma_le_value_single(last);
    lemma_pow2_unfold(bits);
    lemma_highbit_of_quotient(n, (bits - 1) as nat, below);
    lemma_pow2_pos((bits - 1 - below) as nat);
    let pos = if len >= 8 { len - 8 } else { 0 };
    lemma_window_64(data, pos);
    lemma_pow2_strictly_increases((bits - 1 - below) as nat, 8);
    lemma_highbit_bounds(last as nat);
    assert(spec_highbit(last as nat) == bits - 1 - below);
    assert(spec_reader(data).input_pos == pos);
    assert(data.subrange(pos, len) =~= data.subrange(
        pos,
        if pos + 8 <= data.len() { pos + 8 } else { data.len() as int },
    ));
}

/// A read of bits that lie inside the register gives the bits of the
/// stream right below the cursor, by either way of reading.
pub proof fn lemma_read(reader: BitDStreamReverse, data: Seq<u8>, nb_bits: u32)
    requires
        sees(reader, data),
        reader.bits_consumed + nb_bits <= 64,
        nb_bits <= 16,
    ensures
        spec_look_bits(reader.bit_container, reader.bits_consumed, nb_bits) == bits_at(
            le_value(data),
            (cursor(reader) - nb_bits) as nat,
            nb_bits as nat,
        ),
        nb_bits >= 1 ==> spec_look_bits_fast(reader.bit_container, reader.bits_consumed, nb_bits)
            == bits_at(le_value(data), (cursor(reader) - nb_bits) as nat, nb_bits as nat),
        sees(reader_after(reader, nb_bits as int), data),
        cursor(reader_after(reader, nb_bits as int)) == cursor(reader) - nb_bits,
{
    let start = (64 - reader.bits_consumed - nb_bits) as nat;
    lemma2_to64();
    if nb_bits >= 1 {
        lemma_look_bits_agree(reader.bit_container, reader.bits_consumed, nb_bits);
    } else {
        assert(pow2(0) == 1);
    }
    lemma_bits_within(
        le_value(data),
        (8 * reader.input_pos) as nat,
        64,
        start,
        nb_bits as nat,
    );
}

/// A reload of a reader that has not read past its register: the cursor
/// stays where it is, the reader sees the stream, and it either stands at
/// the start of the stream or has read less than a byte of its register.
pub proof fn lemma_reload(reader: BitDStreamReverse, data: Seq<u8>)
    requires
        sees(reader, data),
        reader.bits_consumed <= 64,
    ensures
        ({
            let loaded = spec_reload(reader, data);
            &&& sees(loaded.0, data)
            &&& cursor(loaded.0) == cursor(reader)
            &&& loaded.0.bits_consumed <= 64
            &&& loaded.1 != BitDstreamStatus::Overflow
            &&& loaded.1 == BitDstreamStatus::Unfinished ==> loaded.0.bits_consumed < 8
            &&& loaded.0.input_pos == 0 || loaded.0.bits_consumed < 8
        }),
{
    let loaded = spec_reload(reader, data);
    let pos = loaded.0.input_pos as int;
    lemma_window_64(data, pos);
    lemma2_to64();
}

/// A reader that has read past the start of the stream reports it.
pub proof fn lemma_reload_past_start(reader: BitDStreamReverse, data: Seq<u8>)
    requires
        reader.bits_consumed > 64,
    ensures
        spec_reload(reader, data) == (reader, BitDstreamStatus::Overflow),
{
}

/// What encoder and decoder share: tables of one distribution, and an
/// input of more than two symbols each of which has a slot, none of them
/// the whole table.
pub open spec fn coded(
    input: Seq<u8>,
    comp: &CompressionTable,
    table: &DecompressionTable,
    norm: Seq<i16>,
    table_log: u32,
    top: u32,
) -> bool {
    &&& valid_distribution(norm, table_log, top)
    &&& table_log <= 12
    &&& is_compression_table(comp, norm, table_log, top)
    &&& is_decompression_table(table, norm, table_log, top)
    &&& table.fast ==> table.fast_ready()
    &&& input.len() > 2
    &&& forall|i: int|
        0 <= i < input.len() ==> (#[trigger] input[i]) <= top && norm[input[i] as int] != 0
            && slots_of(norm[input[i] as int]) < pow2(table_log as nat)
}

/// The slot that the coder of index `i` stands at once it has taken in the
/// symbol at `i`: the state that the decoder of index `i` gives it back
/// from.
pub open spec fn slot_at(input: Seq<u8>, comp: &CompressionTable, table_log: u32, i: int) -> int {
    coder_state(input, comp, i) - pow2(table_log as nat)
}

/// Bits that the symbols from index `i` on have put into the stream.
pub open spec fn rest_bits(input: Seq<u8>, comp: &CompressionTable, i: int) -> nat {
    fields_bits(symbol_fields(input, comp, i))
}

/// The field that the symbol at `i` has put into the stream.
pub open spec fn field_at(input: Seq<u8>, comp: &CompressionTable, i: int) -> (nat, nat) {
    let state = coder_state(input, comp, i + 2);
    let bits = comp.bits_out(input[i], state) as nat;
    ((state % (pow2(bits) as int)) as nat, bits)
}

/// The coder of index `i` stands at a slot whose cell holds the symbol at
/// `i`; where the coder has taken in symbols before, the cell reads the
/// bits that the symbol has put out and leads back to the slot from which
/// the symbol was taken in.
pub proof fn lemma_coder_state(
    input: Seq<u8>,
    comp: &CompressionTable,
    table: &DecompressionTable,
    norm: Seq<i16>,
    table_log: u32,
    top: u32,
    i: int,
)
    requires
        coded(input, comp, table, norm, table_log, top),
        0 <= i < input.len(),
    ensures
        ({
            let size = pow2(table_log as nat) as int;
            let slot = slot_at(input, comp, table_log, i);
            let cell = table.table@[slot];
            &&& 0 <= slot < size
            &&& size == table.table@.len()
            &&& cell.symbol == input[i]
            &&& cell.nb_bits <= table_log
            &&& table.fast ==> cell.nb_bits >= 1
            &&& i + 2 >= input.len() ==> cell.nb_bits >= 1
            &&& i + 2 < input.len() ==> {
                &&& cell.nb_bits == field_at(input, comp, i).1
                &&& cell.new_state + field_at(input, comp, i).0 == slot_at(
                    input,
                    comp,
                    table_log,
                    i + 2,
                )
                &&& field_at(input, comp, i).0 < pow2(field_at(input, comp, i).1)
            }
        }),
    decreases input.len() - i,
{
    let size = pow2(table_log as nat) as int;
    lemma_pow2_pos(table_log as nat);
    if i + 2 >= input.len() {
        lemma_start_undone(comp, norm, table_log, top, input[i]);
        let slot = slot_at(input, comp, table_log, i);
        assert(table.table@[slot] == spec_decode_entry(norm, table_log, top, slot as nat));
    } else {
        lemma_coder_state(input, comp, table, norm, table_log, top, i + 2);
        let before = coder_state(input, comp, i + 2);
        lemma_step_undone(comp, norm, table_log, top, input[i], before);
        let slot = slot_at(input, comp, table_log, i);
        assert(table.table@[slot] == spec_decode_entry(norm, table_log, top, slot as nat));
        let bits = comp.bits_out(input[i], before) as nat;
        lemma_pow2_pos(bits);
        lemma_mod_bound(before, pow2(bits) as int);
    }
}

/// The fields of the symbols: one more symbol adds its field; the symbols
/// take at most `table_log` bits each.
pub proof fn lemma_symbol_fields(
    input: Seq<u8>,
    comp: &CompressionTable,
    table: &DecompressionTable,
    norm: Seq<i16>,
    table_log: u32,
    top: u32,
    i: int,
)
    requires
        coded(input, comp, table, norm, table_log, top),
        0 <= i,
    ensures
        fields_fit(symbol_fields(input, comp, i)),
        i + 2 >= input.len() ==> rest_bits(input, comp, i) == 0,
        i + 2 < input.len() ==> symbol_fields(input, comp, i) == symbol_fields(
            input,
            comp,
            i + 1,
        ).push(field_at(input, comp, i)) && rest_bits(input, comp, i) == rest_bits(
            input,
            comp,
            i + 1,
        ) + field_at(input, comp, i).1,
        i + 2 <= input.len() ==> rest_bits(input, comp, i) <= 12 * (input.len() - 2 - i),
    decreases input.len() - i,
{
    if i + 2 < input.len() {
        lemma_symbol_fields(input, comp, table, norm, table_log, top, i + 1);
        lemma_coder_state(input, comp, table, norm, table_log, top, i);
        let field = field_at(input, comp, i);
        lemma_push_field(symbol_fields(input, comp, i + 1), field);
        lemma_bits_last(symbol_fields(input, comp, i + 1), field.0, field.1);
    } else {
        assert(fields_fit(symbol_fields(input, comp, i)));
    }
}

/// The fields of the symbols from any index on stand at the start of the
/// fields of all symbols.
pub proof fn lemma_symbol_fields_prefix(
    input: Seq<u8>,
    comp: &CompressionTable,
    table: &DecompressionTable,
    norm: Seq<i16>,
    table_log: u32,
    top: u32,
    i: int,
)
    requires
        coded(input, comp, table, norm, table_log, top),
        0 <= i,
    ensures
        is_prefix(symbol_fields(input, comp, i), symbol_fields(input, comp, 0)),
    decreases i,
{
    let all = symbol_fields(input, comp, 0);
    if i == 0 {
        assert(all.subrange(0, all.len() as int) =~= all);
    } else {
        lemma_symbol_fields_prefix(input, comp, table, norm, table_log, top, i - 1);
        lemma_symbol_fields(input, comp, table, norm, table_log, top, i - 1);
        let here = symbol_fields(input, comp, i);
        let before = symbol_fields(input, comp, i - 1);
        if i + 1 < input.len() {
            assert(before.subrange(0, here.len() as int) =~= here);
            lemma_prefix_trans(here, before, all);
        } else {
            assert(here =~= Seq::<(nat, nat)>::empty());
            assert(all.subrange(0, 0) =~= here);
        }
    }
}

/// `data` holds the stream of `input`: the bytes of the number that the
/// fields make up.
pub open spec fn streamed(input: Seq<u8>, comp: &CompressionTable, table_log: u32, data: Seq<u8>) -> bool {
    let fields = spec_fse_fields(input, comp, table_log);
    &&& data.len() == (fields_bits(fields) + 7) / 8
    &&& data.len() <= usize::MAX
    &&& le_value(data) == fields_value(fields)
}

/// The fields of a stream fit, the end mark is its highest bit, and the two
/// final states stand right above the fields of the symbols.
pub proof fn lemma_stream_fields(
    input: Seq<u8>,
    comp: &CompressionTable,
    table: &DecompressionTable,
    norm: Seq<i16>,
    table_log: u32,
    top: u32,
)
    requires
        coded(input, comp, table, norm, table_log, top),
    ensures
        ({
            let fields = spec_fse_fields(input, comp, table_log);
            let rest = rest_bits(input, comp, 0);
            &&& fields_fit(fields)
            &&& is_prefix(symbol_fields(input, comp, 0), fields)
            &&& fields_bits(fields) == rest + 2 * table_log + 1
            &&& pow2((fields_bits(fields) - 1) as nat) <= fields_value(fields) < pow2(
                fields_bits(fields),
            )
            &&& bits_at(fields_value(fields), rest, table_log as nat) == slot_at(
                input,
                comp,
                table_log,
                1,
            )
            &&& bits_at(fields_value(fields), (rest + table_log) as nat, table_log as nat) == slot_at(
                input,
                comp,
                table_log,
                0,
            )
        }),
{
    let size = pow2(table_log as nat) as int;
    let fields = spec_fse_fields(input, comp, table_log);
    let symbols = symbol_fields(input, comp, 0);
    let odd = ((coder_state(input, comp, 1) % size) as nat, table_log as nat);
    let even = ((coder_state(input, comp, 0) % size) as nat, table_log as nat);
    let mark = (1nat, 1nat);
    lemma_pow2_pos(table_log as nat);
    lemma2_to64();
    lemma_coder_state(input, comp, table, norm, table_log, top, 0);
    lemma_coder_state(input, comp, table, norm, table_log, top, 1);
    lemma_symbol_fields(input, comp, table, norm, table_log, top, 0);
    lemma_fundamental_div_mod_converse(
        coder_state(input, comp, 0),
        size,
        1,
        slot_at(input, comp, table_log, 0),
    );
    lemma_fundamental_div_mod_converse(
        coder_state(input, comp, 1),
        size,
        1,
        slot_at(input, comp, table_log, 1),
    );
    lemma_bits_last(symbols, odd.0, odd.1);
    lemma_bits_last(symbols.push(odd), even.0, even.1);
    lemma_bits_last(symbols.push(odd).push(even), mark.0, mark.1);
    lemma_push_field(symbols, odd);
    lemma_push_field(symbols.push(odd), even);
    lemma_push_field(symbols.push(odd).push(even), mark);
    assert(fields == symbols.push(odd).push(even).push(mark));
    assert(fields.subrange(0, symbols.len() as int) =~= symbols);
    assert(fields.subrange(0, symbols.len() as int + 1) =~= symbols.push(odd));
    assert(fields.subrange(0, symbols.len() as int + 2) =~= symbols.push(odd).push(even));
    lemma_prefix_field(symbols, odd, fields);
    lemma_prefix_field(symbols.push(odd), even, fields);
    lemma_fields_value_bound(fields);
    lemma_fields_value_bound(symbols.push(odd).push(even));
    assert(1 * pow2(fields_bits(symbols.push(odd).push(even))) == pow2(
        fields_bits(symbols.push(odd).push(even)),
    ));
}

/// One step of the decoder of index `j`, where the symbol at `j` has put
/// bits into the stream and the reader stands at them: the step gives the
/// symbol, leads to the slot of the coder at `j + 2`, and leaves the reader
/// at the bits of the symbol at `j + 1`.
pub proof fn lemma_decode_step(
    input: Seq<u8>,
    comp: &CompressionTable,
    table: &DecompressionTable,
    norm: Seq<i16>,
    table_log: u32,
    top: u32,
    data: Seq<u8>,
    reader: BitDStreamReverse,
    j: int,
)
    requires
        coded(input, comp, table, norm, table_log, top),
        streamed(input, comp, table_log, data),
        0 <= j,
        j + 2 < input.len(),
        sees(reader, data),
        cursor(reader) == rest_bits(input, comp, j),
        reader.bits_consumed + field_at(input, comp, j).1 <= 64,
    ensures
        ({
            let step = spec_decode_step(
                table,
                slot_at(input, comp, table_log, j),
                reader,
                table.fast,
            );
            &&& step.0 == input[j]
            &&& step.1 == slot_at(input, comp, table_log, j + 2)
            &&& sees(step.2, data)
            &&& cursor(step.2) == rest_bits(input, comp, j + 1)
            &&& step.2.bits_consumed == reader.bits_consumed + field_at(input, comp, j).1
            &&& step.2.input_pos == reader.input_pos
            &&& field_at(input, comp, j).1 <= table_log
        }),
{
    let fields = spec_fse_fields(input, comp, table_log);
    let field = field_at(input, comp, j);
    let cell = table.table@[slot_at(input, comp, table_log, j)];
    lemma_coder_state(input, comp, table, norm, table_log, top, j);
    lemma_symbol_fields(input, comp, table, norm, table_log, top, j);
    lemma_symbol_fields_prefix(input, comp, table, norm, table_log, top, j);
    lemma_stream_fields(input, comp, table, norm, table_log, top);
    lemma_prefix_trans(symbol_fields(input, comp, j), symbol_fields(input, comp, 0), fields);
    lemma_prefix_field(symbol_fields(input, comp, j + 1), field, fields);
    lemma_read(reader, data, cell.nb_bits as u32);
}

/// The reader stands at the bits of the symbol at `i` and has not read
/// past its register.
pub open spec fn stands_at(
    input: Seq<u8>,
    comp: &CompressionTable,
    data: Seq<u8>,
    reader: BitDStreamReverse,
    i: int,
) -> bool {
    &&& sees(reader, data)
    &&& cursor(reader) == rest_bits(input, comp, i)
    &&& reader.bits_consumed <= 64
}

/// The reader stands at the start of the stream or has read less than a
/// byte of its register.
pub open spec fn settled(reader: BitDStreamReverse) -> bool {
    reader.input_pos == 0 || reader.bits_consumed < 8
}

/// The first `i` symbols of `out` are those of `input`.
pub open spec fn restored_to(out: Seq<u8>, input: Seq<u8>, i: int) -> bool {
    &&& out.len() == input.len()
    &&& forall|k: int| 0 <= k < i ==> out[k] == input[k]
}

/// The two first reads of the decoder give the slots of the two coders and
/// leave the reader at the bits of the first symbol.
pub proof fn lemma_first_states(
    input: Seq<u8>,
    comp: &CompressionTable,
    table: &DecompressionTable,
    norm: Seq<i16>,
    table_log: u32,
    top: u32,
    data: Seq<u8>,
)
    requires
        coded(input, comp, table, norm, table_log, top),
        streamed(input, comp, table_log, data),
    ensures
        ({
            let first = spec_first_state(spec_reader(data), table_log, data);
            let second = spec_first_state(first.1, table_log, data);
            &&& first.0 == slot_at(input, comp, table_log, 0)
            &&& second.0 == slot_at(input, comp, table_log, 1)
            &&& stands_at(input, comp, data, second.1, 0)
            &&& settled(second.1)
        }),
{
    let fields = spec_fse_fields(input, comp, table_log);
    let rest = rest_bits(input, comp, 0);
    lemma_stream_fields(input, comp, table, norm, table_log, top);
    lemma_reader_starts(data, fields_bits(fields));
    let start = spec_reader(data);
    lemma_read(start, data, table_log);
    let read = reader_after(start, table_log as int);
    lemma_reload(read, data);
    let first = spec_first_state(start, table_log, data);
    assert(first.1 == spec_reload(read, data).0);
    lemma_read(first.1, data, table_log);
    let again = reader_after(first.1, table_log as int);
    lemma_reload(again, data);
}

/// One group of four steps, the two decoders in turn, from a reader that
/// has read less than a byte of its register.
pub proof fn lemma_group(
    input: Seq<u8>,
    comp: &CompressionTable,
    table: &DecompressionTable,
    norm: Seq<i16>,
    table_log: u32,
    top: u32,
    data: Seq<u8>,
    reader: BitDStreamReverse,
    i: int,
)
    requires
        coded(input, comp, table, norm, table_log, top),
        streamed(input, comp, table_log, data),
        0 <= i,
        i + 5 < input.len(),
        stands_at(input, comp, data, reader, i),
        reader.bits_consumed < 8,
    ensures
        ({
            let first = spec_decode_step(
                table,
                slot_at(input, comp, table_log, i),
                reader,
                table.fast,
            );
            let second = spec_decode_step(
                table,
                slot_at(input, comp, table_log, i + 1),
                first.2,
                table.fast,
            );
            let third = spec_decode_step(table, first.1, second.2, table.fast);
            let fourth = spec_decode_step(table, second.1, third.2, table.fast);
            &&& first.0 == input[i]
            &&& second.0 == input[i + 1]
            &&& third.0 == input[i + 2]
            &&& fourth.0 == input[i + 3]
            &&& third.1 == slot_at(input, comp, table_log, i + 4)
            &&& fourth.1 == slot_at(input, comp, table_log, i + 5)
            &&& stands_at(input, comp, data, fourth.2, i + 4)
            &&& fourth.2.bits_consumed <= 55
            &&& fourth.2.input_pos == reader.input_pos
        }),
{
    lemma_coder_state(input, comp, table, norm, table_log, top, i);
    lemma_decode_step(input, comp, table, norm, table_log, top, data, reader, i);
    let first = spec_decode_step(table, slot_at(input, comp, table_log, i), reader, table.fast);
    lemma_coder_state(input, comp, table, norm, table_log, top, i + 1);
    lemma_decode_step(input, comp, table, norm, table_log, top, data, first.2, i + 1);
    let second = spec_decode_step(
        table,
        slot_at(input, comp, table_log, i + 1),
        first.2,
        table.fast,
    );
    lemma_coder_state(input, comp, table, norm, table_log, top, i + 2);
    lemma_decode_step(input, comp, table, norm, table_log, top, data, second.2, i + 2);
    let third = spec_decode_step(table, first.1, second.2, table.fast);
    lemma_coder_state(input, comp, table, norm, table_log, top, i + 3);
    lemma_decode_step(input, comp, table, norm, table_log, top, data, third.2, i + 3);
}

/// The groups of four: they give the symbols of `input`, and leave the two
/// decoders and the reader where the single steps go on.
pub proof fn lemma_groups(
    input: Seq<u8>,
    comp: &CompressionTable,
    table: &DecompressionTable,
    norm: Seq<i16>,
    table_log: u32,
    top: u32,
    data: Seq<u8>,
    reader: BitDStreamReverse,
    out: Seq<u8>,
    i: int,
)
    requires
        coded(input, comp, table, norm, table_log, top),
        streamed(input, comp, table_log, data),
        0 <= i <= input.len() - 2,
        stands_at(input, comp, data, reader, i),
        i + 4 > input.len() ==> settled(reader),
        restored_to(out, input, i),
    ensures
        ({
            let groups = spec_decode_groups(
                table,
                data,
                reader,
                slot_at(input, comp, table_log, i),
                slot_at(input, comp, table_log, i + 1),
                out,
                i,
            );
            &&& i <= groups.4 <= input.len() - 2
            &&& groups.1 == slot_at(input, comp, table_log, groups.4)
            &&& groups.2 == slot_at(input, comp, table_log, groups.4 + 1)
            &&& stands_at(input, comp, data, groups.3, groups.4)
            &&& settled(groups.3)
            &&& restored_to(groups.0, input, groups.4)
        }),
    decreases input.len() - i,
{
    if i + 4 <= input.len() {
        lemma_reload(reader, data);
        let (loaded, status) = spec_reload(reader, data);
        if status == BitDstreamStatus::Unfinished {
            lemma_symbol_fields(input, comp, table, norm, table_log, top, i);
            assert(cursor(loaded) > 56);
            assert(input.len() - 2 - i >= 5);
            lemma_group(input, comp, table, norm, table_log, top, data, loaded, i);
            let (a, next1, r1) = spec_decode_step(
                table,
                slot_at(input, comp, table_log, i),
                loaded,
                table.fast,
            );
            let (b, next2, r2) = spec_decode_step(
                table,
                slot_at(input, comp, table_log, i + 1),
                r1,
                table.fast,
            );
            let (c, last1, r3) = spec_decode_step(table, next1, r2, table.fast);
            let (d, last2, r4) = spec_decode_step(table, next2, r3, table.fast);
            let written = out.update(i, a).update(i + 1, b).update(i + 2, c).update(i + 3, d);
            assert(restored_to(written, input, i + 4));
            lemma_symbol_fields(input, comp, table, norm, table_log, top, i + 4);
            if i + 8 > input.len() {
                assert(cursor(r4) <= 12);
                assert(r4.input_pos == 0);
            }
            lemma_groups(input, comp, table, norm, table_log, top, data, r4, written, i + 4);
        }
    }
}

/// The single steps: from any symbol on, the two decoders in turn give the
/// rest of `input`; the data ends when the symbol before the last has been
/// given, and the last symbol is the one of the other decoder's state.
pub proof fn lemma_tail(
    input: Seq<u8>,
    comp: &CompressionTable,
    table: &DecompressionTable,
    norm: Seq<i16>,
    table_log: u32,
    top: u32,
    data: Seq<u8>,
    reader: BitDStreamReverse,
    out: Seq<u8>,
    i: int,
)
    requires
        coded(input, comp, table, norm, table_log, top),
        streamed(input, comp, table_log, data),
        0 <= i <= input.len() - 2,
        stands_at(input, comp, data, reader, i),
        settled(reader),
        restored_to(out, input, i),
    ensures
        spec_decode_tail(
            table,
            data,
            reader,
            slot_at(input, comp, table_log, i),
            slot_at(input, comp, table_log, i + 1),
            out,
            i,
        ) == input,
    decreases input.len() - i,
{
    let turn = slot_at(input, comp, table_log, i);
    let other = slot_at(input, comp, table_log, i + 1);
    let (symbol, next, read) = spec_decode_step(table, turn, reader, table.fast);
    let written = out.update(i, symbol);
    lemma_coder_state(input, comp, table, norm, table_log, top, i);
    lemma_coder_state(input, comp, table, norm, table_log, top, i + 1);
    lemma_symbol_fields(input, comp, table, norm, table_log, top, i);
    if i + 2 < input.len() {
        lemma_symbol_fields(input, comp, table, norm, table_log, top, i + 1);
        lemma_decode_step(input, comp, table, norm, table_log, top, data, reader, i);
        lemma_reload(read, data);
        let (loaded, status) = spec_reload(read, data);
        assert(restored_to(written, input, i + 1));
        lemma_tail(input, comp, table, norm, table_log, top, data, loaded, written, i + 1);
    } else {
        assert(reader.bits_consumed == 64);
        lemma_reload_past_start(read, data);
        let last = written.update(i + 1, spec_decode_step(table, other, read, table.fast).0);
        assert(last =~= input);
    }
}

/// Where no symbol owns more than half of the table, every cell of the
/// decoding table reads at least one bit.
pub proof fn lemma_fast_cells(
    table: &DecompressionTable,
    norm: Seq<i16>,
    table_log: u32,
    top: u32,
)
    requires
        valid_distribution(norm, table_log, top),
        table_log <= 12,
        is_decompression_table(table, norm, table_log, top),
    ensures
        table.fast ==> table.fast_ready(),
{
    if table.fast {
        let size = pow2(table_log as nat);
        let spread = spread_table(norm, table_log, top);
        lemma_spread_counts(norm, table_log, top);
        lemma_pow2_unfold(table_log as nat);
        assert forall|u: int| 0 <= u < table.table@.len() implies (#[trigger] table.table@[u]).nb_bits
            >= 1 by {
            let symbol = spread[u];
            let count = slots_of(norm[symbol as int]);
            assert(table.table@[u] == spec_decode_entry(norm, table_log, top, u as nat));
            assert(occurrences(spread, symbol as int as u8, size) == count);
            lemma_occurrences_monotone(spread, symbol, (u + 1) as nat, size);
            assert(norm[symbol as int] <= pow2((table_log - 1) as nat));
            let number = count + occurrences(spread, symbol, u as nat);
            lemma_highbit_below(number, table_log as nat);
        }
    }
}

/// Of two symbols that have slots neither has the whole table.
pub proof fn lemma_not_whole(norm: Seq<i16>, table_log: u32, top: u32, a: int, b: int)
    requires
        valid_distribution(norm, table_log, top),
        0 <= a <= top,
        0 <= b <= top,
        a != b,
        norm[a] != 0,
        norm[b] != 0,
    ensures
        slots_of(norm[a]) < pow2(table_log as nat),
{
    let low = if a < b { a } else { b };
    let high = if a < b { b } else { a };
    lemma_slots_monotone(norm, low as nat, (low + 1) as nat);
    lemma_slots_monotone(norm, (low + 1) as nat, high as nat);
    lemma_slots_monotone(norm, high as nat, (high + 1) as nat);
    lemma_slots_monotone(norm, (high + 1) as nat, (top + 1) as nat);
    lemma_slots_monotone(norm, 0, low as nat);
}

/// Round trip. The decoder gives back, from the stream of an input and the
/// table of the distribution that the stream was written with, the input.
///
/// It holds of an input of more than two symbols, where every symbol of
/// the input has a slot in the table and no symbol has all of them.
pub proof fn lemma_fse_round_trip(
    input: Seq<u8>,
    comp: &CompressionTable,
    table: &DecompressionTable,
    norm: Seq<i16>,
    table_log: u32,
    top: u32,
    data: Seq<u8>,
    out: Seq<u8>,
)
    requires
        valid_distribution(norm, table_log, top),
        table_log <= 12,
        is_compression_table(comp, norm, table_log, top),
        is_decompression_table(table, norm, table_log, top),
        input.len() > 2,
        forall|i: int|
            0 <= i < input.len() ==> (#[trigger] input[i]) <= top && norm[input[i] as int] != 0
                && slots_of(norm[input[i] as int]) < pow2(table_log as nat),
        streamed(input, comp, table_log, data),
        out.len() == input.len(),
    ensures
        data.len() >= 1,
        data[data.len() - 1] != 0,
        spec_fse_decode(data, table, table_log, out) == input,
{
    lemma_fast_cells(table, norm, table_log, top);
    lemma_stream_fields(input, comp, table, norm, table_log, top);
    lemma_reader_starts(data, fields_bits(spec_fse_fields(input, comp, table_log)));
    lemma_first_states(input, comp, table, norm, table_log, top, data);
    let first = spec_first_state(spec_reader(data), table_log, data);
    let second = spec_first_state(first.1, table_log, data);
    lemma_groups(input, comp, table, norm, table_log, top, data, second.1, out, 0);
    let groups = spec_decode_groups(table, data, second.1, first.0, second.0, out, 0);
    lemma_tail(input, comp, table, norm, table_log, top, data, groups.3, groups.0, groups.4);
}

/// Round trip of the whole coder. Where an input is compressed, the
/// decoder gives the input back from the written bytes and the table of
/// the distribution that the input was compressed with: the counts of the
/// input, normalized for the table size recommended for it. These bytes
/// and this distribution are such as the decoder asks for.
pub proof fn lemma_compress_round_trip(
    input: Seq<u8>,
    stream: BitCstreamOwned,
    table: &DecompressionTable,
    out: Seq<u8>,
)
    requires
        input.len() <= u32::MAX,
        compress_result(input, Ok(stream)),
        ({
            let counts = spec_counts(input);
            let top = spec_max_symbol(counts, 256) as u32;
            let table_log = spec_optimal_table_log(FSE_DEFAULT_TABLELOG, input.len(), top, 2) as u32;
            let norm = spec_normalized(counts, table_log, input.len(), top);
            is_decompression_table(table, norm->0, table_log, top)
        }),
        out.len() == input.len(),
    ensures
        ({
            let counts = spec_counts(input);
            let top = spec_max_symbol(counts, 256) as u32;
            let table_log = spec_optimal_table_log(FSE_DEFAULT_TABLELOG, input.len(), top, 2) as u32;
            let norm = spec_normalized(counts, table_log, input.len(), top);
            let data = stream.data@.subrange(
                0,
                stream.data_pos + (if stream.bit_pos > 0 { 1int } else { 0int }),
            );
            &&& norm is Some
            &&& valid_distribution(norm->0, table_log, top)
            &&& table_log <= FSE_MAX_TABLELOG
            &&& data.len() >= 1
            &&& data[data.len() - 1] != 0
            &&& spec_fse_decode(data, table, table_log, out) == input
        }),
{
    let counts = spec_counts(input);
    let top = spec_max_symbol(counts, 256) as u32;
    let table_log = spec_optimal_table_log(FSE_DEFAULT_TABLELOG, input.len(), top, 2) as u32;
    let norm = spec_normalized(counts, table_log, input.len(), top)->0;
    let data = stream.data@.subrange(
        0,
        stream.data_pos + (if stream.bit_pos > 0 { 1int } else { 0int }),
    );
    let pair = lemma_compressible(input);
    let comp = choose|comp: &CompressionTable| #[trigger]
        is_compression_table(comp, norm, table_log, top) && holds_stream(
            stream,
            input,
            comp,
            table_log,
        );
    lemma_normalized_keeps(counts, table_log, input.len(), top, pair.0 as int);
    lemma_normalized_keeps(counts, table_log, input.len(), top, pair.1 as int);
    assert forall|i: int| 0 <= i < input.len() implies (#[trigger] input[i]) <= top && norm[input[i] as int]
        != 0 && slots_of(norm[input[i] as int]) < pow2(table_log as nat) by {
        let s = input[i];
        lemma_normalized_keeps(counts, table_log, input.len(), top, s as int);
        let other = if s == pair.0 { pair.1 } else { pair.0 };
        lemma_not_whole(norm, table_log, top, s as int, other as int);
    }
    assert(stream.data@.len() == stream.data.len());
    lemma_fse_round_trip(input, comp, table, norm, table_log, top, data, out);
}

} // verus!
