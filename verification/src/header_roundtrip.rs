//! Reading a header gives back what was written: the fields of a header
//! can be told apart when they are read from the number that they make up.

use vstd::prelude::*;
use vstd::arithmetic::power2::{
    pow2, lemma_pow2_pos, lemma2_to64, lemma_pow2_adds, lemma_pow2_unfold,
};
use vstd::arithmetic::div_mod::{
    lemma_fundamental_div_mod, lemma_fundamental_div_mod_converse, lemma_mod_bound,
    lemma_small_mod, lemma_div_denominator,
};
use crate::bitstream::{fields_bits, fields_value, lemma_push_field};
use crate::header::{
    bits_at, NCountWrite, NCountState, skip_24, skip_3, checkpoint, next_present, count_field,
    after_count, shrink, write_symbols, spec_write_n_count, read_words, read_pairs, read_run,
    read_count, read_symbols, spec_read_n_count, cleared, narrowed, state_fits,
    lemma_next_present, ReadFault,
};
use crate::table::{valid_distribution, slots_before, slots_of, lemma_slots_monotone};

verus! {

/// Every field fits its width.
pub open spec fn fields_fit(fields: Seq<(nat, nat)>) -> bool {
    forall|i: int| 0 <= i < fields.len() ==> (#[trigger] fields[i]).0 < pow2(fields[i].1)
}

/// Fields that fit make up a number of as many bits as they have.
pub proof fn lemma_fields_value_bound(fields: Seq<(nat, nat)>)
    requires
        fields_fit(fields),
    ensures
        fields_value(fields) < pow2(fields_bits(fields)),
    decreases fields.len(),
{
    lemma2_to64();
    if fields.len() > 0 {
        let front = fields.drop_last();
        let last = fields.last();
        assert(fields_fit(front)) by {
            assert forall|i: int| 0 <= i < front.len() implies (#[trigger] front[i]).0 < pow2(
                front[i].1,
            ) by {
                assert(front[i] == fields[i]);
            }
        }
        lemma_fields_value_bound(front);
        lemma_pow2_adds(fields_bits(front), last.1);
        let low = pow2(fields_bits(front));
        let top = pow2(last.1);
        assert(last.0 * low <= (top - 1) * low) by (nonlinear_arith)
            requires
                last.0 <= top - 1,
                low >= 0,
        ;
        assert((top - 1) * low == top * low - low) by (nonlinear_arith);
        assert(top * low == low * top) by (nonlinear_arith);
    }
}

/// The number of fields followed by more fields: the first fields at the
/// low end.
pub proof fn lemma_fields_value_append(first: Seq<(nat, nat)>, more: Seq<(nat, nat)>)
    ensures
        fields_bits(first + more) == fields_bits(first) + fields_bits(more),
        fields_value(first + more) == fields_value(first) + pow2(fields_bits(first))
            * fields_value(more),
    decreases more.len(),
{
    lemma2_to64();
    if more.len() == 0 {
        assert(first + more =~= first);
        assert(pow2(fields_bits(first)) * 0 == 0);
    } else {
        let front = more.drop_last();
        let last = more.last();
        assert((first + more).drop_last() =~= first + front);
        assert((first + more).last() == last);
        lemma_fields_value_append(first, front);
        lemma_pow2_adds(fields_bits(first), fields_bits(front));
        let a = pow2(fields_bits(first));
        let b = pow2(fields_bits(front));
        assert(a * (fields_value(front) + last.0 * b) == a * fields_value(front) + last.0 * (a
            * b)) by (nonlinear_arith);
    }
}

/// Bits of a number above its low `low` bits.
pub proof fn lemma_bits_above(rest: nat, low: nat, above: nat, pos: nat, width: nat)
    requires
        rest < pow2(low),
    ensures
        bits_at(rest + pow2(low) * above, low + pos, width) == bits_at(above, pos, width),
{
    let unit = pow2(low);
    lemma_pow2_pos(low);
    lemma_pow2_pos(pos);
    lemma_pow2_adds(low, pos);
    let n = rest + unit * above;
    assert(above * unit == unit * above) by (nonlinear_arith);
    lemma_fundamental_div_mod_converse(n as int, unit as int, above as int, rest as int);
    lemma_div_denominator(n as int, unit as int, pow2(pos) as int);
}

/// Bits of a number within its low `low` bits.
pub proof fn lemma_bits_below(rest: nat, low: nat, above: nat, pos: nat, width: nat)
    requires
        pos + width <= low,
    ensures
        bits_at(rest + pow2(low) * above, pos, width) == bits_at(rest, pos, width),
{
    let n = rest + pow2(low) * above;
    let a = pow2(pos);
    let b = pow2(width);
    let c = pow2((low - pos - width) as nat);
    lemma_pow2_pos(pos);
    lemma_pow2_pos(width);
    lemma_pow2_pos((low - pos - width) as nat);
    lemma_pow2_adds(pos, width);
    lemma_pow2_adds(pos + width, (low - pos - width) as nat);
    // n and rest differ by a multiple of a * b
    let span = a * b;
    assert(pow2(low) * above == span * (c * above)) by (nonlinear_arith)
        requires
            pow2(low) == span * c,
    ;
    lemma_bits_shift(rest, (c * above) as nat, pos, width);
}

/// Adding a multiple of `2^(pos + width)` changes nothing of the `width`
/// bits from `pos` on.
pub proof fn lemma_bits_shift(n: nat, times: nat, pos: nat, width: nat)
    ensures
        bits_at(n + pow2(pos) * pow2(width) * times, pos, width) == bits_at(n, pos, width),
{
    let a = pow2(pos) as int;
    let b = pow2(width) as int;
    lemma_pow2_pos(pos);
    lemma_pow2_pos(width);
    let m = n + a * b * times;
    // m / a == n / a + b * times
    lemma_fundamental_div_mod(n as int, a);
    lemma_mod_bound(n as int, a);
    let q = (n as int) / a;
    let r = (n as int) % a;
    assert(m == (q + b * times) * a + r) by (nonlinear_arith)
        requires
            n == a * q + r,
            m == n + a * b * times,
    ;
    lemma_fundamental_div_mod_converse(m as int, a, q + b * times, r);
    // (q + b * times) % b == q % b
    vstd::arithmetic::div_mod::lemma_mod_multiples_vanish(times as int, q, b);
    assert(b * times + q == q + b * times);
    assert(times * b == b * times) by (nonlinear_arith);
}

/// A field within a field: the `width` bits from `pos + offset` on are
/// bits of the `whole` bits from `pos` on.
pub proof fn lemma_bits_within(n: nat, pos: nat, whole: nat, offset: nat, width: nat)
    requires
        offset + width <= whole,
    ensures
        bits_at(n, pos + offset, width) == bits_at(bits_at(n, pos, whole), offset, width),
{
    let x = n / pow2(pos);
    lemma_pow2_pos(pos);
    lemma_pow2_pos(offset);
    lemma_pow2_pos(whole);
    lemma_pow2_adds(pos, offset);
    lemma_div_denominator(n as int, pow2(pos) as int, pow2(offset) as int);
    // bits_at(n, pos + offset, width) == (x / 2^offset) % 2^width
    lemma_fundamental_div_mod(x as int, pow2(whole) as int);
    lemma_mod_bound(x as int, pow2(whole) as int);
    let high = x / pow2(whole);
    let low = x % pow2(whole);
    assert(pow2(whole) * high == pow2(whole) * high);
    lemma_bits_below(low, whole, high, offset, width);
    assert(x == low + pow2(whole) * high);
}

/// The last field of fields that fit is read back from their number.
pub proof fn lemma_bits_last(fields: Seq<(nat, nat)>, value: nat, width: nat)
    requires
        fields_fit(fields),
        value < pow2(width),
    ensures
        bits_at(fields_value(fields.push((value, width))), fields_bits(fields), width) == value,
        fields_fit(fields.push((value, width))),
{
    lemma_push_field(fields, (value, width));
    lemma_fields_value_bound(fields);
    let rest = fields_value(fields);
    let low = fields_bits(fields);
    assert(value * pow2(low) == pow2(low) * value) by (nonlinear_arith);
    lemma_bits_above(rest, low, value, 0, width);
    lemma2_to64();
    lemma_pow2_pos(width);
    assert(value / 1 == value);
    lemma_small_mod(value, pow2(width));
    assert forall|i: int| 0 <= i < fields.push((value, width)).len() implies (
    #[trigger] fields.push((value, width))[i]).0 < pow2(fields.push((value, width))[i].1) by {
        if i < fields.len() {
            assert(fields.push((value, width))[i] == fields[i]);
        }
    }
}

/// Fields that follow change nothing of the bits of the fields before.
pub proof fn lemma_bits_prefix(
    first: Seq<(nat, nat)>,
    more: Seq<(nat, nat)>,
    pos: nat,
    width: nat,
)
    requires
        pos + width <= fields_bits(first),
    ensures
        bits_at(fields_value(first + more), pos, width) == bits_at(
            fields_value(first),
            pos,
            width,
        ),
{
    lemma_fields_value_append(first, more);
    lemma_bits_below(fields_value(first), fields_bits(first), fields_value(more), pos, width);
}

/// `part` is the start of `full`.
pub open spec fn is_prefix(part: Seq<(nat, nat)>, full: Seq<(nat, nat)>) -> bool {
    part.len() <= full.len() && full.subrange(0, part.len() as int) == part
}

pub proof fn lemma_prefix_push(part: Seq<(nat, nat)>, field: (nat, nat), full: Seq<(nat, nat)>)
    requires
        is_prefix(part.push(field), full),
    ensures
        is_prefix(part, full),
{
    assert(full.subrange(0, part.len() as int) =~= full.subrange(0, part.len() as int + 1).subrange(
        0,
        part.len() as int,
    ));
    assert(part.push(field).subrange(0, part.len() as int) =~= part);
}

pub proof fn lemma_prefix_trans(a: Seq<(nat, nat)>, b: Seq<(nat, nat)>, c: Seq<(nat, nat)>)
    requires
        is_prefix(a, b),
        is_prefix(b, c),
    ensures
        is_prefix(a, c),
{
    assert(c.subrange(0, a.len() as int) =~= c.subrange(0, b.len() as int).subrange(
        0,
        a.len() as int,
    ));
}

/// A field of a header is read back from the number of the header.
pub proof fn lemma_prefix_field(part: Seq<(nat, nat)>, field: (nat, nat), full: Seq<(nat, nat)>)
    requires
        is_prefix(part.push(field), full),
        fields_fit(full),
    ensures
        bits_at(fields_value(full), fields_bits(part), field.1) == field.0,
        fields_bits(part) + field.1 <= fields_bits(full),
        field.0 < pow2(field.1),
{
    let first = part.push(field);
    let more = full.subrange(first.len() as int, full.len() as int);
    assert(full =~= first + more);
    assert(full[part.len() as int] == field);
    assert(fields_fit(part)) by {
        assert forall|i: int| 0 <= i < part.len() implies (#[trigger] part[i]).0 < pow2(
            part[i].1,
        ) by {
            assert(full[i] == part[i]);
        }
    }
    lemma_push_field(part, field);
    lemma_fields_value_append(first, more);
    lemma_bits_prefix(first, more, fields_bits(part), field.1);
    lemma_bits_last(part, field.0, field.1);
}

/// Symbols without slots add nothing to the slots.
pub proof fn lemma_slots_of_absent(norm: Seq<i16>, from: nat, to: nat)
    requires
        from <= to,
        forall|s: int| from <= s < to ==> norm[s] == 0,
    ensures
        slots_before(norm, to) == slots_before(norm, from),
    decreases to,
{
    if from < to {
        lemma_slots_of_absent(norm, from, (to - 1) as nat);
    }
}

/// Any two bits of sixteen set bits are set.
pub proof fn lemma_pair_of_ones(offset: nat)
    requires
        offset <= 14,
    ensures
        bits_at(0xFFFF, offset, 2) == 3,
{
    lemma2_to64();
    assert(pow2(2) == 4);
    if offset == 0 {
        assert(pow2(offset) == 1);
        assert((0xFFFFnat / 1) % 4 == 3);
    } else if offset == 1 {
        assert(pow2(offset) == 2);
        assert((0xFFFFnat / 2) % 4 == 3);
    } else if offset == 2 {
        assert(pow2(offset) == 4);
        assert((0xFFFFnat / 4) % 4 == 3);
    } else if offset == 3 {
        assert(pow2(offset) == 8);
        assert((0xFFFFnat / 8) % 4 == 3);
    } else if offset == 4 {
        assert(pow2(offset) == 16);
        assert((0xFFFFnat / 16) % 4 == 3);
    } else if offset == 5 {
        assert(pow2(offset) == 32);
        assert((0xFFFFnat / 32) % 4 == 3);
    } else if offset == 6 {
        assert(pow2(offset) == 64);
        assert((0xFFFFnat / 64) % 4 == 3);
    } else if offset == 7 {
        assert(pow2(offset) == 128);
        assert((0xFFFFnat / 128) % 4 == 3);
    } else if offset == 8 {
        assert(pow2(offset) == 256);
        assert((0xFFFFnat / 256) % 4 == 3);
    } else if offset == 9 {
        assert(pow2(offset) == 512);
        assert((0xFFFFnat / 512) % 4 == 3);
    } else if offset == 10 {
        assert(pow2(offset) == 1024);
        assert((0xFFFFnat / 1024) % 4 == 3);
    } else if offset == 11 {
        assert(pow2(offset) == 2048);
        assert((0xFFFFnat / 2048) % 4 == 3);
    } else if offset == 12 {
        assert(pow2(offset) == 4096);
        assert((0xFFFFnat / 4096) % 4 == 3);
    } else if offset == 13 {
        assert(pow2(offset) == 8192);
        assert((0xFFFFnat / 8192) % 4 == 3);
    } else if offset == 14 {
        assert(pow2(offset) == 16384);
        assert((0xFFFFnat / 16384) % 4 == 3);
    }
}

/// The words of a run are read back: the reader passes the words that the
/// writer wrote and stops where the pairs of the run begin.
pub proof fn lemma_read_words_back(
    w: NCountWrite,
    start: int,
    symbol: int,
    out_len: nat,
    full: Seq<(nat, nat)>,
    limit: nat,
    reached: nat,
)
    requires
        0 <= start <= symbol,
        skip_24(w, start, symbol, out_len) is Ok,
        fields_fit(full),
        fields_bits(full) <= limit,
        ({
            let words = skip_24(w, start, symbol, out_len)->Ok_0;
            let pairs = skip_3(words.0.fields, words.1, symbol);
            is_prefix(pairs.0.push(((symbol - pairs.1) as nat, 2nat)), full)
        }),
    ensures
        ({
            let words = skip_24(w, start, symbol, out_len)->Ok_0;
            &&& read_words(fields_value(full), fields_bits(w.fields), reached, limit) == (
                fields_bits(words.0.fields),
                (reached + (words.1 - start)) as nat,
            )
            &&& start <= words.1 <= symbol < words.1 + 24
            &&& is_prefix(w.fields, words.0.fields)
        }),
    decreases symbol - start,
{
    let n = fields_value(full);
    let words = skip_24(w, start, symbol, out_len)->Ok_0;
    let pairs = skip_3(words.0.fields, words.1, symbol);
    let last = pairs.0.push(((symbol - pairs.1) as nat, 2nat));
    if symbol >= start + 24 {
        let next = NCountWrite { fields: w.fields.push((0xFFFFnat, 16nat)), flushed: w.flushed + 1 };
        lemma_read_words_back(next, start + 24, symbol, out_len, full, limit, reached + 24);
        lemma_pairs_prefix(words.0.fields, words.1, symbol);
        lemma_prefix_push(pairs.0, ((symbol - pairs.1) as nat, 2nat), full);
        lemma_prefix_trans(words.0.fields, pairs.0, full);
        lemma_prefix_trans(next.fields, words.0.fields, full);
        lemma_prefix_field(w.fields, (0xFFFFnat, 16nat), full);
        lemma_push_field(w.fields, (0xFFFFnat, 16nat));
        lemma_prefix_push(w.fields, (0xFFFFnat, 16nat), words.0.fields);
    } else {
        // the run goes on with at most seven pairs and a last field below 3
        assert(words.0 == w && words.1 == start);
        lemma_pairs_back(w.fields, start, symbol, full, limit, 0);
        let pos = fields_bits(w.fields);
        let stop = pairs.1;
        let offset = (fields_bits(pairs.0) - pos) as nat;
        lemma_prefix_field(pairs.0, ((symbol - stop) as nat, 2nat), full);
        if pos < limit && bits_at(n, pos, 16) == 0xFFFF {
            lemma_bits_within(n, pos, 16, offset, 2);
            lemma_pair_of_ones(offset);
            assert(false);
        }
        assert(w.fields.subrange(0, w.fields.len() as int) =~= w.fields);
    }
}

/// The fields of the pairs of a run follow the fields before.
pub proof fn lemma_pairs_prefix(fields: Seq<(nat, nat)>, start: int, symbol: int)
    ensures
        is_prefix(fields, skip_3(fields, start, symbol).0),
    decreases symbol - start,
{
    if symbol >= start + 3 {
        lemma_pairs_prefix(fields.push((3nat, 2nat)), start + 3, symbol);
        assert(fields.push((3nat, 2nat)).subrange(0, fields.len() as int) =~= fields);
        lemma_prefix_trans(
            fields,
            fields.push((3nat, 2nat)),
            skip_3(fields.push((3nat, 2nat)), start + 3, symbol).0,
        );
    } else {
        assert(fields.subrange(0, fields.len() as int) =~= fields);
    }
}

/// The pairs of a run are read back, and the field after them is below 3.
pub proof fn lemma_pairs_back(
    fields: Seq<(nat, nat)>,
    start: int,
    symbol: int,
    full: Seq<(nat, nat)>,
    limit: nat,
    reached: nat,
)
    requires
        0 <= start <= symbol < start + 24,
        fields_fit(full),
        fields_bits(full) <= limit,
        is_prefix(
            skip_3(fields, start, symbol).0.push(
                ((symbol - skip_3(fields, start, symbol).1) as nat, 2nat),
            ),
            full,
        ),
    ensures
        ({
            let pairs = skip_3(fields, start, symbol);
            &&& read_pairs(fields_value(full), fields_bits(fields), reached, limit) == (
                fields_bits(pairs.0),
                (reached + (pairs.1 - start)) as nat,
            )
            &&& start <= pairs.1 <= symbol < pairs.1 + 3
            &&& fields_bits(pairs.0) - fields_bits(fields) == 2 * ((pairs.1 - start) / 3)
            &&& fields_bits(pairs.0) - fields_bits(fields) <= 14
        }),
    decreases symbol - start,
{
    let n = fields_value(full);
    let pairs = skip_3(fields, start, symbol);
    let last = ((symbol - pairs.1) as nat, 2nat);
    if symbol >= start + 3 {
        let next = fields.push((3nat, 2nat));
        lemma_pairs_back(next, start + 3, symbol, full, limit, reached + 3);
        lemma_pairs_prefix(next, start + 3, symbol);
        lemma_prefix_push(pairs.0, last, full);
        lemma_prefix_trans(next, pairs.0, full);
        lemma_prefix_field(fields, (3nat, 2nat), full);
        lemma_push_field(fields, (3nat, 2nat));
    } else {
        lemma_prefix_field(fields, last, full);
    }
}

/// The field of a count fits its width.
pub proof fn lemma_count_field_fits(count: int, st: NCountState)
    requires
        state_fits(st),
        st.remaining > 1,
        -1 <= count <= st.remaining - 1,
    ensures
        count_field(count, st).0 < pow2(count_field(count, st).1),
        count_field(count, st).1 == st.nb_bits || count_field(count, st).1 == st.nb_bits - 1,
        count_field(count, st).1 <= 16,
{
    lemma2_to64();
    lemma_pow2_unfold(st.nb_bits as nat);
    lemma_pow2_pos((st.nb_bits - 1) as nat);
}

/// A count is read back from the number of a header that holds its field.
pub proof fn lemma_count_back(
    fields: Seq<(nat, nat)>,
    count: int,
    st: NCountState,
    full: Seq<(nat, nat)>,
)
    requires
        state_fits(st),
        st.remaining > 1,
        -1 <= count <= st.remaining - 1,
        fields_fit(full),
        is_prefix(fields.push(count_field(count, st)), full),
    ensures
        read_count(fields_value(full), fields_bits(fields), st) == (
            count,
            fields_bits(fields.push(count_field(count, st))),
        ),
{
    let n = fields_value(full);
    let pos = fields_bits(fields);
    let field = count_field(count, st);
    let max = (2 * st.threshold - 1) - st.remaining;
    let short = (st.nb_bits - 1) as nat;
    lemma_count_field_fits(count, st);
    lemma_prefix_field(fields, field, full);
    lemma_push_field(fields, field);
    lemma2_to64();
    lemma_pow2_unfold(st.nb_bits as nat);
    lemma_pow2_pos(short);
    if field.1 == st.nb_bits {
        // the bits of the short form are the low bits of the long form
        lemma_bits_within(n, pos, st.nb_bits as nat, 0, short);
        assert(field.0 / 1 == field.0);
        if field.0 < st.threshold {
            lemma_small_mod(field.0, pow2(short));
        } else {
            lemma_fundamental_div_mod_converse(
                field.0 as int,
                st.threshold,
                1,
                field.0 - st.threshold,
            );
        }
    }
}

/// A writer's state on its way through a distribution whose largest
/// symbol has a slot: what is left of the table is what the symbols from
/// the state's symbol on take, plus one.
pub open spec fn on_track(norm: Seq<i16>, top: u32, table_log: u32, st: NCountState) -> bool {
    &&& valid_distribution(norm, table_log, top)
    &&& norm[top as int] != 0
    &&& 0 <= st.symbol <= top + 1
    &&& state_fits(st)
    &&& st.remaining == pow2(table_log as nat) + 1 - slots_before(norm, st.symbol as nat)
}

/// The symbol that a state on its way writes next.
pub open spec fn present_symbol(norm: Seq<i16>, top: u32, st: NCountState) -> int {
    if st.previous_is0 {
        next_present(norm, st.symbol, top + 1)
    } else {
        st.symbol
    }
}

/// The state at the symbol that is written next.
pub open spec fn at_present(norm: Seq<i16>, top: u32, st: NCountState) -> NCountState {
    NCountState {
        symbol: present_symbol(norm, top, st),
        remaining: st.remaining,
        threshold: st.threshold,
        nb_bits: st.nb_bits,
        previous_is0: st.previous_is0,
    }
}

/// A state on its way, with more than the last slot left, writes a symbol
/// of the distribution and stays on its way.
pub proof fn lemma_step_on_track(norm: Seq<i16>, top: u32, table_log: u32, st: NCountState)
    requires
        on_track(norm, top, table_log, st),
        st.remaining > 1,
    ensures
        st.symbol <= present_symbol(norm, top, st) <= top,
        forall|s: int| st.symbol <= s < present_symbol(norm, top, st) ==> norm[s] == 0,
        on_track(norm, top, table_log, at_present(norm, top, st)),
        -1 <= norm[present_symbol(norm, top, st)] <= st.remaining - 1,
        on_track(
            norm,
            top,
            table_log,
            after_count(
                norm[present_symbol(norm, top, st)] as int,
                at_present(norm, top, st),
            ),
        ),
        after_count(
            norm[present_symbol(norm, top, st)] as int,
            at_present(norm, top, st),
        ).remaining >= 1,
        after_count(
            norm[present_symbol(norm, top, st)] as int,
            at_present(norm, top, st),
        ).symbol == present_symbol(norm, top, st) + 1,
{
    let size = pow2(table_log as nat);
    let present = present_symbol(norm, top, st);
    lemma_slots_monotone(norm, st.symbol as nat, (top + 1) as nat);
    if st.symbol > top {
        assert(false);
    }
    lemma_next_present(norm, st.symbol, top + 1);
    if st.previous_is0 {
        lemma_slots_of_absent(norm, st.symbol as nat, present as nat);
        if present == top + 1 {
            assert(false);
        }
    }
    lemma_slots_monotone(norm, present as nat, (present + 1) as nat);
    lemma_slots_monotone(norm, (present + 1) as nat, (top + 1) as nat);
    let count = norm[present] as int;
    assert(slots_before(norm, (present + 1) as nat) == slots_before(norm, present as nat)
        + slots_of(norm[present]));
    let left = st.remaining - (if count < 0 { -count } else { count });
    lemma_shrink_fits(left, st.threshold, st.nb_bits);
}

proof fn lemma_shrink_fits(remaining: int, threshold: int, nb_bits: int)
    requires
        1 <= remaining < 2 * threshold,
        1 <= nb_bits <= 16,
        threshold == pow2((nb_bits - 1) as nat),
    ensures
        ({
            let shrunk = shrink(remaining, threshold, nb_bits);
            &&& 1 <= shrunk.1 <= nb_bits
            &&& shrunk.0 == pow2((shrunk.1 - 1) as nat)
            &&& shrunk.0 <= remaining < 2 * shrunk.0
        }),
    decreases threshold,
{
    lemma2_to64();
    if remaining < threshold {
        lemma_pow2_unfold((nb_bits - 1) as nat);
        lemma_shrink_fits(remaining, threshold / 2, nb_bits - 1);
    }
}

/// The fields of the words of a run follow the fields before, and fit.
pub proof fn lemma_words_prefix(w: NCountWrite, start: int, symbol: int, out_len: nat)
    requires
        skip_24(w, start, symbol, out_len) is Ok,
        fields_fit(w.fields),
    ensures
        is_prefix(w.fields, skip_24(w, start, symbol, out_len)->Ok_0.0.fields),
        fields_fit(skip_24(w, start, symbol, out_len)->Ok_0.0.fields),
        start <= symbol ==> start <= skip_24(w, start, symbol, out_len)->Ok_0.1 <= symbol < skip_24(
            w,
            start,
            symbol,
            out_len,
        )->Ok_0.1 + 24,
    decreases symbol - start,
{
    if symbol >= start + 24 {
        let next = NCountWrite { fields: w.fields.push((0xFFFFnat, 16nat)), flushed: w.flushed + 1 };
        lemma2_to64();
        lemma_bits_last(w.fields, 0xFFFF, 16);
        lemma_words_prefix(next, start + 24, symbol, out_len);
        assert(next.fields.subrange(0, w.fields.len() as int) =~= w.fields);
        lemma_prefix_trans(
            w.fields,
            next.fields,
            skip_24(w, start, symbol, out_len)->Ok_0.0.fields,
        );
    } else {
        assert(w.fields.subrange(0, w.fields.len() as int) =~= w.fields);
    }
}

/// The fields of the pairs of a run fit.
pub proof fn lemma_pairs_fit(fields: Seq<(nat, nat)>, start: int, symbol: int)
    requires
        fields_fit(fields),
        start <= symbol,
    ensures
        fields_fit(skip_3(fields, start, symbol).0),
        start <= skip_3(fields, start, symbol).1 <= symbol < skip_3(fields, start, symbol).1 + 3,
    decreases symbol - start,
{
    if symbol >= start + 3 {
        lemma2_to64();
        lemma_bits_last(fields, 3, 2);
        lemma_pairs_fit(fields.push((3nat, 2nat)), start + 3, symbol);
    }
}

/// The fields that a state on its way has written by the end of the header
/// follow the fields before it, and fit.
pub proof fn lemma_write_extends(
    norm: Seq<i16>,
    top: u32,
    table_log: u32,
    st: NCountState,
    w: NCountWrite,
    out_len: nat,
)
    requires
        on_track(norm, top, table_log, st),
        fields_fit(w.fields),
        write_symbols(norm, top + 1, st, w, out_len) is Ok,
    ensures
        is_prefix(w.fields, write_symbols(norm, top + 1, st, w, out_len)->Ok_0.1.fields),
        fields_fit(write_symbols(norm, top + 1, st, w, out_len)->Ok_0.1.fields),
    decreases top + 1 - st.symbol,
{
    let end = write_symbols(norm, top + 1, st, w, out_len)->Ok_0;
    if !(0 <= st.symbol < top + 1 && st.remaining > 1) {
        assert(w.fields.subrange(0, w.fields.len() as int) =~= w.fields);
    } else {
        lemma_step_on_track(norm, top, table_log, st);
        let present = present_symbol(norm, top, st);
        let here = at_present(norm, top, st);
        let count = norm[present] as int;
        let next = after_count(count, here);
        let after_run = write_run(norm, top, st, w, out_len);
        let field = count_field(count, here);
        let written = NCountWrite { fields: after_run.fields.push(field), flushed: after_run.flushed };
        let stored = checkpoint(written, out_len)->Ok_0;
        lemma_write_run(norm, top, st, w, out_len);
        lemma_count_field_fits(count, here);
        lemma_bits_last(after_run.fields, field.0, field.1);
        lemma_write_extends(norm, top, table_log, next, stored, out_len);
        assert(written.fields.subrange(0, after_run.fields.len() as int) =~= after_run.fields);
        lemma_prefix_trans(w.fields, after_run.fields, written.fields);
        lemma_prefix_trans(w.fields, written.fields, end.1.fields);
    }
}

/// The header after the run of absent symbols that a state on its way
/// writes before its next symbol.
pub open spec fn write_run(
    norm: Seq<i16>,
    top: u32,
    st: NCountState,
    w: NCountWrite,
    out_len: nat,
) -> NCountWrite {
    if st.previous_is0 {
        let present = present_symbol(norm, top, st);
        let words = skip_24(w, st.symbol, present, out_len)->Ok_0;
        let pairs = skip_3(words.0.fields, words.1, present);
        checkpoint(
            NCountWrite {
                fields: pairs.0.push(((present - pairs.1) as nat, 2nat)),
                flushed: words.0.flushed,
            },
            out_len,
        )->Ok_0
    } else {
        w
    }
}

/// What a step of the writer does, where the header comes out: the fields
/// of the run, the field of the count, and the rest of the header from the
/// next state on.
pub proof fn lemma_write_run(
    norm: Seq<i16>,
    top: u32,
    st: NCountState,
    w: NCountWrite,
    out_len: nat,
)
    requires
        0 <= st.symbol < top + 1,
        st.remaining > 1,
        present_symbol(norm, top, st) <= top,
        st.symbol <= present_symbol(norm, top, st),
        fields_fit(w.fields),
        write_symbols(norm, top + 1, st, w, out_len) is Ok,
    ensures
        ({
            let present = present_symbol(norm, top, st);
            let here = at_present(norm, top, st);
            let count = norm[present] as int;
            let after_run = write_run(norm, top, st, w, out_len);
            let written = NCountWrite {
                fields: after_run.fields.push(count_field(count, here)),
                flushed: after_run.flushed,
            };
            &&& st.previous_is0 ==> skip_24(w, st.symbol, present, out_len) is Ok
            &&& st.previous_is0 ==> after_run.fields == skip_3(
                skip_24(w, st.symbol, present, out_len)->Ok_0.0.fields,
                skip_24(w, st.symbol, present, out_len)->Ok_0.1,
                present,
            ).0.push(
                (
                    (present - skip_3(
                        skip_24(w, st.symbol, present, out_len)->Ok_0.0.fields,
                        skip_24(w, st.symbol, present, out_len)->Ok_0.1,
                        present,
                    ).1) as nat,
                    2nat,
                ),
            )
            &&& is_prefix(w.fields, after_run.fields)
            &&& fields_fit(after_run.fields)
            &&& checkpoint(written, out_len) is Ok
            &&& checkpoint(written, out_len)->Ok_0.fields == written.fields
            &&& write_symbols(norm, top + 1, st, w, out_len) == write_symbols(
                norm,
                top + 1,
                after_count(count, here),
                checkpoint(written, out_len)->Ok_0,
                out_len,
            )
        }),
{
    let present = present_symbol(norm, top, st);
    if st.previous_is0 {
        let words = skip_24(w, st.symbol, present, out_len)->Ok_0;
        let pairs = skip_3(words.0.fields, words.1, present);
        lemma_words_prefix(w, st.symbol, present, out_len);
        lemma_pairs_fit(words.0.fields, words.1, present);
        lemma_pairs_prefix(words.0.fields, words.1, present);
        lemma2_to64();
        lemma_bits_last(pairs.0, (present - pairs.1) as nat, 2);
        let last = pairs.0.push(((present - pairs.1) as nat, 2nat));
        assert(last.subrange(0, pairs.0.len() as int) =~= pairs.0);
        lemma_prefix_trans(words.0.fields, pairs.0, last);
        lemma_prefix_trans(w.fields, words.0.fields, last);
    } else {
        assert(w.fields.subrange(0, w.fields.len() as int) =~= w.fields);
    }
}

/// `given` with the counts of `norm` from `from` up to `to`.
pub open spec fn restored(given: Seq<i16>, norm: Seq<i16>, from: int, to: int) -> Seq<i16> {
    Seq::new(given.len(), |s: int| if from <= s < to { norm[s] } else { given[s] })
}

/// From a state on its way, the reader reads back the symbols that the
/// writer has written from that state on.
pub proof fn lemma_read_back(
    norm: Seq<i16>,
    top: u32,
    table_log: u32,
    st: NCountState,
    w: NCountWrite,
    out_len: nat,
    limit: nat,
    top_read: u32,
    given: Seq<i16>,
)
    requires
        on_track(norm, top, table_log, st),
        fields_fit(w.fields),
        write_symbols(norm, top + 1, st, w, out_len) is Ok,
        fields_bits(write_symbols(norm, top + 1, st, w, out_len)->Ok_0.1.fields) <= limit,
        top <= top_read <= 255,
        given.len() == 256,
    ensures
        ({
            let end = write_symbols(norm, top + 1, st, w, out_len)->Ok_0;
            &&& read_symbols(
                fields_value(end.1.fields),
                limit,
                top_read as int,
                st,
                fields_bits(w.fields),
                given,
            ) == Ok::<(NCountState, nat, Seq<i16>), ReadFault>(
                (end.0, fields_bits(end.1.fields), restored(given, norm, st.symbol, top + 1)),
            )
            &&& end.0.remaining == 1
            &&& end.0.symbol == top + 1
        }),
    decreases top + 1 - st.symbol,
{
    let end = write_symbols(norm, top + 1, st, w, out_len)->Ok_0;
    let full = end.1.fields;
    let n = fields_value(full);
    lemma_write_extends(norm, top, table_log, st, w, out_len);
    lemma_slots_monotone(norm, st.symbol as nat, (top + 1) as nat);
    lemma_slots_monotone(norm, top as nat, (top + 1) as nat);
    if st.remaining <= 1 {
        // the table is used up: the symbol is the one behind the largest
        if st.symbol <= top {
            lemma_slots_monotone(norm, st.symbol as nat, top as nat);
            assert(slots_before(norm, (top + 1) as nat) == slots_before(norm, top as nat)
                + slots_of(norm[top as int]));
            assert(false);
        }
        assert(restored(given, norm, st.symbol, top + 1) =~= given);
    } else {
        lemma_step_on_track(norm, top, table_log, st);
        lemma_write_run(norm, top, st, w, out_len);
        let present = present_symbol(norm, top, st);
        let here = at_present(norm, top, st);
        let count = norm[present] as int;
        let next = after_count(count, here);
        let after_run = write_run(norm, top, st, w, out_len);
        let field = count_field(count, here);
        let written = NCountWrite { fields: after_run.fields.push(field), flushed: after_run.flushed };
        let stored = checkpoint(written, out_len)->Ok_0;
        lemma_count_field_fits(count, here);
        lemma_bits_last(after_run.fields, field.0, field.1);
        lemma_write_extends(norm, top, table_log, next, stored, out_len);
        lemma_prefix_push(after_run.fields, field, full);
        let pos = fields_bits(w.fields);
        let at = if st.previous_is0 { read_run(n, pos, st.symbol as nat, limit).1 } else { pos };
        if st.previous_is0 {
            let words = skip_24(w, st.symbol, present, out_len)->Ok_0;
            let pairs = skip_3(words.0.fields, words.1, present);
            let last = ((present - pairs.1) as nat, 2nat);
            lemma_read_words_back(w, st.symbol, present, out_len, full, limit, st.symbol as nat);
            lemma_pairs_back(words.0.fields, words.1, present, full, limit, words.1 as nat);
            lemma_prefix_field(pairs.0, last, full);
            lemma_push_field(pairs.0, last);
            assert(read_run(n, pos, st.symbol as nat, limit) == (
                present as nat,
                fields_bits(after_run.fields),
            ));
        }
        assert(at == fields_bits(after_run.fields));
        lemma_count_back(after_run.fields, count, here, full);
        let changed = cleared(given, st.symbol, present).update(present, narrowed(count));
        assert(changed =~= restored(given, norm, st.symbol, present + 1));
        lemma_read_back(norm, top, table_log, next, stored, out_len, limit, top_read, changed);
        assert(restored(changed, norm, present + 1, top + 1) =~= restored(
            given,
            norm,
            st.symbol,
            top + 1,
        ));
        assert(here == (NCountState {
            symbol: present,
            remaining: st.remaining,
            threshold: st.threshold,
            nb_bits: st.nb_bits,
            previous_is0: st.previous_is0,
        }));
    }
}

/// Reading a header gives back what was written.
///
/// Let `norm` be a distribution over the symbols up to `top`, the largest
/// of which has a slot, for a table of `2^table_log` slots, and let `data`
/// hold the header that the writer makes of it. Then reading `data`, with
/// any symbol from `top` on allowed as the largest, gives the size of the
/// header, the table size, the largest symbol and the counts of `norm` up
/// to it; the counts above it stay what they were.
pub proof fn lemma_header_round_trip(
    norm: Seq<i16>,
    top: u32,
    table_log: u32,
    out_len: nat,
    data: Seq<u8>,
    given: Seq<i16>,
    top_read: u32,
)
    requires
        valid_distribution(norm, table_log, top),
        norm[top as int] != 0,
        spec_write_n_count(norm, top, table_log, out_len) is Ok,
        data.len() == spec_write_n_count(norm, top, table_log, out_len)->Ok_0.1,
        crate::bitstream::le_value(data) == fields_value(
            spec_write_n_count(norm, top, table_log, out_len)->Ok_0.0,
        ),
        top <= top_read <= 255,
        given.len() == 256,
    ensures
        spec_read_n_count(data, given, top_read) == Ok::<(Seq<i16>, u32, u32, nat), ReadFault>(
            (restored(given, norm, 0, top + 1), top, table_log, data.len()),
        ),
{
    let size = pow2(table_log as nat) as int;
    let start = NCountState {
        symbol: 0,
        remaining: size + 1,
        threshold: size,
        nb_bits: table_log + 1,
        previous_is0: false,
    };
    let head = ((table_log - 5) as nat, 4nat);
    let first = NCountWrite { fields: seq![head], flushed: 0 };
    let end = write_symbols(norm, top + 1, start, first, out_len)->Ok_0;
    let full = end.1.fields;
    let limit = 8 * data.len();
    lemma2_to64();
    crate::table::lemma_table_size(table_log);
    lemma_pow2_unfold((table_log + 1) as nat);
    assert(Seq::<(nat, nat)>::empty().push(head) =~= first.fields);
    lemma_bits_last(Seq::<(nat, nat)>::empty(), head.0, head.1);
    lemma_write_extends(norm, top, table_log, start, first, out_len);
    lemma_prefix_field(Seq::<(nat, nat)>::empty(), head, full);
    lemma_read_back(norm, top, table_log, start, first, out_len, limit, top_read, given);
    lemma_push_field(Seq::<(nat, nat)>::empty(), head);
    assert(bits_at(fields_value(full), 0, 4) + 5 == table_log);
}

} // verus!
