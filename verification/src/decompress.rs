//! The decoder of the finite-state-entropy coder: two interleaved decoders
//! give the symbols back from the first to the last.

use vstd::prelude::*;
use vstd::arithmetic::power2::{pow2, lemma_pow2_pos, lemma2_to64, lemma_pow2_strictly_increases};
use crate::bitstream::{
    BitDStreamReverse, BitDstreamStatus, spec_look_bits, spec_look_bits_fast, spec_reload,
    spec_highbit,
};
use crate::table::DecompressionTable;

verus! {

/// State of one of the two decoders.
#[derive(Debug)]
pub struct FseDState {
    pub state: usize,
}

/// The reader after `nb_bits` more bits have been read.
pub open spec fn reader_after(reader: BitDStreamReverse, nb_bits: int) -> BitDStreamReverse {
    BitDStreamReverse {
        bit_container: reader.bit_container,
        bits_consumed: (reader.bits_consumed + nb_bits) as u32,
        limit_pos: reader.limit_pos,
        input_pos: reader.input_pos,
    }
}

/// One step of a decoder in state `state`: the symbol of the state, the
/// state that follows, and the reader after the bits of the step.
pub open spec fn spec_decode_step(
    table: &DecompressionTable,
    state: int,
    reader: BitDStreamReverse,
    fast: bool,
) -> (u8, int, BitDStreamReverse) {
    let cell = table.table@[state];
    let low = if fast {
        spec_look_bits_fast(reader.bit_container, reader.bits_consumed, cell.nb_bits as u32) as int
    } else {
        spec_look_bits(reader.bit_container, reader.bits_consumed, cell.nb_bits as u32) as int
    };
    (cell.symbol, cell.new_state + low, reader_after(reader, cell.nb_bits as int))
}

/// The reader and the first state of a decoder, read at `table_log` bits.
pub open spec fn spec_first_state(reader: BitDStreamReverse, table_log: u32, input: Seq<u8>) -> (
    int,
    BitDStreamReverse,
) {
    (
        spec_look_bits(reader.bit_container, reader.bits_consumed, table_log) as int,
        spec_reload(reader_after(reader, table_log as int), input).0,
    )
}

/// The groups of four symbols, for as long as four places are left in the
/// output and the reader can be refilled in full. Gives the output, the two
/// states, the reader and the number of symbols written.
pub open spec fn spec_decode_groups(
    table: &DecompressionTable,
    input: Seq<u8>,
    reader: BitDStreamReverse,
    state1: int,
    state2: int,
    out: Seq<u8>,
    consumed: int,
) -> (Seq<u8>, int, int, BitDStreamReverse, int)
    decreases out.len() - consumed,
{
    if consumed < 0 || consumed + 4 > out.len() {
        (out, state1, state2, reader, consumed)
    } else {
        let (loaded, status) = spec_reload(reader, input);
        if status != BitDstreamStatus::Unfinished {
            (out, state1, state2, loaded, consumed)
        } else {
            let (a, next1, r1) = spec_decode_step(table, state1, loaded, table.fast);
            let (b, next2, r2) = spec_decode_step(table, state2, r1, table.fast);
            let (c, last1, r3) = spec_decode_step(table, next1, r2, table.fast);
            let (d, last2, r4) = spec_decode_step(table, next2, r3, table.fast);
            spec_decode_groups(
                table,
                input,
                r4,
                last1,
                last2,
                out.update(consumed, a).update(consumed + 1, b).update(consumed + 2, c).update(
                    consumed + 3,
                    d,
                ),
                consumed + 4,
            )
        }
    }
}

/// The last symbols, one at a time, the two decoders in turn, `turn` first:
/// when the reader reports that the data has ended, the other decoder gives
/// one more symbol. Nothing is written past the end of the output.
pub open spec fn spec_decode_tail(
    table: &DecompressionTable,
    input: Seq<u8>,
    reader: BitDStreamReverse,
    turn: int,
    other: int,
    out: Seq<u8>,
    pos: int,
) -> Seq<u8>
    decreases out.len() - pos,
{
    if pos < 0 || pos >= out.len() {
        out
    } else {
        let (symbol, next, read) = spec_decode_step(table, turn, reader, table.fast);
        let written = out.update(pos, symbol);
        let (loaded, status) = spec_reload(read, input);
        if status == BitDstreamStatus::Overflow {
            if pos + 1 < out.len() {
                written.update(pos + 1, spec_decode_step(table, other, loaded, table.fast).0)
            } else {
                written
            }
        } else {
            spec_decode_tail(table, input, loaded, other, next, written, pos + 1)
        }
    }
}

/// What decoding `input` into `out` leaves in `out`.
pub open spec fn spec_fse_decode(
    input: Seq<u8>,
    table: &DecompressionTable,
    table_log: u32,
    out: Seq<u8>,
) -> Seq<u8> {
    let start = spec_reader(input);
    let (state1, r1) = spec_first_state(start, table_log, input);
    let (state2, r2) = spec_first_state(r1, table_log, input);
    let (filled, s1, s2, reader, consumed) = spec_decode_groups(
        table,
        input,
        r2,
        state1,
        state2,
        out,
        0,
    );
    spec_decode_tail(table, input, reader, s1, s2, filled, consumed)
}

/// The reader at the end of `input`.
pub open spec fn spec_reader(input: Seq<u8>) -> BitDStreamReverse {
    let pos = if input.len() >= 8 { input.len() - 8 } else { 0 };
    BitDStreamReverse {
        bit_container: crate::bitstream::le_value(input.subrange(pos, input.len() as int)) as u64,
        bits_consumed: (8 - spec_highbit(input[input.len() - 1] as nat) + (if input.len() < 8 {
            8 * (8 - input.len())
        } else {
            0
        })) as u32,
        limit_pos: 8,
        input_pos: pos as usize,
    }
}

impl FseDState {
    /// The first state of a decoder: `table_log` bits of the stream.
    pub fn new(bit_stream: &mut BitDStreamReverse, table_log: u32, input: &[u8]) -> (state: Self)
        requires
            table_log <= 12,
            old(bit_stream).attached(input@),
            old(bit_stream).bits_consumed <= 200,
        ensures
            (state.state as int, *final(bit_stream)) == spec_first_state(
                *old(bit_stream),
                table_log,
                input@,
            ),
            state.state < pow2(table_log as nat),
            final(bit_stream).attached(input@),
            final(bit_stream).bits_consumed <= old(bit_stream).bits_consumed + 12,
    {
        let state = bit_stream.read_bits(table_log);
        proof {
            lemma_pow2_pos(table_log as nat);
            lemma2_to64();
            lemma_pow2_strictly_increases(table_log as nat, 13);
            vstd::arithmetic::div_mod::lemma_mod_bound(
                (old(bit_stream).bit_container as nat / pow2(
                    ((64 - old(bit_stream).bits_consumed - table_log) % 64) as nat,
                )) as int,
                pow2(table_log as nat) as int,
            );
            assert(*bit_stream == reader_after(*old(bit_stream), table_log as int));
        }
        bit_stream.reload_stream(input);
        FseDState { state: state as usize }
    }
}

/// One step with the checked read.
pub fn internal_fse_decode_symbol(
    table: &DecompressionTable,
    d_state: &mut FseDState,
    bit_d: &mut BitDStreamReverse,
) -> (symbol: u8)
    requires
        table.closed(),
        old(d_state).state < table.table@.len(),
        old(bit_d).bits_consumed <= 200,
    ensures
        (symbol, final(d_state).state as int, *final(bit_d)) == spec_decode_step(
            table,
            old(d_state).state as int,
            *old(bit_d),
            false,
        ),
        final(d_state).state < table.table@.len(),
        final(bit_d).bits_consumed <= old(bit_d).bits_consumed + 12,
{
    let d_info = table.table[d_state.state];
    let ghost reader = *bit_d;
    let low_bits = bit_d.read_bits(d_info.nb_bits as u32);
    proof {
        lemma2_to64();
        if d_info.nb_bits < 12 {
            lemma_pow2_strictly_increases(d_info.nb_bits as nat, 12);
        }
        lemma_pow2_pos(d_info.nb_bits as nat);
        vstd::arithmetic::div_mod::lemma_mod_bound(
            (reader.bit_container as nat / pow2(
                ((64 - reader.bits_consumed - d_info.nb_bits) % 64) as nat,
            )) as int,
            pow2(d_info.nb_bits as nat) as int,
        );
        assert(*bit_d == reader_after(reader, d_info.nb_bits as int));
    }
    d_state.state = d_info.new_state as usize + low_bits as usize;
    d_info.symbol
}

/// One step with the unchecked read; every cell of the table has to read at
/// least one bit.
pub fn internal_fse_decode_symbol_fast(
    table: &DecompressionTable,
    d_state: &mut FseDState,
    bit_d: &mut BitDStreamReverse,
) -> (symbol: u8)
    requires
        table.closed(),
        table.fast_ready(),
        old(d_state).state < table.table@.len(),
        old(bit_d).bits_consumed <= 200,
    ensures
        (symbol, final(d_state).state as int, *final(bit_d)) == spec_decode_step(
            table,
            old(d_state).state as int,
            *old(bit_d),
            true,
        ),
        final(d_state).state < table.table@.len(),
        final(bit_d).bits_consumed <= old(bit_d).bits_consumed + 12,
{
    let d_info = table.table[d_state.state];
    let ghost reader = *bit_d;
    let low_bits = bit_d.read_bits_fast(d_info.nb_bits as u32);
    proof {
        lemma2_to64();
        if d_info.nb_bits < 12 {
            lemma_pow2_strictly_increases(d_info.nb_bits as nat, 12);
        }
        assert(*bit_d == reader_after(reader, d_info.nb_bits as int));
    }
    d_state.state = d_info.new_state as usize + low_bits as usize;
    d_info.symbol
}

/// One step of a decoder: gives the symbol of its state and reads the bits
/// that lead to its next state.
pub fn fse_decode_symbol(
    table: &DecompressionTable,
    d_state: &mut FseDState,
    bit_d: &mut BitDStreamReverse,
    fast: bool,
) -> (symbol: u8)
    requires
        table.closed(),
        fast ==> table.fast_ready(),
        old(d_state).state < table.table@.len(),
        old(bit_d).bits_consumed <= 200,
    ensures
        (symbol, final(d_state).state as int, *final(bit_d)) == spec_decode_step(
            table,
            old(d_state).state as int,
            *old(bit_d),
            fast,
        ),
        final(d_state).state < table.table@.len(),
        final(bit_d).bits_consumed <= old(bit_d).bits_consumed + 12,
{
    if fast {
        internal_fse_decode_symbol_fast(table, d_state, bit_d)
    } else {
        internal_fse_decode_symbol(table, d_state, bit_d)
    }
}

/// Decodes `input` into `output`, whose length says how many symbols are
/// asked for.
///
/// The symbols come in groups of four while the reader can be refilled in
/// full, then one at a time until the reader reports the end of the data.
/// Places of `output` that the stream does not reach keep what they held.
pub fn fse_decompress(
    output: &mut Vec<u8>,
    input: &[u8],
    table: &DecompressionTable,
    table_log: u32,
)
    requires
        input@.len() >= 1,
        input@[input@.len() - 1] != 0,
        table.steps_within(table_log),
        table.fast ==> table.fast_ready(),
    ensures
        final(output)@ == spec_fse_decode(input@, table, table_log, old(output)@),
        final(output)@.len() == old(output)@.len(),
{
    let mut bit_stream = BitDStreamReverse::new(input);
    assert(bit_stream == spec_reader(input@));
    let mut state1 = FseDState::new(&mut bit_stream, table_log, input);
    let mut state2 = FseDState::new(&mut bit_stream, table_log, input);
    let len = output.len();
    let ghost groups = spec_decode_groups(
        table,
        input@,
        bit_stream,
        state1.state as int,
        state2.state as int,
        output@,
        0,
    );
    let mut consumed: usize = 0;
    while len - consumed >= 4
        invariant_except_break
            spec_decode_groups(
                table,
                input@,
                bit_stream,
                state1.state as int,
                state2.state as int,
                output@,
                consumed as int,
            ) == groups,
        invariant
            consumed <= len,
            len == output@.len(),
            table.closed(),
            table.fast ==> table.fast_ready(),
            bit_stream.attached(input@),
            bit_stream.bits_consumed <= 100,
            state1.state < table.table@.len(),
            state2.state < table.table@.len(),
        ensures
            groups == (output@, state1.state as int, state2.state as int, bit_stream, consumed as int),
        decreases len - consumed,
    {
        let status = bit_stream.reload_stream(input);
        if status != BitDstreamStatus::Unfinished {
            break;
        }
        let a = fse_decode_symbol(table, &mut state1, &mut bit_stream, table.fast);
        output[consumed] = a;
        let b = fse_decode_symbol(table, &mut state2, &mut bit_stream, table.fast);
        output[consumed + 1] = b;
        let c = fse_decode_symbol(table, &mut state1, &mut bit_stream, table.fast);
        output[consumed + 2] = c;
        let d = fse_decode_symbol(table, &mut state2, &mut bit_stream, table.fast);
        output[consumed + 3] = d;
        consumed += 4;
    }
    let ghost tail = spec_decode_tail(
        table,
        input@,
        bit_stream,
        state1.state as int,
        state2.state as int,
        output@,
        consumed as int,
    );
    let mut pos: usize = consumed;
    loop
        invariant_except_break
            spec_decode_tail(
                table,
                input@,
                bit_stream,
                state1.state as int,
                state2.state as int,
                output@,
                pos as int,
            ) == tail,
            bit_stream.attached(input@),
            bit_stream.bits_consumed <= 100,
            state1.state < table.table@.len(),
            state2.state < table.table@.len(),
        invariant
            pos <= len,
            len == output@.len(),
            table.closed(),
            table.fast ==> table.fast_ready(),
        ensures
            output@ == tail,
            len == output@.len(),
        decreases len - pos,
    {
        if pos >= len {
            break;
        }
        let a = fse_decode_symbol(table, &mut state1, &mut bit_stream, table.fast);
        output[pos] = a;
        pos += 1;
        if bit_stream.reload_stream(input) == BitDstreamStatus::Overflow {
            if pos < len {
                let last = fse_decode_symbol(table, &mut state2, &mut bit_stream, table.fast);
                output[pos] = last;
            }
            break;
        }
        assert(spec_decode_tail(
            table,
            input@,
            bit_stream,
            state2.state as int,
            state1.state as int,
            output@,
            pos as int,
        ) == tail);
        if pos >= len {
            break;
        }
        let b = fse_decode_symbol(table, &mut state2, &mut bit_stream, table.fast);
        output[pos] = b;
        pos += 1;
        if bit_stream.reload_stream(input) == BitDstreamStatus::Overflow {
            if pos < len {
                let last = fse_decode_symbol(table, &mut state1, &mut bit_stream, table.fast);
                output[pos] = last;
            }
            break;
        }
    }
}

} // verus!
