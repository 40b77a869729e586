//! The encoder of the finite-state-entropy coder: two interleaved coders
//! take the symbols in from the last to the first, the coder of the even
//! indices and the coder of the odd ones.

use vstd::prelude::*;
use vstd::arithmetic::power2::{
    pow2, lemma_pow2_pos,
};
use crate::bitstream::{
    BitCstream, BitCstreamOwned, low_bits, fields_bits, fields_value, le_value,
    lemma_stream_add, lemma_stream_bytes, lemma_push_field,
};
use crate::table::CompressionTable;

verus! {

/// Bytes set aside for a normalized-count header.
pub const FSE_NCOUNTBOUND: usize = 512;

/// State of one of the two coders.
#[derive(Debug)]
pub struct FseCState {
    pub value: usize,
}

/// State of the coder that owns the indices `i, i + 2, ..`, once it has
/// taken in the symbols at these indices, the last one first.
pub open spec fn coder_state(input: Seq<u8>, comp: &CompressionTable, i: int) -> int
    decreases input.len() - i,
{
    if i + 2 >= input.len() {
        comp.start_state(input[i])
    } else {
        comp.next_state(input[i], coder_state(input, comp, i + 2))
    }
}

/// The fields that the symbols from the last one down to index `i` put into
/// the stream. The first symbol that a coder sees puts nothing: it sets the
/// coder's state.
pub open spec fn symbol_fields(input: Seq<u8>, comp: &CompressionTable, i: int) -> Seq<(nat, nat)>
    decreases input.len() - i,
{
    if i + 2 >= input.len() {
        Seq::empty()
    } else {
        let state = coder_state(input, comp, i + 2);
        let bits = comp.bits_out(input[i], state) as nat;
        symbol_fields(input, comp, i + 1).push(((state % (pow2(bits) as int)) as nat, bits))
    }
}

/// All fields of the compressed stream: those of the symbols, the final
/// states of the odd and of the even coder at `table_log` bits each, and the
/// end mark.
pub open spec fn spec_fse_fields(input: Seq<u8>, comp: &CompressionTable, table_log: u32) -> Seq<
    (nat, nat),
> {
    let size = pow2(table_log as nat) as int;
    symbol_fields(input, comp, 0).push(
        ((coder_state(input, comp, 1) % size) as nat, table_log as nat),
    ).push(((coder_state(input, comp, 0) % size) as nat, table_log as nat)).push((1nat, 1nat))
}

impl FseCState {
    /// The state of a coder whose first symbol is `symbol`.
    pub fn new(symbol: u8, comp: &CompressionTable) -> (state: Self)
        requires
            comp.encodes(symbol),
        ensures
            state.value == comp.start_state(symbol),
            comp.is_state(state.value as int),
    {
        proof {
            reveal(CompressionTable::encodes);
        }
        let symbol_tt = comp.symbol_tt[symbol as usize];
        assert((1usize << 15) == 32768) by (bit_vector);
        let sum: usize = symbol_tt.delta_nb_bits as usize + (1usize << 15);
        assert(sum >> 16 == sum / 65536) by (bit_vector);
        let nb_bits_out: u32 = (sum >> 16) as u32;
        let width = nb_bits_out as usize;
        assert(width <= 12 ==> width << 16 == width * 65536) by (bit_vector);
        let value: usize = ((nb_bits_out as usize) << 16) - symbol_tt.delta_nb_bits as usize;
        proof {
            vstd::bits::lemma_usize_shr_is_div(value, nb_bits_out as usize);
            lemma_pow2_pos(nb_bits_out as nat);
            vstd::arithmetic::div_mod::lemma_div_nonincreasing(
                value as int,
                pow2(nb_bits_out as nat) as int,
            );
        }
        let index = ((value >> nb_bits_out) as isize + symbol_tt.delta_find_state as isize) as usize;
        FseCState { value: comp.state_table[index] as usize }
    }
}

/// Room that a block of `size` bytes is given.
pub fn fse_blockbound(size: usize) -> (bound: usize)
    requires
        size + size / 128 + 12 <= usize::MAX,
    ensures
        bound == size + size / 128 + 12,
{
    assert(size >> 7 == size / 128) by (bit_vector);
    size + (size >> 7) + 4 + crate::bitstream::BIT_CONTAINER_BYTES
}

/// Room that the compressed form of `size` bytes is given, header included.
pub fn fse_compressbound(size: usize) -> (bound: usize)
    requires
        size + size / 128 + 524 <= usize::MAX,
    ensures
        bound == size + size / 128 + 524,
{
    FSE_NCOUNTBOUND + fse_blockbound(size)
}

/// Encodes `symbol` with the coder `c_state`: the low bits of the state go
/// to the stream, what is left of it selects the next state.
pub fn fse_encode_symbol(
    bit_c: &mut BitCstream,
    c_state: &mut FseCState,
    comp: &CompressionTable,
    symbol: u8,
)
    requires
        old(bit_c).wf(),
        old(bit_c).bit_pos + 12 < 64,
        comp.encodes(symbol),
        comp.is_state(old(c_state).value as int),
    ensures
        final(bit_c).wf(),
        final(bit_c).data_pos == old(bit_c).data_pos,
        final(bit_c).bit_pos == old(bit_c).bit_pos + comp.bits_out(
            symbol,
            old(c_state).value as int,
        ),
        final(bit_c).bit_container == old(bit_c).bit_container + low_bits(
            old(c_state).value as u64,
            comp.bits_out(symbol, old(c_state).value as int) as u32,
        ) * pow2(old(bit_c).bit_pos as nat),
        final(c_state).value == comp.next_state(symbol, old(c_state).value as int),
        comp.is_state(final(c_state).value as int),
        0 <= comp.bits_out(symbol, old(c_state).value as int) <= 12,
        forall|data: Seq<u8>| #[trigger]
            final(bit_c).value(data) == old(bit_c).value(data) + low_bits(
                old(c_state).value as u64,
                comp.bits_out(symbol, old(c_state).value as int) as u32,
            ) * pow2(old(bit_c).bits()),
        final(bit_c).bits() == old(bit_c).bits() + comp.bits_out(symbol, old(c_state).value as int),
{
    let ghost before = *bit_c;
    proof {
        reveal(CompressionTable::encodes);
    }
    let symbol_tt = comp.symbol_tt[symbol as usize];
    assert(comp.steps(symbol, c_state.value as int));
    let sum: usize = c_state.value + symbol_tt.delta_nb_bits as usize;
    assert(sum >> 16 == sum / 65536) by (bit_vector);
    let nb_bits_out: u32 = (sum >> 16) as u32;
    bit_c.add_bits(c_state.value as u64, nb_bits_out);
    proof {
        vstd::bits::lemma_usize_shr_is_div(c_state.value, nb_bits_out as usize);
        lemma_pow2_pos(nb_bits_out as nat);
        vstd::arithmetic::div_mod::lemma_div_nonincreasing(
            c_state.value as int,
            pow2(nb_bits_out as nat) as int,
        );
        let field = low_bits(c_state.value as u64, nb_bits_out);
        assert forall|data: Seq<u8>| #[trigger]
            bit_c.value(data) == before.value(data) + field * pow2(before.bits()) by {
            lemma_stream_add(before, *bit_c, data, field);
        }
    }
    let state_index = ((c_state.value >> nb_bits_out) as isize + symbol_tt.delta_find_state as isize)
        as usize;
    c_state.value = comp.state_table[state_index] as usize;
}

/// Makes room in `data` for a register stored at `pos`: `data` grows where
/// the eight bytes from `pos` on would not fit.
pub fn reserve_word(data: &mut Vec<u8>, pos: usize)
    requires
        pos <= old(data)@.len(),
        pos + 8 <= usize::MAX,
    ensures
        final(data)@.len() == (if pos + 8 <= old(data)@.len() {
            old(data)@.len()
        } else {
            (pos + 8) as nat
        }),
        final(data)@.subrange(0, old(data)@.len() as int) == old(data)@,
{
    if pos + 8 > data.len() {
        data.resize(pos + 8, 0);
    } else {
        assert(data@.subrange(0, data@.len() as int) =~= data@);
    }
}

/// Stores the register in `data`, which grows where the register would
/// not fit.
pub fn flush_into(bit_c: &mut BitCstream, data: &mut Vec<u8>)
    requires
        old(bit_c).wf(),
        old(bit_c).data_pos <= old(data)@.len(),
        old(bit_c).data_pos + 8 <= usize::MAX,
    ensures
        final(bit_c).wf(),
        final(bit_c).bit_pos == old(bit_c).bit_pos % 8,
        final(bit_c).data_pos == old(bit_c).data_pos + old(bit_c).bit_pos / 8,
        final(bit_c).bits() == old(bit_c).bits(),
        final(bit_c).value(final(data)@) == old(bit_c).value(old(data)@),
        final(bit_c).data_pos < final(data)@.len(),
        final(bit_c).bit_pos > 0 ==> final(data)@[final(bit_c).data_pos as int] == final(bit_c).bit_container,
        final(data)@.len() == (if old(bit_c).data_pos + 8 <= old(data)@.len() {
            old(data)@.len()
        } else {
            (old(bit_c).data_pos + 8) as nat
        }),
{
    let ghost data_before = data@;
    reserve_word(data, bit_c.data_pos);
    proof {
        lemma_prefix_kept(data_before, data@, bit_c.data_pos as int);
        crate::bitstream::lemma_stream_prefix(*bit_c, data_before, data@);
    }
    bit_c.flush_bits_fast(data.as_mut_slice());
}

proof fn lemma_prefix_kept(before: Seq<u8>, after: Seq<u8>, pos: int)
    requires
        0 <= pos <= before.len() <= after.len(),
        after.subrange(0, before.len() as int) == before,
    ensures
        after.subrange(0, pos) == before.subrange(0, pos),
{
    assert forall|i: int| 0 <= i < pos implies after[i] == before[i] by {
        assert(after.subrange(0, before.len() as int)[i] == after[i]);
    }
    assert(after.subrange(0, pos) =~= before.subrange(0, pos));
}

/// Puts the final state of a coder into the stream, at `table_log` bits,
/// and stores the register.
pub fn fse_flush_cstate(
    bit_c: &mut BitCstream,
    c_state: &mut FseCState,
    table_log: u32,
    data: &mut Vec<u8>,
)
    requires
        old(bit_c).wf(),
        table_log < 32,
        old(bit_c).bit_pos + table_log < 64,
        old(bit_c).data_pos <= old(data)@.len(),
        old(bit_c).data_pos + 8 <= usize::MAX,
    ensures
        final(bit_c).wf(),
        final(bit_c).bit_pos == (old(bit_c).bit_pos + table_log) % 8,
        final(bit_c).data_pos == old(bit_c).data_pos + (old(bit_c).bit_pos + table_log) / 8,
        final(bit_c).bits() == old(bit_c).bits() + table_log,
        final(bit_c).value(final(data)@) == old(bit_c).value(old(data)@) + low_bits(
            old(c_state).value as u64,
            table_log,
        ) * pow2(old(bit_c).bits()),
        final(bit_c).data_pos < final(data)@.len(),
        final(bit_c).bit_pos > 0 ==> final(data)@[final(bit_c).data_pos as int] == final(bit_c).bit_container,
        final(data)@.len() >= old(data)@.len(),
        final(c_state).value == old(c_state).value,
{
    let ghost before = *bit_c;
    bit_c.add_bits(c_state.value as u64, table_log);
    proof {
        lemma_stream_add(before, *bit_c, data@, low_bits(c_state.value as u64, table_log));
    }
    flush_into(bit_c, data);
}

/// What one more symbol, taken in at index `j`, adds to the fields.
pub proof fn lemma_symbol_step(input: Seq<u8>, comp: &CompressionTable, j: int)
    requires
        0 <= j,
        j + 2 < input.len(),
    ensures
        ({
            let state = coder_state(input, comp, j + 2);
            let bits = comp.bits_out(input[j], state) as nat;
            let rest = symbol_fields(input, comp, j + 1);
            &&& coder_state(input, comp, j) == comp.next_state(input[j], state)
            &&& fields_bits(symbol_fields(input, comp, j)) == fields_bits(rest) + bits
            &&& fields_value(symbol_fields(input, comp, j)) == fields_value(rest) + ((state % (pow2(
                bits,
            ) as int)) as nat) * pow2(fields_bits(rest))
        }),
{
    let state = coder_state(input, comp, j + 2);
    let bits = comp.bits_out(input[j], state) as nat;
    lemma_push_field(
        symbol_fields(input, comp, j + 1),
        ((state % (pow2(bits) as int)) as nat, bits),
    );
}

/// Takes in the symbol at `index` with the coder that owns this index.
pub fn encode_index(
    bit_c: &mut BitCstream,
    c_state: &mut FseCState,
    comp: &CompressionTable,
    input: &[u8],
    index: usize,
)
    requires
        index + 2 < input@.len(),
        old(bit_c).wf(),
        old(bit_c).bit_pos + 12 < 64,
        comp.encodes(input@[index as int]),
        old(c_state).value == coder_state(input@, comp, index + 2),
        comp.is_state(old(c_state).value as int),
        old(bit_c).bits() == fields_bits(symbol_fields(input@, comp, index + 1)),
    ensures
        final(bit_c).wf(),
        final(bit_c).data_pos == old(bit_c).data_pos,
        old(bit_c).bit_pos <= final(bit_c).bit_pos <= old(bit_c).bit_pos + 12,
        final(c_state).value == coder_state(input@, comp, index as int),
        comp.is_state(final(c_state).value as int),
        final(bit_c).bits() == fields_bits(symbol_fields(input@, comp, index as int)),
        forall|data: Seq<u8>|
            old(bit_c).value(data) == fields_value(symbol_fields(input@, comp, index + 1))
                ==> #[trigger] final(bit_c).value(data) == fields_value(
                symbol_fields(input@, comp, index as int),
            ),
{
    proof {
        lemma_symbol_step(input@, comp, index as int);
    }
    fse_encode_symbol(bit_c, c_state, comp, input[index]);
}

/// Compresses `input` with the tables `comp`.
///
/// The result holds the stream that the fields of `spec_fse_fields` make
/// up, low byte first: the bits of the symbols from the last to the first,
/// then the two final states, then the end mark as the highest set bit. The
/// buffer has the size that `fse_compressbound` gives, and more where the
/// stream needs it.
#[verifier::rlimit(60)]
pub fn fse_compress(input: &[u8], comp: &CompressionTable, table_log: u32) -> (out: BitCstreamOwned)
    requires
        2 < input@.len() <= usize::MAX / 16,
        5 <= table_log <= 12,
        comp.table_size() == pow2(table_log as nat),
        forall|i: int| 0 <= i < input@.len() ==> comp.encodes(#[trigger] input@[i]),
    ensures
        out.bit_pos < 8,
        8 * out.data_pos + out.bit_pos == fields_bits(spec_fse_fields(input@, comp, table_log)),
        out.data_pos + (if out.bit_pos > 0 { 1int } else { 0int }) <= out.data@.len(),
        le_value(
            out.data@.subrange(0, out.data_pos + (if out.bit_pos > 0 { 1int } else { 0int })),
        ) == fields_value(spec_fse_fields(input@, comp, table_log)),
        out.data@.len() >= input@.len() + input@.len() / 128 + 524,
{
    let n = input.len();
    let ghost text = input@;
    let max_compressed_size = fse_compressbound(n);
    let mut data: Vec<u8> = Vec::new();
    data.resize(max_compressed_size, 0);
    let mut bit_c = BitCstream::new();
    let mut index: usize = n;
    assert(n & 1 == n % 2) by (bit_vector);
    proof {
        crate::bitstream::lemma_stream_start(bit_c, data@);
    }
    let mut state1: FseCState;
    let mut state2: FseCState;
    if n & 1 == 1 {
        index -= 1;
        state1 = FseCState::new(input[index], comp);
        index -= 1;
        state2 = FseCState::new(input[index], comp);
        index -= 1;
        encode_index(&mut bit_c, &mut state1, comp, input, index);
        assert(bit_c.value(data@) == fields_value(symbol_fields(text, comp, index as int)));
        flush_into(&mut bit_c, &mut data);
    } else {
        index -= 1;
        state2 = FseCState::new(input[index], comp);
        index -= 1;
        state1 = FseCState::new(input[index], comp);
    }

    let rest = n - 2;
    assert((rest & 2 == 2) == (rest % 4 >= 2)) by (bit_vector);
    if crate::bitstream::NUM_BITS_IN_BIT_CONTAINER > crate::FSE_MAX_TABLELOG * 4 + 7 && (rest & 2)
        == 2 {
        index -= 1;
        encode_index(&mut bit_c, &mut state2, comp, input, index);
        assert(bit_c.value(data@) == fields_value(symbol_fields(text, comp, index as int)));
        index -= 1;
        encode_index(&mut bit_c, &mut state1, comp, input, index);
        assert(bit_c.value(data@) == fields_value(symbol_fields(text, comp, index as int)));
        flush_into(&mut bit_c, &mut data);
    }
    while index >= 4
        invariant
            n == text.len(),
            text == input@,
            2 < n <= usize::MAX / 16,
            5 <= table_log <= 12,
            forall|i: int| 0 <= i < text.len() ==> comp.encodes(#[trigger] text[i]),
            index % 4 == 0,
            index + 2 <= n,
            bit_c.wf(),
            bit_c.bit_pos < 8,
            bit_c.data_pos <= data@.len(),
            data@.len() >= n + n / 128 + 524,
            bit_c.bits() <= 12 * (n - index),
            bit_c.bits() == fields_bits(symbol_fields(text, comp, index as int)),
            bit_c.value(data@) == fields_value(symbol_fields(text, comp, index as int)),
            state1.value == coder_state(text, comp, index as int),
            state2.value == coder_state(text, comp, index + 1),
            comp.is_state(state1.value as int),
            comp.is_state(state2.value as int),
        decreases index,
    {
        encode_index(&mut bit_c, &mut state2, comp, input, index - 1);
        assert(bit_c.value(data@) == fields_value(symbol_fields(text, comp, index - 1)));
        encode_index(&mut bit_c, &mut state1, comp, input, index - 2);
        assert(bit_c.value(data@) == fields_value(symbol_fields(text, comp, index - 2)));
        encode_index(&mut bit_c, &mut state2, comp, input, index - 3);
        assert(bit_c.value(data@) == fields_value(symbol_fields(text, comp, index - 3)));
        encode_index(&mut bit_c, &mut state1, comp, input, index - 4);
        assert(bit_c.value(data@) == fields_value(symbol_fields(text, comp, index - 4)));
        flush_into(&mut bit_c, &mut data);
        index -= 4;
    }
    finish_states(bit_c, state1, state2, table_log, data, Ghost(text), comp)
}

/// Ends the stream: the final states of the odd and of the even coder, then
/// the end mark.
fn finish_states(
    bit_c: BitCstream,
    state1: FseCState,
    state2: FseCState,
    table_log: u32,
    data: Vec<u8>,
    Ghost(text): Ghost<Seq<u8>>,
    comp: &CompressionTable,
) -> (out: BitCstreamOwned)
    requires
        2 < text.len() <= usize::MAX / 16,
        5 <= table_log <= 12,
        comp.table_size() == pow2(table_log as nat),
        bit_c.wf(),
        bit_c.bit_pos < 8,
        bit_c.data_pos <= data@.len(),
        bit_c.bits() <= 12 * text.len(),
        bit_c.bits() == fields_bits(symbol_fields(text, comp, 0)),
        bit_c.value(data@) == fields_value(symbol_fields(text, comp, 0)),
        state1.value == coder_state(text, comp, 0),
        state2.value == coder_state(text, comp, 1),
        comp.is_state(state1.value as int),
        comp.is_state(state2.value as int),
    ensures
        out.bit_pos < 8,
        8 * out.data_pos + out.bit_pos == fields_bits(spec_fse_fields(text, comp, table_log)),
        out.data_pos + (if out.bit_pos > 0 { 1int } else { 0int }) <= out.data@.len(),
        le_value(
            out.data@.subrange(0, out.data_pos + (if out.bit_pos > 0 { 1int } else { 0int })),
        ) == fields_value(spec_fse_fields(text, comp, table_log)),
        out.data@.len() >= data@.len(),
{
    let mut bit_c = bit_c;
    let mut state1 = state1;
    let mut state2 = state2;
    let mut data = data;
    let ghost fields = symbol_fields(text, comp, 0);
    let ghost size = pow2(table_log as nat) as int;
    let ghost second = ((coder_state(text, comp, 1) % size) as nat, table_log as nat);
    let ghost first = ((coder_state(text, comp, 0) % size) as nat, table_log as nat);
    proof {
        lemma_push_field(fields, second);
        lemma_push_field(fields.push(second), first);
        lemma_push_field(fields.push(second).push(first), (1nat, 1nat));
    }
    fse_flush_cstate(&mut bit_c, &mut state2, table_log, &mut data);
    fse_flush_cstate(&mut bit_c, &mut state1, table_log, &mut data);
    let ghost data_before = data@;
    reserve_word(&mut data, bit_c.data_pos);
    proof {
        lemma_prefix_kept(data_before, data@, bit_c.data_pos as int);
        crate::bitstream::lemma_stream_prefix(bit_c, data_before, data@);
    }
    bit_c.finish_stream(data.as_mut_slice());
    proof {
        lemma_stream_bytes(bit_c, data@);
    }
    BitCstreamOwned::new(data, bit_c.data_pos, bit_c.bit_pos)
}

} // verus!
