//! The header that carries a normalized distribution: the table size in
//! four bits, then the counts of the symbols, each in as many bits as what
//! is left of the table can take, runs of absent symbols in two bits for
//! every three of them.

use vstd::prelude::*;
use vstd::arithmetic::power2::{pow2, lemma_pow2_pos, lemma2_to64, lemma_pow2_strictly_increases, lemma_pow2_adds, lemma_pow2_unfold};
use crate::bitstream::{le_value, fields_bits, fields_value, lemma_le_value_append, lemma_le_value_single, lemma_push_field};
use crate::NormCountsTable;

verus! {

/// Why a header was not written or not read.
#[derive(Debug)]
pub enum HistError {
    OutputTooSmall,
    UnexpectedRemaining,
    TableLogTooLarge,
    TableLogTooSmall,
    MaxSymbolValueTooSmall,
    CorruptionDetected(String),
    IncorrectNormalizedDistribution,
}

pub const FSE_NCOUNTBOUND: u32 = 512;

/// Room that the header of a distribution is given.
pub fn fse_NCountWriteBound(max_symbol_value: u32, table_log: u32) -> (bound: u32)
    requires
        max_symbol_value < u32::MAX,
        (max_symbol_value + 1) * table_log <= u32::MAX,
    ensures
        bound == (if max_symbol_value == 0 {
            512
        } else {
            (max_symbol_value + 1) * table_log / 8 + 3
        }),
{
    let bits: u32 = (max_symbol_value + 1) * table_log;
    assert(bits >> 3 == bits / 8) by (bit_vector);
    let max_header_size: u32 = (bits >> 3) + 3;
    if max_symbol_value == 0 {
        FSE_NCOUNTBOUND
    } else {
        max_header_size
    }
}

/// What the stored bytes and the pending bits stand for: the bytes below
/// `pos` at the low end, the pending bits above them.
pub open spec fn pending_value(out: Seq<u8>, pos: int, bit_stream: u32) -> nat {
    le_value(out.subrange(0, pos)) + bit_stream as nat * pow2((8 * pos) as nat)
}

/// Stores the low 16 pending bits at `out[pos..pos + 2]`, where they fit,
/// and says whether they did.
pub fn flush_word(out: &mut [u8], pos: &mut usize, bit_stream: &mut u32) -> (stored: bool)
    requires
        *old(pos) <= old(out)@.len(),
    ensures
        final(out)@.len() == old(out)@.len(),
        stored == (*old(pos) + 2 <= old(out)@.len()),
        forall|i: int| 0 <= i < *old(pos) ==> final(out)@[i] == old(out)@[i],
        !stored ==> final(out)@ == old(out)@ && *final(pos) == *old(pos) && *final(bit_stream)
            == *old(bit_stream),
        stored ==> *final(pos) == *old(pos) + 2 && *final(bit_stream) == *old(bit_stream) / 65536
            && pending_value(final(out)@, *final(pos) as int, *final(bit_stream)) == pending_value(
            old(out)@,
            *old(pos) as int,
            *old(bit_stream),
        ),
{
    let len = out.len();
    if len - *pos < 2 {
        return false;
    }
    let ghost before = out@;
    let ghost at = *pos as int;
    let word = *bit_stream;
    assert(word as u8 == word % 256 && (word >> 8) as u8 == (word / 256) % 256 && word >> 16
        == word / 65536) by (bit_vector);
    out[*pos] = #[verifier::truncate] (word as u8);
    out[*pos + 1] = #[verifier::truncate] ((word >> 8) as u8);
    *pos += 2;
    *bit_stream = word >> 16;
    proof {
        let low = (word % 256) as u8;
        let high = ((word / 256) % 256) as u8;
        let stored = before.subrange(0, at);
        assert(out@.subrange(0, at + 2) =~= stored + seq![low] + seq![high]);
        lemma_le_value_append(stored + seq![low], seq![high]);
        lemma_le_value_append(stored, seq![low]);
        lemma_le_value_single(low);
        lemma_le_value_single(high);
        lemma_pow2_adds((8 * at) as nat, 8);
        lemma_pow2_adds((8 * at) as nat, 16);
        lemma2_to64();
        let unit = pow2((8 * at) as nat);
        let rest = (word / 65536) as nat;
        assert(unit * low + (unit * 256) * high + rest * (unit * 65536) == (low + 256 * high
            + 65536 * rest) * unit) by (nonlinear_arith);
        assert(word == low + 256 * high + 65536 * rest);
    }
    true
}

/// Puts the `width` bits of `value` above the pending bits.
pub fn put_bits(bit_stream: &mut u32, bit_count: &mut u32, value: u32, width: u32)
    requires
        *old(bit_count) + width <= 32,
        *old(bit_stream) < pow2(*old(bit_count) as nat),
        value < pow2(width as nat),
    ensures
        *final(bit_count) == *old(bit_count) + width,
        *final(bit_stream) == *old(bit_stream) + value * pow2(*old(bit_count) as nat),
        *final(bit_stream) < pow2(*final(bit_count) as nat),
{
    proof {
        lemma2_to64();
        lemma_pow2_adds(width as nat, *bit_count as nat);
        let a = pow2(width as nat);
        let b = pow2(*bit_count as nat);
        lemma_pow2_pos(*bit_count as nat);
        if *bit_count + width < 32 {
            lemma_pow2_strictly_increases((*bit_count + width) as nat, 32);
        }
        assert(value * b <= (a - 1) * b) by (nonlinear_arith)
            requires
                value <= a - 1,
                b >= 0,
        ;
        assert((a - 1) * b == a * b - b) by (nonlinear_arith);
        if width > 0 {
            if *bit_count < 32 {
                lemma_pow2_strictly_increases(*bit_count as nat, 32);
                vstd::bits::lemma_u32_shl_is_mul(value, *bit_count);
            }
        } else {
            assert(value == 0);
            assert(0 * b == 0);
        }
    }
    if width > 0 {
        *bit_stream = *bit_stream + (value << *bit_count);
    }
    *bit_count += width;
}

/// A header being written: its fields so far and the number of 16-bit
/// words of it that are stored.
pub struct NCountWrite {
    pub fields: Seq<(nat, nat)>,
    pub flushed: nat,
}

/// What is known of the distribution at a symbol: the symbol, what is left
/// of the table plus one, the power of two that is not above it, the bits
/// that a count takes, and whether the symbol before had no slot.
pub struct NCountState {
    pub symbol: int,
    pub remaining: int,
    pub threshold: int,
    pub nb_bits: int,
    pub previous_is0: bool,
}

/// Bits of the header that wait to be stored.
pub open spec fn pending_bits(w: NCountWrite) -> int {
    fields_bits(w.fields) - 16 * w.flushed
}

/// Stores a word where more than 16 bits wait; fails where the word does
/// not fit into `out_len` bytes.
pub open spec fn checkpoint(w: NCountWrite, out_len: nat) -> Result<NCountWrite, HistError> {
    if pending_bits(w) > 16 {
        if out_len < 2 * w.flushed + 2 {
            Err(HistError::OutputTooSmall)
        } else {
            Ok(NCountWrite { fields: w.fields, flushed: w.flushed + 1 })
        }
    } else {
        Ok(w)
    }
}

/// First symbol from `symbol` on that has a slot; `alphabet` where there
/// is none.
pub open spec fn next_present(norm: Seq<i16>, symbol: int, alphabet: int) -> int
    decreases alphabet - symbol,
{
    if 0 <= symbol < alphabet && norm[symbol] == 0 {
        next_present(norm, symbol + 1, alphabet)
    } else {
        symbol
    }
}

pub proof fn lemma_next_present(norm: Seq<i16>, symbol: int, alphabet: int)
    requires
        0 <= symbol <= alphabet,
    ensures
        symbol <= next_present(norm, symbol, alphabet) <= alphabet,
        next_present(norm, symbol, alphabet) < alphabet ==> norm[next_present(
            norm,
            symbol,
            alphabet,
        )] != 0,
        forall|s: int| symbol <= s < next_present(norm, symbol, alphabet) ==> norm[s] == 0,
    decreases alphabet - symbol,
{
    if symbol < alphabet && norm[symbol] == 0 {
        lemma_next_present(norm, symbol + 1, alphabet);
    }
}

/// A word of sixteen set bits for every 24 absent symbols from `start` up
/// to `symbol`, each stored at once.
pub open spec fn skip_24(w: NCountWrite, start: int, symbol: int, out_len: nat) -> Result<
    (NCountWrite, int),
    HistError,
>
    decreases symbol - start,
{
    if symbol >= start + 24 {
        if out_len < 2 * w.flushed + 2 {
            Err(HistError::OutputTooSmall)
        } else {
            skip_24(
                NCountWrite { fields: w.fields.push((0xFFFFnat, 16nat)), flushed: w.flushed + 1 },
                start + 24,
                symbol,
                out_len,
            )
        }
    } else {
        Ok((w, start))
    }
}

pub proof fn lemma_skip_24_error(w: NCountWrite, start: int, symbol: int, out_len: nat)
    ensures
        skip_24(w, start, symbol, out_len) is Err ==> skip_24(w, start, symbol, out_len) == Err::<
            (NCountWrite, int),
            HistError,
        >(HistError::OutputTooSmall),
    decreases symbol - start,
{
    if symbol >= start + 24 && out_len >= 2 * w.flushed + 2 {
        lemma_skip_24_error(
            NCountWrite { fields: w.fields.push((0xFFFFnat, 16nat)), flushed: w.flushed + 1 },
            start + 24,
            symbol,
            out_len,
        );
    }
}

/// Two set bits for every three absent symbols from `start` up to
/// `symbol`.
pub open spec fn skip_3(fields: Seq<(nat, nat)>, start: int, symbol: int) -> (Seq<(nat, nat)>, int)
    decreases symbol - start,
{
    if symbol >= start + 3 {
        skip_3(fields.push((3nat, 2nat)), start + 3, symbol)
    } else {
        (fields, start)
    }
}

/// The field of a count: the count plus one, moved up past the values that
/// the short form takes where it does not fit into it; the short form is
/// one bit shorter.
pub open spec fn count_field(count: int, st: NCountState) -> (nat, nat) {
    let max = (2 * st.threshold - 1) - st.remaining;
    let up = count + 1;
    let value = if up >= st.threshold { up + max } else { up };
    (value as nat, (if value < max { st.nb_bits - 1 } else { st.nb_bits }) as nat)
}

/// The threshold and the bits of a count for what is left of the table.
pub open spec fn shrink(remaining: int, threshold: int, nb_bits: int) -> (int, int)
    decreases threshold,
{
    if remaining < threshold && threshold > 0 {
        shrink(remaining, threshold / 2, nb_bits - 1)
    } else {
        (threshold, nb_bits)
    }
}

/// The state after the symbol `st.symbol` with count `count`.
pub open spec fn after_count(count: int, st: NCountState) -> NCountState {
    let remaining = st.remaining - (if count < 0 { -count } else { count });
    let shrunk = shrink(remaining, st.threshold, st.nb_bits);
    NCountState {
        symbol: st.symbol + 1,
        remaining,
        threshold: shrunk.0,
        nb_bits: shrunk.1,
        previous_is0: count == 0,
    }
}

/// The header from the symbol `st.symbol` on. After a symbol without a
/// slot comes the run of absent symbols; a run that reaches the end of the
/// alphabet ends the header.
pub open spec fn write_symbols(
    norm: Seq<i16>,
    alphabet: int,
    st: NCountState,
    w: NCountWrite,
    out_len: nat,
) -> Result<(NCountState, NCountWrite), HistError>
    decreases alphabet - st.symbol,
{
    if !(0 <= st.symbol < alphabet && st.remaining > 1) {
        Ok((st, w))
    } else {
        proof {
            lemma_next_present(norm, st.symbol, alphabet);
        }
        let present = if st.previous_is0 { next_present(norm, st.symbol, alphabet) } else { st.symbol };
        if present == alphabet {
            Ok((
                NCountState {
                    symbol: present,
                    remaining: st.remaining,
                    threshold: st.threshold,
                    nb_bits: st.nb_bits,
                    previous_is0: st.previous_is0,
                },
                w,
            ))
        } else {
            let run = if st.previous_is0 {
                match skip_24(w, st.symbol, present, out_len) {
                    Err(e) => Err(e),
                    Ok(words) => {
                        let pairs = skip_3(words.0.fields, words.1, present);
                        checkpoint(
                            NCountWrite {
                                fields: pairs.0.push(((present - pairs.1) as nat, 2nat)),
                                flushed: words.0.flushed,
                            },
                            out_len,
                        )
                    },
                }
            } else {
                Ok(w)
            };
            match run {
                Err(e) => Err(e),
                Ok(after_run) => {
                    let here = NCountState {
                        symbol: present,
                        remaining: st.remaining,
                        threshold: st.threshold,
                        nb_bits: st.nb_bits,
                        previous_is0: st.previous_is0,
                    };
                    let count = norm[present] as int;
                    let next = after_count(count, here);
                    let written = NCountWrite {
                        fields: after_run.fields.push(count_field(count, here)),
                        flushed: after_run.flushed,
                    };
                    if next.remaining < 1 {
                        Err(HistError::UnexpectedRemaining)
                    } else {
                        match checkpoint(written, out_len) {
                            Err(e) => Err(e),
                            Ok(stored) => write_symbols(norm, alphabet, next, stored, out_len),
                        }
                    }
                },
            }
        }
    }
}

/// The header of the distribution `norm` over the symbols up to
/// `max_symbol_value`, written into `out_len` bytes: its fields and its
/// size in bytes.
pub open spec fn spec_write_n_count(
    norm: Seq<i16>,
    max_symbol_value: u32,
    table_log: u32,
    out_len: nat,
) -> Result<(Seq<(nat, nat)>, nat), HistError> {
    let size = pow2(table_log as nat) as int;
    let start = NCountState {
        symbol: 0,
        remaining: size + 1,
        threshold: size,
        nb_bits: table_log + 1,
        previous_is0: false,
    };
    let first = NCountWrite { fields: seq![((table_log - 5) as nat, 4nat)], flushed: 0 };
    match write_symbols(norm, max_symbol_value + 1, start, first, out_len) {
        Err(e) => Err(e),
        Ok(end) => if end.0.remaining != 1 {
            Err(HistError::IncorrectNormalizedDistribution)
        } else if out_len < 2 * end.1.flushed + 2 {
            Err(HistError::OutputTooSmall)
        } else {
            Ok((end.1.fields, (2 * end.1.flushed + (pending_bits(end.1) + 7) / 8) as nat))
        },
    }
}

/// Where the writer stands in the buffer, and the bits that wait.
pub struct HeaderSink {
    pub pos: usize,
    pub bit_stream: u32,
    pub bit_count: u32,
}

/// The writer holds the header `w`: the words stored, the bits that wait,
/// and together with the buffer the number that the fields make up.
pub open spec fn sink_holds(sink: HeaderSink, out: Seq<u8>, w: NCountWrite) -> bool {
    &&& sink.pos == 2 * w.flushed
    &&& sink.pos <= out.len()
    &&& sink.bit_count == pending_bits(w)
    &&& sink.bit_count <= 32
    &&& sink.bit_stream < pow2(sink.bit_count as nat)
    &&& pending_value(out, sink.pos as int, sink.bit_stream) == fields_value(w.fields)
}

fn sink_put(
    sink: &mut HeaderSink,
    value: u32,
    width: u32,
    Ghost(out): Ghost<Seq<u8>>,
    Ghost(w): Ghost<NCountWrite>,
)
    requires
        sink_holds(*old(sink), out, w),
        old(sink).bit_count + width <= 32,
        value < pow2(width as nat),
    ensures
        sink_holds(
            *final(sink),
            out,
            NCountWrite { fields: w.fields.push((value as nat, width as nat)), flushed: w.flushed },
        ),
        final(sink).pos == old(sink).pos,
        final(sink).bit_count == old(sink).bit_count + width,
{
    let ghost before = *sink;
    let mut bit_stream = sink.bit_stream;
    let mut bit_count = sink.bit_count;
    put_bits(&mut bit_stream, &mut bit_count, value, width);
    sink.bit_stream = bit_stream;
    sink.bit_count = bit_count;
    proof {
        lemma_push_field(w.fields, (value as nat, width as nat));
        lemma_pow2_adds(before.bit_count as nat, (8 * before.pos) as nat);
        let low = pow2((8 * before.pos) as nat);
        let mid = pow2(before.bit_count as nat);
        assert((before.bit_stream + value * mid) * low == before.bit_stream * low + value * (mid
            * low)) by (nonlinear_arith);
        lemma_fields_bits(w, out, before);
    }
}

proof fn lemma_fields_bits(w: NCountWrite, out: Seq<u8>, sink: HeaderSink)
    requires
        sink_holds(sink, out, w),
    ensures
        fields_bits(w.fields) == 8 * sink.pos + sink.bit_count,
{
}

fn sink_flush(sink: &mut HeaderSink, out: &mut [u8], Ghost(w): Ghost<NCountWrite>) -> (stored: bool)
    requires
        sink_holds(*old(sink), old(out)@, w),
        old(sink).bit_count >= 16,
    ensures
        final(out)@.len() == old(out)@.len(),
        stored == (old(out)@.len() >= 2 * w.flushed + 2),
        !stored ==> final(out)@ == old(out)@ && *final(sink) == *old(sink),
        stored ==> sink_holds(
            *final(sink),
            final(out)@,
            NCountWrite { fields: w.fields, flushed: w.flushed + 1 },
        ) && final(sink).bit_count == old(sink).bit_count - 16,
{
    let mut pos = sink.pos;
    let mut bit_stream = sink.bit_stream;
    let stored = flush_word(out, &mut pos, &mut bit_stream);
    if stored {
        proof {
            lemma_pow2_adds(16, (sink.bit_count - 16) as nat);
            lemma2_to64();
            lemma_pow2_pos((sink.bit_count - 16) as nat);
            vstd::arithmetic::div_mod::lemma_multiply_divide_lt(
                sink.bit_stream as int,
                65536,
                pow2((sink.bit_count - 16) as nat) as int,
            );
        }
        sink.pos = pos;
        sink.bit_stream = bit_stream;
        sink.bit_count = sink.bit_count - 16;
    }
    stored
}

/// Stores a word where more than 16 bits wait.
fn sink_checkpoint(sink: &mut HeaderSink, out: &mut [u8], Ghost(w): Ghost<NCountWrite>) -> (stored:
    bool)
    requires
        sink_holds(*old(sink), old(out)@, w),
    ensures
        final(out)@.len() == old(out)@.len(),
        match checkpoint(w, old(out)@.len()) {
            Err(_) => !stored,
            Ok(after) => stored && sink_holds(*final(sink), final(out)@, after) && final(sink).bit_count <= 16 && (old(sink).bit_count >= 1 ==> final(sink).bit_count >= 1),
        },
{
    if sink.bit_count > 16 {
        sink_flush(sink, out, Ghost(w))
    } else {
        true
    }
}

/// Writes the run of absent symbols from `start` up to `present`.
fn write_zero_run(
    sink: &mut HeaderSink,
    out: &mut [u8],
    start: u32,
    present: u32,
    Ghost(w): Ghost<NCountWrite>,
) -> (stored: bool)
    requires
        sink_holds(*old(sink), old(out)@, w),
        1 <= old(sink).bit_count <= 16,
        start <= present <= 256,
    ensures
        final(out)@.len() == old(out)@.len(),
        match skip_24(w, start as int, present as int, old(out)@.len()) {
            Err(_) => !stored,
            Ok(words) => {
                let pairs = skip_3(words.0.fields, words.1, present as int);
                match checkpoint(
                    NCountWrite {
                        fields: pairs.0.push(((present - pairs.1) as nat, 2nat)),
                        flushed: words.0.flushed,
                    },
                    old(out)@.len(),
                ) {
                    Err(_) => !stored,
                    Ok(after) => stored && sink_holds(*final(sink), final(out)@, after) && 1
                        <= final(sink).bit_count <= 16,
                }
            },
        },
{
    let ghost len = out@.len();
    let ghost goal = skip_24(w, start as int, present as int, len);
    let mut lead: u32 = start;
    let ghost mut held = w;
    while present >= lead + 24
        invariant
            out@.len() == len,
            len == old(out)@.len(),
            goal == skip_24(w, start as int, present as int, len),
            sink_holds(*sink, out@, held),
            1 <= sink.bit_count <= 16,
            lead <= present <= 256,
            skip_24(held, lead as int, present as int, len) == goal,
        decreases present - lead,
    {
        lead += 24;
        proof {
            lemma2_to64();
        }
        sink_put(sink, 0xFFFF, 16, Ghost(out@), Ghost(held));
        let ghost put = NCountWrite { fields: held.fields.push((0xFFFFnat, 16nat)), flushed: held.flushed };
        if !sink_flush(sink, out, Ghost(put)) {
            assert(skip_24(held, lead - 24, present as int, len) is Err);
            return false;
        }
        proof {
            held = NCountWrite { fields: put.fields, flushed: put.flushed + 1 };
        }
    }
    let ghost words = held;
    let ghost from = lead as int;
    let ghost pairs = skip_3(words.fields, from, present as int);
    while present >= lead + 3
        invariant
            out@.len() == len,
            sink_holds(*sink, out@, held),
            held.flushed == words.flushed,
            1 <= sink.bit_count,
            sink.bit_count + 2 * ((present - lead) / 3) <= 30,
            lead <= present <= 256,
            present - lead < 24,
            skip_3(held.fields, lead as int, present as int) == pairs,
        decreases present - lead,
    {
        lead += 3;
        proof {
            lemma2_to64();
        }
        sink_put(sink, 3, 2, Ghost(out@), Ghost(held));
        proof {
            held = NCountWrite { fields: held.fields.push((3nat, 2nat)), flushed: held.flushed };
        }
    }
    proof {
        lemma2_to64();
    }
    sink_put(sink, present - lead, 2, Ghost(out@), Ghost(held));
    let ghost last = NCountWrite {
        fields: held.fields.push(((present - lead) as nat, 2nat)),
        flushed: held.flushed,
    };
    sink_checkpoint(sink, out, Ghost(last))
}

/// The state fits a table: the threshold is the power of two that the bits
/// of a count stand for, and what is left lies from the threshold up to
/// twice of it.
pub open spec fn state_fits(st: NCountState) -> bool {
    &&& 1 <= st.nb_bits <= 16
    &&& st.threshold == pow2((st.nb_bits - 1) as nat)
    &&& st.threshold <= st.remaining < 2 * st.threshold
    &&& st.remaining <= 32769
}

proof fn lemma_shrink(remaining: int, threshold: int, nb_bits: int)
    requires
        1 <= remaining < 2 * threshold,
        1 <= nb_bits <= 16,
        threshold == pow2((nb_bits - 1) as nat),
    ensures
        ({
            let shrunk = shrink(remaining, threshold, nb_bits);
            &&& 1 <= shrunk.1 <= nb_bits
            &&& shrunk.0 == pow2((shrunk.1 - 1) as nat)
            &&& shrunk.0 <= remaining < 2 * shrunk.0
        }),
    decreases threshold,
{
    lemma2_to64();
    if remaining < threshold {
        lemma_pow2_unfold((nb_bits - 1) as nat);
        lemma_shrink(remaining, threshold / 2, nb_bits - 1);
    }
}

/// Writes the count of a symbol and moves the state past the symbol.
fn write_count(
    sink: &mut HeaderSink,
    out: &mut [u8],
    count: i16,
    remaining: &mut i32,
    threshold: &mut i32,
    nb_bits: &mut u32,
    Ghost(st): Ghost<NCountState>,
    Ghost(w): Ghost<NCountWrite>,
) -> (result: Result<bool, HistError>)
    requires
        sink_holds(*old(sink), old(out)@, w),
        1 <= old(sink).bit_count <= 16,
        state_fits(st),
        st.remaining > 1,
        *old(remaining) == st.remaining,
        *old(threshold) == st.threshold,
        *old(nb_bits) == st.nb_bits,
        count >= -1,
    ensures
        final(out)@.len() == old(out)@.len(),
        ({
            let next = after_count(count as int, st);
            let written = NCountWrite {
                fields: w.fields.push(count_field(count as int, st)),
                flushed: w.flushed,
            };
            if next.remaining < 1 {
                result == Err::<bool, HistError>(HistError::UnexpectedRemaining)
            } else {
                match checkpoint(written, old(out)@.len()) {
                    Err(_) => result == Err::<bool, HistError>(HistError::OutputTooSmall),
                    Ok(stored) => {
                        &&& result == Ok::<bool, HistError>(count == 0)
                        &&& sink_holds(*final(sink), final(out)@, stored)
                        &&& 1 <= final(sink).bit_count <= 16
                        &&& *final(remaining) == next.remaining
                        &&& *final(threshold) == next.threshold
                        &&& *final(nb_bits) == next.nb_bits
                        &&& state_fits(next)
                    },
                }
            }
        }),
{
    proof {
        lemma2_to64();
        lemma_pow2_unfold(st.nb_bits as nat);
        if st.nb_bits < 16 {
            lemma_pow2_strictly_increases(st.nb_bits as nat, 16);
        }
        if st.nb_bits - 1 < 15 {
            lemma_pow2_strictly_increases((st.nb_bits - 1) as nat, 15);
        }
    }
    let width_full = *nb_bits;
    let max: i32 = (2 * *threshold - 1) - *remaining;
    let size: i32 = if count < 0 { -(count as i32) } else { count as i32 };
    let left: i32 = *remaining - size;
    if left < 1 {
        return Err(HistError::UnexpectedRemaining);
    }
    let mut value: i32 = count as i32 + 1;
    if value >= *threshold {
        value += max;
    }
    let width: u32 = if value < max { width_full - 1 } else { width_full };
    proof {
        lemma_shrink(left as int, st.threshold, st.nb_bits);
    }
    sink_put(sink, value as u32, width, Ghost(out@), Ghost(w));
    *remaining = left;
    while *remaining < *threshold
        invariant
            1 <= *remaining,
            *remaining < 2 * *threshold,
            1 <= *nb_bits <= 16,
            *threshold == pow2((*nb_bits - 1) as nat),
            shrink(*remaining as int, *threshold as int, *nb_bits as int) == shrink(
                left as int,
                st.threshold,
                st.nb_bits,
            ),
        decreases *threshold,
    {
        proof {
            lemma2_to64();
            lemma_pow2_unfold((*nb_bits - 1) as nat);
        }
        *nb_bits -= 1;
        *threshold = *threshold / 2;
    }
    let ghost written = NCountWrite {
        fields: w.fields.push(count_field(count as int, st)),
        flushed: w.flushed,
    };
    if sink_checkpoint(sink, out, Ghost(written)) {
        Ok(count == 0)
    } else {
        Err(HistError::OutputTooSmall)
    }
}

/// Writes the header of a distribution into `out`.
///
/// Every store is tested against the length of `out`, whatever
/// `write_is_safe` says. On success the result is the size of the header,
/// and the first bytes of `out` hold the number that the fields of the
/// header make up, low byte first.
pub fn fse_write_n_count_generic(
    out: &mut [u8],
    norm_counts: &NormCountsTable,
    max_symbol_value: u32,
    table_log: u32,
    write_is_safe: bool,
) -> (result: Result<usize, HistError>)
    requires
        max_symbol_value <= 255,
        5 <= table_log <= 15,
        forall|s: int| 0 <= s <= max_symbol_value ==> #[trigger] norm_counts@[s] >= -1,
    ensures
        final(out)@.len() == old(out)@.len(),
        match spec_write_n_count(norm_counts@, max_symbol_value, table_log, old(out)@.len()) {
            Err(e) => result == Err::<usize, HistError>(e),
            Ok(header) => result == Ok::<usize, HistError>(header.1 as usize) && header.1
                <= final(out)@.len() && le_value(final(out)@.subrange(0, header.1 as int))
                == fields_value(header.0) && 8 * header.1 >= fields_bits(header.0) > 8
                * header.1 - 8,
        },
{
    let ghost norm = norm_counts@;
    let ghost len = out@.len();
    proof {
        crate::table::lemma_table_size(table_log);
        lemma2_to64();
    }
    let table_size: i32 = (1u32 << table_log) as i32;
    let mut nb_bits: u32 = table_log + 1;
    let mut remaining: i32 = table_size + 1;
    let mut threshold: i32 = table_size;
    let mut sink = HeaderSink { pos: 0, bit_stream: table_log - crate::FSE_MIN_TABLELOG, bit_count: 4 };
    let mut previous_is0 = false;
    let mut symbol: u32 = 0;
    let alphabet_size: u32 = max_symbol_value + 1;
    let ghost start = NCountState {
        symbol: 0,
        remaining: table_size + 1,
        threshold: table_size as int,
        nb_bits: table_log + 1,
        previous_is0: false,
    };
    let ghost first = NCountWrite { fields: seq![((table_log - 5) as nat, 4nat)], flushed: 0 };
    let ghost goal = write_symbols(norm, alphabet_size as int, start, first, len);
    let ghost mut st = start;
    let ghost mut w = first;
    proof {
        lemma_push_field(Seq::<(nat, nat)>::empty(), ((table_log - 5) as nat, 4nat));
        assert(Seq::<(nat, nat)>::empty().push(((table_log - 5) as nat, 4nat)) =~= first.fields);
        assert(out@.subrange(0, 0) =~= Seq::<u8>::empty());
        assert((table_log - 5) as nat * 1 == (table_log - 5) as nat);
        lemma_pow2_unfold((table_log + 1) as nat);
    }
    while symbol < alphabet_size && remaining > 1
        invariant_except_break
            write_symbols(norm, alphabet_size as int, st, w, len) == goal,
        invariant
            out@.len() == len,
            len == old(out)@.len(),
            norm == norm_counts@,
            alphabet_size == max_symbol_value + 1,
            max_symbol_value <= 255,
            5 <= table_log <= 15,
            goal == write_symbols(norm, alphabet_size as int, start, first, len),
            start == (NCountState {
                symbol: 0,
                remaining: pow2(table_log as nat) as int + 1,
                threshold: pow2(table_log as nat) as int,
                nb_bits: table_log + 1,
                previous_is0: false,
            }),
            first == (NCountWrite { fields: seq![((table_log - 5) as nat, 4nat)], flushed: 0 }),
            forall|s: int| 0 <= s <= max_symbol_value ==> #[trigger] norm[s] >= -1,
            sink_holds(sink, out@, w),
            1 <= sink.bit_count <= 16,
            symbol <= alphabet_size,
            st.symbol == symbol,
            st.remaining == remaining,
            st.threshold == threshold,
            st.nb_bits == nb_bits,
            st.previous_is0 == previous_is0,
            remaining >= 1,
            state_fits(st),
        ensures
            goal == Ok::<(NCountState, NCountWrite), HistError>((st, w)),
            st.remaining == remaining,
            sink_holds(sink, out@, w),
            1 <= sink.bit_count <= 16,
            out@.len() == len,
        decreases alphabet_size - symbol,
    {
        let ghost entry = st;
        let ghost held = w;
        if previous_is0 {
            let run_start = symbol;
            while symbol < alphabet_size && norm_counts[symbol as usize] == 0
                invariant
                    run_start <= symbol <= alphabet_size <= 256,
                    norm == norm_counts@,
                    next_present(norm, symbol as int, alphabet_size as int) == next_present(
                        norm,
                        run_start as int,
                        alphabet_size as int,
                    ),
                decreases alphabet_size - symbol,
            {
                symbol += 1;
            }
            proof {
                st = NCountState {
                    symbol: symbol as int,
                    remaining: entry.remaining,
                    threshold: entry.threshold,
                    nb_bits: entry.nb_bits,
                    previous_is0: entry.previous_is0,
                };
            }
            if symbol == alphabet_size {
                break;
            }
            proof {
                lemma_next_present(norm, symbol as int, alphabet_size as int);
                lemma_skip_24_error(held, run_start as int, symbol as int, len);
            }
            if !write_zero_run(&mut sink, out, run_start, symbol, Ghost(held)) {
                return Err(HistError::OutputTooSmall);
            }
            proof {
                let words = skip_24(held, run_start as int, symbol as int, len)->Ok_0;
                let pairs = skip_3(words.0.fields, words.1, symbol as int);
                w = checkpoint(
                    NCountWrite {
                        fields: pairs.0.push(((symbol - pairs.1) as nat, 2nat)),
                        flushed: words.0.flushed,
                    },
                    len,
                )->Ok_0;
            }
        }
        let count = norm_counts[symbol as usize];
        let ghost here = NCountState {
            symbol: symbol as int,
            remaining: entry.remaining,
            threshold: entry.threshold,
            nb_bits: entry.nb_bits,
            previous_is0: entry.previous_is0,
        };
        let ghost ready = w;
        symbol += 1;
        match write_count(
            &mut sink,
            out,
            count,
            &mut remaining,
            &mut threshold,
            &mut nb_bits,
            Ghost(here),
            Ghost(ready),
        ) {
            Err(e) => {
                return Err(e);
            },
            Ok(zero) => {
                previous_is0 = zero;
            },
        }
        proof {
            st = after_count(count as int, here);
            w = checkpoint(
                NCountWrite {
                    fields: ready.fields.push(count_field(count as int, here)),
                    flushed: ready.flushed,
                },
                len,
            )->Ok_0;
        }
    }
    if remaining != 1 {
        return Err(HistError::IncorrectNormalizedDistribution);
    }
    let ghost before = out@;
    let ghost kept = sink;
    let mut pos = sink.pos;
    let mut bit_stream = sink.bit_stream;
    if !flush_word(out, &mut pos, &mut bit_stream) {
        return Err(HistError::OutputTooSmall);
    }
    let size = sink.pos + (sink.bit_count as usize + 7) / 8;
    proof {
        lemma_last_word(before, out@, kept, w, pos as int, bit_stream);
    }
    Ok(size)
}

/// Once the last word is stored, the bytes of the header make up the
/// number of its fields.
proof fn lemma_last_word(
    before: Seq<u8>,
    after: Seq<u8>,
    sink: HeaderSink,
    w: NCountWrite,
    pos: int,
    rest: u32,
)
    requires
        sink_holds(sink, before, w),
        1 <= sink.bit_count <= 16,
        after.len() == before.len(),
        pos == sink.pos + 2,
        pos <= after.len(),
        rest == sink.bit_stream / 65536,
        forall|i: int| 0 <= i < sink.pos ==> after[i] == before[i],
        pending_value(after, pos, rest) == pending_value(before, sink.pos as int, sink.bit_stream),
    ensures
        le_value(after.subrange(0, sink.pos + (sink.bit_count + 7) / 8)) == fields_value(w.fields),
        8 * (sink.pos + (sink.bit_count + 7) / 8) >= fields_bits(w.fields) > 8 * (sink.pos + (
        sink.bit_count + 7) / 8) - 8,
{
    lemma2_to64();
    lemma_pow2_strictly_increases(sink.bit_count as nat, 17);
    assert(rest == 0);
    assert(0 * pow2((8 * pos) as nat) == 0);
    let whole = after.subrange(0, pos);
    assert(after.subrange(0, sink.pos as int) =~= before.subrange(0, sink.pos as int));
    if sink.bit_count <= 8 {
        let size = sink.pos + 1;
        let head = after.subrange(0, size);
        lemma_pow2_strictly_increases(sink.bit_count as nat, 9);
        lemma_top_byte_zero(after, sink, pos);
        assert(whole =~= head + seq![after[size]]);
        lemma_le_value_append(head, seq![after[size]]);
        lemma_le_value_single(after[size]);
        assert(pow2(8 * head.len()) * 0 == 0);
    }
}

proof fn lemma_top_byte_zero(after: Seq<u8>, sink: HeaderSink, pos: int)
    requires
        sink.bit_count <= 8,
        sink.bit_stream < 256,
        pos == sink.pos + 2,
        pos <= after.len(),
        le_value(after.subrange(0, pos)) == le_value(after.subrange(0, sink.pos as int))
            + sink.bit_stream as nat * pow2((8 * sink.pos) as nat),
    ensures
        after[sink.pos + 1] == 0,
{
    let at = sink.pos as int;
    let stored = after.subrange(0, at);
    let low = after[at];
    let high = after[at + 1];
    assert(after.subrange(0, pos) =~= stored + seq![low] + seq![high]);
    lemma_le_value_append(stored + seq![low], seq![high]);
    lemma_le_value_append(stored, seq![low]);
    lemma_le_value_single(low);
    lemma_le_value_single(high);
    lemma_pow2_adds((8 * at) as nat, 8);
    lemma2_to64();
    let unit = pow2((8 * at) as nat);
    lemma_pow2_pos((8 * at) as nat);
    assert(unit * low + (unit * 256) * high == (low + 256 * high) * unit) by (nonlinear_arith);
    assert(low + 256 * high == sink.bit_stream) by (nonlinear_arith)
        requires
            (low + 256 * high) * unit == sink.bit_stream * unit,
            unit > 0,
    ;
}

/// Writes the header of a distribution into `out`.
pub fn FSE_write_N_Count(
    out: &mut [u8],
    norm_counts: &NormCountsTable,
    max_symbol_value: u32,
    table_log: u32,
) -> (result: Result<usize, HistError>)
    requires
        max_symbol_value <= 255,
        forall|s: int| 0 <= s <= max_symbol_value ==> #[trigger] norm_counts@[s] >= -1,
    ensures
        final(out)@.len() == old(out)@.len(),
        table_log > 12 ==> result == Err::<usize, HistError>(HistError::TableLogTooLarge),
        table_log < 5 ==> result == Err::<usize, HistError>(HistError::TableLogTooSmall),
        5 <= table_log <= 12 ==> match spec_write_n_count(
            norm_counts@,
            max_symbol_value,
            table_log,
            old(out)@.len(),
        ) {
            Err(e) => result == Err::<usize, HistError>(e),
            Ok(header) => result == Ok::<usize, HistError>(header.1 as usize) && header.1
                <= final(out)@.len() && le_value(final(out)@.subrange(0, header.1 as int))
                == fields_value(header.0) && 8 * header.1 >= fields_bits(header.0) > 8
                * header.1 - 8,
        },
{
    if table_log > crate::FSE_MAX_TABLELOG {
        return Err(HistError::TableLogTooLarge);
    }
    if table_log < crate::FSE_MIN_TABLELOG {
        return Err(HistError::TableLogTooSmall);
    }
    assert((max_symbol_value + 1) * table_log <= 256 * 12) by (nonlinear_arith)
        requires
            max_symbol_value <= 255,
            table_log <= 12,
    ;
    if out.len() < fse_NCountWriteBound(max_symbol_value, table_log) as usize {
        fse_write_n_count_generic(out, norm_counts, max_symbol_value, table_log, false)
    } else {
        fse_write_n_count_generic(out, norm_counts, max_symbol_value, table_log, true)
    }
}

/// The `width` bits of the number `n` from bit `pos` on.
pub open spec fn bits_at(n: nat, pos: nat, width: nat) -> nat {
    (n / pow2(pos)) % pow2(width)
}

/// Byte `i` of `data`, and 0 past its end.
pub open spec fn byte_or_zero(data: Seq<u8>, i: int) -> u8 {
    if 0 <= i < data.len() {
        data[i]
    } else {
        0
    }
}

/// The four bytes of `data` from `at` on, zeros past its end, as a number.
pub open spec fn window(data: Seq<u8>, at: int) -> nat {
    byte_or_zero(data, at) as nat + 256 * byte_or_zero(data, at + 1) as nat + 65536
        * byte_or_zero(data, at + 2) as nat + 16777216 * byte_or_zero(data, at + 3) as nat
}

/// The number of `data` without its first `at` bytes is the number of the
/// bytes from `at` on.
pub proof fn lemma_le_value_tail(data: Seq<u8>, at: int)
    requires
        0 <= at <= data.len(),
    ensures
        le_value(data) / pow2((8 * at) as nat) == le_value(data.subrange(at, data.len() as int)),
{
    let head = data.subrange(0, at);
    let tail = data.subrange(at, data.len() as int);
    assert(data =~= head + tail);
    lemma_le_value_append(head, tail);
    crate::bitstream::lemma_le_value_bound(head);
    let unit = pow2((8 * at) as nat);
    lemma_pow2_pos((8 * at) as nat);
    assert(le_value(tail) * unit == unit * le_value(tail)) by (nonlinear_arith);
    vstd::arithmetic::div_mod::lemma_fundamental_div_mod_converse(
        le_value(data) as int,
        unit as int,
        le_value(tail) as int,
        le_value(head) as int,
    );
}

/// The low 32 bits of the number of `data` from byte `at` on are its
/// window at `at`.
pub proof fn lemma_window(data: Seq<u8>, at: int)
    requires
        0 <= at,
    ensures
        (le_value(data) / pow2((8 * at) as nat)) % pow2(32) == window(data, at),
        window(data, at) < pow2(32),
{
    lemma2_to64();
    if at >= data.len() {
        crate::bitstream::lemma_le_value_bound(data);
        if 8 * data.len() < 8 * at {
            lemma_pow2_strictly_increases(8 * data.len(), (8 * at) as nat);
        }
        lemma_pow2_pos((8 * at) as nat);
        vstd::arithmetic::div_mod::lemma_basic_div(
            le_value(data) as int,
            pow2((8 * at) as nat) as int,
        );
    } else {
        lemma_le_value_tail(data, at);
        let tail = data.subrange(at, data.len() as int);
        lemma_window_of(tail);
        assert(window(tail, 0) == window(data, at));
    }
}

proof fn lemma_window_of(tail: Seq<u8>)
    ensures
        le_value(tail) % pow2(32) == window(tail, 0),
        window(tail, 0) < pow2(32),
{
    lemma2_to64();
    if tail.len() >= 4 {
        let first = tail.subrange(0, 4);
        let rest = tail.subrange(4, tail.len() as int);
        assert(tail =~= first + rest);
        lemma_le_value_append(first, rest);
        lemma_four_bytes(first);
        assert(pow2(8 * first.len()) == 0x1_0000_0000);
        assert(pow2(32) * le_value(rest) == le_value(rest) * 0x1_0000_0000) by (nonlinear_arith)
            requires
                pow2(32) == 0x1_0000_0000,
        ;
        vstd::arithmetic::div_mod::lemma_fundamental_div_mod_converse(
            le_value(tail) as int,
            0x1_0000_0000,
            le_value(rest) as int,
            le_value(first) as int,
        );
    } else {
        let padded = tail + Seq::new((4 - tail.len()) as nat, |i: int| 0u8);
        crate::bitstream::lemma_le_value_zero_padded(tail, (4 - tail.len()) as nat);
        lemma_four_bytes(padded);
        vstd::arithmetic::div_mod::lemma_small_mod(le_value(tail), 0x1_0000_0000);
    }
}

proof fn lemma_four_bytes(bytes: Seq<u8>)
    requires
        bytes.len() == 4,
    ensures
        le_value(bytes) == bytes[0] as nat + 256 * bytes[1] as nat + 65536 * bytes[2] as nat
            + 16777216 * bytes[3] as nat,
        le_value(bytes) < 0x1_0000_0000,
{
    let a = bytes.drop_first();
    let b = a.drop_first();
    let c = b.drop_first();
    let d = c.drop_first();
    assert(d.len() == 0);
    assert(le_value(d) == 0);
    assert(le_value(c) == c[0] as nat + 256 * le_value(d));
    assert(le_value(b) == b[0] as nat + 256 * le_value(c));
    assert(le_value(a) == a[0] as nat + 256 * le_value(b));
    assert(le_value(bytes) == bytes[0] as nat + 256 * le_value(a));
}

/// Bits of a number taken out of a window of it.
pub proof fn lemma_bits_in_window(n: nat, at: nat, shift: nat, width: nat)
    requires
        shift + width <= 32,
    ensures
        bits_at(n, 8 * at + shift, width) == (((n / pow2(8 * at)) % pow2(32)) / pow2(shift))
            % pow2(width),
{
    let x = n / pow2(8 * at);
    let a = pow2(shift);
    let b = pow2((32 - shift) as nat);
    let c = pow2(width);
    lemma_pow2_pos(shift);
    lemma_pow2_pos((32 - shift) as nat);
    lemma_pow2_pos(width);
    lemma_pow2_pos(8 * at);
    lemma_pow2_adds(shift, (32 - shift) as nat);
    lemma_pow2_adds(8 * at, shift);
    lemma_pow2_adds(width, (32 - shift - width) as nat);
    lemma_pow2_pos((32 - shift - width) as nat);
    vstd::arithmetic::div_mod::lemma_mod_breakdown(x as int, a as int, b as int);
    vstd::arithmetic::div_mod::lemma_mod_bound(x as int, a as int);
    vstd::arithmetic::div_mod::lemma_mod_bound((x / a) as int, b as int);
    let q = ((x / a) % b) as int;
    let r = (x % a) as int;
    assert(q * a == a * q) by (nonlinear_arith);
    vstd::arithmetic::div_mod::lemma_fundamental_div_mod_converse(
        (x % (a * b)) as int,
        a as int,
        q,
        r,
    );
    vstd::arithmetic::div_mod::lemma_mod_mod(
        (x / a) as int,
        c as int,
        pow2((32 - shift - width) as nat) as int,
    );
    vstd::arithmetic::div_mod::lemma_div_denominator(n as int, pow2(8 * at) as int, a as int);
}

/// The `width` bits of `data` from bit `pos` on; past the end of `data` the
/// bits are zero.
pub fn peek_bits(data: &[u8], pos: usize, width: u32) -> (bits: u32)
    requires
        width <= 16,
    ensures
        bits == bits_at(le_value(data@), pos as nat, width as nat),
        bits < pow2(width as nat),
{
    let len = data.len();
    let at = pos / 8;
    let shift: u32 = (pos % 8) as u32;
    let b0: u32 = if at < len { data[at] as u32 } else { 0 };
    let b1: u32 = if at < len && at + 1 < len { data[at + 1] as u32 } else { 0 };
    let b2: u32 = if at < len && at + 2 < len { data[at + 2] as u32 } else { 0 };
    let b3: u32 = if at < len && at + 3 < len { data[at + 3] as u32 } else { 0 };
    assert((b0 | (b1 << 8) | (b2 << 16) | (b3 << 24)) == b0 + 256 * b1 + 65536 * b2 + 16777216 * b3)
        by (bit_vector)
        requires
            b0 < 256,
            b1 < 256,
            b2 < 256,
            b3 < 256,
    ;
    let word: u32 = b0 | (b1 << 8) | (b2 << 16) | (b3 << 24);
    proof {
        lemma2_to64();
        lemma_window(data@, at as int);
        lemma_bits_in_window(le_value(data@), at as nat, shift as nat, width as nat);
        vstd::bits::lemma_u32_shr_is_div(word, shift);
        lemma_pow2_strictly_increases(width as nat, 17);
        vstd::bits::lemma_u32_shl_is_mul(1, width);
        vstd::bits::lemma_u32_low_bits_mask_is_mod(word >> shift, width as nat);
        lemma_pow2_pos(width as nat);
        vstd::arithmetic::div_mod::lemma_mod_bound(
            (word >> shift) as int,
            pow2(width as nat) as int,
        );
    }
    (word >> shift) & ((1u32 << width) - 1)
}

/// Why a header cannot be read.
pub enum ReadFault {
    /// The header names a table of more than `2^15` slots.
    TableLog,
    /// The header names a symbol above the largest one that is allowed.
    MaxSymbol,
    /// The counts do not fill the table, or the header runs past its end.
    Corruption,
}

/// Past the end of a number all bits are zero.
pub proof fn lemma_bits_past_end(n: nat, limit: nat, pos: nat, width: nat)
    requires
        n < pow2(limit),
        pos >= limit,
    ensures
        bits_at(n, pos, width) == 0,
{
    if pos > limit {
        lemma_pow2_strictly_increases(limit, pos);
    }
    lemma_pow2_pos(pos);
    lemma_pow2_pos(width);
    vstd::arithmetic::div_mod::lemma_basic_div(n as int, pow2(pos) as int);
    vstd::arithmetic::div_mod::lemma_small_mod(0, pow2(width));
}

/// Reads the words of sixteen set bits, 24 absent symbols each: gives the
/// position behind them and the symbol that the run has reached.
pub open spec fn read_words(n: nat, pos: nat, reached: nat, limit: nat) -> (nat, nat)
    decreases (if pos < limit { limit - pos } else { 0 }),
{
    if pos < limit && bits_at(n, pos, 16) == 0xFFFF {
        read_words(n, pos + 16, reached + 24, limit)
    } else {
        (pos, reached)
    }
}

/// Reads the pairs of set bits, three absent symbols each.
pub open spec fn read_pairs(n: nat, pos: nat, reached: nat, limit: nat) -> (nat, nat)
    decreases (if pos < limit { limit - pos } else { 0 }),
{
    if pos < limit && bits_at(n, pos, 2) == 3 {
        read_pairs(n, pos + 2, reached + 3, limit)
    } else {
        (pos, reached)
    }
}

pub proof fn lemma_read_run(n: nat, pos: nat, reached: nat, limit: nat)
    ensures
        read_words(n, pos, reached, limit).1 >= reached,
        read_pairs(n, pos, reached, limit).1 >= reached,
    decreases (if pos < limit { limit - pos } else { 0 }),
{
    if pos < limit {
        lemma_read_run(n, pos + 16, reached + 24, limit);
        lemma_read_run(n, pos + 2, reached + 3, limit);
    }
}

/// Reads a count: the short form where its value lies below what the
/// short form can take, else the long form, moved back down. Gives the
/// count and the position behind it.
pub open spec fn read_count(n: nat, pos: nat, st: NCountState) -> (int, nat) {
    let max = (2 * st.threshold - 1) - st.remaining;
    let low = bits_at(n, pos, (st.nb_bits - 1) as nat) as int;
    if low < max {
        (low - 1, (pos + st.nb_bits - 1) as nat)
    } else {
        let long = bits_at(n, pos, st.nb_bits as nat) as int;
        ((if long >= st.threshold { long - max } else { long }) - 1, (pos + st.nb_bits) as nat)
    }
}

/// A count as a table of counts holds it: its low 16 bits.
pub open spec fn narrowed(count: int) -> i16 {
    if count > 32767 {
        (count - 65536) as i16
    } else {
        count as i16
    }
}

/// `norm` with the counts from `from` up to `to` set to zero.
pub open spec fn cleared(norm: Seq<i16>, from: int, to: int) -> Seq<i16> {
    Seq::new(norm.len(), |s: int| if from <= s < to { 0i16 } else { norm[s] })
}

/// The symbol that a run of absent symbols from `symbol` on reaches, and
/// the position behind the run.
pub open spec fn read_run(n: nat, pos: nat, symbol: nat, limit: nat) -> (nat, nat) {
    let words = read_words(n, pos, symbol, limit);
    let pairs = read_pairs(n, words.0, words.1, limit);
    (pairs.1 + bits_at(n, pairs.0, 2), pairs.0 + 2)
}

/// Reads the counts from the symbol `st.symbol` on, up to the symbol
/// `top`: gives the state, the position and the counts at the end. After
/// a symbol without a slot comes a run of absent symbols.
pub open spec fn read_symbols(
    n: nat,
    limit: nat,
    top: int,
    st: NCountState,
    pos: nat,
    norm: Seq<i16>,
) -> Result<(NCountState, nat, Seq<i16>), ReadFault>
    decreases top + 1 - st.symbol,
{
    if !(st.remaining > 1 && 0 <= st.symbol <= top) {
        Ok((st, pos, norm))
    } else {
        proof {
            lemma_read_run(n, pos, st.symbol as nat, limit);
            lemma_read_run(n, read_words(n, pos, st.symbol as nat, limit).0, read_words(n, pos, st.symbol as nat, limit).1, limit);
        }
        let run = read_run(n, pos, st.symbol as nat, limit);
        let present = if st.previous_is0 { run.0 as int } else { st.symbol };
        let at = if st.previous_is0 { run.1 } else { pos };
        if present > top {
            Err(ReadFault::MaxSymbol)
        } else {
            let here = NCountState {
                symbol: present,
                remaining: st.remaining,
                threshold: st.threshold,
                nb_bits: st.nb_bits,
                previous_is0: st.previous_is0,
            };
            let read = read_count(n, at, here);
            read_symbols(
                n,
                limit,
                top,
                after_count(read.0, here),
                read.1,
                cleared(norm, st.symbol, present).update(present, narrowed(read.0)),
            )
        }
    }
}

/// The outcome of reading a header whose counts came out as `read`.
pub open spec fn finish_read(
    read: Result<(NCountState, nat, Seq<i16>), ReadFault>,
    limit: nat,
    table_log: nat,
) -> Result<(Seq<i16>, u32, u32, nat), ReadFault> {
    match read {
        Err(e) => Err(e),
        Ok(end) => if end.0.remaining != 1 || end.1 > limit {
            Err(ReadFault::Corruption)
        } else {
            Ok((end.2, (end.0.symbol - 1) as u32, table_log as u32, (end.1 + 7) / 8))
        },
    }
}

/// What reading a header from `data` gives: the counts, the largest
/// symbol, the table size and the size of the header in bytes.
pub open spec fn spec_read_n_count(data: Seq<u8>, norm: Seq<i16>, top: u32) -> Result<
    (Seq<i16>, u32, u32, nat),
    ReadFault,
> {
    let n = le_value(data);
    let table_log = bits_at(n, 0, 4) + 5;
    if table_log > 15 {
        Err(ReadFault::TableLog)
    } else {
        let size = pow2(table_log) as int;
        let start = NCountState {
            symbol: 0,
            remaining: size + 1,
            threshold: size,
            nb_bits: table_log as int + 1,
            previous_is0: false,
        };
        finish_read(
            read_symbols(n, 8 * data.len(), top as int, start, 4, norm),
            8 * data.len(),
            table_log,
        )
    }
}

proof fn lemma_read_count(n: nat, pos: nat, st: NCountState)
    requires
        state_fits(st),
        st.remaining > 1,
    ensures
        -1 <= read_count(n, pos, st).0 <= st.remaining - 1,
        pos <= read_count(n, pos, st).1 <= pos + 16,
        after_count(read_count(n, pos, st).0, st).remaining >= 1,
        state_fits(after_count(read_count(n, pos, st).0, st)),
{
    lemma2_to64();
    lemma_pow2_unfold(st.nb_bits as nat);
    lemma_pow2_pos((st.nb_bits - 1) as nat);
    lemma_pow2_pos(st.nb_bits as nat);
    lemma_pow2_pos(pos);
    vstd::arithmetic::div_mod::lemma_mod_bound(
        (n / pow2(pos)) as int,
        pow2((st.nb_bits - 1) as nat) as int,
    );
    vstd::arithmetic::div_mod::lemma_mod_bound(
        (n / pow2(pos)) as int,
        pow2(st.nb_bits as nat) as int,
    );
    let count = read_count(n, pos, st).0;
    let left = st.remaining - (if count < 0 { -count } else { count });
    lemma_shrink(left, st.threshold, st.nb_bits);
}

/// Reads a run of absent symbols that starts at `charnum`: gives the
/// symbol that it reaches.
fn read_zero_run(data: &[u8], pos: &mut usize, charnum: u32) -> (reached: u32)
    requires
        data@.len() <= 0xff_ffff,
        charnum <= 256,
        *old(pos) <= 8 * data@.len() + 0x1_0000,
    ensures
        (reached as nat, *final(pos) as nat) == read_run(
            le_value(data@),
            *old(pos) as nat,
            charnum as nat,
            8 * data@.len(),
        ),
        reached >= charnum,
        *final(pos) >= *old(pos),
        *final(pos) <= (if *old(pos) > 8 * data@.len() + 16 {
            *old(pos) as int
        } else {
            (8 * data@.len() + 16) as int
        }) + 2,
{
    let ghost n = le_value(data@);
    let ghost limit = 8 * data@.len();
    let ghost from = *pos;
    let ghost words = read_words(n, *pos as nat, charnum as nat, limit);
    proof {
        crate::bitstream::lemma_le_value_bound(data@);
        lemma2_to64();
    }
    let mut n0: u32 = charnum;
    while peek_bits(data, *pos, 16) == 0xFFFF
        invariant
            n == le_value(data@),
            n < pow2(limit),
            limit == 8 * data@.len(),
            limit <= 8 * 0xff_ffff,
            from <= *pos,
            *pos <= (if from > limit + 16 { from as int } else { (limit + 16) as int }),
            from <= limit + 0x1_0000,
            charnum <= n0 <= 256 + 2 * *pos,
            read_words(n, *pos as nat, n0 as nat, limit) == words,
        decreases limit + 16 - *pos,
    {
        proof {
            if *pos >= limit {
                lemma_bits_past_end(n, limit, *pos as nat, 16);
            }
        }
        n0 += 24;
        *pos += 16;
    }
    proof {
        if *pos >= limit {
            lemma_bits_past_end(n, limit, *pos as nat, 16);
        }
    }
    let ghost pairs = read_pairs(n, *pos as nat, n0 as nat, limit);
    while peek_bits(data, *pos, 2) == 3
        invariant
            n == le_value(data@),
            n < pow2(limit),
            limit == 8 * data@.len(),
            limit <= 8 * 0xff_ffff,
            from <= *pos,
            *pos <= (if from > limit + 16 { from as int } else { (limit + 16) as int }),
            from <= limit + 0x1_0000,
            charnum <= n0 <= 256 + 2 * *pos,
            read_pairs(n, *pos as nat, n0 as nat, limit) == pairs,
        decreases limit + 16 - *pos,
    {
        proof {
            if *pos >= limit {
                lemma_bits_past_end(n, limit, *pos as nat, 2);
            }
        }
        n0 += 3;
        *pos += 2;
    }
    proof {
        if *pos >= limit {
            lemma_bits_past_end(n, limit, *pos as nat, 2);
        }
    }
    n0 += peek_bits(data, *pos, 2);
    *pos += 2;
    n0
}

/// Reads the count of a symbol and moves the state past the symbol.
fn read_one_count(
    data: &[u8],
    pos: &mut usize,
    remaining: &mut i32,
    threshold: &mut i32,
    nb_bits: &mut u32,
    Ghost(st): Ghost<NCountState>,
) -> (count: i32)
    requires
        state_fits(st),
        st.remaining > 1,
        *old(remaining) == st.remaining,
        *old(threshold) == st.threshold,
        *old(nb_bits) == st.nb_bits,
        *old(pos) <= usize::MAX - 16,
    ensures
        (count as int, *final(pos) as nat) == read_count(le_value(data@), *old(pos) as nat, st),
        *final(remaining) == after_count(count as int, st).remaining,
        *final(threshold) == after_count(count as int, st).threshold,
        *final(nb_bits) == after_count(count as int, st).nb_bits,
        state_fits(after_count(count as int, st)),
        *final(remaining) >= 1,
        -1 <= count <= 32768,
        *old(pos) <= *final(pos) <= *old(pos) + 16,
{
    let ghost n = le_value(data@);
    proof {
        lemma_read_count(n, *pos as nat, st);
        lemma2_to64();
        if st.nb_bits < 16 {
            lemma_pow2_strictly_increases(st.nb_bits as nat, 16);
        }
        lemma_pow2_unfold(st.nb_bits as nat);
    }
    let max: i32 = (2 * *threshold - 1) - *remaining;
    let low: i32 = peek_bits(data, *pos, *nb_bits - 1) as i32;
    let mut count: i32;
    if low < max {
        count = low;
        *pos += (*nb_bits - 1) as usize;
    } else {
        count = peek_bits(data, *pos, *nb_bits) as i32;
        if count >= *threshold {
            count -= max;
        }
        *pos += *nb_bits as usize;
    }
    count -= 1;
    let size: i32 = if count < 0 { -count } else { count };
    let left: i32 = *remaining - size;
    *remaining = left;
    proof {
        lemma_shrink(left as int, st.threshold, st.nb_bits);
    }
    while *remaining < *threshold
        invariant
            *remaining == left,
            1 <= *remaining,
            *remaining < 2 * *threshold,
            1 <= *nb_bits <= 16,
            *threshold == pow2((*nb_bits - 1) as nat),
            shrink(*remaining as int, *threshold as int, *nb_bits as int) == shrink(
                left as int,
                st.threshold,
                st.nb_bits,
            ),
        decreases *threshold,
    {
        proof {
            lemma2_to64();
            lemma_pow2_unfold((*nb_bits - 1) as nat);
        }
        *nb_bits -= 1;
        *threshold = *threshold / 2;
    }
    count
}

/// Reads the header of a distribution from `data`.
///
/// The header is read bit by bit from the number that `data` stands for,
/// low byte first; past the end of `data` all bits are zero, and a header
/// that runs past the end is corrupt. On success the result is the size of
/// the header in bytes, `norm_counts` holds the counts up to the largest
/// symbol of the header, which `max_symbol_value` then names, and
/// `table_log` the table size.
pub fn fse_read_n_count(
    data: &[u8],
    norm_counts: &mut NormCountsTable,
    max_symbol_value: &mut u32,
    table_log: &mut u32,
) -> (result: Result<usize, HistError>)
    requires
        *old(max_symbol_value) <= 255,
        data@.len() <= 0xff_ffff,
    ensures
        match spec_read_n_count(data@, old(norm_counts)@, *old(max_symbol_value)) {
            Err(ReadFault::TableLog) => result == Err::<usize, HistError>(
                HistError::TableLogTooLarge,
            ),
            Err(ReadFault::MaxSymbol) => result == Err::<usize, HistError>(
                HistError::MaxSymbolValueTooSmall,
            ),
            Err(ReadFault::Corruption) => result is Err && result->Err_0 is CorruptionDetected,
            Ok(header) => {
                &&& result == Ok::<usize, HistError>(header.3 as usize)
                &&& final(norm_counts)@ == header.0
                &&& *final(max_symbol_value) == header.1
                &&& *final(table_log) == header.2
            },
        },
{
    let ghost n = le_value(data@);
    let ghost limit = 8 * data@.len();
    let ghost given = norm_counts@;
    let top: u32 = *max_symbol_value;
    proof {
        lemma2_to64();
    }
    let mut nb_bits: u32 = peek_bits(data, 0, 4) + crate::FSE_MIN_TABLELOG;
    if nb_bits > crate::FSE_TABLELOG_ABSOLUTE_MAX {
        return Err(HistError::TableLogTooLarge);
    }
    let log = nb_bits;
    *table_log = nb_bits;
    proof {
        crate::table::lemma_table_size(nb_bits);
        lemma_pow2_unfold((nb_bits + 1) as nat);
    }
    let mut pos: usize = 4;
    let mut remaining: i32 = (1u32 << nb_bits) as i32 + 1;
    let mut threshold: i32 = (1u32 << nb_bits) as i32;
    nb_bits += 1;
    let mut previous_is0 = false;
    let mut charnum: u32 = 0;
    let ghost start = NCountState {
        symbol: 0,
        remaining: remaining as int,
        threshold: threshold as int,
        nb_bits: nb_bits as int,
        previous_is0: false,
    };
    let ghost goal = read_symbols(n, limit, top as int, start, 4, given);
    let ghost mut st = start;
    assert(spec_read_n_count(data@, given, top) == finish_read(goal, limit, log as nat));
    while remaining > 1 && charnum <= top
        invariant
            n == le_value(data@),
            limit == 8 * data@.len(),
            data@.len() <= 0xff_ffff,
            top <= 255,
            spec_read_n_count(data@, old(norm_counts)@, *old(max_symbol_value)) == finish_read(
                goal,
                limit,
                log as nat,
            ),
            read_symbols(n, limit, top as int, st, pos as nat, norm_counts@) == goal,
            st.symbol == charnum,
            st.remaining == remaining,
            st.threshold == threshold,
            st.nb_bits == nb_bits,
            st.previous_is0 == previous_is0,
            state_fits(st),
            remaining >= 1,
            charnum >= 1 || remaining > 1,
            charnum <= top + 1,
            pos <= limit + 16 + 18 * charnum,
            *table_log == log,
        ensures
            goal == Ok::<(NCountState, nat, Seq<i16>), ReadFault>((st, pos as nat, norm_counts@)),
            st.symbol == charnum,
            st.remaining == remaining,
            charnum >= 1,
            pos <= limit + 16 + 18 * 257,
            *table_log == log,
        decreases top + 1 - charnum,
    {
        let ghost entry = st;
        let ghost before = norm_counts@;
        if previous_is0 {
            let n0 = read_zero_run(data, &mut pos, charnum);
            if n0 > top {
                return Err(HistError::MaxSymbolValueTooSmall);
            }
            while charnum < n0
                invariant
                    charnum <= n0 <= top <= 255,
                    entry.symbol <= charnum,
                    norm_counts@ == cleared(before, entry.symbol, charnum as int),
                decreases n0 - charnum,
            {
                norm_counts[charnum as usize] = 0;
                proof {
                    assert(norm_counts@ =~= cleared(before, entry.symbol, charnum + 1));
                }
                charnum += 1;
            }
        } else {
            proof {
                assert(norm_counts@ =~= cleared(before, entry.symbol, charnum as int));
            }
        }
        let ghost here = NCountState {
            symbol: charnum as int,
            remaining: entry.remaining,
            threshold: entry.threshold,
            nb_bits: entry.nb_bits,
            previous_is0: entry.previous_is0,
        };
        let count = read_one_count(
            data,
            &mut pos,
            &mut remaining,
            &mut threshold,
            &mut nb_bits,
            Ghost(here),
        );
        assert(-1 <= count <= 32768 ==> count as i16 == (if count > 32767 {
            (count - 65536) as i16
        } else {
            count as i16
        })) by (bit_vector);
        norm_counts[charnum as usize] = #[verifier::truncate] (count as i16);
        charnum += 1;
        previous_is0 = count == 0;
        proof {
            st = after_count(count as int, here);
        }
    }
    if remaining != 1 {
        return Err(HistError::CorruptionDetected("remaining is not 1".to_owned()));
    }
    if pos > 8 * data.len() {
        return Err(HistError::CorruptionDetected("bit_count > 32".to_owned()));
    }
    *max_symbol_value = charnum - 1;
    Ok((pos + 7) / 8)
}

} // verus!
