//! Byte-oriented entropy coding: a finite-state-entropy (tANS) coder and a
//! length-limited canonical Huffman coder over a shared reverse bit stream.

use vstd::prelude::*;
use vstd::arithmetic::power2::{pow2, lemma_pow2_pos, lemma2_to64, lemma_pow2_strictly_increases, lemma_pow2_unfold};
use crate::bitstream::{BitCstreamOwned, spec_highbit, lemma_highbit_bounds, fields_bits, fields_value, le_value};
use crate::compress::{fse_compress, spec_fse_fields};
use crate::decompress::spec_fse_decode;
use crate::hist::{
    count_simple, get_max_symbol_value, try_normalized_counts, saturated, spec_normalized,
    normalizable, first_norm, largest_upto, lemma_largest, lemma_proba_positive,
    lemma_counted_all, lemma_counted_bound,
};
use crate::spread::occurrences;
use crate::table::{
    build_compression_table, build_decompression_table, CompressionTable, DecompressionTable,
    valid_distribution, spec_state_table, spec_symbol_transform, spec_decode_entry, spec_fast_mode,
};
use crate::table_log::{
    fse_optimal_table_log, spec_optimal_table_log, spec_min_table_log,
};

pub mod bitstream;
pub mod code_space;
pub mod codes;
pub mod compress;
pub mod decompress;
pub mod fse_roundtrip;
pub mod full_tree;
pub mod graph;
pub mod header;
pub mod header_roundtrip;
pub mod height;
pub mod hist;
pub mod huffman;
pub mod prefix;
pub mod spread;
pub mod table;
pub mod table_log;
pub mod tree;

verus! {

pub const FSE_DEFAULT_MEMORY_USAGE: u32 = 13;

pub const FSE_MAX_MEMORY_USAGE: u32 = 14;

pub const FSE_DEFAULT_TABLELOG: u32 = 11;

pub const FSE_MIN_TABLELOG: u32 = 5;

pub const FSE_TABLELOG_ABSOLUTE_MAX: u32 = 15;

pub const FSE_MAX_TABLELOG: u32 = 12;

pub const FSE_MAX_TABLESIZE: usize = 4096;

pub const FSE_MAXTABLESIZE_MASK: usize = 4095;

pub const FSE_MAX_SYMBOL_VALUE: u32 = 255;

pub const MAX_SYMBOL_VALUE: u32 = 255;

/// Occurrences of each byte value.
pub type CountsTable = [u32; 256];

/// Normalized frequency of each byte value; `-1` marks a rare symbol that
/// still owns one slot of the state table.
pub type NormCountsTable = [i16; 256];

} // verus!

verus! {

/// Why an input is not compressed.
#[derive(Debug, PartialEq, Eq, Clone, Copy, Structural)]
pub enum CompressError {
    /// A single symbol makes up the input, no symbol occurs twice, or the
    /// most frequent symbol occurs less than once in 128 bytes.
    NotCompressible,
    /// Normalizing the counts would take half of its share, or more, from
    /// the most frequent symbol; the other way of normalizing is not
    /// provided.
    UnsupportedNormalization,
}

/// Number of cells that the tables of the coder take.
pub fn get_ans_table_size(table_log: u32, max_symbol_value: u32) -> (size: u32)
    requires
        1 <= table_log,
        max_symbol_value <= 0x3fff_ffff,
    ensures
        size == 1 + pow2((if table_log < 15 { table_log - 1 } else { 14 }) as nat) + (
        max_symbol_value + 1) * 2,
{
    let table_log: u32 = if table_log < FSE_TABLELOG_ABSOLUTE_MAX {
        table_log
    } else {
        FSE_TABLELOG_ABSOLUTE_MAX
    };
    proof {
        crate::table::lemma_table_size((table_log - 1) as u32);
    }
    1 + (1u32 << (table_log - 1)) + ((max_symbol_value + 1) * 2)
}

/// The counts that the counters give for `input`.
pub open spec fn spec_counts(input: Seq<u8>) -> Seq<u32> {
    Seq::new(256, |s: int| saturated(occurrences(input, s as u8, input.len())))
}

/// The largest of the first `n` counts.
pub open spec fn spec_max_count(counts: Seq<u32>, n: nat) -> u32
    decreases n,
{
    if n == 0 {
        0
    } else {
        let rest = spec_max_count(counts, (n - 1) as nat);
        if counts[n - 1] > rest {
            counts[n - 1]
        } else {
            rest
        }
    }
}

/// The highest symbol below `n` with a count, 0 where there is none.
pub open spec fn spec_max_symbol(counts: Seq<u32>, n: nat) -> nat
    decreases n,
{
    if n == 0 {
        0
    } else if counts[n - 1] != 0 {
        (n - 1) as nat
    } else {
        spec_max_symbol(counts, (n - 1) as nat)
    }
}

/// Inputs that compression refuses: a single symbol makes up the input
/// (the empty input too), no symbol occurs twice, or the most frequent
/// symbol occurs less than once in 128 bytes.
pub open spec fn not_compressible(input: Seq<u8>) -> bool {
    let most = spec_max_count(spec_counts(input), 256);
    most == input.len() || most == 1 || most < input.len() / 128
}

/// `comp` holds the encoding tables of the distribution `norm`.
pub open spec fn is_compression_table(
    comp: &CompressionTable,
    norm: Seq<i16>,
    table_log: u32,
    max_symbol_value: u32,
) -> bool {
    &&& comp.state_table@ == spec_state_table(norm, table_log, max_symbol_value)
    &&& comp.symbol_tt@.len() == max_symbol_value + 1
    &&& forall|s: int|
        0 <= s <= max_symbol_value ==> #[trigger] comp.symbol_tt@[s] == spec_symbol_transform(
            norm,
            table_log,
            s as nat,
        )
}

/// `table` holds the decoding table of the distribution `norm`.
pub open spec fn is_decompression_table(
    table: &DecompressionTable,
    norm: Seq<i16>,
    table_log: u32,
    max_symbol_value: u32,
) -> bool {
    &&& table.table@.len() == pow2(table_log as nat)
    &&& forall|u: int|
        0 <= u < pow2(table_log as nat) ==> #[trigger] table.table@[u] == spec_decode_entry(
            norm,
            table_log,
            max_symbol_value,
            u as nat,
        )
    &&& table.fast == spec_fast_mode(norm, table_log, max_symbol_value)
}

/// What `compress` gives for `input`: it refuses what is not compressible;
/// else the counts are normalized for the table size recommended for the
/// input, and the result holds the stream of the input under the tables of
/// that distribution.
pub open spec fn compress_result(
    input: Seq<u8>,
    result: Result<BitCstreamOwned, CompressError>,
) -> bool {
    let counts = spec_counts(input);
    let top = spec_max_symbol(counts, 256) as u32;
    let table_log = spec_optimal_table_log(FSE_DEFAULT_TABLELOG, input.len(), top, 2) as u32;
    let norm = spec_normalized(counts, table_log, input.len(), top);
    match result {
        Err(CompressError::NotCompressible) => not_compressible(input),
        Err(CompressError::UnsupportedNormalization) => !not_compressible(input) && norm is None,
        Ok(out) => {
            &&& !not_compressible(input)
            &&& norm is Some
            &&& valid_distribution(norm->0, table_log, top)
            &&& exists|comp: &CompressionTable| #[trigger]
                is_compression_table(comp, norm->0, table_log, top) && holds_stream(
                    out,
                    input,
                    comp,
                    table_log,
                )
        },
    }
}

/// The written bytes of `out` make up the stream of `input` under the
/// tables `comp`, and `out` says how many bits the stream has.
pub open spec fn holds_stream(
    out: BitCstreamOwned,
    input: Seq<u8>,
    comp: &CompressionTable,
    table_log: u32,
) -> bool {
    let fields = spec_fse_fields(input, comp, table_log);
    let size = out.data_pos + (if out.bit_pos > 0 { 1int } else { 0int });
    &&& out.bit_pos < 8
    &&& 8 * out.data_pos + out.bit_pos == fields_bits(fields)
    &&& size <= out.data@.len()
    &&& le_value(out.data@.subrange(0, size)) == fields_value(fields)
}

pub proof fn lemma_max_count(counts: Seq<u32>, n: nat)
    ensures
        forall|s: int| 0 <= s < n ==> #[trigger] counts[s] <= spec_max_count(counts, n),
        n > 0 ==> exists|s: int| 0 <= s < n && #[trigger] counts[s] == spec_max_count(counts, n),
        n == 0 ==> spec_max_count(counts, n) == 0,
    decreases n,
{
    if n > 0 {
        lemma_max_count(counts, (n - 1) as nat);
        if n > 1 {
            let s = choose|s: int|
                0 <= s < n - 1 && #[trigger] counts[s] == spec_max_count(counts, (n - 1) as nat);
            if counts[n - 1] > spec_max_count(counts, (n - 1) as nat) {
                assert(counts[n - 1] == spec_max_count(counts, n));
            } else {
                assert(counts[s] == spec_max_count(counts, n));
            }
        } else {
            assert(counts[0] == spec_max_count(counts, n));
        }
    }
}

pub proof fn lemma_max_symbol(counts: Seq<u32>, n: nat, top: int)
    requires
        0 <= top < n,
        counts[top] != 0,
        forall|s: int| top < s < n ==> counts[s] == 0,
    ensures
        spec_max_symbol(counts, n) == top,
    decreases n,
{
    if top < n - 1 {
        lemma_max_symbol(counts, (n - 1) as nat, top);
    }
}

pub proof fn lemma_occurrences_within(input: Seq<u8>, x: u8, n: nat)
    ensures
        occurrences(input, x, n) <= n,
    decreases n,
{
    if n > 0 {
        lemma_occurrences_within(input, x, (n - 1) as nat);
    }
}

pub proof fn lemma_occurs(input: Seq<u8>, i: int, n: nat)
    requires
        0 <= i < n,
    ensures
        occurrences(input, input[i], n) >= 1,
    decreases n,
{
    if i < n - 1 {
        lemma_occurs(input, i, (n - 1) as nat);
    }
}

/// The recommended table size never makes the most frequent symbol rare:
/// with `most` its count, `len` bytes of input are at most `most` times
/// the number of symbols.
pub proof fn lemma_not_rare(len: nat, top: u32, most: nat, table_log: u32)
    requires
        2 <= len <= u32::MAX,
        1 <= top <= 255,
        len <= most * (top + 1),
        table_log == spec_optimal_table_log(FSE_DEFAULT_TABLELOG, len, top, 2),
    ensures
        len / pow2(table_log as nat) <= most,
        5 <= table_log <= 12,
{
    lemma2_to64();
    let lower = spec_min_table_log(len, top);
    lemma_highbit_bounds(top as nat);
    if spec_highbit(top as nat) >= 8 {
        if spec_highbit(top as nat) > 8 {
            lemma_pow2_strictly_increases(8, spec_highbit(top as nat));
        }
        assert(false);
    }
    assert(lower <= table_log);
    lemma_pow2_pos(table_log as nat);
    let size = pow2(table_log as nat) as int;
    if lower == spec_highbit(len) + 1 {
        lemma_highbit_bounds(len);
        lemma_pow2_unfold(spec_highbit(len) + 1);
        if spec_highbit(len) + 1 < table_log {
            lemma_pow2_strictly_increases(spec_highbit(len) + 1, table_log as nat);
        }
        vstd::arithmetic::div_mod::lemma_basic_div(len as int, size);
    } else {
        let high = spec_highbit(top as nat);
        lemma_pow2_unfold(high + 2);
        lemma_pow2_unfold(high + 1);
        if high + 2 < table_log {
            lemma_pow2_strictly_increases(high + 2, table_log as nat);
        }
        let symbols = (top + 1) as int;
        assert(size >= symbols);
        vstd::arithmetic::div_mod::lemma_div_is_ordered_by_denominator(len as int, symbols, size);
        vstd::arithmetic::div_mod::lemma_div_is_ordered(len as int, most * symbols, symbols);
        vstd::arithmetic::div_mod::lemma_div_by_multiple(most as int, symbols);
        assert(most * symbols == symbols * most) by (nonlinear_arith);
    }
}

/// The highest symbol with a count, where there is one.
pub proof fn lemma_max_symbol_found(counts: Seq<u32>, n: nat, s: int)
    requires
        0 <= s < n,
        counts[s] != 0,
    ensures
        s <= spec_max_symbol(counts, n) < n,
        counts[spec_max_symbol(counts, n) as int] != 0,
        forall|t: int| spec_max_symbol(counts, n) < t < n ==> counts[t] == 0,
    decreases n,
{
    if counts[n - 1] == 0 {
        lemma_max_symbol_found(counts, (n - 1) as nat, s);
    }
}

/// Where `x` does not make up the first `n` symbols, one of them is
/// another symbol.
pub proof fn lemma_other_symbol(input: Seq<u8>, x: u8, n: nat) -> (i: int)
    requires
        occurrences(input, x, n) < n,
    ensures
        0 <= i < n,
        input[i] != x,
    decreases n,
{
    if input[n - 1] != x {
        n - 1
    } else {
        lemma_other_symbol(input, x, (n - 1) as nat)
    }
}

/// What holds of an input that is compressible: it has three bytes or
/// more and two symbols or more, the recommended table size lies within
/// the range of the coder, the counts can be normalized for it with a
/// share for the most frequent symbol, and every symbol of the input has a
/// count. Gives two symbols of the input.
pub proof fn lemma_compressible(input: Seq<u8>) -> (pair: (u8, u8))
    requires
        input.len() <= u32::MAX,
        !not_compressible(input),
    ensures
        ({
            let counts = spec_counts(input);
            let top = spec_max_symbol(counts, 256) as u32;
            let table_log = spec_optimal_table_log(FSE_DEFAULT_TABLELOG, input.len(), top, 2) as u32;
            &&& input.len() >= 3
            &&& 1 <= top <= 255
            &&& top == spec_max_symbol(counts, 256)
            &&& 5 <= table_log <= 12
            &&& table_log == spec_optimal_table_log(FSE_DEFAULT_TABLELOG, input.len(), top, 2)
            &&& normalizable(counts, table_log, input.len(), top)
            &&& largest_upto(counts, table_log, input.len(), (top + 1) as nat).0 > 0
            &&& forall|i: int|
                0 <= i < input.len() ==> (#[trigger] input[i]) <= top && counts[input[i] as int]
                    != 0
            &&& pair.0 != pair.1
            &&& pair.0 <= top
            &&& pair.1 <= top
            &&& counts[pair.0 as int] != 0
            &&& counts[pair.1 as int] != 0
        }),
{
    let len = input.len();
    let counts = spec_counts(input);
    let most = spec_max_count(counts, 256);
    lemma_max_count(counts, 256);
    assert forall|s: int| 0 <= s < 256 implies #[trigger] occurrences(input, s as u8, len)
        == counts[s] by {
        lemma_occurrences_within(input, s as u8, len);
    }
    let at = choose|s: int| 0 <= s < 256 && #[trigger] counts[s] == most;
    assert(occurrences(input, at as u8, len) == counts[at]);
    lemma_occurrences_within(input, at as u8, len);
    if len == 0 {
        assert(most == len);
    }
    vstd::arithmetic::div_mod::lemma_div_pos_is_pos(len as int, 128);
    if most == 0 {
        assert(len / 128 == 0);
        assert(occurrences(input, input[0], len) == counts[input[0] as int]);
        lemma_occurs(input, 0, len);
    }
    lemma_max_symbol_found(counts, 256, at);
    let top = spec_max_symbol(counts, 256) as u32;
    assert forall|s: int| 0 <= s < 256 implies #[trigger] occurrences(input, s as u8, len)
        <= most by {
        assert(counts[s] <= most);
    }
    assert forall|s: int| top < s < 256 implies #[trigger] occurrences(input, s as u8, len)
        == 0 by {
        assert(counts[s] == 0);
    }
    lemma_counted_all(input, len);
    lemma_counted_bound(input, len, 256, top as nat, most as nat);
    if top == 0 {
        assert(most as nat * 1 == most);
    }
    let table_log = spec_optimal_table_log(FSE_DEFAULT_TABLELOG, len, top, 2) as u32;
    lemma_not_rare(len, top, most as nat, table_log);
    lemma_proba_positive(most, table_log, len);
    lemma_largest(counts, table_log, len, (top + 1) as nat);
    assert(first_norm(counts[at], table_log, len) >= 1);
    assert forall|i: int| 0 <= i < len implies (#[trigger] input[i]) <= top && counts[input[i] as int]
        != 0 by {
        lemma_occurs(input, i, len);
        let s = input[i] as int;
        assert(occurrences(input, s as u8, len) == counts[s]);
    }
    assert forall|s: int| 0 <= s <= top implies #[trigger] counts[s] < len by {
        assert(counts[s] <= most);
    }
    let other = lemma_other_symbol(input, at as u8, len);
    (at as u8, input[other])
}

/// An input of one symbol is not compressible.
pub proof fn lemma_one_symbol_not_compressible(input: Seq<u8>)
    requires
        input.len() <= u32::MAX,
        forall|i: int| 0 <= i < input.len() ==> #[trigger] input[i] == input[0],
    ensures
        not_compressible(input),
{
    let counts = spec_counts(input);
    lemma_max_count(counts, 256);
    if input.len() > 0 {
        lemma_occurrences_all(input, input[0], input.len());
        lemma_occurrences_within(input, input[0], input.len());
        let at = choose|s: int| 0 <= s < 256 && #[trigger] counts[s] == spec_max_count(counts, 256);
        lemma_occurrences_within(input, at as u8, input.len());
        assert(counts[input[0] as int] == input.len());
    } else {
        let at = choose|s: int| 0 <= s < 256 && #[trigger] counts[s] == spec_max_count(counts, 256);
        lemma_occurrences_within(input, at as u8, input.len());
    }
}

/// An input in which no symbol occurs twice is not compressible.
pub proof fn lemma_distinct_not_compressible(input: Seq<u8>)
    requires
        forall|i: int, j: int| 0 <= i < j < input.len() ==> input[i] != input[j],
    ensures
        not_compressible(input),
{
    let counts = spec_counts(input);
    lemma_max_count(counts, 256);
    let at = choose|s: int| 0 <= s < 256 && #[trigger] counts[s] == spec_max_count(counts, 256);
    lemma_occurrences_once(input, at as u8, input.len());
    if input.len() > 0 {
        lemma_occurs(input, 0, input.len());
        lemma_occurrences_once(input, input[0], input.len());
        assert(counts[input[0] as int] == 1);
    }
}

proof fn lemma_occurrences_all(input: Seq<u8>, x: u8, n: nat)
    requires
        n <= input.len(),
        forall|i: int| 0 <= i < n ==> input[i] == x,
    ensures
        occurrences(input, x, n) == n,
    decreases n,
{
    if n > 0 {
        lemma_occurrences_all(input, x, (n - 1) as nat);
    }
}

proof fn lemma_occurrences_once(input: Seq<u8>, x: u8, n: nat)
    requires
        n <= input.len(),
        forall|i: int, j: int| 0 <= i < j < input.len() ==> input[i] != input[j],
    ensures
        occurrences(input, x, n) <= 1,
        occurrences(input, x, n) == 1 ==> exists|i: int| 0 <= i < n && input[i] == x,
    decreases n,
{
    if n > 0 {
        lemma_occurrences_once(input, x, (n - 1) as nat);
        if input[n - 1] == x && occurrences(input, x, (n - 1) as nat) == 1 {
            let i = choose|i: int| 0 <= i < n - 1 && input[i] == x;
            assert(input[i] != input[n - 1]);
        }
    }
}

/// The largest count.
pub fn get_max_count(counts: &CountsTable) -> (most: u32)
    ensures
        most == spec_max_count(counts@, 256),
{
    let mut most: u32 = 0;
    let mut s: usize = 0;
    while s < 256
        invariant
            s <= 256,
            most == spec_max_count(counts@, s as nat),
        decreases 256 - s,
    {
        if counts[s] > most {
            most = counts[s];
        }
        s += 1;
    }
    most
}

/// Compresses `input`.
pub fn compress(input: &[u8]) -> (result: Result<BitCstreamOwned, CompressError>)
    requires
        input@.len() <= u32::MAX,
        input@.len() <= usize::MAX / 16,
    ensures
        compress_result(input@, result),
{
    let ghost text = input@;
    let counts = count_simple(input);
    assert(counts@ =~= spec_counts(text));
    let len = input.len();
    let max_count = get_max_count(&counts);
    if max_count as usize == len {
        return Err(CompressError::NotCompressible);
    }
    if max_count == 1 {
        return Err(CompressError::NotCompressible);
    }
    assert(len >> 7 == len / 128) by (bit_vector);
    if (max_count as usize) < (len >> 7) {
        return Err(CompressError::NotCompressible);
    }
    proof {
        let pair = lemma_compressible(text);
        assert(counts@[pair.0 as int] != 0);
    }
    let max_symbol_value = get_max_symbol_value(&counts);
    proof {
        lemma_max_symbol(counts@, 256, max_symbol_value as int);
    }
    let table_log = fse_optimal_table_log(FSE_DEFAULT_TABLELOG, len, max_symbol_value);
    match try_normalized_counts(&counts, table_log, len, max_symbol_value) {
        None => Err(CompressError::UnsupportedNormalization),
        Some(norm_counts) => {
            let comp_tables = build_compression_table(&norm_counts, table_log, max_symbol_value);
            proof {
                assert forall|i: int| 0 <= i < text.len() implies comp_tables.encodes(
                    #[trigger] text[i],
                ) by {
                    assert(counts@[text[i] as int] != 0 && text[i] <= max_symbol_value);
                }
            }
            let out = fse_compress(input, &comp_tables, table_log);
            proof {
                let top = spec_max_symbol(spec_counts(text), 256) as u32;
                let log = spec_optimal_table_log(FSE_DEFAULT_TABLELOG, text.len(), top, 2) as u32;
                let norm = spec_normalized(spec_counts(text), log, text.len(), top);
                assert(top == max_symbol_value);
                assert(log == table_log);
                assert(norm == Some(norm_counts@));
                assert(valid_distribution(norm->0, log, top));
                assert(is_compression_table(&comp_tables, norm->0, log, top) && holds_stream(
                    out,
                    text,
                    &comp_tables,
                    log,
                ));
            }
            let result = Ok(out);
            assert(compress_result(text, result));
            result
        },
    }
}

/// Decompresses `compressed` into `orig_size` bytes, with the tables of the
/// distribution that the data was compressed with.
pub fn decompress(
    compressed: &[u8],
    norm_counts: &NormCountsTable,
    table_log: u32,
    orig_size: usize,
    max_symbol_value: u32,
) -> (output: Vec<u8>)
    requires
        valid_distribution(norm_counts@, table_log, max_symbol_value),
        table_log <= FSE_MAX_TABLELOG,
        compressed@.len() >= 1,
        compressed@[compressed@.len() - 1] != 0,
    ensures
        output@.len() == orig_size,
        exists|table: &DecompressionTable| #[trigger]
            is_decompression_table(table, norm_counts@, table_log, max_symbol_value) && output@
                == spec_fse_decode(
                compressed@,
                table,
                table_log,
                Seq::new(orig_size as nat, |i: int| 0u8),
            ),
{
    let mut output: Vec<u8> = vec![0u8; orig_size];
    assert(output@ =~= Seq::new(orig_size as nat, |i: int| 0u8));
    let decomp_table = build_decompression_table(norm_counts, table_log, max_symbol_value);
    crate::decompress::fse_decompress(&mut output, compressed, &decomp_table, table_log);
    proof {
        assert(is_decompression_table(&decomp_table, norm_counts@, table_log, max_symbol_value));
    }
    output
}

/// Decodes `input` into `output` with the decoding table `table`.
pub fn fse_decompress(
    output: &mut Vec<u8>,
    input: &[u8],
    table: &DecompressionTable,
    table_log: u32,
)
    requires
        input@.len() >= 1,
        input@[input@.len() - 1] != 0,
        table.steps_within(table_log),
        table.fast ==> table.fast_ready(),
    ensures
        final(output)@ == spec_fse_decode(input@, table, table_log, old(output)@),
        final(output)@.len() == old(output)@.len(),
{
    crate::decompress::fse_decompress(output, input, table, table_log)
}

} // verus!
