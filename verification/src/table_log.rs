//! Choice of the table size for an input.

use vstd::prelude::*;
use crate::bitstream::{highbit_pos, spec_highbit};
use crate::{FSE_MAX_TABLELOG, FSE_MIN_TABLELOG};

verus! {

/// What `highbit_pos` gives: the index of the highest set bit, and 63 for
/// zero.
pub open spec fn spec_highbit_pos(val: u32) -> nat {
    if val == 0 {
        63
    } else {
        spec_highbit(val as nat)
    }
}

/// Smallest table that can hold a distribution of `src_size` symbols with
/// values up to `max_symbol_value`.
pub open spec fn spec_min_table_log(src_size: nat, max_symbol_value: u32) -> nat {
    let by_size = spec_highbit_pos(src_size as u32) + 1;
    let by_symbols = spec_highbit_pos(max_symbol_value) + 2;
    if by_size < by_symbols {
        by_size
    } else {
        by_symbols
    }
}

/// The table size recommended for an input: at most `max_table_log`, and
/// no finer than the input's size warrants, but fine enough for the
/// symbols; then brought into the range that the coder supports. The
/// bound by size is taken with wrap-around: for fewer than
/// `2^minus + 1` bytes it does not bind.
pub open spec fn spec_optimal_table_log(
    max_table_log: u32,
    src_size: nat,
    max_symbol_value: u32,
    minus: u32,
) -> nat {
    let high = spec_highbit_pos((src_size - 1) as u32) as int;
    let by_size = if high >= minus { high - minus } else { high - minus + 0x1_0000_0000 };
    let lower = spec_min_table_log(src_size, max_symbol_value) as int;
    let first = if max_table_log < by_size { max_table_log as int } else { by_size };
    let second = if first > lower { first } else { lower };
    let third = if second < 12 { second } else { 12 };
    (if third > 5 { third } else { 5 }) as nat
}

/// Recommended table size for an input of `src_size` bytes.
pub fn fse_optimal_table_log(max_table_log: u32, src_size: usize, max_symbol_value: u32) -> (table_log:
    u32)
    requires
        1 < src_size <= u32::MAX,
    ensures
        table_log == spec_optimal_table_log(max_table_log, src_size as nat, max_symbol_value, 2),
        5 <= table_log <= 12,
{
    fse_optimal_table_log_interal(max_table_log, src_size, max_symbol_value, 2)
}

/// Recommended table size, with `minus` bits taken off the size of the
/// input.
pub fn fse_optimal_table_log_interal(
    max_table_log: u32,
    src_size: usize,
    max_symbol_value: u32,
    minus: u32,
) -> (table_log: u32)
    requires
        1 < src_size <= u32::MAX,
    ensures
        table_log == spec_optimal_table_log(
            max_table_log,
            src_size as nat,
            max_symbol_value,
            minus,
        ),
        5 <= table_log <= 12,
{
    let mut table_log: u32 = max_table_log;
    let max_bits_src: u32 = highbit_pos(src_size as u32 - 1).wrapping_sub(minus);
    let min_bits: u32 = fse_min_table_log(src_size, max_symbol_value);
    if max_bits_src < table_log {
        table_log = max_bits_src;
    }
    if min_bits > table_log {
        table_log = min_bits;
    }
    if FSE_MAX_TABLELOG < table_log {
        table_log = FSE_MAX_TABLELOG;
    }
    if FSE_MIN_TABLELOG > table_log {
        table_log = FSE_MIN_TABLELOG;
    }
    table_log
}

/// Smallest table that can hold the distribution of an input.
pub fn fse_min_table_log(src_size: usize, max_symbol_value: u32) -> (table_log: u32)
    requires
        1 < src_size <= u32::MAX,
    ensures
        table_log == spec_min_table_log(src_size as nat, max_symbol_value),
{
    let min_bits_src: u32 = highbit_pos(src_size as u32) + 1;
    let min_bits_symbols: u32 = highbit_pos(max_symbol_value) + 2;
    if min_bits_src < min_bits_symbols {
        min_bits_src
    } else {
        min_bits_symbols
    }
}

} // verus!
