use ans_flex::bitstream::BitCstreamOwned;
use ans_flex::compress::{fse_blockbound, fse_compress, fse_compressbound};
use ans_flex::hist::{
    count_multi, count_simple, get_max_symbol_value, get_normalized_counts, try_normalized_counts,
};
use ans_flex::table::{
    build_compression_table, build_decompression_table, spread_symbols,
    FseSymbolCompressionTransform,
};
use ans_flex::table_log::{fse_min_table_log, fse_optimal_table_log, fse_optimal_table_log_interal};
use ans_flex::{
    compress, decompress, fse_decompress, get_ans_table_size, get_max_count, CompressError,
    NormCountsTable, FSE_DEFAULT_TABLELOG, FSE_MAX_SYMBOL_VALUE, FSE_MAX_TABLELOG,
};

const A_BYTE: u8 = b'a';
const B_BYTE: u8 = b'b';
const C_BYTE: u8 = b'c';

fn get_test_data() -> Vec<u8> {
    let mut buffer = Vec::new();
    buffer.extend(std::iter::repeat(A_BYTE).take(45));
    buffer.extend(std::iter::repeat(B_BYTE).take(35));
    buffer.extend(std::iter::repeat(C_BYTE).take(20));
    buffer
}

fn get_test_data_flexible(size: usize) -> Vec<u8> {
    let mut buffer = Vec::new();
    buffer.extend(std::iter::repeat(A_BYTE).take((size as f32 * 0.45) as usize));
    buffer.extend(std::iter::repeat(B_BYTE).take((size as f32 * 0.35) as usize));
    buffer.extend(std::iter::repeat(C_BYTE).take((size as f32 * 0.20) as usize));
    buffer
}

/// Text-like data of `len` bytes: words drawn from a small vocabulary by a
/// linear congruential generator.
fn text_data(len: usize, seed: u64) -> Vec<u8> {
    let words: [&[u8]; 12] = [
        b"the ", b"quick ", b"brown ", b"fox ", b"jumps ", b"over ", b"lazy ", b"dog. ",
        b"Entropy ", b"coding, ", b"state ", b"tables\n",
    ];
    let mut state = seed;
    let mut out = Vec::with_capacity(len + 16);
    while out.len() < len {
        state = state.wrapping_mul(6364136223846793005).wrapping_add(1442695040888963407);
        out.extend_from_slice(words[((state >> 33) % 12) as usize]);
    }
    out.truncate(len);
    out
}

/// Lines of hexadecimal digits and dashes, `len` bytes in all.
fn uuid_data(len: usize, seed: u64) -> Vec<u8> {
    let digits = b"0123456789abcdef";
    let mut state = seed;
    let mut out = Vec::with_capacity(len + 40);
    while out.len() < len {
        for i in 0..36 {
            state = state.wrapping_mul(6364136223846793005).wrapping_add(1442695040888963407);
            if i == 8 || i == 13 || i == 18 || i == 23 {
                out.push(b'-');
            } else {
                out.push(digits[((state >> 40) % 16) as usize]);
            }
        }
        out.push(b'\n');
    }
    out.truncate(len);
    out
}

fn inverse(test_data: &[u8]) {
    let out: BitCstreamOwned = compress(test_data).unwrap();

    let counts = count_simple(test_data);
    let max_symbol_value = get_max_symbol_value(&counts);
    let table_log = fse_optimal_table_log(FSE_DEFAULT_TABLELOG, test_data.len(), max_symbol_value);
    let norm_counts = get_normalized_counts(&counts, table_log, test_data.len(), max_symbol_value);

    let decompressed = decompress(
        out.get_compressed_data(),
        &norm_counts,
        table_log,
        test_data.len(),
        max_symbol_value,
    );
    assert_eq!(decompressed, test_data);
}

#[test]
fn test_get_ans_table_size() {
    assert_eq!(get_ans_table_size(10, 0), 515);
    assert_eq!(get_ans_table_size(10, 255), 1025);
    assert_eq!(get_ans_table_size(FSE_DEFAULT_TABLELOG, 255), 1537);
}

#[test]
fn test_table_log_limit() {
    let min_bits_symbols: u32 = ans_flex::bitstream::highbit_pos(FSE_MAX_SYMBOL_VALUE) + 2;
    assert_eq!(min_bits_symbols, 9);
    assert!(min_bits_symbols < FSE_MAX_TABLELOG);
}

#[test]
fn lib_test_statistic_fns() {
    let test_data = get_test_data();

    let counts = count_simple(&test_data);
    assert_eq!(counts[A_BYTE as usize], 45);
    assert_eq!(counts[B_BYTE as usize], 35);
    assert_eq!(counts[C_BYTE as usize], 20);

    let counts = count_multi(&test_data);
    assert_eq!(counts[A_BYTE as usize], 45);
    assert_eq!(counts[B_BYTE as usize], 35);
    assert_eq!(counts[C_BYTE as usize], 20);

    let norm_counts = get_normalized_counts(&counts, 7, test_data.len(), 255);

    assert_eq!(norm_counts[A_BYTE as usize], 59);
    assert_eq!(norm_counts[B_BYTE as usize], 44);
    assert_eq!(norm_counts[C_BYTE as usize], 25);

    assert_eq!(
        norm_counts[A_BYTE as usize] + norm_counts[B_BYTE as usize] + norm_counts[C_BYTE as usize],
        128
    );

    let norm_counts = get_normalized_counts(&counts, 8, test_data.len(), 255);
    assert_eq!(
        norm_counts[A_BYTE as usize] + norm_counts[B_BYTE as usize] + norm_counts[C_BYTE as usize],
        2_i16.pow(8)
    );
}

#[test]
fn test_compress_1() {
    let test_data = get_test_data();
    let counts = count_simple(&test_data);
    assert_eq!(counts[A_BYTE as usize], 45);
    assert_eq!(counts[B_BYTE as usize], 35);
    assert_eq!(counts[C_BYTE as usize], 20);

    let out = compress(&test_data).unwrap();
    assert!(out.data_pos > 0);
    assert!(out.bit_pos < 8);
    assert!(out.get_compressed_size() < test_data.len());
}

#[test]
fn test_roundtrip() {
    let test_data = get_test_data();
    inverse(&test_data);
}

#[test]
fn test_roundtrip_multi_sizes() {
    for num_elems in 15..1000 {
        let test_data = get_test_data_flexible(num_elems);
        inverse(&test_data);
    }
}

#[test]
fn roundtrip_of_short_inputs() {
    inverse(b"aab");
    inverse(b"abab");
    inverse(b"abcab");
    inverse(b"aaaaaaab");
    inverse(&[0u8, 255, 0, 255, 0, 7, 7]);
}

#[test]
fn roundtrip_with_a_symbol_above_half_of_the_table() {
    let mut data = vec![b'x'; 900];
    data.extend_from_slice(b"yzyzyzyzyz");
    inverse(&data);
    let counts = count_simple(&data);
    let top = get_max_symbol_value(&counts);
    let table_log = fse_optimal_table_log(FSE_DEFAULT_TABLELOG, data.len(), top);
    let norm = get_normalized_counts(&counts, table_log, data.len(), top);
    assert!(!build_decompression_table(&norm, table_log, top).fast);
}

#[test]
fn roundtrip_with_rare_symbols() {
    let mut data = Vec::new();
    for i in 0..4000usize {
        data.push(b"etaoin"[i % 6]);
    }
    data.extend_from_slice(b"QZ");
    let counts = count_simple(&data);
    let top = get_max_symbol_value(&counts);
    let table_log = fse_optimal_table_log(FSE_DEFAULT_TABLELOG, data.len(), top);
    let norm = get_normalized_counts(&counts, table_log, data.len(), top);
    assert_eq!(norm[b'Q' as usize], -1);
    assert_eq!(norm[b'Z' as usize], -1);
    inverse(&data);
}

#[test]
fn compress_rejects_what_is_not_compressible() {
    assert_eq!(compress(&[7u8; 100]).unwrap_err(), CompressError::NotCompressible);
    assert_eq!(compress(&[]).unwrap_err(), CompressError::NotCompressible);
    let unique: Vec<u8> = (0..=255u8).collect();
    assert_eq!(compress(&unique).unwrap_err(), CompressError::NotCompressible);
    let mut flat = Vec::new();
    for round in 0..3 {
        for s in 0..=255u8 {
            flat.push(s.wrapping_add(round));
        }
    }
    assert_eq!(get_max_count(&count_simple(&flat)), 3);
    assert_eq!(compress(&flat).unwrap_err(), CompressError::NotCompressible);
}

#[test]
fn normalization_gives_the_rest_to_the_largest_share() {
    let mut counts = [0u32; 256];
    counts[0] = 1;
    counts[1] = 2;
    counts[2] = 97;
    let norm = try_normalized_counts(&counts, 5, 100, 2).unwrap();
    assert_eq!(&norm[..4], &[-1, -1, 30, 0]);
    let norm = get_normalized_counts(&counts, 6, 100, 2);
    assert_eq!(&norm[..4], &[1, 1, 62, 0]);
    assert_eq!(norm.iter().map(|c| c.abs() as i32).sum::<i32>(), 64);
}

#[test]
fn normalization_refuses_to_halve_the_largest_share() {
    let mut counts = [0u32; 256];
    for s in 0..40 {
        counts[s] = 25;
    }
    assert!(try_normalized_counts(&counts, 5, 1000, 39).is_none());
}

#[test]
fn counters_agree_and_saturate_nowhere_early() {
    let data = text_data(5001, 5);
    assert_eq!(count_simple(&data), count_multi(&data));
    assert_eq!(count_simple(&[]), [0u32; 256]);
    let counts = count_simple(&data);
    assert_eq!(counts.iter().map(|c| *c as usize).sum::<usize>(), 5001);
    assert_eq!(get_max_symbol_value(&counts), b'z' as u32);
}

#[test]
fn table_log_follows_size_and_symbols() {
    assert_eq!(fse_min_table_log(100, 255), 7);
    assert_eq!(fse_min_table_log(100_000, 255), 9);
    assert_eq!(fse_min_table_log(100_000, 3), 3);
    assert_eq!(fse_optimal_table_log(11, 100, 255), 7);
    assert_eq!(fse_optimal_table_log(11, 100, 3), 5);
    assert_eq!(fse_optimal_table_log(11, 100_000, 255), 11);
    assert_eq!(fse_optimal_table_log(20, 1 << 20, 255), 12);
    assert_eq!(fse_optimal_table_log(11, 3, 1), 11);
    assert_eq!(fse_optimal_table_log(11, 5, 1), 5);
    assert_eq!(fse_optimal_table_log_interal(11, 3, 200, 2), 11);
    assert_eq!(fse_optimal_table_log_interal(11, 1000, 255, 0), 9);
}

#[test]
fn spread_gives_every_symbol_its_slots() {
    let mut norm = [0i16; 256];
    norm[0] = 20;
    norm[1] = -1;
    norm[2] = 10;
    norm[3] = 1;
    let table = spread_symbols(&norm, 5, 3);
    assert_eq!(table.len(), 32);
    assert_eq!(table.iter().filter(|s| **s == 0).count(), 20);
    assert_eq!(table.iter().filter(|s| **s == 2).count(), 10);
    assert_eq!(table.iter().filter(|s| **s == 3).count(), 1);
    assert_eq!(table[31], 1);
    assert_eq!(&table[..6], &[0, 0, 0, 2, 2, 0]);
    assert_eq!(table[9], 3);
    assert_eq!(table[23], 0);
    assert_eq!(table[12], 2);
}

#[test]
fn compression_table_lists_the_states_by_symbol() {
    let mut norm = [0i16; 256];
    norm[0] = 20;
    norm[1] = -1;
    norm[2] = 10;
    norm[3] = 1;
    let comp = build_compression_table(&norm, 5, 3);
    assert_eq!(comp.state_table.len(), 33);
    assert_eq!(comp.symbol_tt.len(), 4);
    let mut states: Vec<u16> = comp.state_table[..32].to_vec();
    states.sort();
    assert_eq!(states, (32..64).collect::<Vec<u16>>());
    assert_eq!(comp.state_table[20], 32 + 31);
    assert_eq!(comp.symbol_tt[1].delta_nb_bits, (5 << 16) - 32);
    assert_eq!(comp.symbol_tt[1].delta_find_state, 19);
    assert_eq!(comp.symbol_tt[0].delta_nb_bits, (1 << 16) - 40);
    assert_eq!(comp.symbol_tt[0].delta_find_state, -20);
    assert_eq!(comp.symbol_tt[2].delta_nb_bits, (2 << 16) - 40);
    assert_eq!(comp.symbol_tt[2].delta_find_state, 11);
    assert_eq!(comp.symbol_tt[3].delta_find_state, 30);
}

#[test]
fn decompression_table_keeps_the_decoder_inside() {
    let mut norm = [0i16; 256];
    norm[0] = 20;
    norm[1] = -1;
    norm[2] = 10;
    norm[3] = 1;
    let table = build_decompression_table(&norm, 5, 3);
    assert!(!table.fast);
    assert_eq!(table.table.len(), 32);
    for cell in &table.table {
        assert!(cell.new_state as usize + (1usize << cell.nb_bits) <= 32);
    }
    assert_eq!(table.table[31].symbol, 1);
    assert_eq!(table.table[31].nb_bits, 5);
    assert_eq!(table.table[31].new_state, 0);
    assert_eq!(table.table[0].symbol, 0);
    assert_eq!(table.table[0].nb_bits, 1);
    assert_eq!(table.table[0].new_state, 8);
}

#[test]
fn decoding_stops_at_the_end_of_the_output() {
    let data = get_test_data();
    let out = compress(&data).unwrap();
    let counts = count_simple(&data);
    let top = get_max_symbol_value(&counts);
    let table_log = fse_optimal_table_log(FSE_DEFAULT_TABLELOG, data.len(), top);
    let norm = get_normalized_counts(&counts, table_log, data.len(), top);
    let table = build_decompression_table(&norm, table_log, top);
    let mut short = vec![0u8; 10];
    fse_decompress(&mut short, out.get_compressed_data(), &table, table_log);
    assert_eq!(short, &data[..10]);
    let mut long = vec![0xeeu8; 104];
    fse_decompress(&mut long, out.get_compressed_data(), &table, table_log);
    assert_eq!(&long[..100], &data[..]);
    assert_eq!(&long[100..], &[0xee; 4]);
}

#[test]
fn bounds_leave_room_for_states_and_header() {
    assert_eq!(fse_blockbound(0), 12);
    assert_eq!(fse_blockbound(1000), 1000 + 7 + 12);
    assert_eq!(fse_compressbound(1000), 1000 + 7 + 12 + 512);
    let data = get_test_data();
    let comp = {
        let counts = count_simple(&data);
        let norm = get_normalized_counts(&counts, 7, 100, 255);
        build_compression_table(&norm, 7, 255)
    };
    let out = fse_compress(&data, &comp, 7);
    assert_eq!(out.data.len(), fse_compressbound(100));
}

#[test]
fn blocked_counter_agrees_with_the_simple_one() {
    let data = text_data(4099, 7);
    let counts = ans_flex::hist::count_blocked_unsafe(&data);
    assert_eq!(counts.len(), 256);
    assert_eq!(&counts[..], &count_simple(&data)[..]);
    let test_data = get_test_data();
    let counts = ans_flex::hist::count_blocked_unsafe(&test_data);
    assert_eq!(counts[A_BYTE as usize], 45);
    assert_eq!(counts[B_BYTE as usize], 35);
    assert_eq!(counts[C_BYTE as usize], 20);
}

#[test]
fn distribution_from_data() {
    let test_data = get_test_data();
    let (norm, top, table_log) = ans_flex::hist::get_normalized_counts_from_data(&test_data);
    assert_eq!(top, C_BYTE as u32);
    assert_eq!(table_log, 7);
    assert_eq!(norm[A_BYTE as usize], 59);
    assert_eq!(norm[B_BYTE as usize], 44);
    assert_eq!(norm[C_BYTE as usize], 25);
    assert!(ans_flex::table::is_valid_distribution(&norm, table_log, top));
    assert!(!ans_flex::table::is_valid_distribution(&norm, table_log + 1, top));
    assert!(!ans_flex::table::is_valid_distribution(&norm, table_log, top - 1));
    assert!(!ans_flex::table::is_valid_distribution(&norm, 4, top));
    let mut bad = norm;
    bad[0] = -2;
    assert!(!ans_flex::table::is_valid_distribution(&bad, table_log, top));
    bad[0] = 32000;
    assert!(!ans_flex::table::is_valid_distribution(&bad, table_log, top));
}

#[test]
fn reader_under_its_other_name() {
    let data = [0x35u8];
    let mut reader = ans_flex::bitstream::BitDstream::new(&data);
    assert_eq!(reader.read_bits(5), 0b10101);
}

#[test]
fn symbol_costs_of_a_small_table() {
    let mut norm: NormCountsTable = [0i16; 256];
    norm[97] = 59;
    norm[98] = 44;
    norm[99] = 25;
    let table = build_compression_table(&norm, 7, 99);

    let a = table.symbol_tt[97];
    assert_eq!(a.delta_nb_bits, (2 << 16) - (59 << 2));
    assert_eq!(a.fse_get_max_nb_bits(), 2);
    assert_eq!(a.fse_bit_cost(7, 8), 296);

    let b = table.symbol_tt[98];
    assert_eq!(b.fse_get_max_nb_bits(), 2);
    assert_eq!(b.fse_bit_cost(7, 8), 416);

    let c = table.symbol_tt[99];
    assert_eq!(c.delta_nb_bits, (3 << 16) - (25 << 3));
    assert_eq!(c.fse_get_max_nb_bits(), 3);
    assert_eq!(c.fse_bit_cost(7, 8), 624);

    let whole = FseSymbolCompressionTransform { delta_find_state: 0, delta_nb_bits: (2 << 16) - 256 };
    assert_eq!(whole.fse_get_max_nb_bits(), 2);
    assert_eq!(whole.fse_bit_cost(7, 4), 16);
}

#[test]
fn compress_refuses_counts_that_it_cannot_normalize() {
    let mut input = Vec::new();
    for symbol in 0..200u8 {
        input.push(symbol);
        input.push(symbol);
    }
    input.extend([200u8; 3]);
    assert_eq!(input.len(), 403);
    assert_eq!(fse_optimal_table_log(FSE_DEFAULT_TABLELOG, 403, 200), 9);
    let counts = count_simple(&input);
    assert!(try_normalized_counts(&counts, 9, 403, 200).is_none());
    assert!(matches!(compress(&input), Err(CompressError::UnsupportedNormalization)));
}

#[test]
fn counts_that_do_not_make_up_the_total_leave_slots_over() {
    let mut counts = [0u32; 256];
    counts[0] = 1;
    let norm = try_normalized_counts(&counts, 5, 64, 0).unwrap();
    assert_eq!(norm[0], 30);
    assert!(norm[1..].iter().all(|count| *count == 0));
}
