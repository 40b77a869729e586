use ans_flex::header::{
    flush_word, fse_NCountWriteBound, fse_read_n_count, fse_write_n_count_generic, peek_bits,
    put_bits, FSE_write_N_Count, HistError,
};
use ans_flex::hist::{count_simple, get_max_symbol_value, get_normalized_counts};
use ans_flex::table_log::fse_optimal_table_log;
use ans_flex::{FSE_DEFAULT_TABLELOG, FSE_MAX_SYMBOL_VALUE};

fn write_header(norm: &[i16; 256], top: u32, table_log: u32) -> Vec<u8> {
    let mut out = vec![0u8; fse_NCountWriteBound(top, table_log) as usize];
    let size = FSE_write_N_Count(&mut out, norm, top, table_log).unwrap();
    out.truncate(size);
    out
}

fn roundtrip(norm: &[i16; 256], top: u32, table_log: u32) {
    let mut out = vec![0u8; fse_NCountWriteBound(top, table_log) as usize];
    let size = FSE_write_N_Count(&mut out, norm, top, table_log).unwrap();
    let mut restored = [7i16; 256];
    let mut top_read = FSE_MAX_SYMBOL_VALUE;
    let mut log_read = 0;
    let read = fse_read_n_count(&out[..size], &mut restored, &mut top_read, &mut log_read).unwrap();
    assert_eq!(read, size);
    assert_eq!(log_read, table_log);
    assert_eq!(top_read, top);
    assert_eq!(&restored[..=top as usize], &norm[..=top as usize]);
    assert!(restored[top as usize + 1..].iter().all(|c| *c == 7));
    // the same header in a longer buffer
    let read = fse_read_n_count(&out, &mut restored, &mut top_read, &mut log_read).unwrap();
    assert_eq!(read, size);
}

#[test]
fn write_n_bound_test() {
    let test_data: &[u8] = &[
        3_u8, 4, 4, 6, 50, 51, 51, 51, 51, 52, 52, 52, 52, 52, 52, 52, 52, 52,
    ];
    let counts = count_simple(test_data);
    let mut max_symbol_value = get_max_symbol_value(&counts);
    let table_log = fse_optimal_table_log(FSE_DEFAULT_TABLELOG, test_data.len(), max_symbol_value);
    let norm_counts = get_normalized_counts(&counts, table_log, test_data.len(), max_symbol_value);
    let mut out = vec![];
    out.resize(fse_NCountWriteBound(max_symbol_value, table_log) as usize, 0);
    let bytes_written =
        FSE_write_N_Count(out.as_mut_slice(), &norm_counts, max_symbol_value, table_log).unwrap();
    assert!(bytes_written <= out.len());
    let mut table_log_restored = FSE_DEFAULT_TABLELOG;
    let mut norm_counts_restored = [0_i16; 256];
    fse_read_n_count(
        &out,
        &mut norm_counts_restored,
        &mut max_symbol_value,
        &mut table_log_restored,
    )
    .unwrap();
    assert_eq!(norm_counts, norm_counts_restored);
    assert_eq!(table_log_restored, table_log);
    assert_eq!(max_symbol_value, 52);
}

#[test]
fn header_of_three_symbols() {
    let mut norm = [0i16; 256];
    norm[0] = 20;
    norm[1] = -1;
    norm[2] = 11;
    // table log 5 as 0 in four bits; the count 20 as 21 in the short form of
    // five bits (21 < max = 30); what is left is 13: threshold 8, four bits;
    // the count -1 as 0 in the short form of three bits (max = 2); what is left
    // is 12; the count 11 as 12 + max = 15 in four bits.
    let expected: u32 = 0 | (21 << 4) | (0 << 9) | (15 << 12);
    assert_eq!(write_header(&norm, 2, 5), vec![expected as u8, (expected >> 8) as u8]);
    roundtrip(&norm, 2, 5);
}

#[test]
fn header_roundtrip_of_runs_of_absent_symbols() {
    let mut norm = [0i16; 256];
    norm[0] = 10;
    norm[3] = 10;
    norm[100] = 10;
    norm[255] = 2;
    roundtrip(&norm, 255, 5);

    let mut norm = [0i16; 256];
    norm[1] = 1000;
    norm[2] = -1;
    norm[30] = 1000;
    norm[31] = 47;
    roundtrip(&norm, 31, 11);

    let mut norm = [0i16; 256];
    for s in 0..64 {
        norm[4 * s] = 64;
    }
    roundtrip(&norm, 252, 12);
}

#[test]
fn header_roundtrip_of_a_text() {
    let mut data = Vec::new();
    for i in 0..5000usize {
        data.push(b"the quick brown fox jumps over the lazy dog"[(i * i + 3 * i) % 43]);
    }
    let counts = count_simple(&data);
    let top = get_max_symbol_value(&counts);
    let table_log = fse_optimal_table_log(FSE_DEFAULT_TABLELOG, data.len(), top);
    let norm = get_normalized_counts(&counts, table_log, data.len(), top);
    roundtrip(&norm, top, table_log);
}

#[test]
fn header_errors() {
    let mut norm = [0i16; 256];
    norm[0] = 20;
    norm[1] = 12;
    let mut out = vec![0u8; 64];
    assert!(matches!(
        FSE_write_N_Count(&mut out, &norm, 1, 13),
        Err(HistError::TableLogTooLarge)
    ));
    assert!(matches!(
        FSE_write_N_Count(&mut out, &norm, 1, 4),
        Err(HistError::TableLogTooSmall)
    ));
    assert!(matches!(
        FSE_write_N_Count(&mut out[..1], &norm, 1, 5),
        Err(HistError::OutputTooSmall)
    ));
    assert!(matches!(FSE_write_N_Count(&mut out[..2], &norm, 1, 5), Ok(2)));
    norm[1] = 13;
    assert!(matches!(
        FSE_write_N_Count(&mut out, &norm, 1, 5),
        Err(HistError::UnexpectedRemaining)
    ));
    norm[1] = 11;
    assert!(matches!(
        fse_write_n_count_generic(&mut out, &norm, 1, 5, true),
        Err(HistError::IncorrectNormalizedDistribution)
    ));

    let mut restored = [0i16; 256];
    let mut top = 255;
    let mut log = 0;
    assert!(matches!(
        fse_read_n_count(&[0x0f, 0, 0, 0], &mut restored, &mut top, &mut log),
        Err(HistError::TableLogTooLarge)
    ));
    norm[1] = 12;
    let size = FSE_write_N_Count(&mut out, &norm, 1, 5).unwrap();
    let mut top = 0;
    assert!(matches!(
        fse_read_n_count(&out[..size], &mut restored, &mut top, &mut log),
        Err(HistError::CorruptionDetected(_))
    ));
    let mut top = 255;
    assert!(matches!(
        fse_read_n_count(&out[..size - 1], &mut restored, &mut top, &mut log),
        Err(HistError::CorruptionDetected(_))
    ));
    let mut norm = [0i16; 256];
    norm[0] = 16;
    norm[9] = 16;
    let size = FSE_write_N_Count(&mut out, &norm, 9, 5).unwrap();
    let mut top = 5;
    assert!(matches!(
        fse_read_n_count(&out[..size], &mut restored, &mut top, &mut log),
        Err(HistError::MaxSymbolValueTooSmall)
    ));
}

#[test]
fn header_bounds() {
    assert_eq!(fse_NCountWriteBound(0, 12), 512);
    assert_eq!(fse_NCountWriteBound(255, 12), 256 * 12 / 8 + 3);
    assert_eq!(fse_NCountWriteBound(2, 5), 4);
}

#[test]
fn header_bits() {
    let mut bit_stream = 0b101u32;
    let mut bit_count = 3;
    put_bits(&mut bit_stream, &mut bit_count, 0b11, 2);
    assert_eq!((bit_stream, bit_count), (0b11_101, 5));
    put_bits(&mut bit_stream, &mut bit_count, 0x1abc, 13);
    assert_eq!((bit_stream, bit_count), (0b11_101 | (0x1abc << 5), 18));
    let mut out = [0u8; 3];
    let mut pos = 0;
    let word = bit_stream;
    assert!(flush_word(&mut out, &mut pos, &mut bit_stream));
    assert_eq!(out, [word as u8, (word >> 8) as u8, 0]);
    assert_eq!((pos, bit_stream), (2, word >> 16));
    assert!(!flush_word(&mut out, &mut pos, &mut bit_stream));
    assert_eq!((pos, bit_stream), (2, word >> 16));

    let data = [0x34u8, 0x12, 0xff];
    assert_eq!(peek_bits(&data, 0, 16), 0x1234);
    assert_eq!(peek_bits(&data, 4, 8), 0x23);
    assert_eq!(peek_bits(&data, 12, 16), 0x0ff1);
    assert_eq!(peek_bits(&data, 23, 4), 1);
    assert_eq!(peek_bits(&data, 24, 16), 0);
    assert_eq!(peek_bits(&data, 7, 0), 0);
}
