use ans_flex::bitstream::{
    bit_highbit32, highbit_pos, push_usize, read_le_bytes, read_usize, BitCstream,
    BitDStreamReverse, BitDstreamStatus,
};

#[test]
fn lib_test_highbit_pos() {
    assert_eq!(highbit_pos(1), 0);
    assert_eq!(highbit_pos(2), 1);
    assert_eq!(highbit_pos(4), 2);
    assert_eq!(highbit_pos(7), 2);
    assert_eq!(highbit_pos(8), 3);
    assert_eq!(highbit_pos(9), 3);
    assert_eq!(highbit_pos(1000), 9);
    assert_eq!(highbit_pos(1024), 10);
}

#[test]
fn table_test_highbit_pos() {
    assert_eq!(highbit_pos(1), 0);
    assert_eq!(highbit_pos(2), 1);
    assert_eq!(highbit_pos(4), 2);
    assert_eq!(highbit_pos(7), 2);
    assert_eq!(highbit_pos(8), 3);
    assert_eq!(highbit_pos(9), 3);
    assert_eq!(highbit_pos(1000), 9);
    assert_eq!(highbit_pos(1024), 10);
}

#[test]
fn test_bit_highbit32() {
    assert_eq!(bit_highbit32(1), 0);
    assert_eq!(bit_highbit32(2), 1);
    assert_eq!(bit_highbit32(4), 2);
    assert_eq!(bit_highbit32(7), 2);
    assert_eq!(bit_highbit32(8), 3);
    assert_eq!(bit_highbit32(9), 3);
    assert_eq!(bit_highbit32(1000), 9);
    assert_eq!(bit_highbit32(1024), 10);
}

#[test]
fn highbit_of_zero_and_of_the_largest_value() {
    assert_eq!(highbit_pos(0), 63);
    assert_eq!(highbit_pos(u32::MAX), 31);
    assert_eq!(highbit_pos(0x8000_0000), 31);
}

#[test]
fn test_stream_simple() {
    let mut data: Vec<u8> = Vec::new();
    data.resize(50, 0);
    let mut c_stream = BitCstream::new();
    c_stream.add_bits_fast(0b101, 3);
    c_stream.flush_bits_fast(&mut data);
    c_stream.finish_stream(&mut data);

    let out = c_stream.get_compressed_data(&data);

    let mut d_stream = BitDStreamReverse::new(out);
    let val = d_stream.read_bits_fast(3);
    assert_eq!(val, 0b101);
}

#[test]
fn test_stream_show_reverse() {
    let mut data: Vec<u8> = Vec::new();
    data.resize(50, 0);
    let mut c_stream = BitCstream::new();
    c_stream.add_bits_fast(0b111, 30);
    c_stream.add_bits_fast(0b101, 30);
    c_stream.flush_bits_fast(&mut data);
    c_stream.finish_stream(&mut data);

    let out = c_stream.get_compressed_data(&data);

    let mut d_stream = BitDStreamReverse::new(out);
    let val1 = d_stream.read_bits_fast(30);
    let val2 = d_stream.read_bits_fast(30);
    assert_eq!(val1, 0b101);
    assert_eq!(val2, 0b111);
}

#[test]
fn test_stream_reload() {
    let mut data: Vec<u8> = Vec::new();
    data.resize(50, 0);
    let mut c_stream = BitCstream::new();
    c_stream.add_bits_fast(0b111, 30);
    c_stream.add_bits_fast(0b101, 30);
    c_stream.flush_bits_fast(&mut data);
    c_stream.add_bits_fast(0b0001, 5);
    c_stream.add_bits_fast(0b0011, 5);
    c_stream.add_bits_fast(0b0111, 5);
    c_stream.add_bits_fast(0b1111, 5);
    c_stream.flush_bits_fast(&mut data);
    c_stream.finish_stream(&mut data);

    let out = c_stream.get_compressed_data(&data);

    let mut d_stream = BitDStreamReverse::new(out);
    assert_eq!(d_stream.read_bits_fast(5), 0b1111);
    assert_eq!(d_stream.read_bits_fast(5), 0b0111);
    d_stream.reload_stream(&out);
    assert_eq!(d_stream.read_bits_fast(5), 0b0011);
    assert_eq!(d_stream.read_bits_fast(5), 0b0001);
    d_stream.reload_stream(&out);
    assert_eq!(d_stream.read_bits_fast(30), 0b101);
    assert_eq!(d_stream.read_bits_fast(30), 0b111);
}

#[test]
fn test_stream_many_reload() {
    let mut data: Vec<u8> = Vec::new();
    data.resize(50, 0);
    let mut c_stream = BitCstream::new();
    c_stream.add_bits_fast(0b111, 30);
    c_stream.add_bits_fast(0b101, 30);
    c_stream.flush_bits_fast(&mut data);
    c_stream.add_bits_fast(0b0001, 5);
    c_stream.add_bits_fast(0b0011, 5);
    c_stream.add_bits_fast(0b0111, 5);
    c_stream.add_bits_fast(0b1111, 5);
    c_stream.flush_bits_fast(&mut data);
    c_stream.finish_stream(&mut data);

    let out = c_stream.get_compressed_data(&data);

    let mut d_stream = BitDStreamReverse::new(out);
    assert_eq!(d_stream.read_bits_fast(5), 0b1111);
    d_stream.reload_stream(&out);
    assert_eq!(d_stream.read_bits_fast(5), 0b0111);
    d_stream.reload_stream(&out);
    assert_eq!(d_stream.read_bits_fast(5), 0b0011);
    d_stream.reload_stream(&out);
    assert_eq!(d_stream.read_bits_fast(5), 0b0001);
    d_stream.reload_stream(&out);
    assert_eq!(d_stream.read_bits_fast(30), 0b101);
    d_stream.reload_stream(&out);
    assert_eq!(d_stream.read_bits_fast(30), 0b111);
}

#[test]
fn writer_puts_fields_above_each_other() {
    let mut stream = BitCstream::new();
    stream.add_bits(0xffff_fff5, 4);
    assert_eq!(stream.bit_container, 0b0101);
    assert_eq!(stream.bit_pos, 4);
    stream.add_bits_fast(0b11, 2);
    assert_eq!(stream.bit_container, 0b11_0101);
    assert_eq!(stream.bit_pos, 6);
    assert_eq!(stream.data_pos, 0);
    assert_eq!(stream.get_compressed_size(), 1);
}

#[test]
fn flush_stores_whole_bytes_and_keeps_the_rest() {
    let mut data = vec![0xaau8; 12];
    let mut stream = BitCstream::new();
    stream.add_bits_fast(0x1_2345, 20);
    stream.flush_bits_fast(&mut data);
    assert_eq!(stream.data_pos, 2);
    assert_eq!(stream.bit_pos, 4);
    assert_eq!(stream.bit_container, 0x1);
    assert_eq!(&data[..8], &[0x45, 0x23, 0x01, 0, 0, 0, 0, 0]);
    assert_eq!(&data[8..], &[0xaa, 0xaa, 0xaa, 0xaa]);
    stream.finish_stream(&mut data);
    assert_eq!(stream.data_pos, 2);
    assert_eq!(stream.bit_pos, 5);
    assert_eq!(data[2], 0x11);
    assert_eq!(stream.get_compressed_data(&data), &[0x45, 0x23, 0x11]);
}

#[test]
fn words_are_stored_low_byte_first() {
    let mut data = vec![0u8; 10];
    push_usize(&mut data, 1, 0x0807_0605_0403_0201);
    assert_eq!(data, vec![0, 1, 2, 3, 4, 5, 6, 7, 8, 0]);
    assert_eq!(read_usize(&data, 1), 0x0807_0605_0403_0201);
    assert_eq!(read_le_bytes(&data, 1, 3), 0x03_0201);
    assert_eq!(read_le_bytes(&data, 4, 0), 0);
}

#[test]
fn reader_starts_below_the_end_mark() {
    let short = [0b0001_0110u8];
    let reader = BitDStreamReverse::new(&short);
    assert_eq!(reader.input_pos, 0);
    assert_eq!(reader.limit_pos, 8);
    assert_eq!(reader.bit_container, 0b0001_0110);
    assert_eq!(reader.bits_consumed, 8 - 4 + 56);
    assert_eq!(BitDStreamReverse::new(&[1u8]).bits_consumed, 8 + 56);

    let long = [1u8, 2, 3, 4, 5, 6, 7, 8, 9, 0x80];
    let reader = BitDStreamReverse::new(&long);
    assert_eq!(reader.input_pos, 2);
    assert_eq!(reader.bit_container, 0x8009_0807_0605_0403);
    assert_eq!(reader.bits_consumed, 1);
}

#[test]
fn checked_and_unchecked_reads_agree() {
    let data = [0x21u8, 0x43, 0x65, 0x87, 0xa9, 0xcb, 0xed, 0x0f, 0x11, 0x1f];
    let mut checked = BitDStreamReverse::new(&data);
    let mut fast = BitDStreamReverse::new(&data);
    for width in [1u32, 3, 7, 12, 5, 9] {
        assert_eq!(checked.look_bits(width), fast.look_bits_fast(width));
        assert_eq!(checked.read_bits(width), fast.read_bits_fast(width));
    }
    assert_eq!(checked.bits_consumed, fast.bits_consumed);
}

#[test]
fn reload_reports_where_the_reader_stands() {
    let data = [0x21u8, 0x43, 0x65, 0x87, 0xa9, 0xcb, 0xed, 0x0f, 0x11, 0x1f];
    let mut reader = BitDStreamReverse::new(&data);
    assert_eq!(reader.bits_consumed, 4);
    reader.read_bits(13);
    assert_eq!(reader.reload_stream(&data), BitDstreamStatus::Unfinished);
    assert_eq!(reader.input_pos, 0);
    assert_eq!(reader.bits_consumed, 1);
    assert_eq!(reader.bit_container, 0x0fed_cba9_8765_4321);
    reader.read_bits(31);
    assert_eq!(reader.reload_stream(&data), BitDstreamStatus::EndOfBuffer);
    assert_eq!(reader.bits_consumed, 32);
    reader.read_bits(31);
    reader.read_bits(1);
    assert_eq!(reader.reload_stream(&data), BitDstreamStatus::Completed);
    reader.read_bits(1);
    assert_eq!(reader.reload_stream(&data), BitDstreamStatus::Overflow);
    assert_eq!(reader.bits_consumed, 65);

    let mut near = BitDStreamReverse::new(&data);
    near.input_pos = 1;
    near.bit_container = read_usize(&data, 1);
    near.bits_consumed = 20;
    assert_eq!(near.reload_stream(&data), BitDstreamStatus::EndOfBuffer);
    assert_eq!(near.input_pos, 0);
    assert_eq!(near.bits_consumed, 12);
    let mut nearer = BitDStreamReverse::new(&data);
    nearer.input_pos = 2;
    nearer.bits_consumed = 12;
    assert_eq!(nearer.reload_stream(&data), BitDstreamStatus::Unfinished);
    assert_eq!(nearer.input_pos, 1);
    assert_eq!(nearer.bits_consumed, 4);
    let mut far = BitDStreamReverse::new(&data);
    far.input_pos = 2;
    far.limit_pos = 2;
    far.bits_consumed = 9;
    assert_eq!(far.reload_stream_fast(&data), BitDstreamStatus::Unfinished);
    assert_eq!(far.input_pos, 1);
    assert_eq!(far.bits_consumed, 1);
}
