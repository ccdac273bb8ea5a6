use draco_oxide_decoder::error::ReaderErr;
use draco_oxide_decoder::reader::{leb128_read, Reader, RevReader};

#[test]
fn reverse_reader_reads_sub_slice_backwards() {
    let buffer = vec![1_u8, 2, 3, 4, 5];
    let mut reader = Reader::new(&buffer);
    let head = reader.read_bytes(2).unwrap();
    let mut rev = RevReader::new(head);
    assert_eq!(rev.read_u8_back().unwrap(), 2);
    assert_eq!(rev.read_u8_back().unwrap(), 1);
    assert_eq!(rev.read_u8_back(), Err(ReaderErr::NotEnoughData));
    assert_eq!(reader.read_u8().unwrap(), 3);
    assert_eq!(reader.read_u8().unwrap(), 4);
    assert_eq!(reader.read_u8().unwrap(), 5);
    assert!(reader.is_empty());
}

#[test]
fn reverse_reader_reads_little_endian_widths() {
    // 200 as u8, 201 as u16, 202 as u24, 203 as u32, all little-endian.
    let buffer = vec![200u8, 201, 0, 202, 0, 0, 203, 0, 0, 0];
    assert_eq!(buffer.len(), 10);
    let mut rev = RevReader::new(&buffer);
    assert_eq!(rev.read_u32_back().unwrap(), 203);
    assert_eq!(rev.read_u24_back().unwrap(), 202);
    assert_eq!(rev.read_u16_back().unwrap(), 201);
    assert_eq!(rev.read_u8_back().unwrap(), 200);
    assert_eq!(rev.read_u8_back(), Err(ReaderErr::NotEnoughData));
}

#[test]
fn reverse_reader_reads_u64() {
    let buffer = vec![1u8, 2, 3, 4, 5, 6, 7, 8];
    let mut rev = RevReader::new(&buffer);
    assert_eq!(rev.read_u64_back().unwrap(), 0x0807_0605_0403_0201);
    assert_eq!(rev.remaining(), 0);
}

#[test]
fn forward_reader_reads_little_endian() {
    let buffer = vec![0x34u8, 0x12, 0x78, 0x56, 0x34, 0x12];
    let mut reader = Reader::new(&buffer);
    assert_eq!(reader.read_u16().unwrap(), 0x1234);
    assert_eq!(reader.read_u32().unwrap(), 0x1234_5678);
    assert_eq!(reader.read_u8(), Err(ReaderErr::NotEnoughData));
}

#[test]
fn leb128_reads_multi_byte_values() {
    let buffer = vec![0xE5u8, 0x8E, 0x26, 0x7F];
    let mut reader = Reader::new(&buffer);
    assert_eq!(leb128_read(&mut reader).unwrap(), 624485);
    assert_eq!(leb128_read(&mut reader).unwrap(), 127);
    assert_eq!(leb128_read(&mut reader), Err(ReaderErr::NotEnoughData));
}

#[test]
fn leb128_rejects_overlong_numbers() {
    let buffer = vec![0xFFu8; 10].into_iter().chain([0x01]).collect::<Vec<u8>>();
    let mut reader = Reader::new(&buffer);
    assert_eq!(leb128_read(&mut reader), Err(ReaderErr::VarintOverflow));
    assert_eq!(reader.remaining(), 11);
}

#[test]
fn rans_refill_pulls_bytes_from_the_back() {
    let buffer = vec![0xAAu8, 0xBB];
    let mut rev = RevReader::new(&buffer);
    // A state below the threshold pulls bytes until it reaches it.
    let state = rev.rans_refill(5, 4096);
    assert_eq!(state, (5 * 256 + 0xBB) * 256 + 0xAA);
    assert_eq!(rev.remaining(), 0);
}

#[test]
fn rans_refill_serves_a_wide_threshold() {
    // A power-of-two threshold far above 2^24 refills as the byte loop does.
    let buffer = vec![0x11u8, 0x22, 0x33, 0x44, 0x55];
    let mut rev = RevReader::new(&buffer);
    let l_base: usize = 1 << 40;
    let state = rev.rans_refill(1 << 33, l_base);
    assert_eq!(state, ((1usize << 33) << 8) | 0x55);
    assert_eq!(rev.remaining(), 4);
}
