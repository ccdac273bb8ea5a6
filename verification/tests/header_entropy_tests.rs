use draco_oxide_decoder::entropy::{unzigzag, BitCursor};
use draco_oxide_decoder::error::DecodeError;
use draco_oxide_decoder::header::{decode_header, is_point_cloud_stream, EncoderMethod};
use draco_oxide_decoder::reader::Reader;

fn to_positive_i32(val: i32) -> i32 {
    if val >= 0 {
        val << 1
    } else {
        (-(val + 1) << 1) + 1
    }
}

#[test]
fn point_cloud_stream_is_rejected() {
    let bytes = [b'D', b'R', b'A', b'C', b'O', 2, 2, 0, 0, 0, 0];
    let mut reader = Reader::new(&bytes);
    assert!(matches!(decode_header(&mut reader), Err(DecodeError::UnsupportedPointCloud)));
}

#[test]
fn point_cloud_bitstream_2_3_is_rejected_as_point_cloud() {
    let bytes = [b'D', b'R', b'A', b'C', b'O', 2, 3, 0, 0, 0, 0];
    let mut reader = Reader::new(&bytes);
    assert!(matches!(decode_header(&mut reader), Err(DecodeError::UnsupportedPointCloud)));
}

#[test]
fn mesh_header_parses() {
    let bytes = [b'D', b'R', b'A', b'C', b'O', 2, 2, 1, 1, 0x00, 0x80, 0xEE];
    let mut reader = Reader::new(&bytes);
    let h = decode_header(&mut reader).unwrap();
    assert_eq!(h.geometry_type, 1);
    assert_eq!(h.encoder_method, EncoderMethod::Edgebreaker);
    assert!(h.metadata);
    assert_eq!(reader.read_u8().unwrap(), 0xEE);
}

#[test]
fn header_errors_come_in_stream_order() {
    let mut reader = Reader::new(b"DRAC");
    assert!(matches!(decode_header(&mut reader), Err(DecodeError::Reader(_))));
    let mut reader = Reader::new(b"XRACO221");
    assert!(matches!(decode_header(&mut reader), Err(DecodeError::InvalidHeader(_))));
    let bytes = [b'D', b'R', b'A', b'C', b'O', 2, 1, 1, 0, 0, 0];
    let mut reader = Reader::new(&bytes);
    assert!(matches!(decode_header(&mut reader), Err(DecodeError::UnsupportedVersion(2, 1))));
    let bytes = [b'D', b'R', b'A', b'C', b'O', 2, 2, 1, 7, 0, 0];
    let mut reader = Reader::new(&bytes);
    assert!(matches!(decode_header(&mut reader), Err(DecodeError::InvalidHeader(_))));
}

#[test]
fn point_cloud_streams_are_recognised() {
    assert!(is_point_cloud_stream(&[b'D', b'R', b'A', b'C', b'O', 2, 3, 0, 0, 0, 0]));
    assert!(!is_point_cloud_stream(&[b'D', b'R', b'A', b'C', b'O', 2, 2, 1, 0, 0, 0]));
    assert!(!is_point_cloud_stream(&[b'D', b'R', b'A', b'C', b'O', 2, 3, 0]));
}

#[test]
fn unzigzag_inverts_to_positive_i32() {
    for n in -5000i32..=5000 {
        let code = to_positive_i32(n) as u32;
        assert_eq!(unzigzag(code), n);
    }
}

#[test]
fn bit_cursor_reads_lsb_first_across_bytes() {
    let data = [0b1011_0101u8, 0b0100_1110];
    let mut cursor = BitCursor::new(&data);
    assert_eq!(cursor.read_bits(3), 0b101);
    assert_eq!(cursor.read_bits(6), 0b01_0110);
    assert_eq!(cursor.read_bits(7), 0b010_0111);
    assert_eq!(cursor.read_bits(8), 0);
}
