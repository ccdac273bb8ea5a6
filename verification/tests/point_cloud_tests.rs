use draco_oxide_decoder::decoder::{decode_point_cloud_portable, Decoder};
use draco_oxide_decoder::error::{DecodeError, ReaderErr};
use draco_oxide_decoder::point_cloud::bit_decoder::{
    BitDecoder, DirectBitDecoder, RansBitDecoder,
};
use draco_oxide_decoder::point_cloud::kd_tree::{decode_kd_reserved, decode_points, decode_typed};
use draco_oxide_decoder::point_cloud::{
    build_attribute, decode_portable, signed_bounds, AttributeKind, AttributeTransform,
    ComponentType, Descriptor,
};
use draco_oxide_decoder::reader::Reader;

fn direct_stream(words: &[u32]) -> Vec<u8> {
    let mut out = ((words.len() * 4) as u32).to_le_bytes().to_vec();
    for w in words {
        out.extend_from_slice(&w.to_le_bytes());
    }
    out
}

fn kd_block(bit_length: u32, num_points: u32, remaining: &[u32]) -> Vec<u8> {
    let mut out = bit_length.to_le_bytes().to_vec();
    out.extend_from_slice(&num_points.to_le_bytes());
    out.extend(direct_stream(&[0]));
    out.extend(direct_stream(remaining));
    out.extend(direct_stream(&[0]));
    out.extend(direct_stream(&[0]));
    out
}

fn point_cloud_stream(num_points: u32, component_type: u8, tail: &[u8], kd: &[u8]) -> Vec<u8> {
    let mut out = b"DRACO".to_vec();
    out.extend_from_slice(&[2, 3, 0, 1, 0, 0]);
    out.extend_from_slice(&num_points.to_le_bytes());
    // one decoder, one attribute: position, 1 component, not normalized, id 0
    out.extend_from_slice(&[1, 1, 0, component_type, 1, 0, 0]);
    out.push(0); // compression level 0: direct bits
    out.extend_from_slice(kd);
    out.extend_from_slice(tail);
    out
}

#[test]
fn direct_bits_read_msb_first_across_words() {
    let bytes = direct_stream(&[0xABCD_EF01, 0x8000_0000]);
    let mut reader = Reader::new(&bytes);
    let mut d = DirectBitDecoder::start(&mut reader).unwrap();
    assert_eq!(d.decode_lsb32(8).unwrap(), 0xAB);
    assert!(d.decode_bit()); // 0xC = 1100
    assert_eq!(d.decode_lsb32(3).unwrap(), 0b100);
    assert_eq!(d.decode_lsb32(20).unwrap(), 0xDEF01);
    // crosses into the second word: one bit, 1
    assert_eq!(d.decode_lsb32(1).unwrap(), 1);
    assert_eq!(d.decode_lsb32(31).unwrap(), 0);
    assert_eq!(
        d.decode_lsb32(1),
        Err(DecodeError::MalformedAttribute("direct bit stream exhausted"))
    );
    assert!(!d.decode_bit());
}

#[test]
fn direct_bits_span_a_word_boundary() {
    let bytes = direct_stream(&[0x0000_000F, 0xF000_0000]);
    let mut reader = Reader::new(&bytes);
    let mut d = DirectBitDecoder::start(&mut reader).unwrap();
    assert_eq!(d.decode_lsb32(28).unwrap(), 0);
    assert_eq!(d.decode_lsb32(8).unwrap(), 0xFF);
}

#[test]
fn direct_stream_sizes_are_checked() {
    let mut reader = Reader::new(&[0, 0, 0, 0]);
    assert_eq!(
        DirectBitDecoder::start(&mut reader).err(),
        Some(DecodeError::MalformedAttribute("invalid direct bit stream size"))
    );
    let mut reader = Reader::new(&[6, 0, 0, 0, 1, 2, 3, 4, 5, 6]);
    assert!(DirectBitDecoder::start(&mut reader).is_err());
    let mut reader = Reader::new(&[8, 0, 0, 0, 1, 2, 3, 4]);
    assert!(DirectBitDecoder::start(&mut reader).is_err());
    let mut reader = Reader::new(&[4, 0]);
    assert_eq!(
        DirectBitDecoder::start(&mut reader).err(),
        Some(DecodeError::Reader(ReaderErr::NotEnoughData))
    );
}

#[test]
fn rans_bits_follow_the_rabs_steps() {
    // prob_zero 128, one payload byte: initial state 4096.
    let bytes = [128u8, 1, 0x00, 0xEE];
    let mut reader = Reader::new(&bytes);
    let mut d = RansBitDecoder::start(&mut reader).unwrap();
    assert_eq!(d.decode_lsb32(8).unwrap(), 251);
    assert_eq!(reader.read_u8().unwrap(), 0xEE);

    let bytes = [200u8, 2, 0x12, 0x07];
    let mut reader = Reader::new(&bytes);
    let mut d = RansBitDecoder::start(&mut reader).unwrap();
    assert_eq!(d.decode_lsb32(8).unwrap(), 193);
}

#[test]
fn rans_stream_overrun_is_rejected() {
    let mut reader = Reader::new(&[128u8, 5, 0x00]);
    assert_eq!(
        RansBitDecoder::start(&mut reader).err(),
        Some(DecodeError::MalformedAttribute("rans bit stream overruns input"))
    );
}

#[test]
fn kd_tree_small_subtree_reads_remaining_bits() {
    let kd = kd_block(8, 2, &[0xABCD_0000]);
    let mut reader = Reader::new(&kd);
    let out = decode_typed::<DirectBitDecoder>(&mut reader, 1, 2, false).unwrap();
    assert_eq!(out, vec![0xAB, 0xCD]);
}

#[test]
fn kd_tree_zero_bit_length_gives_base_points() {
    let kd = kd_block(0, 3, &[0]);
    let mut reader = Reader::new(&kd);
    let out = decode_typed::<DirectBitDecoder>(&mut reader, 2, 3, false).unwrap();
    assert_eq!(out, vec![0; 6]);
}

#[test]
fn kd_tree_header_errors() {
    let kd = kd_block(33, 1, &[0]);
    let mut reader = Reader::new(&kd);
    assert_eq!(
        decode_typed::<DirectBitDecoder>(&mut reader, 1, 1, false),
        Err(DecodeError::MalformedAttribute("kd-tree bit length exceeds 32"))
    );
    let kd = kd_block(8, 2, &[0]);
    let mut reader = Reader::new(&kd);
    assert_eq!(
        decode_typed::<DirectBitDecoder>(&mut reader, 1, 3, false),
        Err(DecodeError::MalformedAttribute(
            "kd-tree point count disagrees with the geometry section"
        ))
    );
    let kd = kd_block(8, 0, &[0]);
    let mut reader = Reader::new(&kd);
    assert_eq!(decode_typed::<DirectBitDecoder>(&mut reader, 1, 0, false), Ok(vec![]));
    let mut reader = Reader::new(&[8, 0]);
    assert_eq!(
        decode_typed::<DirectBitDecoder>(&mut reader, 1, 1, false),
        Err(DecodeError::Reader(ReaderErr::NotEnoughData))
    );
}

#[test]
fn kd_tree_split_divides_points_between_children() {
    // Three points on one axis with 2-bit coordinates. The root splits:
    // one deviation bit (0) leaves halves of 1 and 2, and a set half bit
    // keeps that order. Each child then reads its one open bit per point.
    let mut kd = 2u32.to_le_bytes().to_vec();
    kd.extend_from_slice(&3u32.to_le_bytes());
    kd.extend(direct_stream(&[0])); // numbers: deviation 0
    kd.extend(direct_stream(&[0b1011 << 28])); // remaining bits
    kd.extend(direct_stream(&[0])); // axis
    kd.extend(direct_stream(&[0x8000_0000])); // half: 1 -> no swap
    let mut reader = Reader::new(&kd);
    let out = decode_typed::<DirectBitDecoder>(&mut reader, 1, 3, false).unwrap();
    assert_eq!(out.len(), 3);
    assert!(out.iter().all(|&v| v < 4));
    // The upper child (row 1, base 2) is walked first: bits 1, 0 give 3, 2.
    // The lower child (row 0, base 0) takes the next bit, 1.
    assert_eq!(out, vec![3, 2, 1]);
}

#[test]
fn unsupported_compression_level_is_rejected() {
    let kd = kd_block(8, 1, &[0]);
    let mut reader = Reader::new(&kd);
    assert_eq!(
        decode_points(&mut reader, 1, 1, 7),
        Err(DecodeError::MalformedAttribute("unsupported kd-tree compression level"))
    );
}

#[test]
fn point_cloud_with_unsigned_attribute() {
    let kd = kd_block(8, 2, &[0xABCD_0000]);
    let bytes = point_cloud_stream(2, 6, &[], &kd);
    let (pc, transforms) = decode_portable(&bytes).unwrap();
    assert_eq!(pc.num_points, 2);
    assert_eq!(pc.attributes.len(), 1);
    let att = &pc.attributes[0];
    assert_eq!(att.att_type, AttributeKind::Position);
    assert_eq!(att.component_type, ComponentType::U32);
    assert_eq!(att.values, vec![0xAB, 0xCD]);
    assert!(matches!(
        transforms[0],
        AttributeTransform::Integer { component_type: ComponentType::U32 }
    ));
}

#[test]
fn point_cloud_signed_attribute_is_shifted() {
    let kd = kd_block(8, 1, &[0xAB00_0000]);
    // shift -128: zigzag code 255
    let bytes = point_cloud_stream(1, 1, &[0xFF, 0x01], &kd);
    let p = Decoder::new().decode_point_cloud_portable(&bytes).unwrap();
    assert_eq!(p.point_cloud.attributes[0].values, vec![0xAB - 128]);
    // shift 0 leaves 0xAB out of the i8 range
    let bytes = point_cloud_stream(1, 1, &[0x00], &kd);
    assert_eq!(
        decode_portable(&bytes).err(),
        Some(DecodeError::MalformedAttribute(
            "signed attribute value out of range for its component type"
        ))
    );
}

#[test]
fn point_cloud_float_attribute_carries_quantization() {
    let kd = kd_block(8, 1, &[0x0100_0000]);
    let mut tail = 0x3F80_0000u32.to_le_bytes().to_vec();
    tail.extend_from_slice(&0x4000_0000u32.to_le_bytes());
    tail.push(8);
    let bytes = point_cloud_stream(1, 9, &tail, &kd);
    let p = decode_point_cloud_portable(&bytes).unwrap();
    match &p.transforms[0] {
        AttributeTransform::Quantized { min_bits, delta_max_bits, bits } => {
            assert_eq!(min_bits, &vec![0x3F80_0000]);
            assert_eq!(*delta_max_bits, 0x4000_0000);
            assert_eq!(*bits, 8);
        }
        _ => panic!("expected a quantized transform"),
    }
    assert_eq!(p.point_cloud.attributes[0].values, vec![1]);
    let mut bad = tail.clone();
    bad[8] = 0;
    let bytes = point_cloud_stream(1, 9, &bad, &kd);
    assert_eq!(
        decode_portable(&bytes).err(),
        Some(DecodeError::MalformedAttribute("quantization bits out of range"))
    );
}

#[test]
fn point_cloud_header_errors() {
    let kd = kd_block(8, 1, &[0]);
    let good = point_cloud_stream(1, 6, &[], &kd);
    let mut bad = good.clone();
    bad[0] = b'X';
    assert_eq!(
        decode_portable(&bad).err(),
        Some(DecodeError::InvalidHeader("missing DRACO magic"))
    );
    let mut bad = good.clone();
    bad[7] = 1;
    assert_eq!(
        decode_portable(&bad).err(),
        Some(DecodeError::InvalidHeader("not a point-cloud stream"))
    );
    let mut bad = good.clone();
    bad[6] = 2;
    assert_eq!(decode_portable(&bad).err(), Some(DecodeError::UnsupportedVersion(2, 2)));
    let mut bad = good.clone();
    bad[8] = 0;
    assert_eq!(decode_portable(&bad).err(), Some(DecodeError::Unimplemented));
    let mut bad = good.clone();
    bad[8] = 2;
    assert_eq!(
        decode_portable(&bad).err(),
        Some(DecodeError::InvalidHeader("unknown encoder method"))
    );
    assert_eq!(
        decode_portable(&good[..3]).err(),
        Some(DecodeError::Reader(ReaderErr::NotEnoughData))
    );
}

#[test]
fn point_cloud_descriptor_errors() {
    let kd = kd_block(8, 1, &[0]);
    let good = point_cloud_stream(1, 6, &[], &kd);
    let mut bad = good.clone();
    bad[16] = 0; // no attributes
    assert_eq!(decode_portable(&bad).err(), Some(DecodeError::MalformedAttribute("no attributes")));
    let mut bad = good.clone();
    bad[17] = 9; // attribute kind
    assert_eq!(
        decode_portable(&bad).err(),
        Some(DecodeError::MalformedAttribute("unknown attribute type"))
    );
    let mut bad = good.clone();
    bad[18] = 7; // i64
    assert_eq!(decode_portable(&bad).err(), Some(DecodeError::Unimplemented));
    let mut bad = good.clone();
    bad[19] = 5; // five components
    assert_eq!(
        decode_portable(&bad).err(),
        Some(DecodeError::MalformedAttribute("unsupported number of components"))
    );
    let mut bad = good.clone();
    bad[15] = 2; // two attribute decoders
    assert_eq!(
        decode_portable(&bad).err(),
        Some(DecodeError::MalformedAttribute(
            "a kd-tree stream carries exactly one attributes decoder"
        ))
    );
}

#[test]
fn build_attribute_takes_its_columns() {
    let desc = Descriptor {
        att_type: AttributeKind::Color,
        component_type: ComponentType::U8,
        num_components: 2,
    };
    // two points of dimension 3; the attribute sits at offset 1
    let flat = [10u32, 11, 12, 20, 21, 22];
    let att = build_attribute(4, &desc, &[], &flat, 3, 1, 2).unwrap();
    assert_eq!(att.index, 4);
    assert_eq!(att.values, vec![11, 12, 21, 22]);
    let desc5 = Descriptor { num_components: 5, ..desc };
    assert!(build_attribute(0, &desc5, &[], &flat, 6, 0, 1).is_err());
    assert_eq!(signed_bounds(ComponentType::I16), Some((-32768, 32767)));
    assert_eq!(signed_bounds(ComponentType::U16), None);
}

#[test]
fn kd_tree_deviation_past_half_is_refused() {
    // Five points on one axis: the deviation read (all ones) exceeds half
    // of the subtree.
    let mut kd = 4u32.to_le_bytes().to_vec();
    kd.extend_from_slice(&5u32.to_le_bytes());
    kd.extend(direct_stream(&[0xFFFF_FFFF])); // numbers
    kd.extend(direct_stream(&[0])); // remaining bits
    kd.extend(direct_stream(&[0])); // axis
    kd.extend(direct_stream(&[0])); // half
    let mut reader = Reader::new(&kd);
    assert_eq!(
        decode_typed::<DirectBitDecoder>(&mut reader, 1, 5, false),
        Err(DecodeError::MalformedAttribute("kd-tree split deviation overflow"))
    );
}

#[test]
fn kd_tree_remaining_bits_run_out() {
    // Two 32-bit points, but the remaining-bits stream holds one word.
    let kd = kd_block(32, 2, &[0]);
    let mut reader = Reader::new(&kd);
    assert_eq!(
        decode_typed::<DirectBitDecoder>(&mut reader, 1, 2, false),
        Err(DecodeError::MalformedAttribute("direct bit stream exhausted"))
    );
}

#[test]
fn kd_tree_reader_stops_after_its_streams() {
    // The reader is left just past the four bit streams.
    let mut kd = kd_block(8, 1, &[0x7F00_0000]);
    kd.push(0xEE);
    let mut reader = Reader::new(&kd);
    let out = decode_typed::<DirectBitDecoder>(&mut reader, 1, 1, false).unwrap();
    assert_eq!(out, vec![0x7F]);
    assert_eq!(reader.read_u8(), Ok(0xEE));
}

#[test]
fn kd_tree_refused_allocations_are_reported() {
    let kd = kd_block(8, 1, &[0x7F00_0000]);
    let mut reader = Reader::new(&kd);
    assert_eq!(
        decode_kd_reserved::<DirectBitDecoder>(&mut reader, 1, 1, false, false, true),
        Err(DecodeError::AllocationTooLarge("point array"))
    );
    let mut reader = Reader::new(&kd);
    assert_eq!(
        decode_kd_reserved::<DirectBitDecoder>(&mut reader, 1, 1, false, true, false),
        Err(DecodeError::AllocationTooLarge("kd-tree stack"))
    );
    let mut reader = Reader::new(&kd);
    assert_eq!(
        decode_kd_reserved::<DirectBitDecoder>(&mut reader, 1, 1, false, true, true),
        Ok(vec![0x7F])
    );
    // Header errors come before the allocator is consulted.
    let mut reader = Reader::new(&kd[..6]);
    assert_eq!(
        decode_kd_reserved::<DirectBitDecoder>(&mut reader, 1, 1, false, false, false),
        Err(DecodeError::Reader(ReaderErr::NotEnoughData))
    );
}
