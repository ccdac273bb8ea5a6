use draco_oxide_decoder::attribute::inverse_transform::InverseTransform;
use draco_oxide_decoder::attribute::payload::{parse_payload, read_portabilization, Payload};
use draco_oxide_decoder::attribute::prediction::PredictionSchemeType;
use draco_oxide_decoder::attribute::sequential::{decode_attributes, decode_values, read_descriptors};
use draco_oxide_decoder::attribute::{
    parse_payload_dispatched, AttributeDomain, Descriptor, NO_ATTRIBUTE_DATA,
};
use draco_oxide_decoder::connectivity::sequential::SequentialConnectivity;
use draco_oxide_decoder::decode::attribute::TraversalType;
use draco_oxide_decoder::error::{DecodeError, ReaderErr};
use draco_oxide_decoder::point_cloud::{AttributeKind, AttributeTransform, ComponentType};
use draco_oxide_decoder::reader::Reader;

fn zigzag(v: i32) -> u32 {
    if v >= 0 {
        (v as u32) << 1
    } else {
        ((-(v as i64)) as u32) * 2 - 1
    }
}

fn le_i32s(vals: &[i32]) -> Vec<u8> {
    let mut out = Vec::new();
    for v in vals {
        out.extend_from_slice(&v.to_le_bytes());
    }
    out
}

#[test]
fn generic_payload_holds_values_verbatim() {
    let bytes = [1u8, 2, 3, 250, 5, 6, 99];
    let mut reader = Reader::new(&bytes);
    let p = parse_payload(&mut reader, 2, 3, 0, ComponentType::U8).unwrap();
    assert_eq!(p.scheme, PredictionSchemeType::NoPrediction);
    assert_eq!(p.corrections, vec![1, 2, 3, 250, 5, 6]);
    assert_eq!(p.transform, InverseTransform::NoTransform);
    assert_eq!(reader.remaining(), 1);

    let signed = [0xFFu8, 0x80, 0x7F];
    let mut reader = Reader::new(&signed);
    let p = parse_payload(&mut reader, 3, 1, 0, ComponentType::I8).unwrap();
    assert_eq!(p.corrections, vec![-1, -128, 127]);

    let mut reader = Reader::new(&bytes);
    assert!(matches!(
        parse_payload(&mut reader, 1, 1, 0, ComponentType::F64),
        Err(DecodeError::Unimplemented)
    ));
    let mut reader = Reader::new(&bytes);
    assert!(matches!(
        parse_payload(&mut reader, 3, 3, 0, ComponentType::U8),
        Err(DecodeError::Reader(ReaderErr::NotEnoughData))
    ));
}

#[test]
fn unpredicted_payload_is_unzigzagged() {
    let mut bytes = vec![0xFEu8, 0];
    bytes.extend(le_i32s(&[4, 3, 0]));
    let mut reader = Reader::new(&bytes);
    let p = parse_payload(&mut reader, 3, 1, 1, ComponentType::I32).unwrap();
    assert_eq!(p.scheme, PredictionSchemeType::NoPrediction);
    assert_eq!(p.corrections, vec![2, -2, 0]);
    assert_eq!(p.transform, InverseTransform::NoTransform);
    assert_eq!(reader.remaining(), 0);
}

#[test]
fn delta_payload_keeps_corrections_and_reads_its_transform() {
    let mut bytes = vec![0u8, 1, 0];
    bytes.extend(le_i32s(&[7, -7]));
    bytes.extend(le_i32s(&[-10, 10]));
    let mut reader = Reader::new(&bytes);
    let p = parse_payload(&mut reader, 2, 1, 1, ComponentType::I32).unwrap();
    assert_eq!(p.scheme, PredictionSchemeType::DeltaPrediction);
    assert_eq!(p.corrections, vec![7, -7]);
    assert_eq!(p.transform, InverseTransform::Wrapped { min: -10, max: 10 });
    assert!(p.flips.is_empty() && p.orientations.is_empty() && p.creases.is_empty());
    assert_eq!(reader.remaining(), 0);
}

#[test]
fn payload_header_errors() {
    let mut reader = Reader::new(&[]);
    assert!(matches!(
        parse_payload(&mut reader, 1, 1, 1, ComponentType::I32),
        Err(DecodeError::Reader(ReaderErr::NotEnoughData))
    ));
    let mut reader = Reader::new(&[3u8, 0, 0]);
    assert!(matches!(
        parse_payload(&mut reader, 1, 1, 1, ComponentType::I32),
        Err(DecodeError::MalformedAttribute("unknown prediction scheme id"))
    ));
    let mut bytes = vec![0u8, 9, 0];
    bytes.extend(le_i32s(&[1]));
    let mut reader = Reader::new(&bytes);
    assert!(matches!(
        parse_payload(&mut reader, 1, 1, 1, ComponentType::I32),
        Err(DecodeError::MalformedAttribute("unknown prediction transform id"))
    ));
}

#[test]
fn dispatched_payload_checks_the_component_count() {
    let d = Descriptor {
        att_data_id: NO_ATTRIBUTE_DATA,
        att_type: AttributeKind::Generic,
        component_type: ComponentType::U8,
        num_components: 5,
        uid: 0,
        port_type: 0,
        domain: AttributeDomain::Position,
        traversal: TraversalType::DepthFirst,
    };
    let mut reader = Reader::new(&[0u8; 16]);
    assert!(matches!(
        parse_payload_dispatched(&mut reader, 1, &d),
        Err(DecodeError::MalformedAttribute("unsupported number of components"))
    ));
    let oct = Descriptor { num_components: 3, port_type: 3, ..d };
    let mut bytes = vec![0u8, 0xFF, 0];
    bytes.extend(le_i32s(&[1, 2]));
    let mut reader = Reader::new(&bytes);
    let p = parse_payload_dispatched(&mut reader, 1, &oct).unwrap();
    assert_eq!(p.corrections, vec![1, 2]);
}

#[test]
fn portabilization_blocks() {
    let mut reader = Reader::new(&[]);
    assert!(matches!(
        read_portabilization(&mut reader, 0, ComponentType::U16, 3),
        Ok(AttributeTransform::Raw { component_type: ComponentType::U16 })
    ));
    assert!(matches!(
        read_portabilization(&mut reader, 1, ComponentType::I8, 3),
        Ok(AttributeTransform::Integer { component_type: ComponentType::I8 })
    ));
    let mut bytes = Vec::new();
    for v in [1.0f32, -2.0, 0.5, 4.0] {
        bytes.extend_from_slice(&v.to_bits().to_le_bytes());
    }
    bytes.push(11);
    bytes.push(8);
    let mut reader = Reader::new(&bytes);
    match read_portabilization(&mut reader, 2, ComponentType::F32, 3) {
        Ok(AttributeTransform::Quantized { min_bits, delta_max_bits, bits }) => {
            assert_eq!(min_bits, vec![1.0f32.to_bits(), (-2.0f32).to_bits(), 0.5f32.to_bits()]);
            assert_eq!(delta_max_bits, 4.0f32.to_bits());
            assert_eq!(bits, 11);
        }
        _ => panic!("expected a quantization block"),
    }
    assert!(matches!(
        read_portabilization(&mut reader, 3, ComponentType::F32, 3),
        Ok(AttributeTransform::Octahedral { bits: 8 })
    ));
    assert!(matches!(
        read_portabilization(&mut reader, 3, ComponentType::F32, 3),
        Err(DecodeError::Reader(ReaderErr::NotEnoughData))
    ));
    assert!(matches!(
        read_portabilization(&mut reader, 7, ComponentType::F32, 3),
        Err(DecodeError::MalformedAttribute("unknown portabilization type"))
    ));
}

fn payload(scheme: PredictionSchemeType, corrections: Vec<i32>, transform: InverseTransform) -> Payload {
    Payload {
        scheme,
        corrections,
        flips: Vec::new(),
        orientations: Vec::new(),
        creases: Vec::new(),
        transform,
    }
}

#[test]
fn sequential_values_accumulate_deltas() {
    let corr: Vec<i32> = [2, 4, 6, 1, -1, 0, -3, 0, 5]
        .iter()
        .map(|&v| zigzag(v) as i32)
        .collect();
    let p = payload(PredictionSchemeType::DeltaPrediction, corr, InverseTransform::Difference);
    assert_eq!(decode_values(&p, 3, 3), Ok(vec![2, 4, 6, 3, 3, 6, 0, 3, 11]));

    let p = payload(PredictionSchemeType::NoPrediction, vec![5, -6], InverseTransform::NoTransform);
    assert_eq!(decode_values(&p, 1, 2), Ok(vec![5, -6]));

    let p = payload(PredictionSchemeType::MeshParallelogramPrediction, vec![0], InverseTransform::NoTransform);
    assert_eq!(
        decode_values(&p, 1, 1),
        Err(DecodeError::MalformedAttribute("a sequential stream has no connectivity to predict from"))
    );

    let p = payload(
        PredictionSchemeType::DeltaPrediction,
        vec![zigzag(i32::MAX) as i32, zigzag(1) as i32],
        InverseTransform::Difference,
    );
    assert_eq!(
        decode_values(&p, 1, 2),
        Err(DecodeError::MalformedAttribute("reconstructed value out of range"))
    );
}

fn sequential_stream() -> Vec<u8> {
    let mut bytes = vec![1u8, 1, 0, 5, 3, 0, 7, 1];
    bytes.extend([0u8, 0, 0]);
    let corr: Vec<i32> = [2, 4, 6, 1, -1, 0, -3, 0, 5]
        .iter()
        .map(|&v| zigzag(v) as i32)
        .collect();
    bytes.extend(le_i32s(&corr));
    bytes
}

#[test]
fn sequential_section_decodes_every_attribute() {
    let bytes = sequential_stream();
    let conn = SequentialConnectivity { faces: vec![[0, 1, 2]], num_points: 3 };
    let mut reader = Reader::new(&bytes);
    let d = decode_attributes(&mut reader, &conn).unwrap();
    assert_eq!(d.faces, vec![[0, 1, 2]]);
    assert_eq!(d.attributes.len(), 1);
    let att = &d.attributes[0];
    assert_eq!(att.uid, 7);
    assert_eq!(att.att_type, AttributeKind::Position);
    assert_eq!(att.domain, AttributeDomain::Position);
    assert_eq!(att.num_components, 3);
    assert_eq!(att.values, vec![2, 4, 6, 3, 3, 6, 0, 3, 11]);
    assert!(matches!(
        d.transforms[0],
        AttributeTransform::Integer { component_type: ComponentType::I32 }
    ));
    assert_eq!(reader.remaining(), 0);
}

#[test]
fn sequential_section_errors() {
    let mut bytes = sequential_stream();
    bytes[0] = 2;
    let conn = SequentialConnectivity { faces: vec![], num_points: 3 };
    let mut reader = Reader::new(&bytes);
    assert!(matches!(
        decode_attributes(&mut reader, &conn),
        Err(DecodeError::MalformedAttribute("a sequential stream carries all attributes in one encoder"))
    ));
    let mut bytes = sequential_stream();
    bytes[8] = 1;
    let mut reader = Reader::new(&bytes);
    assert!(matches!(
        decode_attributes(&mut reader, &conn),
        Err(DecodeError::MalformedAttribute("a sequential stream has no connectivity to predict from"))
    ));
}

#[test]
fn sequential_descriptors() {
    let bytes = [2u8, 0, 5, 3, 0, 1, 3, 2, 2, 0, 0x81, 0x01, 1, 0];
    let mut reader = Reader::new(&bytes);
    let ds = read_descriptors(&mut reader).unwrap();
    assert_eq!(ds.len(), 2);
    assert_eq!(ds[0].att_type, AttributeKind::Position);
    assert_eq!(ds[0].component_type, ComponentType::I32);
    assert_eq!(ds[0].num_components, 3);
    assert_eq!(ds[0].uid, 1);
    assert_eq!(ds[0].port_type, 1);
    assert_eq!(ds[1].att_type, AttributeKind::TextureCoordinate);
    assert_eq!(ds[1].component_type, ComponentType::U8);
    assert_eq!(ds[1].uid, 129);
    assert_eq!(ds[1].port_type, 0);
    assert_eq!(ds[1].att_data_id, NO_ATTRIBUTE_DATA);
    assert_eq!(ds[1].traversal, TraversalType::DepthFirst);
    assert_eq!(reader.remaining(), 0);

    let mut reader = Reader::new(&[3u8, 0, 5, 3, 0, 1]);
    assert_eq!(
        read_descriptors(&mut reader),
        Err(DecodeError::MalformedAttribute("attribute count exceeds the stream"))
    );
    let mut reader = Reader::new(&[1u8, 9, 5, 3, 0, 1, 0]);
    assert_eq!(
        read_descriptors(&mut reader),
        Err(DecodeError::MalformedAttribute("unknown attribute type"))
    );
}
