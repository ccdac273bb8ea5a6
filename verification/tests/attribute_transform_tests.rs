use draco_oxide_decoder::attribute::inverse_transform::InverseTransform;
use draco_oxide_decoder::decode::inverse_transform::OctahedralOrthogonalInverseTransform;
use draco_oxide_decoder::error::{DecodeError, ReaderErr};
use draco_oxide_decoder::reader::Reader;

#[test]
fn transform_ids_parse_with_their_parameters() {
    let mut reader = Reader::new(&[]);
    assert_eq!(InverseTransform::read_from(&mut reader, 0xFF), Ok(InverseTransform::NoTransform));
    assert_eq!(InverseTransform::read_from(&mut reader, 0), Ok(InverseTransform::Difference));
    let bytes = [0xF6u8, 0xFF, 0xFF, 0xFF, 20, 0, 0, 0];
    let mut reader = Reader::new(&bytes);
    assert_eq!(
        InverseTransform::read_from(&mut reader, 1),
        Ok(InverseTransform::Wrapped { min: -10, max: 20 })
    );
    let bytes = [254u8, 0, 0, 0, 127, 0, 0, 0];
    let mut reader = Reader::new(&bytes);
    assert_eq!(
        InverseTransform::read_from(&mut reader, 3),
        Ok(InverseTransform::OctahedralOrthogonal { center: 127, max_quantized: 254 })
    );
    assert_eq!(InverseTransform::read_from(&mut reader, 2), Err(DecodeError::Unimplemented));
    assert_eq!(
        InverseTransform::read_from(&mut reader, 9),
        Err(DecodeError::MalformedAttribute("unknown prediction transform id"))
    );
    let mut reader = Reader::new(&[1, 2, 3]);
    assert_eq!(
        InverseTransform::read_from(&mut reader, 1),
        Err(DecodeError::Reader(ReaderErr::NotEnoughData))
    );
}

#[test]
fn only_differences_zigzag_their_corrections() {
    assert!(InverseTransform::Difference.corrections_are_zigzagged());
    assert!(InverseTransform::Wrapped { min: 0, max: 1 }.corrections_are_zigzagged());
    assert!(!InverseTransform::NoTransform.corrections_are_zigzagged());
    assert!(!InverseTransform::OctahedralOrthogonal { center: 1, max_quantized: 2 }
        .corrections_are_zigzagged());
}

#[test]
fn difference_and_plain_reconstruction() {
    assert_eq!(InverseTransform::Difference.compute_original(&[10, -3], &[5, 4]), vec![15, 1]);
    assert_eq!(InverseTransform::NoTransform.compute_original(&[10, -3], &[5, 4]), vec![5, 4]);
}

#[test]
fn wrapped_difference_clamps_then_wraps() {
    let t = InverseTransform::Wrapped { min: 0, max: 9 };
    // prediction 12 clamps to 9; 9 + 3 = 12 wraps by 10 to 2
    assert_eq!(t.compute_original(&[12], &[3]), vec![2]);
    // prediction -4 clamps to 0; 0 - 1 wraps to 9
    assert_eq!(t.compute_original(&[-4], &[-1]), vec![9]);
    assert_eq!(t.compute_original(&[5], &[2]), vec![7]);
}

#[test]
fn octahedral_orthogonal_matches_the_stream_transform() {
    let t = InverseTransform::OctahedralOrthogonal { center: 127, max_quantized: 254 };
    let o = OctahedralOrthogonalInverseTransform { max_quantized_value: 254, center_value: 127 };
    for &(p0, p1, c0, c1) in &[(127, 127, 0, 0), (10, 200, 5, 7), (250, 3, 100, 0), (127, 0, 30, 60)] {
        let r = t.compute_original(&[p0, p1], &[c0, c1]);
        let expected = o.inverse(&[c0, c1], &[p0, p1]);
        assert_eq!(r, expected.to_vec());
    }
    assert_eq!(t.compute_original(&[127, 127], &[3, 4]), vec![130, 131]);
}
