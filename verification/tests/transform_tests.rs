use draco_oxide_decoder::decode::inverse_transform::{
    from_positive_i32, invert_diamond, mod_max, rotate_point, rotation_count, InverseTransform,
    InverseTransformKind, OctahedralOrthogonalInverseTransform, TransformErr,
};
use draco_oxide_decoder::reader::Reader;

fn to_positive_i32(val: i32) -> i32 {
    if val >= 0 {
        val << 1
    } else {
        (-(val + 1) << 1) + 1
    }
}

#[test]
fn from_positive_i32_round_trips() {
    for v in -50..=50i32 {
        let p = to_positive_i32(v);
        assert_eq!(from_positive_i32(p), v, "round-trip failed for {}", v);
    }
}

#[test]
fn from_positive_i32_known_values() {
    assert_eq!(from_positive_i32(0), 0);
    assert_eq!(from_positive_i32(1), -1);
    assert_eq!(from_positive_i32(2), 1);
    assert_eq!(from_positive_i32(3), -2);
    assert_eq!(from_positive_i32(4), 2);
    assert_eq!(from_positive_i32(99), -50);
    assert_eq!(from_positive_i32(100), 50);
}

#[test]
fn transform_ids_map_to_kinds() {
    assert_eq!(InverseTransformKind::from_id(0xFF), Ok(InverseTransformKind::NoTransform));
    assert_eq!(InverseTransformKind::from_id(1), Ok(InverseTransformKind::WrappedDifference));
    assert_eq!(InverseTransformKind::from_id(4), Ok(InverseTransformKind::Orthogonal));
    assert_eq!(InverseTransformKind::from_id(9), Err(TransformErr::InvalidId(9)));
}

#[test]
fn wrapped_difference_reads_bounds_and_wraps() {
    // min = -10, max = 10: range size 21.
    let bytes = [0xF6u8, 0xFF, 0xFF, 0xFF, 10, 0, 0, 0];
    let mut reader = Reader::new(&bytes);
    let t = InverseTransform::read(&mut reader, InverseTransformKind::WrappedDifference).unwrap();
    assert_eq!(t, InverseTransform::WrappedDifference { min: -10, max: 10, max_diff: 21 });
    let mut out = vec![0i32; 3];
    // Codes 6 (+3), 5 (-3), 0 (0) against predictions 9, -9, 50 (clamped to 10).
    t.inverse_n(&[6, 5, 0], &[9, -9, 50], &mut out);
    assert_eq!(out, vec![-9, 9, 10]);
}

#[test]
fn difference_adds_the_correction() {
    let mut out = vec![0i32; 2];
    InverseTransform::Difference.inverse_n(&[4, 3], &[10, 10], &mut out);
    assert_eq!(out, vec![12, 8]);
    InverseTransform::NoTransform.inverse_n(&[4, 3], &[10, 10], &mut out);
    assert_eq!(out, vec![2, -2]);
}

#[test]
fn octahedral_kinds_are_not_read() {
    let bytes = [0u8; 8];
    let mut reader = Reader::new(&bytes);
    assert_eq!(
        InverseTransform::read(&mut reader, InverseTransformKind::OctahedralOrthogonal),
        Err(TransformErr::OctahedralTodo)
    );
}

#[test]
fn diamond_inversion_undoes_itself() {
    let c = 7;
    for s in -c + 1..c {
        for t in -c + 1..c {
            let (a, b) = invert_diamond(s, t, c);
            assert_eq!(invert_diamond(a, b, c), (s, t));
        }
    }
    assert_eq!(invert_diamond(3, 5, 7), (2, 4));
}

#[test]
fn rotations_come_back() {
    for r in 0..4u32 {
        let (a, b) = rotate_point(3, -2, r);
        assert_eq!(rotate_point(a, b, (4 - r) & 3), (3, -2));
    }
    assert_eq!(rotation_count(1, 1), 2);
    assert_eq!(rotation_count(0, 5), 3);
    assert_eq!(rotation_count(-1, -1), 0);
    assert_eq!(mod_max(9, 7, 15), -6);
    assert_eq!(mod_max(-9, 7, 15), 6);
    assert_eq!(mod_max(3, 7, 15), 3);
}

#[test]
fn octahedral_inverse_of_a_zero_correction_keeps_the_prediction() {
    let t = OctahedralOrthogonalInverseTransform { max_quantized_value: 254, center_value: 127 };
    for &(p0, p1) in &[(127, 127), (10, 20), (200, 100), (250, 3)] {
        assert_eq!(t.inverse(&[0, 0], &[p0, p1]), [p0, p1]);
    }
}

#[test]
fn octahedral_transform_reads_its_grid() {
    let bytes = [255u8, 0, 0, 0, 127, 0, 0, 0];
    let mut reader = Reader::new(&bytes);
    let t = OctahedralOrthogonalInverseTransform::read(&mut reader).unwrap();
    assert_eq!(t.max_quantized_value, 255);
    assert_eq!(t.center_value, 127);
}

#[test]
fn wrapped_difference_range_past_i32_is_refused() {
    // min = i32::MIN, max = i32::MAX: the range size does not fit an i32.
    let bytes = [0x00u8, 0x00, 0x00, 0x80, 0xFF, 0xFF, 0xFF, 0x7F];
    let mut reader = Reader::new(&bytes);
    assert_eq!(
        InverseTransform::read(&mut reader, InverseTransformKind::WrappedDifference),
        Err(TransformErr::BoundsOverflow)
    );
}

#[test]
fn correction_values_wider_than_four_bytes_are_refused() {
    let bytes = [0u8, 5, 1, 2, 3, 4, 5];
    let mut reader = Reader::new(&bytes);
    assert_eq!(
        draco_oxide_decoder::decode::attribute::read_corrections(1, 1, &mut reader),
        Err(draco_oxide_decoder::error::DecodeError::MalformedAttribute(
            "correction values wider than four bytes"
        ))
    );
}
