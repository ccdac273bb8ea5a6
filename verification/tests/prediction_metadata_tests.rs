use draco_oxide_decoder::attribute::prediction::{
    decode_crease_metadata, decode_flip_metadata, decode_orientation_metadata, read_scheme_id,
    PredictionSchemeType,
};
use draco_oxide_decoder::error::{DecodeError, ReaderErr};
use draco_oxide_decoder::reader::Reader;

#[test]
fn scheme_ids_map_to_schemes() {
    let mut reader = Reader::new(&[5, 0xFE, 1, 3]);
    assert_eq!(
        read_scheme_id(&mut reader),
        Ok(PredictionSchemeType::MeshPredictionForTextureCoordinates)
    );
    assert_eq!(read_scheme_id(&mut reader), Ok(PredictionSchemeType::NoPrediction));
    assert_eq!(read_scheme_id(&mut reader), Ok(PredictionSchemeType::MeshParallelogramPrediction));
    assert_eq!(
        read_scheme_id(&mut reader),
        Err(DecodeError::MalformedAttribute("unknown prediction scheme id"))
    );
    assert_eq!(read_scheme_id(&mut reader), Err(DecodeError::Reader(ReaderErr::NotEnoughData)));
}

#[test]
fn flip_bits_come_from_one_rabs_stream() {
    let mut reader = Reader::new(&[128, 1, 0x00, 0xEE]);
    assert_eq!(
        decode_flip_metadata(&mut reader, 7),
        Ok(vec![true, true, true, true, true, false, true])
    );
    assert_eq!(reader.read_u8(), Ok(0xEE));
    let mut reader = Reader::new(&[128, 4, 0x00]);
    assert_eq!(
        decode_flip_metadata(&mut reader, 1),
        Err(DecodeError::Reader(ReaderErr::NotEnoughData))
    );
}

#[test]
fn orientations_toggle_on_clear_bits() {
    let mut reader = Reader::new(&[7, 0, 0, 0, 128, 1, 0x00]);
    assert_eq!(
        decode_orientation_metadata(&mut reader),
        Ok(vec![true, true, true, true, true, false, false])
    );
    let mut reader = Reader::new(&[7, 0]);
    assert_eq!(
        decode_orientation_metadata(&mut reader),
        Err(DecodeError::Reader(ReaderErr::NotEnoughData))
    );
}

#[test]
fn crease_contexts_are_read_in_order() {
    let mut reader = Reader::new(&[0, 3, 128, 1, 0x00, 0, 0, 0xEE]);
    let out = decode_crease_metadata(&mut reader, 2).unwrap();
    assert_eq!(out, vec![vec![], vec![true, true, true], vec![], vec![]]);
    assert_eq!(reader.read_u8(), Ok(0xEE));
    let mut reader = Reader::new(&[3, 128, 1, 0x00]);
    assert_eq!(
        decode_crease_metadata(&mut reader, 2),
        Err(DecodeError::MalformedAttribute(
            "crease bit count exceeds the attribute's value count"
        ))
    );
}
