use draco_oxide_decoder::decode::metadata::{decode_metadata as decode_records, AttributeMetadata, SubMetadata};
use draco_oxide_decoder::metadata::{decode_metadata, MAX_SUBMETADATA_LEVEL};
use draco_oxide_decoder::reader::Reader;

/// One entry: `[name_len][name][leb128 value_len][value]`.
fn entry(name: &str, value: &[u8]) -> Vec<u8> {
    let mut out = vec![name.len() as u8];
    out.extend(name.as_bytes());
    out.push(value.len() as u8);
    out.extend(value);
    out
}

#[test]
fn attribute_metadata_read_lengths_match_declared() {
    let bytes: Vec<u8> = vec![3, b'k', b'e', b'y', 4, b'd', b'a', b't', b'a', 0];
    let mut reader = Reader::new(&bytes);
    let meta = AttributeMetadata::read_from(&mut reader).unwrap();
    assert_eq!(meta.key, vec![b'k', b'e', b'y']);
    assert_eq!(meta.value, vec![b'd', b'a', b't', b'a']);
    assert_eq!(meta.submetadata.len(), 0);
}

#[test]
fn submetadata_read_lengths_match_declared() {
    let bytes: Vec<u8> = vec![2, 0xAA, 0xBB, 3, 0x01, 0x02, 0x03];
    let mut reader = Reader::new(&bytes);
    let sub = SubMetadata::read_from(&mut reader).unwrap();
    assert_eq!(sub.key, vec![0xAA, 0xBB]);
    assert_eq!(sub.value, vec![0x01, 0x02, 0x03]);
}

#[test]
fn consumes_exactly_the_metadata_section() {
    let mut bytes = vec![1u8, 7];
    bytes.push(1);
    bytes.extend(entry("name", b"material"));
    bytes.push(0);
    bytes.push(1);
    bytes.extend(entry("created_by", b"test"));
    bytes.push(1);
    bytes.extend([3u8]);
    bytes.extend(b"sub");
    bytes.push(1);
    bytes.extend(entry("k", b"v"));
    bytes.push(0);
    bytes.push(0xAA);

    let mut reader = Reader::new(&bytes);
    decode_metadata(&mut reader).expect("well-formed metadata parses");
    assert_eq!(reader.read_u8().unwrap(), 0xAA);
}

#[test]
fn empty_metadata_is_three_zero_counts() {
    let bytes = [0u8, 0, 0, 0xAA];
    let mut reader = Reader::new(&bytes);
    decode_metadata(&mut reader).expect("empty metadata parses");
    assert_eq!(reader.read_u8().unwrap(), 0xAA);
}

#[test]
fn empty_entry_value_is_rejected() {
    let bytes = [0u8, 1, 1, b'k', 0];
    let mut reader = Reader::new(&bytes);
    assert!(decode_metadata(&mut reader).is_err());
}

#[test]
fn runaway_nesting_is_rejected() {
    let mut bytes = vec![0u8];
    for _ in 0..(MAX_SUBMETADATA_LEVEL + 2) {
        bytes.extend([0u8, 1, 0]);
    }
    let mut reader = Reader::new(&bytes);
    assert!(decode_metadata(&mut reader).is_err());
}

#[test]
fn nesting_at_the_cap_is_accepted() {
    // Levels 0 through the cap each open one sub-block; the deepest closes.
    let mut bytes = vec![0u8];
    for _ in 0..MAX_SUBMETADATA_LEVEL {
        bytes.extend([0u8, 1, 0]);
    }
    bytes.extend([0u8, 0]);
    bytes.push(0xAA);
    let mut reader = Reader::new(&bytes);
    decode_metadata(&mut reader).expect("nesting up to the cap parses");
    assert_eq!(reader.read_u8().unwrap(), 0xAA);
}

#[test]
fn truncated_metadata_is_rejected() {
    let mut bytes = vec![0u8, 1];
    bytes.extend(entry("name", b"material"));
    bytes.truncate(bytes.len() - 3);
    let mut reader = Reader::new(&bytes);
    assert!(decode_metadata(&mut reader).is_err());
}

#[test]
fn attribute_metadata_with_nested_pairs() {
    let bytes: Vec<u8> = vec![1, b'a', 1, b'b', 2, 1, b'c', 1, b'd', 0, 2, 9, 9, 0xEE];
    let mut reader = Reader::new(&bytes);
    let meta = AttributeMetadata::read_from(&mut reader).unwrap();
    assert_eq!(meta.key, vec![b'a']);
    assert_eq!(meta.value, vec![b'b']);
    assert_eq!(meta.submetadata.len(), 2);
    assert_eq!(meta.submetadata[0].key, vec![b'c']);
    assert_eq!(meta.submetadata[0].value, vec![b'd']);
    assert_eq!(meta.submetadata[1].key, Vec::<u8>::new());
    assert_eq!(meta.submetadata[1].value, vec![9, 9]);
    assert_eq!(reader.read_u8().unwrap(), 0xEE);
}

#[test]
fn submetadata_truncated_value_is_an_error() {
    let bytes: Vec<u8> = vec![1, 0xAA, 3, 0x01];
    let mut reader = Reader::new(&bytes);
    assert!(SubMetadata::read_from(&mut reader).is_err());
}

#[test]
fn empty_record_has_no_content() {
    let m = AttributeMetadata::empty_metadta();
    assert!(m.key.is_empty() && m.value.is_empty() && m.submetadata.is_empty());
}

#[test]
fn records_land_in_their_attribute_slots() {
    // Two slots and two entries, for attributes 1 then 0; a later entry for
    // the same slot would replace it.
    let mut bytes = vec![2u8, 0, 0, 0, 1];
    bytes.extend([1u8, b'k', 1, b'v', 0]);
    bytes.push(0);
    bytes.extend([1u8, b'x', 0, 0]);
    bytes.extend([1u8, b'g', 1, b'h', 0]);
    let mut reader = Reader::new(&bytes);
    let meta = decode_records(&mut reader).unwrap();
    assert_eq!(meta.metadata.len(), 2);
    assert_eq!(meta.metadata[0].key, vec![b'x']);
    assert!(meta.metadata[0].value.is_empty());
    assert_eq!(meta.metadata[1].key, vec![b'k']);
    assert_eq!(meta.global_metadata.key, vec![b'g']);
    assert_eq!(meta.global_metadata.value, vec![b'h']);
}

#[test]
fn empty_entry_value_names_its_error() {
    let bytes = [0u8, 1, 1, b'k', 0];
    let mut reader = Reader::new(&bytes);
    assert_eq!(
        decode_metadata(&mut reader),
        Err(draco_oxide_decoder::error::DecodeError::MalformedMetadata("metadata entry with empty value"))
    );
}

#[test]
fn runaway_nesting_names_its_error() {
    let mut bytes = vec![0u8];
    for _ in 0..(MAX_SUBMETADATA_LEVEL + 2) {
        bytes.push(0);
        bytes.push(1);
        bytes.push(0);
    }
    let mut reader = Reader::new(&bytes);
    assert_eq!(
        decode_metadata(&mut reader),
        Err(draco_oxide_decoder::error::DecodeError::MalformedMetadata("sub-metadata nested too deeply"))
    );
}

#[test]
fn record_for_an_attribute_past_the_count_is_refused() {
    // One slot, but the entry names attribute 3.
    let mut bytes = vec![1u8, 0, 0, 0, 3];
    bytes.extend([1u8, b'k', 1, b'v', 0]);
    bytes.extend([1u8, b'g', 1, b'h', 0]);
    let mut reader = Reader::new(&bytes);
    assert!(matches!(
        decode_records(&mut reader),
        Err(draco_oxide_decoder::decode::metadata::MetadataErr::AttributeIdOutOfRange(3))
    ));
}
