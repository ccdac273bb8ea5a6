use draco_oxide_decoder::decode::corner_table::{DecoderCornerTable, NO_CORNER};
use draco_oxide_decoder::decode::seams::{
    compute_seam_bit_count, decode_rabs_seam_bits, read_attribute_seams,
};
use draco_oxide_decoder::error::{DecodeError, ReaderErr};
use draco_oxide_decoder::reader::Reader;

fn table_with_vertices(num_faces: usize, num_vertices: usize) -> DecoderCornerTable {
    let mut ct = DecoderCornerTable::with_capacity(num_faces, num_vertices);
    for _ in 0..num_vertices {
        ct.add_new_vertex();
    }
    ct
}

#[test]
fn fresh_table_has_no_links() {
    let ct = DecoderCornerTable::with_capacity(2, 4);
    assert_eq!(ct.opposite, vec![NO_CORNER; 6]);
    assert_eq!(ct.corner_to_vertex, vec![NO_CORNER; 6]);
    assert_eq!(ct.num_vertices, 0);
    assert!(ct.vertex_alias.is_empty());
}

#[test]
fn alias_chains_resolve_to_their_survivor() {
    let mut ct = table_with_vertices(1, 5);
    // 3 -> 1, then 1 -> 0: 3 now resolves through 1 to 0.
    ct.record_alias(3, 1);
    ct.record_alias(1, 0);
    assert_eq!(ct.vertex_alias, vec![usize::MAX, 0, usize::MAX, 1]);
    assert_eq!(ct.resolve_alias(3), 0);
    assert_eq!(ct.resolve_alias(1), 0);
    assert_eq!(ct.resolve_alias(2), 2);
    assert_eq!(ct.resolve_alias(4), 4);
    ct.map_corner_to_vertex(0, 3);
    assert_eq!(ct.vertex_idx(0), 0);
}

#[test]
fn compressing_alias_chains_is_single_hop_and_idempotent() {
    let mut ct = table_with_vertices(1, 6);
    ct.record_alias(5, 4);
    ct.record_alias(4, 2);
    ct.record_alias(2, 0);
    assert_eq!(ct.vertex_alias, vec![usize::MAX, usize::MAX, 0, usize::MAX, 2, 4]);
    ct.compress_alias_chains();
    assert_eq!(ct.vertex_alias, vec![usize::MAX, usize::MAX, 0, usize::MAX, 0, 0]);
    let once = ct.vertex_alias.clone();
    ct.compress_alias_chains();
    assert_eq!(ct.vertex_alias, once);
    for v in 0..6 {
        assert_eq!(ct.resolve_alias(v), if v == 1 || v == 3 { v } else { 0 });
    }
}

#[test]
fn opposites_are_symmetric_and_swing_left_follows_them() {
    let mut ct = table_with_vertices(2, 4);
    ct.set_opposite(1, 4);
    assert_eq!(ct.opposite(1), Some(4));
    assert_eq!(ct.opposite(4), Some(1));
    assert_eq!(ct.opposite(0), None);
    // swing left from corner 0: across the edge opposite next(0) = 1,
    // landing on next(4) = 5
    assert_eq!(ct.swing_left_raw(0), Some(5));
    assert_eq!(ct.swing_left_raw(1), None);
}

#[test]
fn merge_vertex_relabels_the_swing_and_clears_the_left_most_corner() {
    let mut ct = table_with_vertices(2, 4);
    ct.set_opposite(1, 4);
    for c in 0..6 {
        ct.map_corner_to_vertex(c, 3);
    }
    ct.set_left_most_corner(3, 0);
    ct.merge_vertex(3, 1, 0);
    // walk: 0, then next(opp(next(0))) = 5, then next(opp(next(5))) = opp(3) = none
    assert_eq!(ct.corner_to_vertex, vec![1, 3, 3, 3, 3, 1]);
    assert_eq!(ct.left_most_corner[3], NO_CORNER);
}

#[test]
fn seam_bits_count_interior_edges_toward_later_faces() {
    let mut ct = table_with_vertices(3, 5);
    ct.set_opposite(1, 4); // faces 0 and 1
    ct.set_opposite(5, 7); // faces 1 and 2
    assert_eq!(compute_seam_bit_count(&ct, 3), 2);
    assert_eq!(compute_seam_bit_count(&ct, 1), 1);
    assert_eq!(compute_seam_bit_count(&ct, 0), 0);
}

#[test]
fn rabs_seam_bits_decode_or_default_to_clear() {
    assert_eq!(decode_rabs_seam_bits(128, &[], 3), Ok(vec![false, false, false]));
    assert_eq!(decode_rabs_seam_bits(128, &[0x00], 0), Ok(vec![]));
    assert_eq!(
        decode_rabs_seam_bits(128, &[0x00], 7),
        Ok(vec![true, true, true, true, true, false, true])
    );
    assert_eq!(
        decode_rabs_seam_bits(60, &[0xff, 0x80, 0x05], 8),
        Ok(vec![true, true, true, true, true, true, false, true])
    );
    assert_eq!(
        decode_rabs_seam_bits(128, &[0x40], 2),
        Err(DecodeError::Reader(ReaderErr::NotEnoughData))
    );
}

#[test]
fn attribute_seam_records_are_read_in_order() {
    let bytes = [7u8, 2, 0xAA, 0xBB, 9, 0, 3, 1, 0xCC, 0xEE];
    let mut reader = Reader::new(&bytes);
    let all = read_attribute_seams(&mut reader, 3).unwrap();
    assert_eq!(all, vec![(7, vec![0xAA, 0xBB]), (9, vec![]), (3, vec![0xCC])]);
    assert_eq!(reader.read_u8().unwrap(), 0xEE);
    let mut reader = Reader::new(&[7u8, 5, 0xAA]);
    assert_eq!(
        read_attribute_seams(&mut reader, 1),
        Err(DecodeError::Reader(ReaderErr::NotEnoughData))
    );
}
