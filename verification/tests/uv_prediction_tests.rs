use draco_oxide_decoder::decode::uv_prediction::uv_predict_complex;

#[test]
fn uv_prediction_places_the_vertex_on_both_sides_of_the_edge() {
    let positions = [[5, 5, 0], [0, 0, 0], [10, 0, 0]];
    let r = uv_predict_complex([0, 0], [0, 0], [10, 0], Some(&positions), 0, 1, 2);
    assert_eq!(r, Some(([5, -5], [5, 5])));
}

#[test]
fn uv_prediction_on_a_skewed_face() {
    let positions = [[7, -3, 2], [1, 1, 1], [9, 4, -2]];
    let r = uv_predict_complex([0, 0], [100, 200], [300, 250], Some(&positions), 0, 1, 2);
    assert_eq!(r, Some(([214, 85], [146, 354])));
}

#[test]
fn uv_prediction_gives_up_on_degenerate_or_missing_input() {
    let positions = [[5, 5, 0], [0, 0, 0], [0, 0, 0]];
    assert_eq!(uv_predict_complex([0, 0], [0, 0], [10, 0], Some(&positions), 0, 1, 2), None);
    assert_eq!(uv_predict_complex([0, 0], [0, 0], [10, 0], None, 0, 1, 2), None);
    assert_eq!(uv_predict_complex([0, 0], [0, 0], [10, 0], Some(&positions), 0, 1, 3), None);
    // the next UV times |pn|^2 would overflow: the encoder's guard trips
    let positions = [[5, 5, 0], [0, 0, 0], [1 << 20, 1 << 20, 0]];
    assert_eq!(
        uv_predict_complex([0, 0], [i32::MAX, 0], [10, 0], Some(&positions), 0, 1, 2),
        None
    );
}
