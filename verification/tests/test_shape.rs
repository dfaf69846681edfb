use rete_nn::phase_1::shape::{
    check_input_count, check_layer_order, dense_layer_shapes, CountMismatch, LayerKind, LayerOrderError,
};

#[test]
fn input_then_dense_layers_form_a_network() {
    assert_eq!(check_layer_order(&vec![LayerKind::Input]), Ok(()));
    assert_eq!(
        check_layer_order(&vec![LayerKind::Input, LayerKind::Dense, LayerKind::Dense]),
        Ok(())
    );
}

#[test]
fn a_network_needs_an_input_layer_first() {
    assert_eq!(check_layer_order(&vec![]), Err(LayerOrderError::FirstLayerNotInput));
    assert_eq!(
        check_layer_order(&vec![LayerKind::Dense, LayerKind::Input]),
        Err(LayerOrderError::FirstLayerNotInput)
    );
}

#[test]
fn only_the_first_layer_can_be_an_input_layer() {
    assert_eq!(
        check_layer_order(&vec![LayerKind::Input, LayerKind::Dense, LayerKind::Input]),
        Err(LayerOrderError::InputLayerAfterFirst)
    );
}

#[test]
fn widths_describe_each_adjacent_pair() {
    assert_eq!(dense_layer_shapes(&vec![2, 3, 1]), Some(vec![(2, 3), (3, 1)]));
    assert_eq!(dense_layer_shapes(&vec![3, 4, 2]), Some(vec![(3, 4), (4, 2)]));
    assert_eq!(dense_layer_shapes(&vec![2, 1]), Some(vec![(2, 1)]));
}

#[test]
fn widths_need_an_input_and_an_output() {
    assert_eq!(dense_layer_shapes(&vec![]), None);
    assert_eq!(dense_layer_shapes(&vec![4]), None);
}

#[test]
fn generated_layers_chain_and_pass_the_order_check() {
    let widths = vec![2, 3, 1];
    let shapes = dense_layer_shapes(&widths).unwrap();
    assert_eq!(shapes[0].0, widths[0]);
    for pair in shapes.windows(2) {
        assert_eq!(pair[0].1, pair[1].0);
    }
    let mut kinds = vec![LayerKind::Input];
    kinds.extend(shapes.iter().map(|_| LayerKind::Dense));
    assert_eq!(check_layer_order(&kinds), Ok(()));
}

#[test]
fn input_counts_must_match() {
    assert_eq!(check_input_count(2, 2), Ok(()));
    assert_eq!(check_input_count(0, 0), Ok(()));
    assert_eq!(
        check_input_count(2, 1),
        Err(CountMismatch { expected: 2, received: 1 })
    );
}
