//! The shape rules of a layered network: which sequences of layers form a
//! network, and which layers a list of widths describes.

use vstd::prelude::*;

verus! {

/// The two kinds of layer: the input layer holds the network's input values, a dense
/// layer holds neurons that each read every output of the layer before.
#[derive(Clone, Copy, Debug, PartialEq, Eq, Structural)]
pub enum LayerKind {
    Input,
    Dense,
}

/// Why a sequence of layers does not form a network.
#[derive(Clone, Copy, Debug, PartialEq, Eq, Structural)]
pub enum LayerOrderError {
    /// There is no layer, or the first one is not an input layer.
    FirstLayerNotInput,
    /// An input layer stands after the first layer.
    InputLayerAfterFirst,
}

/// A count of values that differs from the count that was expected.
#[derive(Clone, Copy, Debug, PartialEq, Eq, Structural)]
pub struct CountMismatch {
    pub expected: usize,
    pub received: usize,
}

/// Checks that a neuron or a network receives as many input values as it reads:
/// `Err` carries both counts where they differ.
pub fn check_input_count(expected: usize, received: usize) -> (result: Result<(), CountMismatch>)
    ensures
        result is Ok <==> expected == received,
        result is Err ==> result == Err::<(), CountMismatch>(CountMismatch { expected, received }),
{
    if expected == received {
        Ok(())
    } else {
        Err(CountMismatch { expected, received })
    }
}

/// A network's layers: an input layer first, dense layers after it.
pub open spec fn valid_layer_order(kinds: Seq<LayerKind>) -> bool {
    &&& kinds.len() > 0
    &&& kinds[0] == LayerKind::Input
    &&& forall|i: int| 1 <= i < kinds.len() ==> #[trigger] kinds[i] == LayerKind::Dense
}

/// Checks that `kinds` forms a network: the first check is for an input layer at the
/// front, the second for input layers after it.
pub fn check_layer_order(kinds: &Vec<LayerKind>) -> (result: Result<(), LayerOrderError>)
    ensures
        result is Ok <==> valid_layer_order(kinds@),
        result == Err::<(), LayerOrderError>(LayerOrderError::FirstLayerNotInput) <==> (kinds@.len() == 0
            || kinds@[0] != LayerKind::Input),
        result == Err::<(), LayerOrderError>(LayerOrderError::InputLayerAfterFirst) <==> (kinds@.len() > 0
            && kinds@[0] == LayerKind::Input && exists|i: int|
            1 <= i < kinds@.len() && #[trigger] kinds@[i] == LayerKind::Input),
{
    if kinds.len() == 0 {
        return Err(LayerOrderError::FirstLayerNotInput);
    }
    match kinds[0] {
        LayerKind::Input => {},
        LayerKind::Dense => {
            return Err(LayerOrderError::FirstLayerNotInput);
        },
    }
    let mut i: usize = 1;
    while i < kinds.len()
        invariant
            1 <= i <= kinds@.len(),
            kinds@[0] == LayerKind::Input,
            forall|j: int| 1 <= j < i ==> #[trigger] kinds@[j] == LayerKind::Dense,
        decreases kinds@.len() - i,
    {
        match kinds[i] {
            LayerKind::Input => {
                return Err(LayerOrderError::InputLayerAfterFirst);
            },
            LayerKind::Dense => {},
        }
        i = i + 1;
    }
    Ok(())
}

/// The dense layers that a list of widths describes, first width the input's: layer `i`
/// has `widths[i + 1]` neurons of `widths[i]` weights each. `None` where there are fewer
/// than two widths, so that the network would have no output layer.
pub fn dense_layer_shapes(widths: &Vec<usize>) -> (shapes: Option<Vec<(usize, usize)>>)
    ensures
        shapes is None <==> widths@.len() < 2,
        shapes matches Some(s) ==> {
            &&& s@.len() + 1 == widths@.len()
            &&& forall|i: int| 0 <= i < s@.len() ==> #[trigger] s@[i] == (widths@[i], widths@[i + 1])
        },
{
    if widths.len() < 2 {
        return None;
    }
    let mut shapes: Vec<(usize, usize)> = Vec::new();
    let mut i: usize = 0;
    while i < widths.len() - 1
        invariant
            widths@.len() >= 2,
            0 <= i < widths@.len(),
            shapes@.len() == i,
            forall|j: int| 0 <= j < i ==> #[trigger] shapes@[j] == (widths@[j], widths@[j + 1]),
        decreases widths@.len() - i,
    {
        shapes.push((widths[i], widths[i + 1]));
        i = i + 1;
    }
    Some(shapes)
}

/// The layer kinds of a network with an input layer and `dense` dense layers.
pub open spec fn generated_kinds(dense: nat) -> Seq<LayerKind> {
    seq![LayerKind::Input] + Seq::new(dense, |i: int| LayerKind::Dense)
}

/// A network generated from a list of widths passes the layer-order check: an input
/// layer followed by the dense layers of the widths is always a valid order.
pub proof fn lemma_generated_order_valid(widths: Seq<usize>)
    requires
        widths.len() >= 2,
    ensures
        valid_layer_order(generated_kinds((widths.len() - 1) as nat)),
{
    let kinds = generated_kinds((widths.len() - 1) as nat);
    assert(kinds[0] == LayerKind::Input);
    assert forall|i: int| 1 <= i < kinds.len() implies #[trigger] kinds[i] == LayerKind::Dense by {
        assert(kinds[i] == Seq::new((widths.len() - 1) as nat, |i: int| LayerKind::Dense)[i - 1]);
    }
}

/// In a network generated from a list of widths, each layer reads as many values as the
/// layer before it yields: the first dense layer's neurons have one weight per input,
/// and each later layer's neurons one weight per neuron of the layer before.
pub proof fn lemma_shapes_chain(widths: Seq<usize>, shapes: Seq<(usize, usize)>)
    requires
        shapes.len() + 1 == widths.len(),
        forall|i: int| 0 <= i < shapes.len() ==> #[trigger] shapes[i] == (widths[i], widths[i + 1]),
    ensures
        shapes.len() > 0 ==> shapes[0].0 == widths[0],
        forall|i: int| 0 <= i < shapes.len() - 1 ==> #[trigger] shapes[i].1 == shapes[i + 1].0,
        shapes.len() > 0 ==> shapes[shapes.len() - 1].1 == widths.last(),
{
    assert forall|i: int| 0 <= i < shapes.len() - 1 implies #[trigger] shapes[i].1 == shapes[i + 1].0 by {
        assert(shapes[i] == (widths[i], widths[i + 1]));
        assert(shapes[i + 1] == (widths[i + 1], widths[i + 2]));
    }
    if shapes.len() > 0 {
        assert(shapes[shapes.len() - 1] == (widths[shapes.len() - 1], widths[shapes.len() as int]));
    }
}

} // verus!
