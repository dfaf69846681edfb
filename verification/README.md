# rete_nn

Neural-network building blocks, verified with Verus where the logic is not
floating point.

- `src/phase_2.rs`: `Tensor`, a fixed-size tensor, and its dot product
  (`Tensor<[T; S]> * Tensor<[T; S]>`). For element types whose `+` and `*`
  vstd specifies (every machine integer type) it is proved to equal the
  left-to-right sum of the element products, and to run without overflow where
  its precondition holds; for such types the dot product is also proved to
  commute wherever `*` commutes on the elements.
- `src/phase_1/graph.rs`: the computation graph of back-propagation as parent
  lists of node indices; `backward_order` gives the order of a backward pass,
  proved to be the reverse of the depth-first finish order, to visit every node
  that feeds the output exactly once, the output first, and, where the graph has
  no cycle (as every graph of values has none), every node before the nodes it
  was computed from.
- `src/phase_1/shape.rs`: the shape rules of layered networks (input layer
  first, dense layers after; the layers that a list of widths describes; input
  counts).
- `app/`: the scalar `Value` with its gradients, `Neuron`, `Layer`, `Network`
  and the training loop. Their arithmetic is `f64`, and they draw random
  parameters with `rand`; they call the library for the order of the backward
  pass and for the shape checks.
