//! Small neural-network building blocks: the graph bookkeeping behind
//! back-propagation and the shape rules of layered networks (`phase_1`),
//! and fixed-size tensors with a dot product (`phase_2`).

pub mod phase_2;
pub mod phase_1;

