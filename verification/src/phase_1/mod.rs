//! The bookkeeping of scalar back-propagation and of layered networks: which
//! nodes a backward pass visits and in what order, and which shapes of
//! network are valid.

pub mod graph;
pub mod shape;
