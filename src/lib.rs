//! A small reverse-mode automatic-differentiation engine over an arena of
//! scalar nodes, and the feed-forward network structure built on top of it.
//!
//! The library holds the shape of every computation: which operation made
//! each node, from which operands, in what order nodes are visited by the
//! backward pass, and which gradient flows into which node at each step.
//! Numeric values are kept by the caller, indexed by node identity.

pub mod tensor;
pub mod order;
pub mod backward;
pub mod neuron;
