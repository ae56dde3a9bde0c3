//! Nodes that Qiskit evaluates itself.

pub mod bind_parameters;
