//! A dataflow graph of tensor operations: authoring and validation of the
//! graph, its ordering and shape inference, and the arena-backed executor
//! that runs the compiled form.

pub mod compile;
pub mod exec;
pub mod executor;
pub mod nodes;
pub mod ops;
pub mod tensor;
