//! The compiled graph: operations in execution order, addressed by arena
//! slot.

use burn::tensor::Shape;
use vstd::prelude::*;

verus! {

/// `burn::tensor::Shape`, the shape type of the tensor backend. Verus does
/// not look inside it: a shape is carried through as it is.
#[verifier::external_type_specification]
#[verifier::external_body]
pub struct ExShape(Shape);

/// The dimension sizes that a `burn::tensor::Shape` holds, in order: the
/// contents of its field `dims`.
pub uninterp spec fn shape_dims(shape: Shape) -> Seq<usize>;

/// The dimension sizes of a list of shapes.
pub open spec fn all_dims(shapes: Seq<Shape>) -> Seq<Seq<usize>> {
    Seq::new(shapes.len(), |i: int| shape_dims(shapes[i]))
}

/// Calls `Clone::clone` of `burn::tensor::Shape`, which burn derives for
/// the struct: the copy holds the same dimension sizes as the shape that
/// it was made from. Verus takes this on trust.
#[verifier::external_body]
pub(crate) fn clone_shape(shape: &Shape) -> (copy: Shape)
    ensures
        shape_dims(copy) == shape_dims(*shape),
{
    shape.clone()
}

/// The place of an operation in the executor's list of operations.
#[derive(Clone, Copy, Debug, PartialEq, Eq, Structural)]
pub struct OpId(pub u64);

/// One operation of a compiled graph, with the arena slots of its inputs
/// and outputs and the slots of its parameters.
#[derive(Debug)]
pub struct CompiledNode {
    pub op_id: OpId,
    pub input_ids: Vec<usize>,
    pub param_ids: Vec<usize>,
    pub output_ids: Vec<usize>,
}

/// A graph lowered for execution: the operations in the order in which
/// they run, the shape of every arena slot and of every parameter slot, and
/// the arena slots that hold the results.
pub struct CompiledGraph {
    pub nodes: Vec<CompiledNode>,
    pub mem_shapes: Vec<Shape>,
    pub param_shapes: Vec<Shape>,
    pub output_ids: Vec<usize>,
}

impl CompiledGraph {
    /// The number of arena slots.
    pub fn mem_size(&self) -> (n: usize)
        ensures
            n == self.mem_shapes@.len(),
    {
        self.mem_shapes.len()
    }

    /// The number of parameter slots.
    pub fn param_size(&self) -> (n: usize)
        ensures
            n == self.param_shapes@.len(),
    {
        self.param_shapes.len()
    }
}

} // verus!
