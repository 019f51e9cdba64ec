//! What every operation can do, the identity operation, and the closed set
//! of operations.

use burn::tensor::Shape;
use std::marker::PhantomData;
use vstd::prelude::*;

use crate::compile::{all_dims, clone_shape};
use crate::tensor::{Backend, TensorAny};

verus! {

/// How many inputs, outputs and parameters an operation declares.
#[derive(Clone, Copy, Debug, PartialEq, Eq, Structural)]
pub struct OpArity {
    pub inputs: u32,
    pub outputs: u32,
    pub params: u32,
}

/// Why an operation failed.
#[derive(Debug)]
pub enum OpError {
    CannotInferShapes(&'static str),
}

/// What every operation can do. Shape inference is asked before a graph
/// runs, evaluation while it runs.
pub trait Op<B: Backend> {
    /// The name of the operation.
    spec fn spec_name(&self) -> Seq<char>;

    /// The declared counts.
    spec fn spec_arity(&self) -> OpArity;

    /// The output shapes for the given input and parameter shapes, or
    /// `None` where they cannot be inferred.
    spec fn spec_shapes(&self, inputs: Seq<Seq<usize>>, params: Seq<Seq<usize>>) -> Option<
        Seq<Seq<usize>>,
    >;

    /// Whether `outputs` can be what evaluation gives for `inputs` and
    /// `params`.
    spec fn evaluates(
        &self,
        inputs: Seq<TensorAny<B>>,
        params: Seq<TensorAny<B>>,
        outputs: Seq<TensorAny<B>>,
    ) -> bool;

    /// The name of the operation.
    fn name(&self) -> (name: &'static str)
        ensures
            name@ == self.spec_name(),
    ;

    /// The declared counts of inputs, outputs and parameters.
    fn arity(&self) -> (arity: OpArity)
        ensures
            arity == self.spec_arity(),
    ;

    /// The initial parameters, one for each declared parameter.
    fn init_params(&self, device: &B::Device, input_shapes: &[Shape]) -> (params: Vec<TensorAny<B>>)
        ensures
            params@.len() == self.spec_arity().params,
    ;

    /// The shapes of the outputs, one for each declared output. There
    /// must be a shape for every declared input and parameter.
    fn infer_shapes(&self, input_shapes: &[Shape], param_shapes: &[Shape]) -> (shapes: Result<
        Vec<Shape>,
        OpError,
    >)
        requires
            input_shapes@.len() >= self.spec_arity().inputs,
            param_shapes@.len() >= self.spec_arity().params,
        ensures
            match self.spec_shapes(all_dims(input_shapes@), all_dims(param_shapes@)) {
                Some(dims) => shapes matches Ok(found) && all_dims(found@) == dims && found@.len()
                    == self.spec_arity().outputs,
                None => shapes is Err,
            },
    ;

    /// The outputs for the given inputs and parameters, one for each
    /// declared output. There must be a value for every declared input and
    /// parameter.
    fn evaluate(&self, inputs: &[TensorAny<B>], params: &[TensorAny<B>]) -> (outputs: Vec<
        TensorAny<B>,
    >)
        requires
            inputs@.len() >= self.spec_arity().inputs,
            params@.len() >= self.spec_arity().params,
        ensures
            self.evaluates(inputs@, params@, outputs@),
            outputs@.len() == self.spec_arity().outputs,
    ;
}

/// The identity operation: one input, one output of the same shape, no
/// parameters. Evaluation hands its input on.
#[verifier::reject_recursive_types(B)]
pub struct NoOp<B: Backend>(pub PhantomData<B>);

impl<B: Backend> Op<B> for NoOp<B> {
    open spec fn spec_name(&self) -> Seq<char> {
        "No Operation"@
    }

    open spec fn spec_arity(&self) -> OpArity {
        OpArity { inputs: 1, outputs: 1, params: 0 }
    }

    open spec fn spec_shapes(&self, inputs: Seq<Seq<usize>>, params: Seq<Seq<usize>>) -> Option<
        Seq<Seq<usize>>,
    > {
        Some(seq![inputs[0]])
    }

    open spec fn evaluates(
        &self,
        inputs: Seq<TensorAny<B>>,
        params: Seq<TensorAny<B>>,
        outputs: Seq<TensorAny<B>>,
    ) -> bool {
        outputs.len() == 1 && outputs[0].is_clone_of(&inputs[0])
    }

    fn name(&self) -> (name: &'static str) {
        "No Operation"
    }

    fn arity(&self) -> (arity: OpArity) {
        OpArity { inputs: 1, outputs: 1, params: 0 }
    }

    fn init_params(&self, _device: &B::Device, _input_shapes: &[Shape]) -> (params: Vec<
        TensorAny<B>,
    >) {
        Vec::new()
    }

    fn infer_shapes(&self, input_shapes: &[Shape], _param_shapes: &[Shape]) -> (shapes: Result<
        Vec<Shape>,
        OpError,
    >) {
        let mut found: Vec<Shape> = Vec::new();
        found.push(clone_shape(&input_shapes[0]));
        proof {
            assert(all_dims(found@) =~= seq![all_dims(input_shapes@)[0]]);
        }
        Ok(found)
    }

    fn evaluate(&self, inputs: &[TensorAny<B>], _params: &[TensorAny<B>]) -> (outputs: Vec<
        TensorAny<B>,
    >) {
        let mut outputs: Vec<TensorAny<B>> = Vec::new();
        outputs.push(inputs[0].clone());
        outputs
    }
}

/// The closed set of operations.
#[verifier::reject_recursive_types(B)]
pub enum Operation<B: Backend> {
    NoOp(NoOp<B>),
}

impl<B: Backend> Op<B> for Operation<B> {
    open spec fn spec_name(&self) -> Seq<char> {
        match self {
            Operation::NoOp(op) => op.spec_name(),
        }
    }

    open spec fn spec_arity(&self) -> OpArity {
        match self {
            Operation::NoOp(op) => op.spec_arity(),
        }
    }

    open spec fn spec_shapes(&self, inputs: Seq<Seq<usize>>, params: Seq<Seq<usize>>) -> Option<
        Seq<Seq<usize>>,
    > {
        match self {
            Operation::NoOp(op) => op.spec_shapes(inputs, params),
        }
    }

    open spec fn evaluates(
        &self,
        inputs: Seq<TensorAny<B>>,
        params: Seq<TensorAny<B>>,
        outputs: Seq<TensorAny<B>>,
    ) -> bool {
        match self {
            Operation::NoOp(op) => op.evaluates(inputs, params, outputs),
        }
    }

    fn name(&self) -> (name: &'static str) {
        match self {
            Operation::NoOp(op) => op.name(),
        }
    }

    fn arity(&self) -> (arity: OpArity) {
        match self {
            Operation::NoOp(op) => op.arity(),
        }
    }

    fn init_params(&self, device: &B::Device, input_shapes: &[Shape]) -> (params: Vec<TensorAny<B>>) {
        match self {
            Operation::NoOp(op) => op.init_params(device, input_shapes),
        }
    }

    fn infer_shapes(&self, input_shapes: &[Shape], param_shapes: &[Shape]) -> (shapes: Result<
        Vec<Shape>,
        OpError,
    >) {
        match self {
            Operation::NoOp(op) => op.infer_shapes(input_shapes, param_shapes),
        }
    }

    fn evaluate(&self, inputs: &[TensorAny<B>], params: &[TensorAny<B>]) -> (outputs: Vec<
        TensorAny<B>,
    >) {
        match self {
            Operation::NoOp(op) => op.evaluate(inputs, params),
        }
    }
}

} // verus!
