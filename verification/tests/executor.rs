use std::marker::PhantomData;

use burn::tensor::Shape;
use graphnn::compile::{CompiledGraph, CompiledNode, OpId};
use graphnn::exec::{Arena, ArenaError};
use graphnn::executor::{all_within, check_graph, check_node, Executor};
use graphnn::ops::{NoOp, Op, OpArity, Operation};
use graphnn::tensor::{Backend, TensorAny};

struct Plain;

impl Backend for Plain {
    type Device = ();
    type Tensor1 = Vec<i32>;
    type Tensor2 = Vec<Vec<i32>>;
    type Tensor3 = Vec<Vec<Vec<i32>>>;
    type Tensor4 = Vec<Vec<Vec<Vec<i32>>>>;
}

fn identity() -> Operation<Plain> {
    Operation::NoOp(NoOp(PhantomData))
}

fn node(op: u64, inputs: Vec<usize>, outputs: Vec<usize>) -> CompiledNode {
    CompiledNode {
        op_id: OpId(op),
        input_ids: inputs,
        param_ids: vec![],
        output_ids: outputs,
    }
}

fn shapes(count: usize) -> Vec<Shape> {
    (0..count).map(|_| Shape::from(vec![1usize, 3])).collect()
}

/// One identity node that reads slot 0 and writes slot 1, which holds the
/// result.
fn single_identity() -> CompiledGraph {
    CompiledGraph {
        nodes: vec![node(0, vec![0], vec![1])],
        mem_shapes: shapes(2),
        param_shapes: vec![],
        output_ids: vec![1],
    }
}

fn matrices(values: Vec<TensorAny<Plain>>) -> Vec<Vec<Vec<i32>>> {
    values
        .into_iter()
        .map(|value| value.expect_d2().unwrap())
        .collect()
}

#[test]
fn the_identity_operation_declares_one_input_and_one_output() {
    let op: NoOp<Plain> = NoOp(PhantomData);
    assert_eq!(op.name(), "No Operation");
    assert_eq!(
        op.arity(),
        OpArity {
            inputs: 1,
            outputs: 1,
            params: 0
        }
    );
    assert_eq!(identity().name(), "No Operation");
    assert_eq!(identity().arity().inputs, 1);
    assert_eq!(op.init_params(&(), &[Shape::from(vec![2usize])]).len(), 0);
    assert_eq!(identity().init_params(&(), &[Shape::from(vec![2usize])]).len(), 0);
}

#[test]
fn the_identity_operation_keeps_the_shape() {
    let op: NoOp<Plain> = NoOp(PhantomData);
    let given = Shape::from(vec![1usize, 3, 224, 224]);
    let found = op.infer_shapes(&[given.clone()], &[]).ok().unwrap();
    assert_eq!(found, vec![Shape::from(vec![1usize, 3, 224, 224])]);
    assert_eq!(found[0].dims, vec![1, 3, 224, 224]);
    let found = identity()
        .infer_shapes(&[Shape::from(vec![5usize])], &[])
        .ok()
        .unwrap();
    assert_eq!(found, vec![Shape::from(vec![5usize])]);
}

#[test]
fn the_identity_operation_hands_its_input_on() {
    let op: NoOp<Plain> = NoOp(PhantomData);
    let outputs = op.evaluate(&[TensorAny::D2(vec![vec![1, 2], vec![3, 4]])], &[]);
    assert_eq!(matrices(outputs), vec![vec![vec![1, 2], vec![3, 4]]]);
    let outputs = identity().evaluate(&[TensorAny::D1(vec![7])], &[]);
    assert_eq!(outputs.len(), 1);
    assert_eq!(outputs[0].rank(), 1);
}

#[test]
fn a_compiled_graph_counts_its_slots() {
    let graph = CompiledGraph {
        nodes: vec![],
        mem_shapes: shapes(3),
        param_shapes: shapes(2),
        output_ids: vec![],
    };
    assert_eq!(graph.mem_size(), 3);
    assert_eq!(graph.param_size(), 2);
    assert_eq!(single_identity().mem_size(), 2);
    assert_eq!(single_identity().param_size(), 0);
}

#[test]
fn a_single_identity_node_gives_back_what_it_was_fed() {
    let mut arena: Arena<Plain> = Arena::new(vec![vec![1], vec![1]]);
    let input = vec![vec![1, 2, 3], vec![4, 5, 6]];
    arena.write(0, TensorAny::D2(input.clone()));
    let mut executor = Executor::new(arena, single_identity(), vec![identity()], vec![]).unwrap();
    assert_eq!(executor.node_count(), 1);
    let results = executor.run().ok().unwrap();
    assert_eq!(matrices(results), vec![input]);
}

#[test]
fn values_are_fed_through_the_executor() {
    let arena: Arena<Plain> = Arena::new(vec![vec![1], vec![1]]);
    let mut executor = Executor::new(arena, single_identity(), vec![identity()], vec![]).unwrap();
    executor.feed(0, TensorAny::D2(vec![vec![8]]));
    let results = executor.run().ok().unwrap();
    assert_eq!(matrices(results), vec![vec![vec![8]]]);
}

#[test]
fn nodes_run_in_the_compiled_order() {
    // slot 0 feeds two nodes; the second node's output is read by a third.
    let graph = CompiledGraph {
        nodes: vec![
            node(0, vec![0], vec![1]),
            node(0, vec![0], vec![2]),
            node(0, vec![2], vec![3]),
        ],
        mem_shapes: shapes(4),
        param_shapes: vec![],
        output_ids: vec![1, 3],
    };
    let mut arena: Arena<Plain> = Arena::new(vec![vec![2], vec![1], vec![1], vec![1]]);
    arena.write(0, TensorAny::D2(vec![vec![5, 6]]));
    let mut executor = Executor::new(arena, graph, vec![identity()], vec![]).unwrap();
    let results = executor.run().ok().unwrap();
    assert_eq!(
        matrices(results),
        vec![vec![vec![5, 6]], vec![vec![5, 6]]]
    );
}

#[test]
fn a_step_runs_one_node() {
    let graph = CompiledGraph {
        nodes: vec![node(0, vec![0], vec![1]), node(0, vec![1], vec![2])],
        mem_shapes: shapes(3),
        param_shapes: vec![],
        output_ids: vec![2],
    };
    let mut arena: Arena<Plain> = Arena::new(vec![vec![1], vec![1], vec![1]]);
    arena.write(0, TensorAny::D2(vec![vec![1]]));
    let mut executor = Executor::new(arena, graph, vec![identity()], vec![]).unwrap();
    // the second node has nothing to read before the first has run
    assert_eq!(executor.step(1), Err(ArenaError::SlotEmpty(1)));
    assert_eq!(executor.step(0), Ok(()));
    // its input has been taken by the failed read
    assert_eq!(executor.step(1), Err(ArenaError::SlotDone(1)));
}

#[test]
fn a_slot_with_too_few_reads_ends_the_run() {
    let graph = CompiledGraph {
        nodes: vec![node(0, vec![0], vec![1]), node(0, vec![0], vec![2])],
        mem_shapes: shapes(3),
        param_shapes: vec![],
        output_ids: vec![1, 2],
    };
    let mut arena: Arena<Plain> = Arena::new(vec![vec![1], vec![1], vec![1]]);
    arena.write(0, TensorAny::D2(vec![vec![1]]));
    let mut executor = Executor::new(arena, graph, vec![identity()], vec![]).unwrap();
    assert_eq!(executor.run().err(), Some(ArenaError::SlotDone(0)));
}

#[test]
fn an_unfed_input_ends_the_run() {
    let arena: Arena<Plain> = Arena::new(vec![vec![1], vec![1]]);
    let mut executor = Executor::new(arena, single_identity(), vec![identity()], vec![]).unwrap();
    assert_eq!(executor.run().err(), Some(ArenaError::SlotEmpty(0)));
}

#[test]
fn a_result_slot_without_reads_ends_the_run() {
    let mut arena: Arena<Plain> = Arena::new(vec![vec![1], vec![0]]);
    arena.write(0, TensorAny::D2(vec![vec![1]]));
    let mut executor = Executor::new(arena, single_identity(), vec![identity()], vec![]).unwrap();
    assert_eq!(executor.run().err(), Some(ArenaError::NoUsesLeft(1)));
}

#[test]
fn a_graph_without_nodes_reads_its_result_slots() {
    let graph = CompiledGraph {
        nodes: vec![],
        mem_shapes: shapes(1),
        param_shapes: vec![],
        output_ids: vec![0],
    };
    let mut arena: Arena<Plain> = Arena::new(vec![vec![1]]);
    arena.write(0, TensorAny::D2(vec![vec![3]]));
    let mut executor = Executor::new(arena, graph, vec![], vec![]).unwrap();
    assert_eq!(matrices(executor.run().ok().unwrap()), vec![vec![vec![3]]]);
}

#[test]
fn a_graph_must_fit_the_arena() {
    let ops = vec![identity()];
    assert!(check_graph(&single_identity(), &ops, 2, 0));
    // another number of slots than shapes
    assert!(!check_graph(&single_identity(), &ops, 3, 0));
    // another number of parameters than parameter shapes
    assert!(!check_graph(&single_identity(), &ops, 2, 1));
    let mut graph = single_identity();
    graph.output_ids = vec![2];
    assert!(!check_graph(&graph, &ops, 2, 0));
    let arena: Arena<Plain> = Arena::new(vec![vec![1], vec![1]]);
    assert!(Executor::new(arena, graph, vec![identity()], vec![]).is_none());
    let arena: Arena<Plain> = Arena::new(vec![vec![1]]);
    assert!(Executor::new(arena, single_identity(), vec![identity()], vec![]).is_none());
}

#[test]
fn a_node_must_fit_its_operation() {
    let ops = vec![identity()];
    assert!(check_node(&node(0, vec![0], vec![1]), &ops, 2, 0));
    // no such operation
    assert!(!check_node(&node(1, vec![0], vec![1]), &ops, 2, 0));
    assert!(!check_node(&node(0, vec![0], vec![1]), &Vec::<Operation<Plain>>::new(), 2, 0));
    // no such slot
    assert!(!check_node(&node(0, vec![2], vec![1]), &ops, 2, 0));
    assert!(!check_node(&node(0, vec![0], vec![2]), &ops, 2, 0));
    // another number of inputs or outputs than the operation declares
    assert!(!check_node(&node(0, vec![0, 1], vec![1]), &ops, 2, 0));
    assert!(!check_node(&node(0, vec![], vec![1]), &ops, 2, 0));
    assert!(!check_node(&node(0, vec![0], vec![]), &ops, 2, 0));
    // a parameter that the operation does not declare
    let with_param = CompiledNode {
        op_id: OpId(0),
        input_ids: vec![0],
        param_ids: vec![0],
        output_ids: vec![1],
    };
    assert!(!check_node(&with_param, &ops, 2, 1));
}

#[test]
fn slots_are_checked_against_the_size() {
    assert!(all_within(&vec![], 0));
    assert!(all_within(&vec![0, 2, 1], 3));
    assert!(!all_within(&vec![0, 3], 3));
    assert!(!all_within(&vec![0], 0));
}
