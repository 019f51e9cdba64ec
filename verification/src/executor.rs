//! The executor: runs the operations of a compiled graph in their order
//! against the arena.

use vstd::prelude::*;

use crate::compile::{CompiledGraph, CompiledNode};
use crate::exec::{
    error_at, first_failure, lemma_same_size, reads, slots_within, writes, Arena, ArenaError,
    SlotView,
};
use crate::ops::{Op, Operation};
use crate::tensor::{Backend, TensorAny};

verus! {

/// Whether the reads of `ids`, in order, hand over `values`.
pub open spec fn delivers<B: Backend>(
    arena: Seq<SlotView<B>>,
    ids: Seq<usize>,
    values: Seq<TensorAny<B>>,
) -> bool {
    &&& values.len() == ids.len()
    &&& forall|i: int|
        0 <= i < ids.len() ==> reads(arena, ids, i)[ids[i] as int].hands_over(
            Ok(#[trigger] values[i]),
        )
}

/// Whether `held` are clones of the parameters in the slots `ids`.
pub open spec fn holds_params<B: Backend>(
    params: Seq<TensorAny<B>>,
    ids: Seq<usize>,
    held: Seq<TensorAny<B>>,
) -> bool {
    &&& held.len() == ids.len()
    &&& forall|i: int| 0 <= i < ids.len() ==> (#[trigger] held[i]).is_clone_of(&params[ids[i] as int])
}

/// Whether the reads of `ids` fail with `error` and leave the arena as
/// `after`: the reads before the first one that fails have been made, and
/// that one too.
pub open spec fn fails_with<B: Backend>(
    arena: Seq<SlotView<B>>,
    ids: Seq<usize>,
    error: ArenaError,
    after: Seq<SlotView<B>>,
) -> bool {
    first_failure(arena, ids, ids.len() as int) matches Some(at) && error == error_at(
        arena,
        ids,
        at,
    ) && after == reads(arena, ids, at + 1)
}

/// Whether running `node` can take the arena from `before` to `after`: the
/// inputs are read in order, the operation is evaluated on them and on
/// clones of its parameters, and the outputs are written in order.
pub open spec fn steps_to<B: Backend>(
    node: CompiledNode,
    op: Operation<B>,
    params: Seq<TensorAny<B>>,
    before: Seq<SlotView<B>>,
    after: Seq<SlotView<B>>,
) -> bool {
    exists|inputs: Seq<TensorAny<B>>, held: Seq<TensorAny<B>>, outputs: Seq<TensorAny<B>>|
        {
            &&& delivers(before, node.input_ids@, inputs)
            &&& holds_params(params, node.param_ids@, held)
            &&& #[trigger] op.evaluates(inputs, held, outputs)
            &&& outputs.len() == node.output_ids@.len()
            &&& after == writes(
                reads(before, node.input_ids@, node.input_ids@.len() as int),
                node.output_ids@,
                outputs,
                outputs.len() as int,
            )
        }
}

/// The operation that a node names.
pub open spec fn op_of<B: Backend>(ops: Seq<Operation<B>>, node: CompiledNode) -> Operation<B> {
    ops[node.op_id.0 as int]
}

/// Whether running the first `upto` nodes, in their order, can take the
/// arena from `start` to `end`.
pub open spec fn runs_to<B: Backend>(
    nodes: Seq<CompiledNode>,
    ops: Seq<Operation<B>>,
    params: Seq<TensorAny<B>>,
    start: Seq<SlotView<B>>,
    upto: int,
    end: Seq<SlotView<B>>,
) -> bool
    decreases upto,
{
    if upto <= 0 {
        end == start
    } else {
        exists|mid: Seq<SlotView<B>>|
            runs_to(nodes, ops, params, start, upto - 1, mid) && #[trigger] steps_to(
                nodes[upto - 1],
                op_of(ops, nodes[upto - 1]),
                params,
                mid,
                end,
            )
    }
}

/// The slots that are read once the first `ran` nodes have run: the inputs
/// of the next node, or the result slots after the last one.
pub open spec fn next_reads(graph: CompiledGraph, ran: int) -> Seq<usize> {
    if 0 <= ran < graph.nodes@.len() {
        graph.nodes@[ran].input_ids@
    } else {
        graph.output_ids@
    }
}

/// The node names an operation that is there and slots that are there, as
/// many of each kind as the operation declares.
pub open spec fn node_fits<B: Backend>(
    node: CompiledNode,
    ops: Seq<Operation<B>>,
    slots: nat,
    params: nat,
) -> bool {
    &&& node.op_id.0 < ops.len()
    &&& slots_within(node.input_ids@, node.input_ids@.len() as int, slots)
    &&& slots_within(node.param_ids@, node.param_ids@.len() as int, params)
    &&& slots_within(node.output_ids@, node.output_ids@.len() as int, slots)
    &&& node.input_ids@.len() == op_of(ops, node).spec_arity().inputs
    &&& node.param_ids@.len() == op_of(ops, node).spec_arity().params
    &&& node.output_ids@.len() == op_of(ops, node).spec_arity().outputs
}

/// The graph has a shape for every arena slot and every parameter slot,
/// every node fits, and the results are in slots that are there.
pub open spec fn graph_fits<B: Backend>(
    graph: CompiledGraph,
    ops: Seq<Operation<B>>,
    slots: nat,
    params: nat,
) -> bool {
    &&& graph.mem_shapes@.len() == slots
    &&& graph.param_shapes@.len() == params
    &&& forall|i: int|
        0 <= i < graph.nodes@.len() ==> node_fits(#[trigger] graph.nodes@[i], ops, slots, params)
    &&& slots_within(graph.output_ids@, graph.output_ids@.len() as int, slots)
}

/// A graph of one identity node that reads one slot and writes another,
/// which holds the result: if the input slot holds a value that is at its
/// last read, and the result slot is at the last read of a use, a run
/// gives one result, and it is what the backend gives as a clone of that
/// value.
pub proof fn lemma_identity_gives_back_its_input<B: Backend>(
    node: CompiledNode,
    ops: Seq<Operation<B>>,
    params: Seq<TensorAny<B>>,
    start: Seq<SlotView<B>>,
    done: Seq<SlotView<B>>,
    results: Seq<TensorAny<B>>,
    value: TensorAny<B>,
)
    requires
        node.op_id.0 < ops.len(),
        op_of(ops, node) is NoOp,
        node.input_ids@.len() == 1,
        node.output_ids@.len() == 1,
        node.input_ids@[0] < start.len(),
        node.output_ids@[0] < start.len(),
        node.input_ids@[0] != node.output_ids@[0],
        start[node.input_ids@[0] as int].data == Some(value),
        start[node.input_ids@[0] as int].read_kind() is Last,
        start[node.output_ids@[0] as int].read_kind() is Last,
        runs_to(seq![node], ops, params, start, 1, done),
        delivers(done, node.output_ids@, results),
    ensures
        results.len() == 1,
        results[0].is_clone_of(&value),
{
    reveal_with_fuel(runs_to, 2);
    reveal_with_fuel(reads, 2);
    reveal_with_fuel(writes, 2);
    let from = node.input_ids@[0] as int;
    let to = node.output_ids@[0] as int;
    let mid = choose|mid: Seq<SlotView<B>>|
        runs_to(seq![node], ops, params, start, 0, mid) && #[trigger] steps_to(
            seq![node][0],
            op_of(ops, seq![node][0]),
            params,
            mid,
            done,
        );
    assert(mid == start);
    let (inputs, held, outputs) = choose|
        inputs: Seq<TensorAny<B>>,
        held: Seq<TensorAny<B>>,
        outputs: Seq<TensorAny<B>>,
    |
        {
            &&& delivers(start, node.input_ids@, inputs)
            &&& holds_params(params, node.param_ids@, held)
            &&& #[trigger] op_of(ops, node).evaluates(inputs, held, outputs)
            &&& outputs.len() == node.output_ids@.len()
            &&& done == writes(
                reads(start, node.input_ids@, node.input_ids@.len() as int),
                node.output_ids@,
                outputs,
                outputs.len() as int,
            )
        };
    assert(reads(start, node.input_ids@, 0) == start);
    assert(start[from].hands_over(Ok(inputs[0])));
    assert(inputs[0] == value);
    assert(outputs[0].is_clone_of(&inputs[0]));
    let read = reads(start, node.input_ids@, 1);
    assert(read == start.update(from, start[from].after_read()));
    assert(read[to] == start[to]);
    assert(done == read.update(to, read[to].after_write(outputs[0])));
    assert(reads(done, node.output_ids@, 0) == done);
    assert(done[to].hands_over(Ok(results[0])));
}

/// Whether all of `ids` are below `size`.
pub fn all_within(ids: &Vec<usize>, size: usize) -> (within: bool)
    ensures
        within == slots_within(ids@, ids@.len() as int, size as nat),
{
    let mut i: usize = 0;
    while i < ids.len()
        invariant
            i <= ids@.len(),
            forall|j: int| 0 <= j < i ==> (#[trigger] ids@[j]) < size,
        decreases ids@.len() - i,
    {
        if ids[i] >= size {
            return false;
        }
        i += 1;
    }
    true
}

/// Whether a node fits the operations, an arena of `slots` slots and
/// `params` parameter slots.
pub fn check_node<B: Backend>(
    node: &CompiledNode,
    ops: &Vec<Operation<B>>,
    slots: usize,
    params: usize,
) -> (fits: bool)
    ensures
        fits == node_fits(*node, ops@, slots as nat, params as nat),
{
    if node.op_id.0 >= ops.len() as u64 {
        return false;
    }
    let arity = ops[node.op_id.0 as usize].arity();
    all_within(&node.input_ids, slots) && all_within(&node.param_ids, params) && all_within(
        &node.output_ids,
        slots,
    ) && node.input_ids.len() as u64 == arity.inputs as u64 && node.param_ids.len() as u64
        == arity.params as u64 && node.output_ids.len() as u64 == arity.outputs as u64
}

/// Whether a graph fits the operations, an arena of `slots` slots and
/// `params` parameter slots.
pub fn check_graph<B: Backend>(
    graph: &CompiledGraph,
    ops: &Vec<Operation<B>>,
    slots: usize,
    params: usize,
) -> (fits: bool)
    ensures
        fits == graph_fits(*graph, ops@, slots as nat, params as nat),
{
    if graph.mem_size() != slots || graph.param_size() != params {
        return false;
    }
    let mut i: usize = 0;
    while i < graph.nodes.len()
        invariant
            i <= graph.nodes@.len(),
            forall|j: int|
                0 <= j < i ==> node_fits(
                    #[trigger] graph.nodes@[j],
                    ops@,
                    slots as nat,
                    params as nat,
                ),
        decreases graph.nodes@.len() - i,
    {
        if !check_node(&graph.nodes[i], ops, slots, params) {
            return false;
        }
        i += 1;
    }
    all_within(&graph.output_ids, slots)
}

/// Runs a compiled graph: one arena, one graph, the operations that the
/// graph names and the values of their parameters.
#[verifier::reject_recursive_types(B)]
pub struct Executor<B: Backend> {
    mem: Arena<B>,
    graph: CompiledGraph,
    ops: Vec<Operation<B>>,
    params: Vec<TensorAny<B>>,
}

impl<B: Backend> Executor<B> {
    /// The arena as it stands.
    pub closed spec fn arena(&self) -> Seq<SlotView<B>> {
        self.mem@
    }

    /// The graph that is run.
    pub closed spec fn spec_graph(&self) -> CompiledGraph {
        self.graph
    }

    /// The operations that the graph names.
    pub closed spec fn spec_ops(&self) -> Seq<Operation<B>> {
        self.ops@
    }

    /// The values of the parameters.
    pub closed spec fn spec_params(&self) -> Seq<TensorAny<B>> {
        self.params@
    }

    /// The graph fits the arena, the operations and the parameters.
    pub open spec fn wf(&self) -> bool {
        graph_fits(
            self.spec_graph(),
            self.spec_ops(),
            self.arena().len(),
            self.spec_params().len(),
        )
    }

    /// Whether a later state of the executor differs from this one in the
    /// arena alone.
    pub open spec fn same_program(&self, later: &Executor<B>) -> bool {
        &&& later.spec_graph() == self.spec_graph()
        &&& later.spec_ops() == self.spec_ops()
        &&& later.spec_params() == self.spec_params()
        &&& later.arena().len() == self.arena().len()
    }

    /// An executor for `graph` on the arena `mem`, if the graph fits the
    /// arena, the operations and the parameters.
    pub fn new(
        mem: Arena<B>,
        graph: CompiledGraph,
        ops: Vec<Operation<B>>,
        params: Vec<TensorAny<B>>,
    ) -> (executor: Option<Self>)
        ensures
            executor is Some == graph_fits(graph, ops@, mem@.len(), params@.len()),
            executor matches Some(made) ==> made.wf() && made.arena() == mem@ && made.spec_graph()
                == graph && made.spec_ops() == ops@ && made.spec_params() == params@,
    {
        if check_graph(&graph, &ops, mem.len(), params.len()) {
            Some(Executor { mem, graph, ops, params })
        } else {
            None
        }
    }

    /// The number of nodes of the graph.
    pub fn node_count(&self) -> (n: usize)
        ensures
            n == self.spec_graph().nodes@.len(),
    {
        self.graph.nodes.len()
    }

    /// Puts `value` in the arena slot `slot`, as a graph input.
    pub fn feed(&mut self, slot: usize, value: TensorAny<B>)
        requires
            slot < old(self).arena().len(),
        ensures
            old(self).same_program(final(self)),
            final(self).arena() == old(self).arena().update(
                slot as int,
                old(self).arena()[slot as int].after_write(value),
            ),
    {
        self.mem.write(slot, value);
    }

    /// Clones of the parameters in the slots `ids`.
    fn hold_params(&self, ids: &Vec<usize>) -> (held: Vec<TensorAny<B>>)
        requires
            slots_within(ids@, ids@.len() as int, self.spec_params().len()),
        ensures
            holds_params(self.spec_params(), ids@, held@),
    {
        let mut held: Vec<TensorAny<B>> = Vec::new();
        let mut i: usize = 0;
        while i < ids.len()
            invariant
                i <= ids@.len(),
                slots_within(ids@, ids@.len() as int, self.params@.len()),
                held@.len() == i,
                forall|j: int|
                    0 <= j < i ==> (#[trigger] held@[j]).is_clone_of(&self.params@[ids@[j] as int]),
            decreases ids@.len() - i,
        {
            held.push(self.params[ids[i]].clone());
            i += 1;
        }
        held
    }

    /// Runs node `at`: reads its inputs from the arena, in order, evaluates
    /// its operation on them and on its parameters, and writes the outputs
    /// to the arena, in order. A read that fails ends the step with its
    /// error; the reads before it have been made.
    pub fn step(&mut self, at: usize) -> (outcome: Result<(), ArenaError>)
        requires
            old(self).wf(),
            at < old(self).spec_graph().nodes@.len(),
        ensures
            final(self).wf(),
            old(self).same_program(final(self)),
            match outcome {
                Ok(()) => steps_to(
                    old(self).spec_graph().nodes@[at as int],
                    op_of(old(self).spec_ops(), old(self).spec_graph().nodes@[at as int]),
                    old(self).spec_params(),
                    old(self).arena(),
                    final(self).arena(),
                ),
                Err(error) => fails_with(
                    old(self).arena(),
                    old(self).spec_graph().nodes@[at as int].input_ids@,
                    error,
                    final(self).arena(),
                ),
            },
    {
        let ghost node = self.graph.nodes@[at as int];
        let ghost before = self.mem@;
        proof {
            assert(node_fits(node, self.ops@, before.len(), self.params@.len()));
            lemma_same_size(
                before,
                node.input_ids@,
                Seq::<TensorAny<B>>::empty(),
                node.input_ids@.len() as int,
            );
        }
        let read = self.mem.read_all(self.graph.nodes[at].input_ids.as_slice());
        let inputs = match read {
            Ok(inputs) => inputs,
            Err(error) => {
                proof {
                    let failed = first_failure(before, node.input_ids@, node.input_ids@.len() as int);
                    lemma_same_size(
                        before,
                        node.input_ids@,
                        Seq::<TensorAny<B>>::empty(),
                        failed.unwrap() + 1,
                    );
                }
                return Err(error);
            },
        };
        let held = self.hold_params(&self.graph.nodes[at].param_ids);
        let outputs = self.ops[self.graph.nodes[at].op_id.0 as usize].evaluate(
            inputs.as_slice(),
            held.as_slice(),
        );
        let ghost read_state = self.mem@;
        proof {
            lemma_same_size(read_state, node.output_ids@, outputs@, outputs@.len() as int);
        }
        self.mem.write_all(self.graph.nodes[at].output_ids.as_slice(), outputs);
        proof {
            assert(delivers(before, node.input_ids@, inputs@));
            assert(op_of(self.ops@, node).evaluates(inputs@, held@, outputs@));
        }
        Ok(())
    }

    /// Runs the graph: every node in the compiled order, then a read of the
    /// result slots, in order. The first read that fails ends the run with
    /// its error.
    pub fn run(&mut self) -> (results: Result<Vec<TensorAny<B>>, ArenaError>)
        requires
            old(self).wf(),
        ensures
            final(self).wf(),
            old(self).same_program(final(self)),
            match results {
                Ok(tensors) => exists|done: Seq<SlotView<B>>|
                    {
                        &&& runs_to(
                            old(self).spec_graph().nodes@,
                            old(self).spec_ops(),
                            old(self).spec_params(),
                            old(self).arena(),
                            old(self).spec_graph().nodes@.len() as int,
                            done,
                        )
                        &&& #[trigger] delivers(done, old(self).spec_graph().output_ids@, tensors@)
                        &&& final(self).arena() == reads(
                            done,
                            old(self).spec_graph().output_ids@,
                            old(self).spec_graph().output_ids@.len() as int,
                        )
                    },
                Err(error) => exists|ran: int, reached: Seq<SlotView<B>>|
                    {
                        &&& 0 <= ran <= old(self).spec_graph().nodes@.len()
                        &&& runs_to(
                            old(self).spec_graph().nodes@,
                            old(self).spec_ops(),
                            old(self).spec_params(),
                            old(self).arena(),
                            ran,
                            reached,
                        )
                        &&& #[trigger] fails_with(
                            reached,
                            next_reads(old(self).spec_graph(), ran),
                            error,
                            final(self).arena(),
                        )
                    },
            },
    {
        let n = self.graph.nodes.len();
        let ghost nodes = self.graph.nodes@;
        let ghost ops = self.ops@;
        let ghost params = self.params@;
        let ghost start = self.mem@;
        let mut at: usize = 0;
        while at < n
            invariant
                at <= n,
                n == nodes.len(),
                self.wf(),
                old(self).same_program(self),
                nodes == old(self).spec_graph().nodes@,
                ops == old(self).spec_ops(),
                params == old(self).spec_params(),
                start == old(self).arena(),
                runs_to(nodes, ops, params, start, at as int, self.arena()),
            decreases n - at,
        {
            let ghost before = self.mem@;
            match self.step(at) {
                Ok(()) => {
                    proof {
                        assert(steps_to(
                            nodes[at as int],
                            op_of(ops, nodes[at as int]),
                            params,
                            before,
                            self.arena(),
                        ));
                    }
                },
                Err(error) => {
                    proof {
                        assert(fails_with(
                            before,
                            next_reads(old(self).spec_graph(), at as int),
                            error,
                            self.arena(),
                        ));
                    }
                    return Err(error);
                },
            }
            at += 1;
        }
        let ghost done = self.mem@;
        let ghost ids = self.graph.output_ids@;
        let read = self.mem.read_all(self.graph.output_ids.as_slice());
        proof {
            match first_failure(done, ids, ids.len() as int) {
                Some(failed) => {
                    lemma_same_size(done, ids, Seq::<TensorAny<B>>::empty(), failed + 1);
                },
                None => {
                    lemma_same_size(done, ids, Seq::<TensorAny<B>>::empty(), ids.len() as int);
                },
            }
        }
        match read {
            Ok(tensors) => {
                proof {
                    assert(delivers(done, ids, tensors@));
                }
                Ok(tensors)
            },
            Err(error) => {
                proof {
                    assert(fails_with(
                        done,
                        next_reads(old(self).spec_graph(), n as int),
                        error,
                        self.arena(),
                    ));
                }
                Err(error)
            },
        }
    }
}

} // verus!
