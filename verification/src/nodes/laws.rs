//! What the contracts of sorting and shape inference come to on the
//! smallest graphs: a chain, a cycle of two, a source that feeds an
//! identity node, and an identity node that nothing feeds.

use vstd::prelude::*;

use crate::nodes::blueprint::BlueprintView;
use crate::nodes::config::NodeConfigView;
use crate::nodes::dummy::DummyNodeView;
use crate::nodes::ident::{EdgeView, HandleKey, Name};
use crate::nodes::infer::with_outputs;
use crate::nodes::lint::LintErrorView;

verus! {

impl BlueprintView {
    /// Which nodes come out of sorting is fixed: two orders that are both
    /// in dependency order, and that both leave out only what is held
    /// back, hold the same nodes.
    pub proof fn lemma_same_nodes_come_out(self, one: Seq<Name>, other: Seq<Name>)
        requires
            self.in_dependency_order(one),
            self.rest_is_held_back(one),
            self.in_dependency_order(other),
            self.rest_is_held_back(other),
        ensures
            forall|id: Name| one.contains(id) <==> other.contains(id),
    {
        assert forall|id: Name| one.contains(id) <==> other.contains(id) by {
            if one.contains(id) {
                let i = choose|i: int| 0 <= i < one.len() && one[i] == id;
                self.lemma_comes_out_too(one, other, i);
            }
            if other.contains(id) {
                let i = choose|i: int| 0 <= i < other.len() && other[i] == id;
                self.lemma_comes_out_too(other, one, i);
            }
        }
    }

    /// What is at place `at` of one order is in the other order too.
    proof fn lemma_comes_out_too(self, one: Seq<Name>, other: Seq<Name>, at: int)
        requires
            self.in_dependency_order(one),
            self.rest_is_held_back(other),
            0 <= at < one.len(),
        ensures
            other.contains(one[at]),
        decreases at,
    {
        let id = one[at];
        if !other.contains(id) {
            assert(self.nodes.contains_key(one[at]));
            let k = choose|k: int|
                0 <= k < self.edges.len() && (#[trigger] self.edges[k]).target.node_id == id
                    && !other.contains(self.edges[k].source.node_id);
            let source = self.edges[k].source.node_id;
            assert(one.take(at).contains(source));
            let i = choose|i: int| 0 <= i < one.take(at).len() && one.take(at)[i] == source;
            assert(one[i] == source);
            self.lemma_comes_out_too(one, other, i);
        }
    }

    /// The number of the first `upto` edges that end at `node` and start
    /// at a node that `order` leaves out: for all the edges, the in-degree
    /// that is left to `node` when the nodes in `order` are out.
    pub open spec fn residual_in_degree(self, order: Seq<Name>, node: Name, upto: int) -> nat
        decreases upto,
    {
        if upto <= 0 {
            0
        } else {
            self.residual_in_degree(order, node, upto - 1) + (if self.edges[upto - 1].target.node_id
                == node && !order.contains(self.edges[upto - 1].source.node_id) {
                1nat
            } else {
                0nat
            })
        }
    }

    /// The in-degree that is left is positive exactly if an edge ends at
    /// the node and starts at a node that is left out.
    pub proof fn lemma_residual_positive(self, order: Seq<Name>, node: Name, upto: int)
        ensures
            self.residual_in_degree(order, node, upto) > 0 <==> exists|k: int|
                0 <= k < upto && (#[trigger] self.edges[k]).target.node_id == node
                    && !order.contains(self.edges[k].source.node_id),
        decreases upto,
    {
        if upto > 0 {
            self.lemma_residual_positive(order, node, upto - 1);
            if self.residual_in_degree(order, node, upto) > 0 {
                if self.residual_in_degree(order, node, upto - 1) > 0 {
                    let k = choose|k: int|
                        0 <= k < upto - 1 && (#[trigger] self.edges[k]).target.node_id == node
                            && !order.contains(self.edges[k].source.node_id);
                    assert(0 <= k < upto && self.edges[k].target.node_id == node);
                } else {
                    assert(self.edges[upto - 1].target.node_id == node);
                }
            }
        }
    }

    /// After sorting, the edges that the `Cycle` diagnostic names are those
    /// whose target is a node with a positive in-degree left: a node is
    /// left out exactly if its in-degree has not come down to zero.
    pub proof fn lemma_stuck_is_positive_in_degree(self, order: Seq<Name>, node: Name)
        requires
            self.in_dependency_order(order),
            self.rest_is_held_back(order),
            self.nodes.contains_key(node),
        ensures
            !order.contains(node) <==> self.residual_in_degree(
                order,
                node,
                self.edges.len() as int,
            ) > 0,
    {
        self.lemma_residual_positive(order, node, self.edges.len() as int);
        if order.contains(node) {
            let j = choose|j: int| 0 <= j < order.len() && order[j] == node;
            assert forall|k: int|
                0 <= k < self.edges.len() && (#[trigger] self.edges[k]).target.node_id
                    == node implies order.contains(self.edges[k].source.node_id) by {
                let source = self.edges[k].source.node_id;
                assert(order.take(j).contains(source));
                let i = choose|i: int| 0 <= i < order.take(j).len() && order.take(j)[i] == source;
                assert(order[i] == source);
            }
        }
    }

    /// A chain of three nodes sorts in the order of the chain, and nothing
    /// is reported.
    pub proof fn lemma_chain_sorts_in_order(
        self,
        order: Seq<Name>,
        first: Name,
        second: Name,
        third: Name,
    )
        requires
            first != second && second != third && first != third,
            self.nodes.dom() =~= set![first, second, third],
            self.edges.len() == 2,
            self.edges[0].source.node_id == first && self.edges[0].target.node_id == second,
            self.edges[1].source.node_id == second && self.edges[1].target.node_id == third,
            self.in_dependency_order(order),
            self.rest_is_held_back(order),
        ensures
            order == seq![first, second, third],
            self.cycle_report(order) == Seq::<LintErrorView>::empty(),
    {
        assert(self.nodes.contains_key(first) && self.nodes.contains_key(second)
            && self.nodes.contains_key(third));
        assert(order.contains(first));
        assert(order.contains(second)) by {
            if !order.contains(second) {
                let k = choose|k: int|
                    0 <= k < self.edges.len() && (#[trigger] self.edges[k]).target.node_id
                        == second && !order.contains(self.edges[k].source.node_id);
                assert(k == 0);
            }
        }
        assert(order.contains(third)) by {
            if !order.contains(third) {
                let k = choose|k: int|
                    0 <= k < self.edges.len() && (#[trigger] self.edges[k]).target.node_id
                        == third && !order.contains(self.edges[k].source.node_id);
                assert(k == 1);
            }
        }
        let a = order.index_of(first);
        let b = order.index_of(second);
        let c = order.index_of(third);
        assert(order[a] == first && order[b] == second && order[c] == third);
        assert(a < b) by {
            assert(self.edges[0].target.node_id == order[b]);
            assert(order.take(b).contains(first));
            let i = choose|i: int| 0 <= i < order.take(b).len() && order.take(b)[i] == first;
            assert(order[i] == first);
        }
        assert(b < c) by {
            assert(self.edges[1].target.node_id == order[c]);
            assert(order.take(c).contains(second));
            let i = choose|i: int| 0 <= i < order.take(c).len() && order.take(c)[i] == second;
            assert(order[i] == second);
        }
        assert(self.nodes.contains_key(order[0]));
        assert(a == 0);
        assert(self.nodes.contains_key(order[1]));
        assert(b == 1);
        assert(self.nodes.contains_key(order[2]));
        assert(c == 2);
        if order.len() > 3 {
            assert(self.nodes.contains_key(order[3]));
        }
        assert(order =~= seq![first, second, third]);
        assert(self.nodes.dom() =~= Set::<Name>::empty().insert(first).insert(second).insert(third));
        assert(self.nodes.dom().finite());
        self.lemma_report_tells_cycles(order);
    }

    /// Of two nodes on a cycle neither comes out of sorting, and one
    /// `Cycle` names both edges, in their order.
    pub proof fn lemma_two_cycle_is_reported(self, order: Seq<Name>, one: Name, other: Name)
        requires
            one != other,
            self.nodes.dom() =~= set![one, other],
            self.edges.len() == 2,
            self.edges[0].source.node_id == one && self.edges[0].target.node_id == other,
            self.edges[1].source.node_id == other && self.edges[1].target.node_id == one,
            self.in_dependency_order(order),
        ensures
            order.len() == 0,
            self.cycle_report(order) == seq![
                LintErrorView::Cycle { edges: seq![self.edges[0].id, self.edges[1].id] },
            ],
    {
        if order.len() > 0 {
            assert(self.nodes.contains_key(order[0]));
            assert(order.take(0).len() == 0);
            if order[0] == one {
                assert(self.edges[1].target.node_id == order[0]);
                assert(order.take(0).contains(other));
            } else {
                assert(self.edges[0].target.node_id == order[0]);
                assert(order.take(0).contains(one));
            }
        }
        let stuck = |edge: EdgeView| self.is_stuck(order, edge);
        assert(self.nodes.contains_key(one) && self.nodes.contains_key(other));
        assert(self.edges =~= Seq::<EdgeView>::empty().push(self.edges[0]).push(self.edges[1]));
        assert(stuck(self.edges[0]) && stuck(self.edges[1]));
        assert(Seq::<EdgeView>::empty().filter(stuck) =~= Seq::<EdgeView>::empty()) by {
            reveal(Seq::filter);
        }
        Seq::<EdgeView>::empty().lemma_filter_push(self.edges[0], stuck);
        Seq::<EdgeView>::empty().push(self.edges[0]).lemma_filter_push(self.edges[1], stuck);
        assert(self.stuck_edges(order) =~= seq![self.edges[0].id, self.edges[1].id]);
        assert(self.nodes.dom() =~= Set::<Name>::empty().insert(one).insert(other));
        assert(self.nodes.dom().finite());
        assert(self.nodes.len() > 0);
    }

    /// A source with a fixed output shape that feeds an identity node: both
    /// outputs are resolved to that shape, the edge between them gets it,
    /// and nothing is reported.
    pub proof fn lemma_fixed_shape_flows(
        self,
        source: Name,
        identity: Name,
        shape: Seq<usize>,
    )
        requires
            source != identity,
            self.edges.len() == 1,
            self.edges[0].source == (HandleKey { node_id: source, handle_id: "out_1"@ }),
            self.edges[0].target == (HandleKey { node_id: identity, handle_id: "in_1"@ }),
        ensures
            ({
                let nodes = seq![
                    (
                        source,
                        NodeConfigView::Dummy(DummyNodeView { fixed_output: Some(shape) }),
                    ),
                    (identity, NodeConfigView::Dummy(DummyNodeView { fixed_output: None })),
                ];
                let end = self.infer_upto(nodes, 2);
                &&& end.edge_shapes == seq![(self.edges[0].id, shape)]
                &&& end.errors == Seq::<LintErrorView>::empty()
                &&& end.resolved[HandleKey { node_id: source, handle_id: "out_1"@ }] == shape
                &&& end.resolved[HandleKey { node_id: identity, handle_id: "out_1"@ }] == shape
            }),
    {
        let nodes = seq![
            (source, NodeConfigView::Dummy(DummyNodeView { fixed_output: Some(shape) })),
            (identity, NodeConfigView::Dummy(DummyNodeView { fixed_output: None })),
        ];
        let start = self.infer_upto(nodes, 0);
        let mid = self.infer_upto(nodes, 1);
        let end = self.infer_upto(nodes, 2);
        reveal_with_fuel(BlueprintView::infer_upto, 3);
        reveal_with_fuel(BlueprintView::inputs_of, 3);
        reveal_with_fuel(BlueprintView::shapes_from, 3);
        let out = HandleKey { node_id: source, handle_id: "out_1"@ };
        let fixed = Map::<Name, Seq<usize>>::empty().insert("out_1"@, shape);
        assert(mid == self.infer_node(start, source, nodes[0].1));
        assert(self.inputs_of(start.resolved, source, 1) == Map::<Name, Seq<usize>>::empty());
        assert(mid.resolved == with_outputs(start.resolved, source, fixed));
        assert(mid.resolved.contains_key(out) && mid.resolved[out] == shape);
        assert(self.shapes_from(source, fixed, 1) =~= seq![(self.edges[0].id, shape)]);
        assert(mid.edge_shapes =~= seq![(self.edges[0].id, shape)]);
        assert(end == self.infer_node(mid, identity, nodes[1].1));
        let inputs = self.inputs_of(mid.resolved, identity, 1);
        assert(inputs == Map::<Name, Seq<usize>>::empty().insert("in_1"@, shape));
        assert(inputs.contains_key("in_1"@) && inputs["in_1"@] == shape);
        assert(self.shapes_from(identity, fixed, 1) =~= Seq::<(Name, Seq<usize>)>::empty());
        assert(end.edge_shapes =~= seq![(self.edges[0].id, shape)]);
    }

    /// An identity node that nothing feeds cannot infer its shape: its
    /// input is reported and its output stays unresolved.
    pub proof fn lemma_unfed_identity_is_reported(self, identity: Name)
        requires
            forall|k: int|
                0 <= k < self.edges.len() ==> (#[trigger] self.edges[k]).target.node_id
                    != identity,
        ensures
            ({
                let nodes = seq![
                    (identity, NodeConfigView::Dummy(DummyNodeView { fixed_output: None })),
                ];
                let end = self.infer_upto(nodes, 1);
                &&& end.errors == seq![
                    LintErrorView::UnInferrableTensorShape {
                        handle: HandleKey { node_id: identity, handle_id: "in_1"@ },
                    },
                ]
                &&& end.edge_shapes == Seq::<(Name, Seq<usize>)>::empty()
                &&& end.resolved == Map::<HandleKey, Seq<usize>>::empty()
            }),
    {
        let nodes = seq![(identity, NodeConfigView::Dummy(DummyNodeView { fixed_output: None }))];
        reveal_with_fuel(BlueprintView::infer_upto, 2);
        let start = self.infer_upto(nodes, 0);
        self.lemma_no_inputs(start.resolved, identity, self.edges.len() as int);
        let end = self.infer_upto(nodes, 1);
        assert(end == self.infer_node(start, identity, nodes[0].1));
        assert(end.errors =~= seq![
            LintErrorView::UnInferrableTensorShape {
                handle: HandleKey { node_id: identity, handle_id: "in_1"@ },
            },
        ]);
    }

    /// A node at which no edge ends gets no input shapes.
    pub proof fn lemma_no_inputs(self, resolved: Map<HandleKey, Seq<usize>>, node: Name, upto: int)
        requires
            upto <= self.edges.len(),
            forall|k: int|
                0 <= k < self.edges.len() ==> (#[trigger] self.edges[k]).target.node_id != node,
        ensures
            self.inputs_of(resolved, node, upto) == Map::<Name, Seq<usize>>::empty(),
        decreases upto,
    {
        if upto > 0 {
            self.lemma_no_inputs(resolved, node, upto - 1);
        }
    }
}

} // verus!
