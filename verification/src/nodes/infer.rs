//! Shape inference: walking the sorted nodes, handing each the shapes that
//! reach its inputs, and collecting what it resolves or fails to resolve.

use vstd::prelude::*;

use crate::nodes::blueprint::{BlueprintView, GraphBlueprint};
use crate::nodes::config::{
    shape_views, Config, ConfigError, ConfigErrorView, NodeConfig, NodeConfigView, ShapeTable,
    Shapes,
};
use crate::nodes::ident::{HandleKey, HandleRef, Id, Name, TensorShape};
use crate::nodes::lint::{LintError, LintErrorView};
use crate::nodes::sort::SortedGraphBlueprint;
use crate::nodes::table::{lemma_listed_at, lemma_take_one_more, Table};

verus! {

/// The shapes resolved so far, by output handle.
pub type Resolved = Map<HandleKey, Seq<usize>>;

/// Where shape inference stands after some of the nodes.
pub struct Inference {
    /// The shape of every output handle that has been resolved.
    pub resolved: Resolved,
    /// The edges that have got a shape, with the shape, oldest first.
    pub edge_shapes: Seq<(Name, Seq<usize>)>,
    /// The diagnostics collected, oldest first.
    pub errors: Seq<LintErrorView>,
}

/// The table after the outputs of `node` have been entered in it. An entry
/// that was there under the same handle is replaced.
pub open spec fn with_outputs(resolved: Resolved, node: Name, outputs: Shapes) -> Resolved {
    Map::new(
        |handle: HandleKey|
            resolved.contains_key(handle) || (handle.node_id == node && outputs.contains_key(
                handle.handle_id,
            )),
        |handle: HandleKey|
            if handle.node_id == node && outputs.contains_key(handle.handle_id) {
                outputs[handle.handle_id]
            } else {
                resolved[handle]
            },
    )
}

/// The shapes listed under the first `upto` of the keys.
pub open spec fn first_outputs(keys: Seq<Name>, values: Seq<TensorShape>, upto: int) -> Shapes {
    Map::new(
        |name: Name| keys.take(upto).contains(name),
        |name: Name| values[keys.index_of(name)]@,
    )
}

/// The nodes of a sorted blueprint, as contracts see them.
pub open spec fn node_views(nodes: Seq<(Id, NodeConfig)>) -> Seq<(Name, NodeConfigView)> {
    Seq::new(nodes.len(), |i: int| (nodes[i].0@, nodes[i].1@))
}

/// The edge shapes of a sorted blueprint, as contracts see them.
pub open spec fn edge_shape_views(edges: Seq<(Id, TensorShape)>) -> Seq<(Name, Seq<usize>)> {
    Seq::new(edges.len(), |i: int| (edges[i].0@, edges[i].1@))
}

impl BlueprintView {
    /// The input shapes that the first `upto` edges bring to `node`: each
    /// edge that ends there and whose source is resolved gives the shape of
    /// its source to the input it ends at. Of two edges at one input the
    /// later one counts.
    pub open spec fn inputs_of(self, resolved: Resolved, node: Name, upto: int) -> Shapes
        decreases upto,
    {
        if upto <= 0 {
            Map::empty()
        } else {
            let rest = self.inputs_of(resolved, node, upto - 1);
            let edge = self.edges[upto - 1];
            if edge.target.node_id == node && resolved.contains_key(edge.source) {
                rest.insert(edge.target.handle_id, resolved[edge.source])
            } else {
                rest
            }
        }
    }

    /// Those of the first `upto` edges that start at an output of `node`
    /// that has just got a shape, each with that shape.
    pub open spec fn shapes_from(self, node: Name, outputs: Shapes, upto: int) -> Seq<
        (Name, Seq<usize>),
    >
        decreases upto,
    {
        if upto <= 0 {
            Seq::empty()
        } else {
            let rest = self.shapes_from(node, outputs, upto - 1);
            let edge = self.edges[upto - 1];
            if edge.source.node_id == node && outputs.contains_key(edge.source.handle_id) {
                rest.push((edge.id, outputs[edge.source.handle_id]))
            } else {
                rest
            }
        }
    }

    /// One step of shape inference. The node is handed the shapes that reach
    /// its inputs. If it can infer its outputs, they are entered as resolved
    /// and every edge that starts at one of them gets its shape. If an input
    /// shape is missing, that input is reported and nothing is resolved.
    pub open spec fn infer_node(self, before: Inference, node: Name, config: NodeConfigView) -> Inference {
        let inputs = self.inputs_of(before.resolved, node, self.edges.len() as int);
        match config.infer(inputs) {
            Ok(outputs) => Inference {
                resolved: with_outputs(before.resolved, node, outputs),
                edge_shapes: before.edge_shapes + self.shapes_from(
                    node,
                    outputs,
                    self.edges.len() as int,
                ),
                errors: before.errors,
            },
            Err(ConfigErrorView::MissingInputShape(handle)) => Inference {
                resolved: before.resolved,
                edge_shapes: before.edge_shapes,
                errors: before.errors.push(
                    LintErrorView::UnInferrableTensorShape {
                        handle: HandleKey { node_id: node, handle_id: handle },
                    },
                ),
            },
        }
    }

    /// Shape inference over the first `upto` of the nodes, in their order,
    /// starting with nothing resolved.
    pub open spec fn infer_upto(self, nodes: Seq<(Name, NodeConfigView)>, upto: int) -> Inference
        decreases upto,
    {
        if upto <= 0 {
            Inference { resolved: Map::empty(), edge_shapes: Seq::empty(), errors: Seq::empty() }
        } else {
            self.infer_node(self.infer_upto(nodes, upto - 1), nodes[upto - 1].0, nodes[upto - 1].1)
        }
    }
}

impl GraphBlueprint {
    /// The shapes that the edges bring to the inputs of `node`.
    pub fn gather_inputs(&self, resolved: &Table<HandleRef, TensorShape>, node: &Id) -> (inputs:
        ShapeTable)
        ensures
            shape_views(inputs@) == self@.inputs_of(
                shape_views(resolved@),
                node@,
                self@.edges.len() as int,
            ),
    {
        let mut inputs: ShapeTable = ShapeTable::new();
        let mut k: usize = 0;
        proof {
            assert(shape_views(inputs@) =~= Map::<Name, Seq<usize>>::empty());
        }
        while k < self.edges.len()
            invariant
                k <= self.edges@.len(),
                shape_views(inputs@) == self@.inputs_of(shape_views(resolved@), node@, k as int),
            decreases self.edges@.len() - k,
        {
            let edge = &self.edges[k];
            let ghost before = inputs@;
            proof {
                assert(self@.edges[k as int] == edge@);
            }
            if edge.target.node_id == *node {
                if let Some(shape) = resolved.get(&edge.source) {
                    inputs.insert(edge.target.handle_id.clone(), shape.clone());
                    proof {
                        assert(shape_views(inputs@) =~= shape_views(before).insert(
                            edge.target.handle_id@,
                            shape@,
                        ));
                    }
                }
            }
            k += 1;
        }
        inputs
    }

    /// Enters the outputs of `node` in the table of resolved shapes.
    pub fn enter_outputs(resolved: &mut Table<HandleRef, TensorShape>, node: &Id, outputs: &ShapeTable)
        ensures
            shape_views(final(resolved)@) == with_outputs(
                shape_views(old(resolved)@),
                node@,
                shape_views(outputs@),
            ),
    {
        let ghost keys = outputs.keys();
        let ghost values = outputs.values();
        let ghost before = shape_views(resolved@);
        proof {
            use_type_invariant(outputs);
            outputs.lemma_layout();
            assert(keys.take(0) =~= Seq::<Name>::empty());
            assert(shape_views(resolved@) =~= with_outputs(
                before,
                node@,
                first_outputs(keys, values, 0),
            ));
        }
        let n = outputs.len();
        let mut a: usize = 0;
        while a < n
            invariant
                a <= n,
                n == keys.len(),
                keys == outputs.keys(),
                values == outputs.values(),
                values.len() == keys.len(),
                keys.no_duplicates(),
                shape_views(resolved@) == with_outputs(
                    before,
                    node@,
                    first_outputs(keys, values, a as int),
                ),
            decreases n - a,
        {
            let handle = HandleRef { node_id: node.clone(), handle_id: outputs.key_at(a).clone() };
            let shape = outputs.value_at(a).clone();
            let ghost earlier = shape_views(resolved@);
            resolved.insert(handle, shape);
            proof {
                lemma_listed_at(keys, values, a as int);
                assert(shape_views(resolved@) =~= earlier.insert(handle@, shape@));
                lemma_take_one_more(keys, a as int);
                let so_far = first_outputs(keys, values, a as int);
                let now = first_outputs(keys, values, a + 1);
                assert(now =~= so_far.insert(keys[a as int], values[a as int]@));
                assert(earlier.insert(handle@, shape@) =~= with_outputs(before, node@, now));
            }
            a += 1;
        }
        proof {
            assert(keys.take(a as int) =~= keys);
            assert forall|name: Name| keys.contains(name) implies values[keys.index_of(name)]@
                == shape_views(outputs@)[name] by {
                lemma_listed_at(keys, values, keys.index_of(name));
            }
            assert(first_outputs(keys, values, a as int) =~= shape_views(outputs@));
        }
    }

    /// Gives every edge that starts at an output of `node` in `outputs`
    /// the shape of that output.
    pub fn record_edges(&self, shapes: &mut Vec<(Id, TensorShape)>, node: &Id, outputs: &ShapeTable)
        ensures
            edge_shape_views(final(shapes)@) == edge_shape_views(old(shapes)@)
                + self@.shapes_from(node@, shape_views(outputs@), self@.edges.len() as int),
    {
        let mut k: usize = 0;
        proof {
            assert(edge_shape_views(shapes@) =~= edge_shape_views(old(shapes)@) + Seq::<
                (Name, Seq<usize>),
            >::empty());
        }
        while k < self.edges.len()
            invariant
                k <= self.edges@.len(),
                edge_shape_views(shapes@) == edge_shape_views(old(shapes)@) + self@.shapes_from(
                    node@,
                    shape_views(outputs@),
                    k as int,
                ),
            decreases self.edges@.len() - k,
        {
            let edge = &self.edges[k];
            let ghost before = edge_shape_views(shapes@);
            proof {
                assert(self@.edges[k as int] == edge@);
            }
            if edge.source.node_id == *node {
                if let Some(shape) = outputs.get(&edge.source.handle_id) {
                    shapes.push((edge.id.clone(), shape.clone()));
                    proof {
                        assert(edge_shape_views(shapes@) =~= before.push((edge.id@, shape@)));
                        assert(before.push((edge.id@, shape@)) =~= edge_shape_views(old(shapes)@)
                            + self@.shapes_from(node@, shape_views(outputs@), k as int).push(
                            (edge.id@, shape@),
                        ));
                    }
                }
            }
            k += 1;
        }
    }

    /// Infers the shapes on the edges of a sorted blueprint.
    ///
    /// A blueprint that carries a diagnostic comes back as it is. Else the
    /// nodes are taken in their order: each is handed the shapes that reach
    /// its inputs from outputs resolved before it, and either resolves its
    /// outputs, which gives a shape to every edge that starts at one of
    /// them, or reports the input whose shape is missing.
    pub fn infer_shapes(&self, blueprint: SortedGraphBlueprint) -> (inferred: SortedGraphBlueprint)
        ensures
            blueprint.lint@.len() > 0 ==> inferred == blueprint,
            blueprint.lint@.len() == 0 ==> ({
                let end = self@.infer_upto(
                    node_views(blueprint.nodes@),
                    blueprint.nodes@.len() as int,
                );
                &&& inferred.nodes == blueprint.nodes
                &&& edge_shape_views(inferred.edges@) == end.edge_shapes
                &&& inferred.lint@ == end.errors
            }),
    {
        if blueprint.lint.has_blocking_errors() {
            return blueprint;
        }
        let SortedGraphBlueprint { nodes, edges: _, lint } = blueprint;
        let mut lint = lint;
        let mut resolved: Table<HandleRef, TensorShape> = Table::new();
        let mut shapes: Vec<(Id, TensorShape)> = Vec::new();
        let ghost views = node_views(nodes@);
        proof {
            assert(shape_views(resolved@) =~= Map::<HandleKey, Seq<usize>>::empty());
            assert(edge_shape_views(shapes@) =~= Seq::<(Name, Seq<usize>)>::empty());
            assert(lint@ =~= Seq::<LintErrorView>::empty());
        }
        let mut i: usize = 0;
        while i < nodes.len()
            invariant
                i <= nodes@.len(),
                views == node_views(nodes@),
                self@.infer_upto(views, i as int) == (Inference {
                    resolved: shape_views(resolved@),
                    edge_shapes: edge_shape_views(shapes@),
                    errors: lint@,
                }),
            decreases nodes@.len() - i,
        {
            let node = &nodes[i].0;
            let config = &nodes[i].1;
            let inputs = self.gather_inputs(&resolved, node);
            match config.infer_output_shapes(&inputs) {
                Ok(outputs) => {
                    GraphBlueprint::enter_outputs(&mut resolved, node, &outputs);
                    self.record_edges(&mut shapes, node, &outputs);
                },
                Err(ConfigError::MissingInputShape(id)) => {
                    lint.push_error(
                        LintError::UnInferrableTensorShape {
                            handle: HandleRef { node_id: node.clone(), handle_id: id },
                        },
                    );
                },
            }
            i += 1;
        }
        SortedGraphBlueprint { nodes, edges: shapes, lint }
    }
}

} // verus!
