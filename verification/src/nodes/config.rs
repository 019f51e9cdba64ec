//! What every node kind can do, and the closed set of node kinds.

use vstd::prelude::*;

use crate::nodes::dummy::{DummyNode, DummyNodeView};
use crate::nodes::ident::{DataType, HandleDef, Id, Name, TensorShape};
use crate::nodes::table::Table;

verus! {

/// Why a node kind could not infer its output shapes.
#[derive(Debug, PartialEq)]
pub enum ConfigError {
    MissingInputShape(Id),
}

/// A configuration error as contracts see it.
pub enum ConfigErrorView {
    MissingInputShape(Name),
}

impl View for ConfigError {
    type V = ConfigErrorView;

    open spec fn view(&self) -> ConfigErrorView {
        match self {
            ConfigError::MissingInputShape(id) => ConfigErrorView::MissingInputShape(id@),
        }
    }
}

impl Clone for ConfigError {
    fn clone(&self) -> (error: ConfigError)
        ensures
            error == *self,
    {
        match self {
            ConfigError::MissingInputShape(id) => ConfigError::MissingInputShape(id.clone()),
        }
    }
}

/// Shapes by handle id.
pub type ShapeTable = Table<Id, TensorShape>;

/// Shapes by handle id, as contracts see them.
pub type Shapes = Map<Name, Seq<usize>>;

/// The shapes that a table lists.
pub open spec fn shape_views<K>(table: Map<K, TensorShape>) -> Map<K, Seq<usize>> {
    table.map_values(|shape: TensorShape| shape@)
}

/// What a shape inference came to, as contracts see it.
pub open spec fn shape_outcome(outcome: Result<ShapeTable, ConfigError>) -> Result<
    Shapes,
    ConfigErrorView,
> {
    match outcome {
        Ok(table) => Ok(shape_views(table@)),
        Err(error) => Err(error@),
    }
}

/// The declared handles, as contracts see them.
pub open spec fn handle_views(defs: Seq<HandleDef>) -> Seq<(Name, DataType)> {
    Seq::new(defs.len(), |i: int| defs[i]@)
}

/// The type of the first handle named `name`, if there is one.
pub open spec fn handle_type(defs: Seq<(Name, DataType)>, name: Name) -> Option<DataType>
    decreases defs.len(),
{
    if defs.len() == 0 {
        None
    } else if defs.first().0 == name {
        Some(defs.first().1)
    } else {
        handle_type(defs.drop_first(), name)
    }
}

/// A handle is found exactly if one of that name is declared, and the type
/// that is found is that of the first one.
pub proof fn lemma_handle_type(defs: Seq<(Name, DataType)>, name: Name)
    ensures
        handle_type(defs, name) is None <==> forall|i: int|
            0 <= i < defs.len() ==> (#[trigger] defs[i]).0 != name,
        handle_type(defs, name) matches Some(dtype) ==> exists|i: int|
            0 <= i < defs.len() && #[trigger] defs[i] == (name, dtype) && forall|j: int|
                0 <= j < i ==> (#[trigger] defs[j]).0 != name,
    decreases defs.len(),
{
    if defs.len() > 0 {
        let rest = defs.drop_first();
        lemma_handle_type(rest, name);
        if defs.first().0 == name {
            assert(defs[0] == (name, defs.first().1));
        } else {
            assert forall|i: int| 1 <= i < defs.len() implies defs[i] == rest[i - 1] by {}
            if handle_type(rest, name) is None {
                assert forall|i: int| 0 <= i < defs.len() implies (#[trigger] defs[i]).0
                    != name by {
                    if i > 0 {
                        assert(rest[i - 1].0 != name);
                    }
                }
            } else {
                let dtype = handle_type(rest, name).unwrap();
                let at = choose|i: int|
                    0 <= i < rest.len() && #[trigger] rest[i] == (name, dtype) && forall|j: int|
                        0 <= j < i ==> (#[trigger] rest[j]).0 != name;
                assert(defs[at + 1] == (name, dtype));
                assert forall|j: int| 0 <= j < at + 1 implies (#[trigger] defs[j]).0 != name by {
                    if j > 0 {
                        assert(rest[j - 1].0 != name);
                    }
                }
            }
        }
    }
}

/// No two of the handles share a name.
pub open spec fn names_distinct(defs: Seq<(Name, DataType)>) -> bool {
    forall|i: int, j: int| 0 <= i < j < defs.len() ==> (#[trigger] defs[i]).0 != (#[trigger] defs[j]).0
}

/// A node kind with its settings, as contracts see it.
pub enum NodeConfigView {
    Dummy(DummyNodeView),
}

impl NodeConfigView {
    /// The input handles that the node declares.
    pub open spec fn in_handles(self) -> Seq<(Name, DataType)> {
        match self {
            NodeConfigView::Dummy(node) => node.in_handles(),
        }
    }

    /// The output handles that the node declares.
    pub open spec fn out_handles(self) -> Seq<(Name, DataType)> {
        match self {
            NodeConfigView::Dummy(node) => node.out_handles(),
        }
    }

    /// The output shapes that follow from the known input shapes, or the
    /// input whose shape is missing.
    pub open spec fn infer(self, inputs: Shapes) -> Result<Shapes, ConfigErrorView> {
        match self {
            NodeConfigView::Dummy(node) => node.infer(inputs),
        }
    }

    /// Among the inputs of a node, and among its outputs, no two handles
    /// share a name.
    pub proof fn lemma_handle_names_distinct(self)
        ensures
            names_distinct(self.in_handles()),
            names_distinct(self.out_handles()),
    {
    }

    /// A node that infers its output shapes gives a shape to outputs that
    /// it declares, and a node that fails reports an input that it
    /// declares.
    pub proof fn lemma_infer_speaks_of_own_handles(self, inputs: Shapes)
        ensures
            match self.infer(inputs) {
                Ok(outputs) => forall|name: Name| #[trigger]
                    outputs.contains_key(name) ==> handle_type(self.out_handles(), name) is Some,
                Err(ConfigErrorView::MissingInputShape(name)) => handle_type(
                    self.in_handles(),
                    name,
                ) is Some && !inputs.contains_key(name),
            },
    {
        reveal_with_fuel(handle_type, 2);
    }
}

/// What every node kind can do.
pub trait Config {
    /// This node as contracts see it.
    spec fn kind(&self) -> NodeConfigView;

    /// The input handles of the node.
    fn in_handles(&self) -> (defs: Vec<HandleDef>)
        ensures
            handle_views(defs@) == self.kind().in_handles(),
    ;

    /// The output handles of the node.
    fn out_handles(&self) -> (defs: Vec<HandleDef>)
        ensures
            handle_views(defs@) == self.kind().out_handles(),
    ;

    /// The shapes of the outputs, given the shapes of the inputs that are
    /// known, by handle id.
    fn infer_output_shapes(&self, input_shapes: &ShapeTable) -> (outcome: Result<
        ShapeTable,
        ConfigError,
    >)
        ensures
            shape_outcome(outcome) == self.kind().infer(shape_views(input_shapes@)),
    ;
}

/// The closed set of node kinds.
#[derive(Debug)]
pub enum NodeConfig {
    Dummy(DummyNode),
}

impl View for NodeConfig {
    type V = NodeConfigView;

    open spec fn view(&self) -> NodeConfigView {
        match self {
            NodeConfig::Dummy(node) => NodeConfigView::Dummy(node@),
        }
    }
}

impl Clone for NodeConfig {
    fn clone(&self) -> (config: NodeConfig)
        ensures
            config@ == self@,
    {
        match self {
            NodeConfig::Dummy(node) => NodeConfig::Dummy(node.clone()),
        }
    }
}

impl Config for NodeConfig {
    open spec fn kind(&self) -> NodeConfigView {
        self@
    }

    fn in_handles(&self) -> (defs: Vec<HandleDef>) {
        match self {
            NodeConfig::Dummy(node) => node.in_handles(),
        }
    }

    fn out_handles(&self) -> (defs: Vec<HandleDef>) {
        match self {
            NodeConfig::Dummy(node) => node.out_handles(),
        }
    }

    fn infer_output_shapes(&self, input_shapes: &ShapeTable) -> (outcome: Result<
        ShapeTable,
        ConfigError,
    >) {
        match self {
            NodeConfig::Dummy(node) => node.infer_output_shapes(input_shapes),
        }
    }
}

} // verus!
