//! The identity node: one input, one output of the same shape, or a source
//! with a fixed output shape.

use vstd::prelude::*;

use crate::nodes::config::{
    shape_views, Config, ConfigError, ConfigErrorView, NodeConfigView, ShapeTable, Shapes,
};
use crate::nodes::ident::{DataType, HandleDef, Id, Name, TensorShape};

verus! {

/// A node that hands its input on unchanged. With `fixed_output` set it is a
/// source: its output has that shape whatever comes in.
#[derive(Debug)]
pub struct DummyNode {
    pub fixed_output: Option<TensorShape>,
}

/// An identity node as contracts see it.
pub struct DummyNodeView {
    pub fixed_output: Option<Seq<usize>>,
}

impl DummyNodeView {
    /// One float input, `in_1`.
    pub open spec fn in_handles(self) -> Seq<(Name, DataType)> {
        seq![("in_1"@, DataType::FloatTensor)]
    }

    /// One float output, `out_1`.
    pub open spec fn out_handles(self) -> Seq<(Name, DataType)> {
        seq![("out_1"@, DataType::FloatTensor)]
    }

    /// `out_1` has the fixed shape if there is one, else the shape of
    /// `in_1`; without either, `in_1` is reported missing.
    pub open spec fn infer(self, inputs: Shapes) -> Result<Shapes, ConfigErrorView> {
        match self.fixed_output {
            Some(shape) => Ok(Map::<Name, Seq<usize>>::empty().insert("out_1"@, shape)),
            None => if inputs.contains_key("in_1"@) {
                Ok(Map::<Name, Seq<usize>>::empty().insert("out_1"@, inputs["in_1"@]))
            } else {
                Err(ConfigErrorView::MissingInputShape("in_1"@))
            },
        }
    }
}

impl View for DummyNode {
    type V = DummyNodeView;

    open spec fn view(&self) -> DummyNodeView {
        DummyNodeView {
            fixed_output: match self.fixed_output {
                Some(shape) => Some(shape@),
                None => None,
            },
        }
    }
}

impl Default for DummyNode {
    fn default() -> (node: DummyNode)
        ensures
            node.fixed_output is None,
    {
        DummyNode { fixed_output: None }
    }
}

impl Clone for DummyNode {
    fn clone(&self) -> (node: DummyNode)
        ensures
            node@ == self@,
    {
        match &self.fixed_output {
            Some(shape) => DummyNode { fixed_output: Some(shape.clone()) },
            None => DummyNode { fixed_output: None },
        }
    }
}

/// The table that lists `shape` under `out_1` and nothing else.
fn single_output(shape: &TensorShape) -> (table: ShapeTable)
    ensures
        shape_views(table@) == Map::<Name, Seq<usize>>::empty().insert("out_1"@, shape@),
{
    let mut table: ShapeTable = ShapeTable::new();
    table.insert(Id::new("out_1"), shape.clone());
    proof {
        assert(shape_views(table@) =~= Map::<Name, Seq<usize>>::empty().insert(
            "out_1"@,
            shape@,
        ));
    }
    table
}

impl Config for DummyNode {
    open spec fn kind(&self) -> NodeConfigView {
        NodeConfigView::Dummy(self@)
    }

    fn in_handles(&self) -> (defs: Vec<HandleDef>) {
        let mut defs: Vec<HandleDef> = Vec::new();
        defs.push(HandleDef { id: Id::new("in_1"), dtype: DataType::FloatTensor });
        proof {
            assert(crate::nodes::config::handle_views(defs@) =~= self@.in_handles());
        }
        defs
    }

    fn out_handles(&self) -> (defs: Vec<HandleDef>) {
        let mut defs: Vec<HandleDef> = Vec::new();
        defs.push(HandleDef { id: Id::new("out_1"), dtype: DataType::FloatTensor });
        proof {
            assert(crate::nodes::config::handle_views(defs@) =~= self@.out_handles());
        }
        defs
    }

    fn infer_output_shapes(&self, input_shapes: &ShapeTable) -> (outcome: Result<
        ShapeTable,
        ConfigError,
    >) {
        if let Some(shape) = &self.fixed_output {
            return Ok(single_output(shape));
        }
        let input = Id::new("in_1");
        match input_shapes.get(&input) {
            Some(shape) => Ok(single_output(shape)),
            None => Err(ConfigError::MissingInputShape(input)),
        }
    }
}

} // verus!
