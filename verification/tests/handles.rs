use graphnn::nodes::blueprint::{find_handle, match_handles};
use graphnn::nodes::{
    Config, ConfigError, DataType, DummyNode, GraphBlueprintError, HandleDef, HandleRef, Id,
    NodeConfig, TensorShape,
};
use graphnn::nodes::config::ShapeTable;

fn def(name: &str, dtype: DataType) -> HandleDef {
    HandleDef {
        id: Id::from(name),
        dtype,
    }
}

fn handle(node: &str, name: &str) -> HandleRef {
    HandleRef {
        node_id: Id::from(node),
        handle_id: Id::from(name),
    }
}

#[test]
fn ids_are_compared_by_their_text() {
    assert_eq!(Id::from("node1"), Id::new("node1"));
    assert_eq!(Id::from(String::from("node1")), Id::from("node1"));
    assert_ne!(Id::from("node1"), Id::from("node2"));
    assert_ne!(Id::from("node"), Id::from("node1"));
    assert_eq!(Id::from("abc").as_str(), "abc");
    assert_eq!(Id::from("abc").len(), 3);
    let id = Id::from("x");
    assert_eq!(id.clone(), id);
}

#[test]
fn shapes_are_compared_by_value() {
    assert_eq!(TensorShape::from(vec![1, 2]), TensorShape::from(vec![1, 2]));
    assert_ne!(TensorShape::from(vec![1, 2]), TensorShape::from(vec![2, 1]));
    assert_ne!(TensorShape::from(vec![1, 2]), TensorShape::from(vec![1, 2, 3]));
    assert_eq!(TensorShape::from(vec![]), TensorShape::from(vec![]));
    let shape = TensorShape::from(vec![4, 0, 7]);
    assert_eq!(shape.clone(), shape);
    assert_eq!(shape.0, vec![4, 0, 7]);
}

#[test]
fn handle_refs_are_compared_by_both_ids() {
    assert_eq!(handle("a", "out_1"), handle("a", "out_1"));
    assert_ne!(handle("a", "out_1"), handle("b", "out_1"));
    assert_ne!(handle("a", "out_1"), handle("a", "in_1"));
}

#[test]
fn the_first_handle_of_a_name_is_found() {
    let defs = vec![
        def("x", DataType::IntTensor),
        def("y", DataType::FloatTensor),
        def("x", DataType::FloatTensor),
    ];
    assert_eq!(find_handle(&defs, &Id::from("x")), Some(DataType::IntTensor));
    assert_eq!(find_handle(&defs, &Id::from("y")), Some(DataType::FloatTensor));
    assert_eq!(find_handle(&defs, &Id::from("z")), None);
    assert_eq!(find_handle(&vec![], &Id::from("x")), None);
}

#[test]
fn handles_of_one_type_match() {
    let outputs = vec![def("out", DataType::IntTensor)];
    let inputs = vec![def("in", DataType::IntTensor)];
    assert_eq!(
        match_handles(&outputs, &inputs, &handle("a", "out"), &handle("b", "in")),
        Ok(())
    );
}

#[test]
fn handles_of_two_types_are_a_mismatch() {
    let outputs = vec![def("out", DataType::IntTensor)];
    let inputs = vec![def("in", DataType::FloatTensor)];
    assert_eq!(
        match_handles(&outputs, &inputs, &handle("a", "out"), &handle("b", "in")),
        Err(GraphBlueprintError::HandleMismatch(
            handle("a", "out"),
            handle("b", "in")
        ))
    );
    let outputs = vec![def("out", DataType::FloatTensor)];
    let inputs = vec![def("in", DataType::IntTensor)];
    assert_eq!(
        match_handles(&outputs, &inputs, &handle("a", "out"), &handle("b", "in")),
        Err(GraphBlueprintError::HandleMismatch(
            handle("a", "out"),
            handle("b", "in")
        ))
    );
}

#[test]
fn a_missing_handle_is_reported_before_a_mismatch() {
    let outputs = vec![def("out", DataType::IntTensor)];
    let inputs = vec![def("in", DataType::FloatTensor)];
    assert_eq!(
        match_handles(&outputs, &inputs, &handle("a", "nope"), &handle("b", "in")),
        Err(GraphBlueprintError::HandleDoesNotExist(handle("a", "nope")))
    );
    assert_eq!(
        match_handles(&outputs, &inputs, &handle("a", "out"), &handle("b", "nope")),
        Err(GraphBlueprintError::HandleDoesNotExist(handle("b", "nope")))
    );
    assert_eq!(
        match_handles(&outputs, &inputs, &handle("a", "in"), &handle("b", "out")),
        Err(GraphBlueprintError::HandleDoesNotExist(handle("a", "in")))
    );
}

#[test]
fn the_identity_node_declares_one_input_and_one_output() {
    let node = DummyNode::default();
    assert_eq!(node.fixed_output, None);
    let inputs = node.in_handles();
    assert_eq!(inputs.len(), 1);
    assert_eq!(inputs[0].id, Id::from("in_1"));
    assert_eq!(inputs[0].dtype, DataType::FloatTensor);
    let outputs = node.out_handles();
    assert_eq!(outputs.len(), 1);
    assert_eq!(outputs[0].id, Id::from("out_1"));
    assert_eq!(outputs[0].dtype, DataType::FloatTensor);
    let config = NodeConfig::Dummy(node);
    assert_eq!(config.in_handles()[0].id, Id::from("in_1"));
    assert_eq!(config.out_handles()[0].id, Id::from("out_1"));
}

#[test]
fn the_identity_node_hands_its_input_shape_on() {
    let node = DummyNode::default();
    let mut inputs = ShapeTable::new();
    inputs.insert(Id::from("in_1"), TensorShape::from(vec![8, 16]));
    inputs.insert(Id::from("other"), TensorShape::from(vec![1]));
    let outputs = node.infer_output_shapes(&inputs).unwrap();
    assert_eq!(outputs.len(), 1);
    assert_eq!(
        outputs.get(&Id::from("out_1")),
        Some(&TensorShape::from(vec![8, 16]))
    );
}

#[test]
fn the_identity_node_misses_its_input_shape() {
    let node = DummyNode::default();
    let mut inputs = ShapeTable::new();
    inputs.insert(Id::from("out_1"), TensorShape::from(vec![8, 16]));
    assert_eq!(
        node.infer_output_shapes(&inputs).err(),
        Some(ConfigError::MissingInputShape(Id::from("in_1")))
    );
    assert_eq!(
        NodeConfig::Dummy(node)
            .infer_output_shapes(&ShapeTable::new())
            .err(),
        Some(ConfigError::MissingInputShape(Id::from("in_1")))
    );
}

#[test]
fn a_fixed_output_shape_wins_over_the_input_shape() {
    let node = DummyNode {
        fixed_output: Some(TensorShape::from(vec![1, 3, 224, 224])),
    };
    let outputs = node.infer_output_shapes(&ShapeTable::new()).unwrap();
    assert_eq!(
        outputs.get(&Id::from("out_1")),
        Some(&TensorShape::from(vec![1, 3, 224, 224]))
    );
    let mut inputs = ShapeTable::new();
    inputs.insert(Id::from("in_1"), TensorShape::from(vec![9]));
    let outputs = node.infer_output_shapes(&inputs).unwrap();
    assert_eq!(outputs.len(), 1);
    assert_eq!(
        outputs.get(&Id::from("out_1")),
        Some(&TensorShape::from(vec![1, 3, 224, 224]))
    );
}
