use graphnn::nodes::{
    DummyNode, GraphBlueprint, GraphBlueprintError, HandleRef, Id, NodeConfig, TensorShape,
};

#[test]
fn test_add_remove_node() {
    let mut graph = GraphBlueprint::new();
    let id = Id::from("node1");
    let config = NodeConfig::Dummy(DummyNode::default());

    assert!(graph.add_node(id.clone(), config.clone()).is_ok());
    assert!(graph.nodes.contains_key(&id));

    // Test duplicate add
    assert_eq!(
        graph.add_node(id.clone(), config),
        Err(GraphBlueprintError::NodeExists(id.clone()))
    );

    assert!(graph.remove_node(id.clone()).is_ok());
    assert!(!graph.nodes.contains_key(&id));

    // Test remove non-existent
    assert_eq!(
        graph.remove_node(id.clone()),
        Err(GraphBlueprintError::NodeDoesNotExist(id))
    );
}

#[test]
fn test_connect_nodes_success() {
    let mut graph = GraphBlueprint::new();
    let node1_id = Id::from("node1");
    let node2_id = Id::from("node2");

    graph
        .add_node(node1_id.clone(), NodeConfig::Dummy(DummyNode::default()))
        .unwrap();
    graph
        .add_node(node2_id.clone(), NodeConfig::Dummy(DummyNode::default()))
        .unwrap();

    let source = HandleRef {
        node_id: node1_id.clone(),
        handle_id: Id::from("out_1"),
    };
    let target = HandleRef {
        node_id: node2_id.clone(),
        handle_id: Id::from("in_1"),
    };
    let edge_id = Id::from("edge1");

    assert!(graph
        .connect_nodes(source.clone(), target.clone(), edge_id.clone())
        .is_ok());
    assert_eq!(graph.edges.len(), 1);
    assert_eq!(graph.edges[0].id, edge_id);
}

#[test]
fn test_connect_nodes_failures() {
    let mut graph = GraphBlueprint::new();
    let node1_id = Id::from("node1");
    let node2_id = Id::from("node2");

    graph
        .add_node(node1_id.clone(), NodeConfig::Dummy(DummyNode::default()))
        .unwrap();
    // node2 not added

    let source = HandleRef {
        node_id: node1_id.clone(),
        handle_id: Id::from("out_1"),
    };
    let target = HandleRef {
        node_id: node2_id.clone(),
        handle_id: Id::from("in_1"),
    };
    let edge_id = Id::from("edge1");

    // NodeDoesNotExist (target)
    assert_eq!(
        graph.connect_nodes(source.clone(), target.clone(), edge_id.clone()),
        Err(GraphBlueprintError::NodeDoesNotExist(node2_id.clone()))
    );

    graph
        .add_node(node2_id.clone(), NodeConfig::Dummy(DummyNode::default()))
        .unwrap();

    // HandleDoesNotExist (source handle wrong)
    let bad_source = HandleRef {
        node_id: node1_id.clone(),
        handle_id: Id::from("wrong_handle"),
    };
    assert_eq!(
        graph.connect_nodes(bad_source.clone(), target.clone(), edge_id.clone()),
        Err(GraphBlueprintError::HandleDoesNotExist(bad_source))
    );

    // HandleDoesNotExist (target handle wrong)
    let bad_target = HandleRef {
        node_id: node2_id.clone(),
        handle_id: Id::from("wrong_handle"),
    };
    assert_eq!(
        graph.connect_nodes(source.clone(), bad_target.clone(), edge_id.clone()),
        Err(GraphBlueprintError::HandleDoesNotExist(bad_target))
    );

    // EdgeExists
    graph
        .connect_nodes(source.clone(), target.clone(), edge_id.clone())
        .unwrap();
    assert_eq!(
        graph.connect_nodes(source.clone(), target.clone(), edge_id.clone()),
        Err(GraphBlueprintError::EdgeExists(edge_id.clone()))
    );
}

#[test]
fn test_disconnect() {
    let mut graph = GraphBlueprint::new();
    let node1_id = Id::from("node1");
    let node2_id = Id::from("node2");

    graph
        .add_node(node1_id.clone(), NodeConfig::Dummy(DummyNode::default()))
        .unwrap();
    graph
        .add_node(node2_id.clone(), NodeConfig::Dummy(DummyNode::default()))
        .unwrap();

    let source = HandleRef {
        node_id: node1_id.clone(),
        handle_id: Id::from("out_1"),
    };
    let target = HandleRef {
        node_id: node2_id.clone(),
        handle_id: Id::from("in_1"),
    };
    let edge_id = Id::from("edge1");

    graph
        .connect_nodes(source, target, edge_id.clone())
        .unwrap();
    assert_eq!(graph.edges.len(), 1);

    assert!(graph.disconnect(edge_id.clone()).is_ok());
    assert_eq!(graph.edges.len(), 0);

    // Disconnect non-existent
    assert_eq!(
        graph.disconnect(edge_id.clone()),
        Err(GraphBlueprintError::EdgeDoesNotExist(edge_id))
    );
}

#[test]
fn test_sort_success() {
    let mut graph = GraphBlueprint::new();
    let node1_id = Id::from("node1");
    let node2_id = Id::from("node2");
    let node3_id = Id::from("node3");

    graph
        .add_node(node1_id.clone(), NodeConfig::Dummy(DummyNode::default()))
        .unwrap();
    graph
        .add_node(node2_id.clone(), NodeConfig::Dummy(DummyNode::default()))
        .unwrap();
    graph
        .add_node(node3_id.clone(), NodeConfig::Dummy(DummyNode::default()))
        .unwrap();

    // node1 -> node2 -> node3
    graph
        .connect_nodes(
            HandleRef {
                node_id: node1_id.clone(),
                handle_id: Id::from("out_1"),
            },
            HandleRef {
                node_id: node2_id.clone(),
                handle_id: Id::from("in_1"),
            },
            Id::from("edge1"),
        )
        .unwrap();

    graph
        .connect_nodes(
            HandleRef {
                node_id: node2_id.clone(),
                handle_id: Id::from("out_1"),
            },
            HandleRef {
                node_id: node3_id.clone(),
                handle_id: Id::from("in_1"),
            },
            Id::from("edge2"),
        )
        .unwrap();

    let sorted = graph.sort();
    assert!(!sorted.lint.has_blocking_errors());
    assert_eq!(sorted.nodes.len(), 3);
    assert_eq!(sorted.nodes[0].0, node1_id);
    assert_eq!(sorted.nodes[1].0, node2_id);
    assert_eq!(sorted.nodes[2].0, node3_id);
}

#[test]
fn test_sort_cycle() {
    let mut graph = GraphBlueprint::new();
    let node1_id = Id::from("node1");
    let node2_id = Id::from("node2");

    graph
        .add_node(node1_id.clone(), NodeConfig::Dummy(DummyNode::default()))
        .unwrap();
    graph
        .add_node(node2_id.clone(), NodeConfig::Dummy(DummyNode::default()))
        .unwrap();

    // node1 -> node2
    graph
        .connect_nodes(
            HandleRef {
                node_id: node1_id.clone(),
                handle_id: Id::from("out_1"),
            },
            HandleRef {
                node_id: node2_id.clone(),
                handle_id: Id::from("in_1"),
            },
            Id::from("edge1"),
        )
        .unwrap();

    // node2 -> node1 (cycle)
    graph
        .connect_nodes(
            HandleRef {
                node_id: node2_id.clone(),
                handle_id: Id::from("out_1"),
            },
            HandleRef {
                node_id: node1_id.clone(),
                handle_id: Id::from("in_1"),
            },
            Id::from("edge2"),
        )
        .unwrap();

    let sorted = graph.sort();
    assert!(sorted.lint.has_blocking_errors());
}

#[test]
fn test_infer_shapes_success() {
    let mut graph = GraphBlueprint::new();
    let node1_id = Id::from("node1");
    let node2_id = Id::from("node2");

    // Node 1 is a source with fixed output shape
    let shape = TensorShape::from(vec![1, 3, 224, 224]);
    let mut source_node = DummyNode::default();
    source_node.fixed_output = Some(shape.clone());

    graph
        .add_node(node1_id.clone(), NodeConfig::Dummy(source_node))
        .unwrap();
    graph
        .add_node(node2_id.clone(), NodeConfig::Dummy(DummyNode::default()))
        .unwrap();

    // node1 -> node2
    let edge_id = Id::from("edge1");
    graph
        .connect_nodes(
            HandleRef {
                node_id: node1_id.clone(),
                handle_id: Id::from("out_1"),
            },
            HandleRef {
                node_id: node2_id.clone(),
                handle_id: Id::from("in_1"),
            },
            edge_id.clone(),
        )
        .unwrap();

    let sorted = graph.sort();
    assert!(!sorted.lint.has_blocking_errors());

    let inferred = graph.infer_shapes(sorted);
    assert!(!inferred.lint.has_blocking_errors());

    // Check if edge has shape
    assert_eq!(inferred.edges.len(), 1);
    assert_eq!(inferred.edges[0].0, edge_id);
    assert_eq!(inferred.edges[0].1, shape);
}

#[test]
fn test_infer_shapes_failure() {
    let mut graph = GraphBlueprint::new();
    let node1_id = Id::from("node1");
    let node2_id = Id::from("node2");

    // Node 1 is NOT a source (no fixed output), so it will fail to infer its output because it has no inputs
    graph
        .add_node(node1_id.clone(), NodeConfig::Dummy(DummyNode::default()))
        .unwrap();
    graph
        .add_node(node2_id.clone(), NodeConfig::Dummy(DummyNode::default()))
        .unwrap();

    // node1 -> node2
    graph
        .connect_nodes(
            HandleRef {
                node_id: node1_id.clone(),
                handle_id: Id::from("out_1"),
            },
            HandleRef {
                node_id: node2_id.clone(),
                handle_id: Id::from("in_1"),
            },
            Id::from("edge1"),
        )
        .unwrap();

    let sorted = graph.sort();
    assert!(!sorted.lint.has_blocking_errors());

    let inferred = graph.infer_shapes(sorted);
    // Should have errors because node1 cannot infer output
    assert!(inferred.lint.has_blocking_errors());
}

fn handle(node: &str, name: &str) -> HandleRef {
    HandleRef {
        node_id: Id::from(node),
        handle_id: Id::from(name),
    }
}

fn two_nodes() -> GraphBlueprint {
    let mut graph = GraphBlueprint::new();
    graph
        .add_node(Id::from("node1"), NodeConfig::Dummy(DummyNode::default()))
        .unwrap();
    graph
        .add_node(Id::from("node2"), NodeConfig::Dummy(DummyNode::default()))
        .unwrap();
    graph
}

#[test]
fn new_blueprint_is_empty() {
    let graph = GraphBlueprint::new();
    assert_eq!(graph.nodes.len(), 0);
    assert_eq!(graph.edges.len(), 0);
}

#[test]
fn second_add_keeps_the_first_node() {
    let mut graph = GraphBlueprint::new();
    let shape = TensorShape::from(vec![2, 5]);
    let first = DummyNode {
        fixed_output: Some(shape.clone()),
    };
    graph
        .add_node(Id::from("n"), NodeConfig::Dummy(first))
        .unwrap();
    assert_eq!(
        graph.add_node(Id::from("n"), NodeConfig::Dummy(DummyNode::default())),
        Err(GraphBlueprintError::NodeExists(Id::from("n")))
    );
    assert_eq!(graph.nodes.len(), 1);
    match graph.nodes.get(&Id::from("n")) {
        Some(NodeConfig::Dummy(node)) => assert_eq!(node.fixed_output, Some(shape)),
        None => panic!("the node is gone"),
    }
}

#[test]
fn second_edge_under_one_id_is_refused() {
    let mut graph = two_nodes();
    graph
        .connect_nodes(handle("node1", "out_1"), handle("node2", "in_1"), Id::from("e"))
        .unwrap();
    assert_eq!(
        graph.connect_nodes(handle("node2", "out_1"), handle("node1", "in_1"), Id::from("e")),
        Err(GraphBlueprintError::EdgeExists(Id::from("e")))
    );
    assert_eq!(graph.edges.len(), 1);
    assert_eq!(graph.edges[0].source, handle("node1", "out_1"));
    assert_eq!(graph.edges[0].target, handle("node2", "in_1"));
}

#[test]
fn taken_edge_id_is_reported_before_missing_nodes() {
    let mut graph = two_nodes();
    graph
        .connect_nodes(handle("node1", "out_1"), handle("node2", "in_1"), Id::from("e"))
        .unwrap();
    assert_eq!(
        graph.connect_nodes(handle("ghost", "out_1"), handle("other", "in_1"), Id::from("e")),
        Err(GraphBlueprintError::EdgeExists(Id::from("e")))
    );
}

#[test]
fn missing_source_node_is_reported_before_missing_target_node() {
    let mut graph = GraphBlueprint::new();
    assert_eq!(
        graph.connect_nodes(handle("a", "out_1"), handle("b", "in_1"), Id::from("e")),
        Err(GraphBlueprintError::NodeDoesNotExist(Id::from("a")))
    );
    assert_eq!(graph.edges.len(), 0);
}

#[test]
fn missing_node_is_reported_before_missing_handle() {
    let mut graph = two_nodes();
    assert_eq!(
        graph.connect_nodes(handle("node1", "wrong"), handle("ghost", "in_1"), Id::from("e")),
        Err(GraphBlueprintError::NodeDoesNotExist(Id::from("ghost")))
    );
}

#[test]
fn source_must_name_an_output() {
    let mut graph = two_nodes();
    assert_eq!(
        graph.connect_nodes(handle("node1", "in_1"), handle("node2", "in_1"), Id::from("e")),
        Err(GraphBlueprintError::HandleDoesNotExist(handle("node1", "in_1")))
    );
    assert_eq!(graph.edges.len(), 0);
}

#[test]
fn target_must_name_an_input() {
    let mut graph = two_nodes();
    assert_eq!(
        graph.connect_nodes(handle("node1", "out_1"), handle("node2", "out_1"), Id::from("e")),
        Err(GraphBlueprintError::HandleDoesNotExist(handle("node2", "out_1")))
    );
    assert_eq!(graph.edges.len(), 0);
}

#[test]
fn missing_source_handle_is_reported_before_missing_target_handle() {
    let mut graph = two_nodes();
    assert_eq!(
        graph.connect_nodes(handle("node1", "x"), handle("node2", "y"), Id::from("e")),
        Err(GraphBlueprintError::HandleDoesNotExist(handle("node1", "x")))
    );
}

#[test]
fn a_node_may_feed_itself() {
    let mut graph = two_nodes();
    assert_eq!(
        graph.connect_nodes(handle("node1", "out_1"), handle("node1", "in_1"), Id::from("e")),
        Ok(())
    );
    assert_eq!(graph.edges.len(), 1);
}

#[test]
fn refused_edits_change_nothing() {
    let mut graph = two_nodes();
    graph
        .connect_nodes(handle("node1", "out_1"), handle("node2", "in_1"), Id::from("e"))
        .unwrap();
    assert!(graph
        .add_node(Id::from("node1"), NodeConfig::Dummy(DummyNode::default()))
        .is_err());
    assert!(graph.remove_node(Id::from("ghost")).is_err());
    assert!(graph.disconnect(Id::from("ghost")).is_err());
    assert!(graph
        .connect_nodes(handle("node1", "out_1"), handle("node2", "nope"), Id::from("f"))
        .is_err());
    assert_eq!(graph.nodes.len(), 2);
    assert!(graph.nodes.contains_key(&Id::from("node1")));
    assert!(graph.nodes.contains_key(&Id::from("node2")));
    assert_eq!(graph.edges.len(), 1);
    assert_eq!(graph.edges[0].id, Id::from("e"));
}

#[test]
fn disconnect_takes_out_that_edge_only() {
    let mut graph = two_nodes();
    graph
        .add_node(Id::from("node3"), NodeConfig::Dummy(DummyNode::default()))
        .unwrap();
    graph
        .connect_nodes(handle("node1", "out_1"), handle("node2", "in_1"), Id::from("e1"))
        .unwrap();
    graph
        .connect_nodes(handle("node2", "out_1"), handle("node3", "in_1"), Id::from("e2"))
        .unwrap();
    graph
        .connect_nodes(handle("node1", "out_1"), handle("node3", "in_1"), Id::from("e3"))
        .unwrap();
    assert_eq!(graph.disconnect(Id::from("e2")), Ok(()));
    assert_eq!(graph.edges.len(), 2);
    assert_eq!(graph.edges[0].id, Id::from("e1"));
    assert_eq!(graph.edges[1].id, Id::from("e3"));
    assert_eq!(graph.find_edge(&Id::from("e3")), Some(1));
    assert_eq!(graph.find_edge(&Id::from("e2")), None);
    // the id is free again
    assert_eq!(
        graph.connect_nodes(handle("node2", "out_1"), handle("node3", "in_1"), Id::from("e2")),
        Ok(())
    );
}

#[test]
fn removing_a_node_leaves_its_edges() {
    let mut graph = two_nodes();
    graph
        .connect_nodes(handle("node1", "out_1"), handle("node2", "in_1"), Id::from("e"))
        .unwrap();
    assert_eq!(graph.remove_node(Id::from("node2")), Ok(()));
    assert_eq!(graph.nodes.len(), 1);
    assert_eq!(graph.edges.len(), 1);
    assert_eq!(graph.edges[0].target, handle("node2", "in_1"));
    // the caller disconnects what is left over
    assert_eq!(graph.disconnect(Id::from("e")), Ok(()));
    assert_eq!(graph.edges.len(), 0);
}

#[test]
fn a_clone_is_a_second_blueprint() {
    let mut graph = two_nodes();
    graph
        .connect_nodes(handle("node1", "out_1"), handle("node2", "in_1"), Id::from("e"))
        .unwrap();
    let copy = graph.clone();
    graph.remove_node(Id::from("node1")).unwrap();
    graph.disconnect(Id::from("e")).unwrap();
    assert_eq!(copy.nodes.len(), 2);
    assert!(copy.nodes.contains_key(&Id::from("node1")));
    assert_eq!(copy.edges.len(), 1);
    assert_eq!(copy.edges[0].id, Id::from("e"));
}
