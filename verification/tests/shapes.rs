use graphnn::nodes::{
    DummyNode, GraphBlueprint, HandleRef, Id, LintError, LintOutput, NodeConfig,
    SortedGraphBlueprint, TensorShape,
};

fn handle(node: &str, name: &str) -> HandleRef {
    HandleRef {
        node_id: Id::from(node),
        handle_id: Id::from(name),
    }
}

fn identity() -> NodeConfig {
    NodeConfig::Dummy(DummyNode::default())
}

fn source(shape: Vec<usize>) -> NodeConfig {
    NodeConfig::Dummy(DummyNode {
        fixed_output: Some(TensorShape::from(shape)),
    })
}

fn connect(graph: &mut GraphBlueprint, id: &str, from: &str, to: &str) {
    graph
        .connect_nodes(handle(from, "out_1"), handle(to, "in_1"), Id::from(id))
        .unwrap();
}

#[test]
fn a_fixed_shape_flows_through_an_identity_node() {
    let mut graph = GraphBlueprint::new();
    graph.add_node(Id::from("src"), source(vec![1, 3, 224, 224])).unwrap();
    graph.add_node(Id::from("mid"), identity()).unwrap();
    graph.add_node(Id::from("end"), identity()).unwrap();
    connect(&mut graph, "e1", "src", "mid");
    connect(&mut graph, "e2", "mid", "end");
    let inferred = graph.infer_shapes(graph.sort());
    assert_eq!(inferred.lint.errors, vec![]);
    assert_eq!(inferred.nodes.len(), 3);
    assert_eq!(
        inferred.edges,
        vec![
            (Id::from("e1"), TensorShape::from(vec![1, 3, 224, 224])),
            (Id::from("e2"), TensorShape::from(vec![1, 3, 224, 224])),
        ]
    );
}

#[test]
fn every_edge_from_a_resolved_output_gets_its_shape() {
    let mut graph = GraphBlueprint::new();
    graph.add_node(Id::from("src"), source(vec![4, 2])).unwrap();
    graph.add_node(Id::from("left"), identity()).unwrap();
    graph.add_node(Id::from("right"), identity()).unwrap();
    connect(&mut graph, "to_right", "src", "right");
    connect(&mut graph, "to_left", "src", "left");
    let inferred = graph.infer_shapes(graph.sort());
    assert!(!inferred.lint.has_blocking_errors());
    assert_eq!(
        inferred.edges,
        vec![
            (Id::from("to_right"), TensorShape::from(vec![4, 2])),
            (Id::from("to_left"), TensorShape::from(vec![4, 2])),
        ]
    );
}

#[test]
fn an_unfed_identity_node_is_reported_and_so_is_what_it_feeds() {
    let mut graph = GraphBlueprint::new();
    graph.add_node(Id::from("node1"), identity()).unwrap();
    graph.add_node(Id::from("node2"), identity()).unwrap();
    connect(&mut graph, "edge1", "node1", "node2");
    let inferred = graph.infer_shapes(graph.sort());
    assert!(inferred.lint.has_blocking_errors());
    assert_eq!(
        inferred.lint.errors,
        vec![
            LintError::UnInferrableTensorShape {
                handle: handle("node1", "in_1")
            },
            LintError::UnInferrableTensorShape {
                handle: handle("node2", "in_1")
            },
        ]
    );
    assert_eq!(inferred.edges, vec![]);
    assert_eq!(inferred.nodes.len(), 2);
}

#[test]
fn one_failure_does_not_stop_the_rest() {
    let mut graph = GraphBlueprint::new();
    graph.add_node(Id::from("unfed"), identity()).unwrap();
    graph.add_node(Id::from("src"), source(vec![5])).unwrap();
    graph.add_node(Id::from("fed"), identity()).unwrap();
    connect(&mut graph, "e", "src", "fed");
    let inferred = graph.infer_shapes(graph.sort());
    assert_eq!(
        inferred.lint.errors,
        vec![LintError::UnInferrableTensorShape {
            handle: handle("unfed", "in_1")
        }]
    );
    assert_eq!(
        inferred.edges,
        vec![(Id::from("e"), TensorShape::from(vec![5]))]
    );
}

#[test]
fn of_two_edges_at_one_input_the_later_one_counts() {
    let mut graph = GraphBlueprint::new();
    graph.add_node(Id::from("first"), source(vec![1])).unwrap();
    graph.add_node(Id::from("second"), source(vec![2, 2])).unwrap();
    graph.add_node(Id::from("both"), identity()).unwrap();
    graph.add_node(Id::from("after"), identity()).unwrap();
    connect(&mut graph, "a", "first", "both");
    connect(&mut graph, "b", "second", "both");
    connect(&mut graph, "c", "both", "after");
    let inferred = graph.infer_shapes(graph.sort());
    assert!(!inferred.lint.has_blocking_errors());
    assert_eq!(
        inferred.edges,
        vec![
            (Id::from("a"), TensorShape::from(vec![1])),
            (Id::from("b"), TensorShape::from(vec![2, 2])),
            (Id::from("c"), TensorShape::from(vec![2, 2])),
        ]
    );
}

#[test]
fn a_blueprint_with_a_cycle_comes_back_as_it_is() {
    let mut graph = GraphBlueprint::new();
    graph.add_node(Id::from("src"), source(vec![3])).unwrap();
    graph.add_node(Id::from("a"), identity()).unwrap();
    graph.add_node(Id::from("b"), identity()).unwrap();
    connect(&mut graph, "sa", "src", "a");
    connect(&mut graph, "ab", "a", "b");
    connect(&mut graph, "ba", "b", "a");
    let sorted = graph.sort();
    assert!(sorted.lint.has_blocking_errors());
    let inferred = graph.infer_shapes(sorted);
    assert_eq!(inferred.nodes.len(), 1);
    assert_eq!(inferred.nodes[0].0, Id::from("src"));
    assert_eq!(inferred.edges, vec![]);
    assert_eq!(
        inferred.lint.errors,
        vec![LintError::Cycle {
            edges: vec![Id::from("sa"), Id::from("ab"), Id::from("ba")]
        }]
    );
}

#[test]
fn any_diagnostic_blocks_shape_inference() {
    let mut graph = GraphBlueprint::new();
    graph.add_node(Id::from("src"), source(vec![3])).unwrap();
    let mut lint = LintOutput::default();
    lint.push_error(LintError::MismatchedTypes {
        edge: Id::from("e"),
    });
    let given = SortedGraphBlueprint {
        nodes: vec![(Id::from("src"), source(vec![3]))],
        edges: vec![(Id::from("old"), TensorShape::from(vec![1]))],
        lint,
    };
    let inferred = graph.infer_shapes(given);
    assert_eq!(
        inferred.edges,
        vec![(Id::from("old"), TensorShape::from(vec![1]))]
    );
    assert_eq!(
        inferred.lint.errors,
        vec![LintError::MismatchedTypes {
            edge: Id::from("e")
        }]
    );
}

#[test]
fn earlier_edge_shapes_are_replaced() {
    let mut graph = GraphBlueprint::new();
    graph.add_node(Id::from("src"), source(vec![3])).unwrap();
    graph.add_node(Id::from("end"), identity()).unwrap();
    connect(&mut graph, "e", "src", "end");
    let mut sorted = graph.sort();
    sorted
        .edges
        .push((Id::from("old"), TensorShape::from(vec![1])));
    let inferred = graph.infer_shapes(sorted);
    assert_eq!(
        inferred.edges,
        vec![(Id::from("e"), TensorShape::from(vec![3]))]
    );
}

#[test]
fn diagnostics_are_kept_in_the_order_in_which_they_came() {
    let mut lint = LintOutput::default();
    assert!(!lint.has_blocking_errors());
    assert_eq!(lint.errors.len(), 0);
    lint.push_error(LintError::MismatchedTypes {
        edge: Id::from("e"),
    });
    assert!(lint.has_blocking_errors());
    lint.push_error(LintError::Cycle {
        edges: vec![Id::from("a"), Id::from("b")],
    });
    assert_eq!(
        lint.errors,
        vec![
            LintError::MismatchedTypes {
                edge: Id::from("e")
            },
            LintError::Cycle {
                edges: vec![Id::from("a"), Id::from("b")]
            },
        ]
    );
    assert_eq!(lint.clone(), lint);
}
