//! The blueprint: the mutable graph of nodes and edges, and the four edits
//! that change it.

use vstd::prelude::*;

use crate::nodes::config::{handle_type, handle_views, Config, NodeConfig, NodeConfigView};
use crate::nodes::ident::{DataType, Edge, EdgeView, HandleDef, HandleKey, HandleRef, Id, Name};
use crate::nodes::table::{lemma_listed_at, lemma_take_one_more, listed, Table};

verus! {

/// Why an edit of a blueprint was refused.
#[derive(Debug, PartialEq)]
pub enum GraphBlueprintError {
    NodeExists(Id),
    NodeDoesNotExist(Id),
    HandleDoesNotExist(HandleRef),
    HandleMismatch(HandleRef, HandleRef),
    EdgeExists(Id),
    EdgeDoesNotExist(Id),
    UnableToInferTensorShape(HandleRef),
}

/// A refusal as contracts see it.
pub enum GraphBlueprintErrorView {
    NodeExists(Name),
    NodeDoesNotExist(Name),
    HandleDoesNotExist(HandleKey),
    HandleMismatch(HandleKey, HandleKey),
    EdgeExists(Name),
    EdgeDoesNotExist(Name),
    UnableToInferTensorShape(HandleKey),
}

impl View for GraphBlueprintError {
    type V = GraphBlueprintErrorView;

    open spec fn view(&self) -> GraphBlueprintErrorView {
        match self {
            GraphBlueprintError::NodeExists(id) => GraphBlueprintErrorView::NodeExists(id@),
            GraphBlueprintError::NodeDoesNotExist(id) => GraphBlueprintErrorView::NodeDoesNotExist(
                id@,
            ),
            GraphBlueprintError::HandleDoesNotExist(handle) => {
                GraphBlueprintErrorView::HandleDoesNotExist(handle@)
            },
            GraphBlueprintError::HandleMismatch(source, target) => {
                GraphBlueprintErrorView::HandleMismatch(source@, target@)
            },
            GraphBlueprintError::EdgeExists(id) => GraphBlueprintErrorView::EdgeExists(id@),
            GraphBlueprintError::EdgeDoesNotExist(id) => GraphBlueprintErrorView::EdgeDoesNotExist(
                id@,
            ),
            GraphBlueprintError::UnableToInferTensorShape(handle) => {
                GraphBlueprintErrorView::UnableToInferTensorShape(handle@)
            },
        }
    }
}

/// The outcome of an edit.
pub type Edited = Result<(), GraphBlueprintErrorView>;

/// The outcome of an edit, as contracts see it.
pub open spec fn edited(outcome: Result<(), GraphBlueprintError>) -> Edited {
    match outcome {
        Ok(()) => Ok(()),
        Err(error) => Err(error@),
    }
}

/// The edges of a list, as contracts see them.
pub open spec fn edge_views(edges: Seq<Edge>) -> Seq<EdgeView> {
    Seq::new(edges.len(), |i: int| edges[i]@)
}

/// What stands in the way of joining an output named `source.handle_id`
/// among `outputs` to an input named `target.handle_id` among `inputs`: the
/// output is looked for first, then the input, then their types are compared.
pub open spec fn handle_error(
    outputs: Seq<(Name, DataType)>,
    inputs: Seq<(Name, DataType)>,
    source: HandleKey,
    target: HandleKey,
) -> Option<GraphBlueprintErrorView> {
    match (handle_type(outputs, source.handle_id), handle_type(inputs, target.handle_id)) {
        (None, _) => Some(GraphBlueprintErrorView::HandleDoesNotExist(source)),
        (_, None) => Some(GraphBlueprintErrorView::HandleDoesNotExist(target)),
        (Some(from), Some(to)) => if from == to {
            None
        } else {
            Some(GraphBlueprintErrorView::HandleMismatch(source, target))
        },
    }
}

/// A blueprint as contracts see it: the node kinds by node id, and the edges
/// in the order in which they were connected.
pub struct BlueprintView {
    pub nodes: Map<Name, NodeConfigView>,
    pub edges: Seq<EdgeView>,
}

impl BlueprintView {
    /// The blueprint without nodes or edges.
    pub open spec fn empty() -> BlueprintView {
        BlueprintView { nodes: Map::empty(), edges: Seq::empty() }
    }

    /// Whether some edge has the id `id`.
    pub open spec fn has_edge(self, id: Name) -> bool {
        exists|i: int| 0 <= i < self.edges.len() && (#[trigger] self.edges[i]).id == id
    }

    /// The place of the first edge with the id `id`.
    pub open spec fn first_edge(self, id: Name) -> int {
        choose|i: int|
            0 <= i < self.edges.len() && (#[trigger] self.edges[i]).id == id && forall|j: int|
                0 <= j < i ==> (#[trigger] self.edges[j]).id != id
    }

    /// The blueprint after `add_node`, and how the call ends.
    pub open spec fn add_node(self, id: Name, config: NodeConfigView) -> (BlueprintView, Edited) {
        if self.nodes.contains_key(id) {
            (self, Err(GraphBlueprintErrorView::NodeExists(id)))
        } else {
            (BlueprintView { nodes: self.nodes.insert(id, config), edges: self.edges }, Ok(()))
        }
    }

    /// The blueprint after `remove_node`, and how the call ends. The edges
    /// stay as they are, those at the node too.
    pub open spec fn remove_node(self, id: Name) -> (BlueprintView, Edited) {
        if self.nodes.contains_key(id) {
            (BlueprintView { nodes: self.nodes.remove(id), edges: self.edges }, Ok(()))
        } else {
            (self, Err(GraphBlueprintErrorView::NodeDoesNotExist(id)))
        }
    }

    /// What stands in the way of connecting `source` to `target` under the
    /// id `id`, the first of: the id is taken; the source node is missing;
    /// the target node is missing; the source node has no such output; the
    /// target node has no such input; the two handles differ in type.
    pub open spec fn connect_error(self, source: HandleKey, target: HandleKey, id: Name) -> Option<
        GraphBlueprintErrorView,
    > {
        if self.has_edge(id) {
            Some(GraphBlueprintErrorView::EdgeExists(id))
        } else if !self.nodes.contains_key(source.node_id) {
            Some(GraphBlueprintErrorView::NodeDoesNotExist(source.node_id))
        } else if !self.nodes.contains_key(target.node_id) {
            Some(GraphBlueprintErrorView::NodeDoesNotExist(target.node_id))
        } else {
            handle_error(
                self.nodes[source.node_id].out_handles(),
                self.nodes[target.node_id].in_handles(),
                source,
                target,
            )
        }
    }

    /// The blueprint after `connect_nodes`, and how the call ends.
    pub open spec fn connect_nodes(self, source: HandleKey, target: HandleKey, id: Name) -> (
        BlueprintView,
        Edited,
    ) {
        match self.connect_error(source, target, id) {
            Some(error) => (self, Err(error)),
            None => (
                BlueprintView {
                    nodes: self.nodes,
                    edges: self.edges.push(EdgeView { source, target, id }),
                },
                Ok(()),
            ),
        }
    }

    /// The blueprint after `disconnect`, and how the call ends: the first
    /// edge with that id leaves.
    pub open spec fn disconnect(self, id: Name) -> (BlueprintView, Edited) {
        if self.has_edge(id) {
            (
                BlueprintView { nodes: self.nodes, edges: self.edges.remove(self.first_edge(id)) },
                Ok(()),
            )
        } else {
            (self, Err(GraphBlueprintErrorView::EdgeDoesNotExist(id)))
        }
    }

    /// No two edges share an id.
    pub open spec fn edge_ids_distinct(self) -> bool {
        forall|i: int, j: int|
            0 <= i < j < self.edges.len() ==> (#[trigger] self.edges[i]).id != (
            #[trigger] self.edges[j]).id
    }

    /// The edge joins an output of a node that is there to an input of the
    /// same type of a node that is there.
    pub open spec fn edge_fits(self, edge: EdgeView) -> bool {
        &&& self.nodes.contains_key(edge.source.node_id)
        &&& self.nodes.contains_key(edge.target.node_id)
        &&& handle_error(
            self.nodes[edge.source.node_id].out_handles(),
            self.nodes[edge.target.node_id].in_handles(),
            edge.source,
            edge.target,
        ) is None
    }

    /// The nodes and the edges agree: edge ids are distinct and every edge
    /// fits the nodes at its ends.
    pub open spec fn consistent(self) -> bool {
        &&& self.edge_ids_distinct()
        &&& forall|i: int| 0 <= i < self.edges.len() ==> self.edge_fits(#[trigger] self.edges[i])
    }

    /// Whether an edge starts or ends at the node `id`.
    pub open spec fn touches(self, id: Name) -> bool {
        exists|i: int|
            0 <= i < self.edges.len() && ((#[trigger] self.edges[i]).source.node_id == id
                || self.edges[i].target.node_id == id)
    }
}

impl BlueprintView {
    /// An edit that is refused leaves the blueprint as it was.
    pub proof fn lemma_refusal_changes_nothing(
        self,
        id: Name,
        config: NodeConfigView,
        source: HandleKey,
        target: HandleKey,
    )
        ensures
            self.add_node(id, config).1 is Err ==> self.add_node(id, config).0 == self,
            self.remove_node(id).1 is Err ==> self.remove_node(id).0 == self,
            self.connect_nodes(source, target, id).1 is Err ==> self.connect_nodes(
                source,
                target,
                id,
            ).0 == self,
            self.disconnect(id).1 is Err ==> self.disconnect(id).0 == self,
    {
    }

    /// Adding a node under an id a second time is refused with `NodeExists`
    /// and changes nothing; the node that the first call added is still
    /// there.
    pub proof fn lemma_add_node_twice(self, id: Name, first: NodeConfigView, second: NodeConfigView)
        ensures
            ({
                let (once, added) = self.add_node(id, first);
                &&& once.add_node(id, second) == (
                    once,
                    Err::<(), GraphBlueprintErrorView>(GraphBlueprintErrorView::NodeExists(id)),
                )
                &&& added is Ok ==> once.nodes[id] == first
            }),
    {
    }

    /// An output and an input that both exist but differ in type are not
    /// connected: the call is refused with `HandleMismatch` and no edge is
    /// added.
    pub proof fn lemma_mismatch_is_refused(self, source: HandleKey, target: HandleKey, id: Name)
        requires
            !self.has_edge(id),
            self.nodes.contains_key(source.node_id),
            self.nodes.contains_key(target.node_id),
            handle_type(self.nodes[source.node_id].out_handles(), source.handle_id) is Some,
            handle_type(self.nodes[target.node_id].in_handles(), target.handle_id) is Some,
            handle_type(self.nodes[source.node_id].out_handles(), source.handle_id) != handle_type(
                self.nodes[target.node_id].in_handles(),
                target.handle_id,
            ),
        ensures
            self.connect_nodes(source, target, id) == (
                self,
                Err::<(), GraphBlueprintErrorView>(
                    GraphBlueprintErrorView::HandleMismatch(source, target),
                ),
            ),
    {
    }

    /// Once an edge has been connected under an id, connecting any edge
    /// under that id is refused with `EdgeExists`.
    pub proof fn lemma_edge_id_twice(
        self,
        source: HandleKey,
        target: HandleKey,
        id: Name,
        next_source: HandleKey,
        next_target: HandleKey,
    )
        requires
            self.connect_nodes(source, target, id).1 is Ok,
        ensures
            ({
                let once = self.connect_nodes(source, target, id).0;
                once.connect_nodes(next_source, next_target, id) == (
                    once,
                    Err::<(), GraphBlueprintErrorView>(GraphBlueprintErrorView::EdgeExists(id)),
                )
            }),
    {
        let once = self.connect_nodes(source, target, id).0;
        assert(once.edges[once.edges.len() - 1].id == id);
    }

    /// After an edge has been disconnected under an id in a blueprint whose
    /// edge ids are distinct, no edge has that id.
    pub proof fn lemma_disconnect_frees_id(self, id: Name)
        requires
            self.edge_ids_distinct(),
            self.has_edge(id),
        ensures
            !self.disconnect(id).0.has_edge(id),
    {
        let at = self.first_edge(id);
        let after = self.disconnect(id).0;
        assert forall|i: int| 0 <= i < after.edges.len() implies (#[trigger] after.edges[i]).id
            != id by {
            let before = if i < at { i } else { i + 1 };
            assert(after.edges[i] == self.edges[before]);
            if before < at {
                assert(self.edges[before].id != self.edges[at].id);
            } else {
                assert(self.edges[at].id != self.edges[before].id);
            }
        }
    }

    /// The empty blueprint is consistent.
    pub proof fn lemma_empty_is_consistent()
        ensures
            BlueprintView::empty().consistent(),
    {
    }

    /// Adding a node, connecting and disconnecting keep a consistent
    /// blueprint consistent, whether the edit is accepted or refused.
    pub proof fn lemma_edits_keep_consistency(
        self,
        id: Name,
        config: NodeConfigView,
        source: HandleKey,
        target: HandleKey,
    )
        requires
            self.consistent(),
        ensures
            self.add_node(id, config).0.consistent(),
            self.connect_nodes(source, target, id).0.consistent(),
            self.disconnect(id).0.consistent(),
    {
        let added = self.add_node(id, config).0;
        assert forall|i: int| 0 <= i < added.edges.len() implies added.edge_fits(
            #[trigger] added.edges[i],
        ) by {
            assert(self.edge_fits(self.edges[i]));
        }
        let connected = self.connect_nodes(source, target, id).0;
        if self.connect_error(source, target, id) is None {
            assert forall|i: int| 0 <= i < connected.edges.len() implies connected.edge_fits(
                #[trigger] connected.edges[i],
            ) by {
                if i < self.edges.len() {
                    assert(self.edge_fits(self.edges[i]));
                }
            }
            assert forall|i: int, j: int| 0 <= i < j < connected.edges.len() implies (
            #[trigger] connected.edges[i]).id != (#[trigger] connected.edges[j]).id by {
                if j < self.edges.len() {
                    assert(self.edges[i].id != self.edges[j].id);
                } else {
                    assert(self.edges[i].id != id);
                }
            }
        }
        let cut = self.disconnect(id).0;
        if self.has_edge(id) {
            let at = self.first_edge(id);
            assert forall|i: int| 0 <= i < cut.edges.len() implies cut.edge_fits(
                #[trigger] cut.edges[i],
            ) by {
                let before = if i < at { i } else { i + 1 };
                assert(cut.edges[i] == self.edges[before]);
                assert(self.edge_fits(self.edges[before]));
            }
            assert forall|i: int, j: int| 0 <= i < j < cut.edges.len() implies (
            #[trigger] cut.edges[i]).id != (#[trigger] cut.edges[j]).id by {
                let i0 = if i < at { i } else { i + 1 };
                let j0 = if j < at { j } else { j + 1 };
                assert(cut.edges[i] == self.edges[i0]);
                assert(cut.edges[j] == self.edges[j0]);
                assert(self.edges[i0].id != self.edges[j0].id);
            }
        }
    }

    /// Removing a node does not remove its edges. The blueprint stays
    /// consistent exactly if no edge started or ended at the node: it is for
    /// the caller to disconnect those edges first.
    pub proof fn lemma_remove_node_and_edges(self, id: Name)
        requires
            self.consistent(),
            self.nodes.contains_key(id),
        ensures
            self.remove_node(id).0.edges == self.edges,
            self.remove_node(id).0.consistent() <==> !self.touches(id),
    {
        let after = self.remove_node(id).0;
        if !self.touches(id) {
            assert forall|i: int| 0 <= i < after.edges.len() implies after.edge_fits(
                #[trigger] after.edges[i],
            ) by {
                assert(self.edge_fits(self.edges[i]));
                assert(self.edges[i].source.node_id != id && self.edges[i].target.node_id != id);
            }
        } else {
            let i = choose|i: int|
                0 <= i < self.edges.len() && ((#[trigger] self.edges[i]).source.node_id == id
                    || self.edges[i].target.node_id == id);
            assert(!after.edge_fits(after.edges[i]));
        }
    }
}

/// The authoring-time graph: node kinds by node id, and the edges in the
/// order in which they were connected.
#[derive(Debug)]
pub struct GraphBlueprint {
    pub nodes: Table<Id, NodeConfig>,
    pub edges: Vec<Edge>,
}

/// The node kinds of a table, as contracts see them.
pub open spec fn config_views(nodes: Map<Name, NodeConfig>) -> Map<Name, NodeConfigView> {
    nodes.map_values(|config: NodeConfig| config@)
}

impl View for GraphBlueprint {
    type V = BlueprintView;

    open spec fn view(&self) -> BlueprintView {
        BlueprintView { nodes: config_views(self.nodes@), edges: edge_views(self.edges@) }
    }
}

impl Clone for GraphBlueprint {
    fn clone(&self) -> (copy: GraphBlueprint)
        ensures
            copy@ == self@,
            copy.nodes.keys() == self.nodes.keys(),
    {
        let mut nodes: Table<Id, NodeConfig> = Table::new();
        let ghost keys = self.nodes.keys();
        let ghost values = self.nodes.values();
        proof {
            use_type_invariant(&self.nodes);
            self.nodes.lemma_layout();
            assert(config_views(nodes@) =~= config_views(listed(keys.take(0), values.take(0))));
            assert(keys.take(0) =~= nodes.keys());
        }
        let n = self.nodes.len();
        let mut i: usize = 0;
        while i < n
            invariant
                i <= n,
                n == keys.len(),
                keys == self.nodes.keys(),
                values == self.nodes.values(),
                values.len() == keys.len(),
                keys.no_duplicates(),
                nodes.keys() == keys.take(i as int),
                config_views(nodes@) == config_views(
                    listed(keys.take(i as int), values.take(i as int)),
                ),
            decreases n - i,
        {
            let id = self.nodes.key_at(i).clone();
            let config = self.nodes.value_at(i).clone();
            let ghost before = nodes@;
            proof {
                lemma_take_one_more(keys, i as int);
                if keys.take(i as int).contains(keys[i as int]) {
                    let b = choose|b: int|
                        0 <= b < keys.take(i as int).len() && keys.take(i as int)[b] == keys[i as int];
                    assert(keys[b] == keys[i as int]);
                }
                assert(!before.contains_key(id@)) by {
                    if before.contains_key(id@) {
                        assert(config_views(before).contains_key(id@));
                    }
                }
            }
            nodes.insert(id, config);
            proof {
                let shorter = listed(keys.take(i as int), values.take(i as int));
                let longer = listed(keys.take(i + 1), values.take(i + 1));
                assert(keys.take(i + 1) =~= keys.take(i as int).push(keys[i as int]));
                lemma_listed_at(keys.take(i + 1), values.take(i + 1), i as int);
                assert forall|k: Name| shorter.contains_key(k) implies longer.contains_key(k)
                    && longer[k] == shorter[k] by {
                    let b = keys.take(i as int).index_of(k);
                    assert(keys.take(i as int)[b] == k);
                    lemma_listed_at(keys.take(i as int), values.take(i as int), b);
                    lemma_listed_at(keys.take(i + 1), values.take(i + 1), b);
                }
                assert(longer =~= shorter.insert(keys[i as int], values[i as int]));
                assert(config_views(nodes@) =~= config_views(before).insert(id@, config@));
                assert(config_views(longer) =~= config_views(shorter).insert(
                    keys[i as int],
                    values[i as int]@,
                ));
            }
            i += 1;
        }
        let mut edges: Vec<Edge> = Vec::new();
        let mut k: usize = 0;
        while k < self.edges.len()
            invariant
                k <= self.edges@.len(),
                edges@ == self.edges@.take(k as int),
            decreases self.edges@.len() - k,
        {
            edges.push(self.edges[k].clone());
            k += 1;
        }
        proof {
            assert(keys.take(n as int) =~= keys);
            assert(values.take(n as int) =~= values);
            assert(self.edges@.take(k as int) =~= self.edges@);
        }
        GraphBlueprint { nodes, edges }
    }
}

/// The type of the first handle among `defs` that is named `name`.
pub fn find_handle(defs: &Vec<HandleDef>, name: &Id) -> (dtype: Option<DataType>)
    ensures
        dtype == handle_type(handle_views(defs@), name@),
{
    let mut i: usize = 0;
    proof {
        assert(handle_views(defs@).skip(0) =~= handle_views(defs@));
    }
    while i < defs.len()
        invariant
            i <= defs.len(),
            handle_type(handle_views(defs@), name@) == handle_type(
                handle_views(defs@).skip(i as int),
                name@,
            ),
        decreases defs.len() - i,
    {
        let ghost rest = handle_views(defs@).skip(i as int);
        proof {
            assert(rest.first() == defs@[i as int]@);
            assert(rest.drop_first() =~= handle_views(defs@).skip(i + 1));
        }
        if defs[i].id == *name {
            return Some(defs[i].dtype);
        }
        i += 1;
    }
    None
}

/// Checks that `source` names one of `outputs`, that `target` names one of
/// `inputs`, and that the two have one type.
pub fn match_handles(
    outputs: &Vec<HandleDef>,
    inputs: &Vec<HandleDef>,
    source: &HandleRef,
    target: &HandleRef,
) -> (outcome: Result<(), GraphBlueprintError>)
    ensures
        edited(outcome) == (match handle_error(
            handle_views(outputs@),
            handle_views(inputs@),
            source@,
            target@,
        ) {
            Some(error) => Err(error),
            None => Ok(()),
        }),
{
    match (find_handle(outputs, &source.handle_id), find_handle(inputs, &target.handle_id)) {
        (None, _) => Err(GraphBlueprintError::HandleDoesNotExist(source.clone())),
        (_, None) => Err(GraphBlueprintError::HandleDoesNotExist(target.clone())),
        (Some(from), Some(to)) => {
            if from == to {
                Ok(())
            } else {
                Err(GraphBlueprintError::HandleMismatch(source.clone(), target.clone()))
            }
        },
    }
}

impl GraphBlueprint {
    /// The blueprint without nodes or edges.
    pub fn new() -> (blueprint: GraphBlueprint)
        ensures
            blueprint@ == BlueprintView::empty(),
    {
        let blueprint = GraphBlueprint { nodes: Table::new(), edges: Vec::new() };
        proof {
            assert(blueprint@.nodes =~= Map::<Name, NodeConfigView>::empty());
            assert(blueprint@.edges =~= Seq::<EdgeView>::empty());
        }
        blueprint
    }

    /// Adds a node under a new id; an id that is taken is refused and the
    /// blueprint stays as it is.
    pub fn add_node(&mut self, id: Id, config: NodeConfig) -> (outcome: Result<
        (),
        GraphBlueprintError,
    >)
        ensures
            (final(self)@, edited(outcome)) == old(self)@.add_node(id@, config@),
            outcome is Err ==> *final(self) == *old(self),
    {
        if self.nodes.contains_key(&id) {
            return Err(GraphBlueprintError::NodeExists(id));
        }
        self.nodes.insert(id, config);
        proof {
            assert(self@.nodes =~= old(self)@.nodes.insert(id@, config@));
        }
        Ok(())
    }

    /// Takes the node with this id out; an id that names no node is refused.
    /// Edges at the node are left in place.
    pub fn remove_node(&mut self, id: Id) -> (outcome: Result<(), GraphBlueprintError>)
        ensures
            (final(self)@, edited(outcome)) == old(self)@.remove_node(id@),
            outcome is Err ==> *final(self) == *old(self),
    {
        if !self.nodes.contains_key(&id) {
            return Err(GraphBlueprintError::NodeDoesNotExist(id));
        }
        self.nodes.remove(&id);
        proof {
            assert(self@.nodes =~= old(self)@.nodes.remove(id@));
        }
        Ok(())
    }

    /// The place of the first edge with the id `id`.
    pub fn find_edge(&self, id: &Id) -> (at: Option<usize>)
        ensures
            at is Some == self@.has_edge(id@),
            at matches Some(i) ==> i == self@.first_edge(id@) && i < self.edges@.len(),
    {
        let mut i: usize = 0;
        while i < self.edges.len()
            invariant
                i <= self.edges.len(),
                forall|j: int| 0 <= j < i ==> (#[trigger] self@.edges[j]).id != id@,
            decreases self.edges.len() - i,
        {
            if self.edges[i].id == *id {
                proof {
                    assert(self@.edges[i as int].id == id@);
                }
                return Some(i);
            }
            i += 1;
        }
        None
    }

    /// Takes the edge with this id out; an id that names no edge is refused.
    pub fn disconnect(&mut self, id: Id) -> (outcome: Result<(), GraphBlueprintError>)
        ensures
            (final(self)@, edited(outcome)) == old(self)@.disconnect(id@),
            outcome is Err ==> *final(self) == *old(self),
    {
        match self.find_edge(&id) {
            Some(i) => {
                self.edges.remove(i);
                proof {
                    assert(self@.edges =~= old(self)@.edges.remove(i as int));
                }
                Ok(())
            },
            None => Err(GraphBlueprintError::EdgeDoesNotExist(id)),
        }
    }

    /// Connects an output handle to an input handle of the same type under a
    /// new edge id. Whatever is refused leaves the blueprint as it is.
    pub fn connect_nodes(&mut self, source: HandleRef, target: HandleRef, id: Id) -> (outcome:
        Result<(), GraphBlueprintError>)
        ensures
            (final(self)@, edited(outcome)) == old(self)@.connect_nodes(source@, target@, id@),
            outcome is Err ==> *final(self) == *old(self),
            outcome is Ok ==> final(self).nodes == old(self).nodes && final(self).edges@ == old(
                self,
            ).edges@.push(Edge { source, target, id }),
    {
        if self.find_edge(&id).is_some() {
            return Err(GraphBlueprintError::EdgeExists(id));
        }
        let source_node = match self.nodes.get(&source.node_id) {
            Some(node) => node,
            None => {
                return Err(GraphBlueprintError::NodeDoesNotExist(source.node_id));
            },
        };
        let target_node = match self.nodes.get(&target.node_id) {
            Some(node) => node,
            None => {
                return Err(GraphBlueprintError::NodeDoesNotExist(target.node_id));
            },
        };
        let outputs = source_node.out_handles();
        let inputs = target_node.in_handles();
        proof {
            assert(self@.nodes[source@.node_id] == source_node@);
            assert(self@.nodes[target@.node_id] == target_node@);
        }
        let checked = match_handles(&outputs, &inputs, &source, &target);
        if let Err(error) = checked {
            return Err(error);
        }
        self.edges.push(Edge { source, target, id });
        proof {
            assert(self@.edges =~= old(self)@.edges.push(
                EdgeView { source: source@, target: target@, id: id@ },
            ));
        }
        Ok(())
    }
}

} // verus!
