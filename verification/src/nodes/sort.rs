//! Ordering the nodes of a blueprint by dependency, and reporting what a
//! cycle holds back.

use vstd::prelude::*;

use crate::nodes::blueprint::{BlueprintView, GraphBlueprint};
use crate::nodes::config::NodeConfig;
use crate::nodes::ident::{names, EdgeView, Id, Name, TensorShape};
use crate::nodes::kahn::{dependency_order, holds_back, Link};
use crate::nodes::lint::{LintError, LintErrorView, LintOutput};
use crate::nodes::table::lemma_listed_at;

verus! {

/// The nodes of a blueprint in dependency order, the shapes found for its
/// edges, and the diagnostics collected on the way.
#[derive(Debug)]
pub struct SortedGraphBlueprint {
    pub nodes: Vec<(Id, NodeConfig)>,
    pub edges: Vec<(Id, TensorShape)>,
    pub lint: LintOutput,
}

/// The ids of a list of nodes.
pub open spec fn node_ids(nodes: Seq<(Id, NodeConfig)>) -> Seq<Name> {
    Seq::new(nodes.len(), |i: int| nodes[i].0@)
}

impl BlueprintView {
    /// `order` lists nodes of the blueprint, none twice, and each comes
    /// after the source nodes of all the edges that end at it.
    pub open spec fn in_dependency_order(self, order: Seq<Name>) -> bool {
        &&& order.no_duplicates()
        &&& forall|i: int| 0 <= i < order.len() ==> self.nodes.contains_key(#[trigger] order[i])
        &&& forall|j: int, k: int|
            0 <= j < order.len() && 0 <= k < self.edges.len() && (
            #[trigger] self.edges[k]).target.node_id == #[trigger] order[j] ==> order.take(
                j,
            ).contains(self.edges[k].source.node_id)
    }

    /// Every node that `order` leaves out is the target of an edge whose
    /// source `order` leaves out too.
    pub open spec fn rest_is_held_back(self, order: Seq<Name>) -> bool {
        forall|id: Name|
            self.nodes.contains_key(id) && !order.contains(id) ==> exists|k: int|
                0 <= k < self.edges.len() && (#[trigger] self.edges[k]).target.node_id == id
                    && !order.contains(self.edges[k].source.node_id)
    }

    /// Whether the edge ends at a node that `order` leaves out.
    pub open spec fn is_stuck(self, order: Seq<Name>, edge: EdgeView) -> bool {
        self.nodes.contains_key(edge.target.node_id) && !order.contains(edge.target.node_id)
    }

    /// The ids of the edges that end at a node that `order` leaves out, in
    /// the order of the edges.
    pub open spec fn stuck_edges(self, order: Seq<Name>) -> Seq<Name> {
        self.edges.filter(|edge: EdgeView| self.is_stuck(order, edge)).map_values(
            |edge: EdgeView| edge.id,
        )
    }

    /// What sorting reports when `order` is what came out: nothing if that
    /// is every node, else one `Cycle` with all the stuck edges.
    pub open spec fn cycle_report(self, order: Seq<Name>) -> Seq<LintErrorView> {
        if order.len() == self.nodes.len() {
            Seq::empty()
        } else {
            seq![LintErrorView::Cycle { edges: self.stuck_edges(order) }]
        }
    }
}

/// The end of a link stands for the node that the edge names there.
pub open spec fn end_matches(keys: Seq<Name>, name: Name, end: Option<usize>) -> bool {
    match end {
        Some(i) => i < keys.len() && keys[i as int] == name,
        None => !keys.contains(name),
    }
}

/// The links are the edges, with node positions for node ids.
pub open spec fn links_match(keys: Seq<Name>, edges: Seq<EdgeView>, links: Seq<Link>) -> bool {
    &&& links.len() == edges.len()
    &&& forall|k: int|
        0 <= k < links.len() ==> end_matches(keys, edges[k].source.node_id, (#[trigger] links[k]).source)
            && end_matches(keys, edges[k].target.node_id, links[k].target)
}

/// The ids are those of the nodes at the positions.
pub open spec fn ids_match(keys: Seq<Name>, positions: Seq<usize>, ids: Seq<Name>) -> bool {
    &&& ids.len() == positions.len()
    &&& forall|a: int|
        0 <= a < ids.len() ==> (#[trigger] positions[a]) < keys.len() && ids[a]
            == keys[positions[a] as int]
}

/// A node is among the positions exactly if its id is among the ids.
pub proof fn lemma_same_members(keys: Seq<Name>, positions: Seq<usize>, ids: Seq<Name>, node: usize)
    requires
        keys.no_duplicates(),
        ids_match(keys, positions, ids),
        node < keys.len(),
    ensures
        positions.contains(node) <==> ids.contains(keys[node as int]),
{
    if positions.contains(node) {
        let a = choose|a: int| 0 <= a < positions.len() && positions[a] == node;
        assert(ids[a] == keys[node as int]);
    }
    if ids.contains(keys[node as int]) {
        let a = choose|a: int| 0 <= a < ids.len() && ids[a] == keys[node as int];
        assert(positions[a] < keys.len());
        assert(positions[a] == node);
    }
}

/// A link holds its target back exactly if the source of its edge is not
/// among the ids.
pub proof fn lemma_same_hold(
    keys: Seq<Name>,
    edges: Seq<EdgeView>,
    links: Seq<Link>,
    positions: Seq<usize>,
    ids: Seq<Name>,
    k: int,
)
    requires
        keys.no_duplicates(),
        links_match(keys, edges, links),
        ids_match(keys, positions, ids),
        0 <= k < links.len(),
    ensures
        holds_back(links, positions, k) <==> !ids.contains(edges[k].source.node_id),
{
    let name = edges[k].source.node_id;
    assert(end_matches(keys, name, links[k].source));
    match links[k].source {
        Some(source) => {
            lemma_same_members(keys, positions, ids, source);
        },
        None => {
            if ids.contains(name) {
                let a = choose|a: int| 0 <= a < ids.len() && ids[a] == name;
                assert(positions[a] < keys.len());
                assert(keys[positions[a] as int] == name);
            }
        },
    }
}

/// What Kahn's algorithm establishes of node positions holds of the node
/// ids at those positions.
pub proof fn lemma_order_of_ids(
    blueprint: BlueprintView,
    keys: Seq<Name>,
    links: Seq<Link>,
    positions: Seq<usize>,
    ids: Seq<Name>,
)
    requires
        keys.no_duplicates(),
        keys.len() <= usize::MAX,
        forall|id: Name|
            #![trigger blueprint.nodes.contains_key(id)]
            #![trigger keys.contains(id)]
            blueprint.nodes.contains_key(id) <==> keys.contains(id),
        links_match(keys, blueprint.edges, links),
        ids_match(keys, positions, ids),
        crate::nodes::kahn::in_dependency_order(keys.len(), links, positions),
        crate::nodes::kahn::rest_is_held_back(keys.len(), links, positions),
    ensures
        blueprint.in_dependency_order(ids),
        blueprint.rest_is_held_back(ids),
{
    let edges = blueprint.edges;
    assert forall|a: int, b: int| 0 <= a < ids.len() && 0 <= b < ids.len() && a != b implies ids[a]
        != ids[b] by {
        assert(positions[a] < keys.len() && positions[b] < keys.len());
        assert(positions[a] != positions[b]);
    }
    assert forall|i: int| 0 <= i < ids.len() implies blueprint.nodes.contains_key(
        #[trigger] ids[i],
    ) by {
        assert(positions[i] < keys.len());
        assert(keys[positions[i] as int] == ids[i]);
        assert(keys.contains(ids[i]));
    }
    assert forall|j: int, k: int|
        0 <= j < ids.len() && 0 <= k < edges.len() && (#[trigger] edges[k]).target.node_id
            == #[trigger] ids[j] implies ids.take(j).contains(edges[k].source.node_id) by {
        assert(positions[j] < keys.len());
        assert(end_matches(keys, edges[k].target.node_id, links[k].target));
        assert(keys.contains(ids[j]));
        assert(links[k].target == Some(positions[j]));
        assert(!holds_back(links, positions.take(j), k));
        assert(ids_match(keys, positions.take(j), ids.take(j)));
        lemma_same_hold(keys, edges, links, positions.take(j), ids.take(j), k);
    }
    assert forall|id: Name| blueprint.nodes.contains_key(id) && !ids.contains(id) implies exists|
        k: int,
    |
        0 <= k < edges.len() && (#[trigger] edges[k]).target.node_id == id && !ids.contains(
            edges[k].source.node_id,
        ) by {
        assert(keys.contains(id));
        let at = choose|at: int| 0 <= at < keys.len() && keys[at] == id;
        let node = at as usize;
        lemma_same_members(keys, positions, ids, node);
        assert(!positions.contains(node));
        let k = choose|k: int|
            0 <= k < links.len() && links[k].target == Some(node) && #[trigger] holds_back(
                links,
                positions,
                k,
            );
        assert(end_matches(keys, edges[k].target.node_id, links[k].target));
        lemma_same_hold(keys, edges, links, positions, ids, k);
        assert(edges[k].target.node_id == id);
    }
}

impl GraphBlueprint {
    /// The edges with node positions for node ids.
    pub fn links(&self) -> (links: Vec<Link>)
        ensures
            links_match(self.nodes.keys(), self@.edges, links@),
    {
        let mut links: Vec<Link> = Vec::new();
        let mut k: usize = 0;
        while k < self.edges.len()
            invariant
                k <= self.edges@.len(),
                links@.len() == k,
                forall|i: int|
                    0 <= i < k ==> end_matches(
                        self.nodes.keys(),
                        self@.edges[i].source.node_id,
                        (#[trigger] links@[i]).source,
                    ) && end_matches(
                        self.nodes.keys(),
                        self@.edges[i].target.node_id,
                        links@[i].target,
                    ),
            decreases self.edges@.len() - k,
        {
            let edge = &self.edges[k];
            let source = self.nodes.index_of(&edge.source.node_id);
            let target = self.nodes.index_of(&edge.target.node_id);
            links.push(Link { source, target });
            k += 1;
        }
        links
    }

    /// Orders the nodes by dependency with Kahn's algorithm.
    ///
    /// The nodes that come out are in dependency order, and they are all the
    /// nodes that can come out: a node is left out only where an edge from a
    /// node that is left out too, or from no node at all, ends at it. That
    /// fixes which nodes come out, and leaves open only the order among
    /// nodes that do not depend on one another. If nodes are left out, one
    /// `Cycle` diagnostic names every edge that ends at one of them. Where
    /// every edge starts and ends at a node of the blueprint, that happens
    /// exactly if the edges hold a cycle.
    pub fn sort(&self) -> (sorted: SortedGraphBlueprint)
        ensures
            self@.in_dependency_order(node_ids(sorted.nodes@)),
            self@.rest_is_held_back(node_ids(sorted.nodes@)),
            forall|i: int|
                0 <= i < sorted.nodes@.len() ==> (#[trigger] sorted.nodes@[i]).1@
                    == self@.nodes[sorted.nodes@[i].0@],
            sorted.edges@.len() == 0,
            sorted.lint@ == self@.cycle_report(node_ids(sorted.nodes@)),
            self@.ends_are_nodes() ==> (sorted.lint@.len() == 0 <==> !self@.has_cycle()),
    {
        let n = self.nodes.len();
        let links = self.links();
        let (order, counts) = dependency_order(n, &links);
        let ghost keys = self.nodes.keys();
        proof {
            use_type_invariant(&self.nodes);
            self.nodes.lemma_layout();
            assert forall|id: Name|
                #![trigger self@.nodes.contains_key(id)]
                #![trigger keys.contains(id)]
                self@.nodes.contains_key(id) <==> keys.contains(id) by {}
        }
        let mut sorted_nodes: Vec<(Id, NodeConfig)> = Vec::new();
        let mut i: usize = 0;
        while i < order.len()
            invariant
                i <= order@.len(),
                n == keys.len(),
                keys == self.nodes.keys(),
                keys.no_duplicates(),
                self.nodes@ == crate::nodes::table::listed(keys, self.nodes.values()),
                self.nodes.values().len() == keys.len(),
                forall|a: int| 0 <= a < order@.len() ==> (#[trigger] order@[a]) < n,
                sorted_nodes@.len() == i,
                forall|a: int|
                    0 <= a < i ==> (#[trigger] sorted_nodes@[a]).0@ == keys[order@[a] as int]
                        && sorted_nodes@[a].1@ == self@.nodes[sorted_nodes@[a].0@],
            decreases order@.len() - i,
        {
            let at = order[i];
            let id = self.nodes.key_at(at).clone();
            let config = self.nodes.value_at(at).clone();
            proof {
                lemma_listed_at(keys, self.nodes.values(), at as int);
            }
            sorted_nodes.push((id, config));
            i += 1;
        }
        let ghost ids = node_ids(sorted_nodes@);
        proof {
            assert(ids_match(keys, order@, ids));
            lemma_order_of_ids(self@, keys, links@, order@, ids);
            assert(self@.nodes.dom() =~= self.nodes@.dom());
            crate::nodes::table::lemma_listed_len(keys, self.nodes.values());
            if self@.ends_are_nodes() {
                self@.lemma_report_tells_cycles(ids);
            }
        }
        let mut lint = LintOutput::default();
        if sorted_nodes.len() != n {
            let ghost stuck = |edge: EdgeView| self@.is_stuck(ids, edge);
            let mut cycle_edges: Vec<Id> = Vec::new();
            let mut k: usize = 0;
            proof {
                assert(self@.edges.take(0) =~= Seq::<EdgeView>::empty());
                assert(Seq::<EdgeView>::empty().filter(stuck) =~= Seq::<EdgeView>::empty()) by {
                    reveal(Seq::filter);
                }
                assert(names(cycle_edges@) =~= self@.edges.take(0).filter(stuck).map_values(
                    |edge: EdgeView| edge.id,
                ));
            }
            while k < self.edges.len()
                invariant
                    k <= self.edges@.len(),
                    n == keys.len(),
                    keys.no_duplicates(),
                    counts@.len() == n,
                    ids == node_ids(sorted_nodes@),
                    stuck == (|edge: EdgeView| self@.is_stuck(ids, edge)),
                    links_match(keys, self@.edges, links@),
                    ids_match(keys, order@, ids),
                    forall|id: Name|
                        #![trigger self@.nodes.contains_key(id)]
                        #![trigger keys.contains(id)]
                        self@.nodes.contains_key(id) <==> keys.contains(id),
                    forall|node: usize|
                        node < n ==> (counts@[node as int] == 0 <==> order@.contains(node)),
                    names(cycle_edges@) == self@.edges.take(k as int).filter(stuck).map_values(
                        |edge: EdgeView| edge.id,
                    ),
                decreases self.edges@.len() - k,
            {
                let ghost edge = self@.edges[k as int];
                let ghost before = self@.edges.take(k as int);
                proof {
                    assert(self@.edges.take(k + 1) =~= before.push(edge));
                    before.lemma_filter_push(edge, stuck);
                    assert(end_matches(keys, edge.target.node_id, links@[k as int].target));
                    if let Some(target) = links@[k as int].target {
                        lemma_same_members(keys, order@, ids, target);
                        assert(keys.contains(edge.target.node_id));
                    }
                }
                let held = match links[k].target {
                    Some(target) => counts[target] > 0,
                    None => false,
                };
                proof {
                    assert(held == self@.is_stuck(ids, edge));
                    assert(held == stuck(edge));
                }
                if held {
                    let ghost before_ids = names(cycle_edges@);
                    cycle_edges.push(self.edges[k].id.clone());
                    proof {
                        assert(names(cycle_edges@) =~= before_ids.push(edge.id));
                        assert(before.filter(stuck).push(edge).map_values(
                            |edge: EdgeView| edge.id,
                        ) =~= before.filter(stuck).map_values(|edge: EdgeView| edge.id).push(
                            edge.id,
                        ));
                    }
                }
                k += 1;
            }
            proof {
                assert(self@.edges.take(k as int) =~= self@.edges);
            }
            lint.push_error(LintError::Cycle { edges: cycle_edges });
            proof {
                assert(lint@ =~= self@.cycle_report(ids));
            }
        }
        SortedGraphBlueprint { nodes: sorted_nodes, edges: Vec::new(), lint }
    }
}

} // verus!
