//! Why sorting reports a cycle exactly where there is one.

use vstd::prelude::*;

use crate::nodes::blueprint::BlueprintView;
use crate::nodes::ident::Name;

verus! {

/// Among more entries than a finite set has members, all taken from the
/// set, two are the same.
pub proof fn lemma_two_are_same<A>(list: Seq<A>, set: Set<A>) -> (places: (int, int))
    requires
        set.finite(),
        forall|i: int| 0 <= i < list.len() ==> set.contains(#[trigger] list[i]),
        list.len() > set.len(),
    ensures
        0 <= places.0 < places.1 < list.len(),
        list[places.0] == list[places.1],
{
    if list.no_duplicates() {
        list.unique_seq_to_set();
        assert(list.to_set().subset_of(set)) by {
            assert forall|x: A| list.to_set().contains(x) implies set.contains(x) by {
                let i = choose|i: int| 0 <= i < list.len() && list[i] == x;
                assert(set.contains(list[i]));
            }
        }
        vstd::set_lib::lemma_len_subset(list.to_set(), set);
        assert(false);
    }
    let (i, j) = choose|i: int, j: int|
        0 <= i < list.len() && 0 <= j < list.len() && i != j && list[i] == list[j];
    if i < j {
        (i, j)
    } else {
        (j, i)
    }
}

impl BlueprintView {
    /// Every edge starts and ends at a node of the blueprint.
    pub open spec fn ends_are_nodes(self) -> bool {
        forall|k: int|
            0 <= k < self.edges.len() ==> self.nodes.contains_key(
                (#[trigger] self.edges[k]).source.node_id,
            ) && self.nodes.contains_key(self.edges[k].target.node_id)
    }

    /// `walk` lists places of edges that form a closed walk: each edge ends
    /// at the node at which the next one starts, and the last one at the
    /// node at which the first one starts.
    pub open spec fn is_cycle(self, walk: Seq<int>) -> bool {
        &&& walk.len() > 0
        &&& forall|i: int| 0 <= i < walk.len() ==> 0 <= (#[trigger] walk[i]) < self.edges.len()
        &&& forall|i: int|
            0 <= i < walk.len() - 1 ==> self.edges[#[trigger] walk[i]].target.node_id
                == self.edges[walk[i + 1]].source.node_id
        &&& self.edges[walk.last()].target.node_id == self.edges[walk.first()].source.node_id
    }

    /// Whether the edges hold a cycle.
    pub open spec fn has_cycle(self) -> bool {
        exists|walk: Seq<int>| self.is_cycle(walk)
    }

    /// An edge that ends at `node` and starts at a node that `order` leaves
    /// out.
    pub closed spec fn blocker(self, order: Seq<Name>, node: Name) -> int {
        choose|k: int|
            0 <= k < self.edges.len() && (#[trigger] self.edges[k]).target.node_id == node
                && !order.contains(self.edges[k].source.node_id)
    }

    /// The node that is reached from `start` by going back along blockers
    /// `steps` times.
    pub closed spec fn back(self, order: Seq<Name>, start: Name, steps: nat) -> Name
        decreases steps,
    {
        if steps == 0 {
            start
        } else {
            self.edges[self.blocker(
                order,
                self.back(order, start, (steps - 1) as nat),
            )].source.node_id
        }
    }

    /// Going back along blockers from a node that is left out stays among
    /// the nodes that are left out.
    proof fn lemma_back_stays_out(self, order: Seq<Name>, start: Name, steps: nat)
        requires
            self.ends_are_nodes(),
            self.rest_is_held_back(order),
            self.nodes.contains_key(start),
            !order.contains(start),
        ensures
            self.nodes.contains_key(self.back(order, start, steps)),
            !order.contains(self.back(order, start, steps)),
            ({
                let k = self.blocker(order, self.back(order, start, steps));
                &&& 0 <= k < self.edges.len()
                &&& self.edges[k].target.node_id == self.back(order, start, steps)
                &&& self.edges[k].source.node_id == self.back(order, start, steps + 1)
            }),
        decreases steps,
    {
        if steps > 0 {
            self.lemma_back_stays_out(order, start, (steps - 1) as nat);
        }
        let node = self.back(order, start, steps);
        let k = self.blocker(order, node);
        assert(0 <= k < self.edges.len() && self.edges[k].target.node_id == node
            && !order.contains(self.edges[k].source.node_id));
    }

    /// In a dependency order that holds the target of every edge, no edges
    /// form a cycle.
    pub proof fn lemma_order_excludes_cycles(self, order: Seq<Name>)
        requires
            self.in_dependency_order(order),
            forall|k: int|
                0 <= k < self.edges.len() ==> order.contains(
                    (#[trigger] self.edges[k]).target.node_id,
                ),
        ensures
            !self.has_cycle(),
    {
        if self.has_cycle() {
            let walk = choose|walk: Seq<int>| self.is_cycle(walk);
            let first = self.edges[walk.first()].source.node_id;
            self.lemma_walk_rises(order, walk, walk.len() - 1);
        }
    }

    /// The place in `order` of the node at which an edge starts is below
    /// that of the node at which it ends.
    proof fn lemma_edge_rises(self, order: Seq<Name>, k: int)
        requires
            self.in_dependency_order(order),
            0 <= k < self.edges.len(),
            order.contains(self.edges[k].target.node_id),
        ensures
            order.contains(self.edges[k].source.node_id),
            order.index_of(self.edges[k].source.node_id) < order.index_of(
                self.edges[k].target.node_id,
            ),
    {
        let target = self.edges[k].target.node_id;
        let source = self.edges[k].source.node_id;
        let j = order.index_of(target);
        assert(order[j] == target);
        assert(order.take(j).contains(source));
        let i = choose|i: int| 0 <= i < order.take(j).len() && order.take(j)[i] == source;
        assert(order[i] == source);
        let at = order.index_of(source);
        assert(order[at] == source);
    }

    /// Along a cycle the places in `order` rise from the start of the first
    /// edge to the end of every edge.
    proof fn lemma_walk_rises(self, order: Seq<Name>, walk: Seq<int>, upto: int)
        requires
            self.in_dependency_order(order),
            forall|k: int|
                0 <= k < self.edges.len() ==> order.contains(
                    (#[trigger] self.edges[k]).target.node_id,
                ),
            self.is_cycle(walk),
            0 <= upto < walk.len(),
        ensures
            order.index_of(self.edges[walk.first()].source.node_id) < order.index_of(
                self.edges[walk[upto]].target.node_id,
            ),
            upto == walk.len() - 1 ==> false,
        decreases upto,
    {
        self.lemma_edge_rises(order, walk[upto]);
        if upto > 0 {
            self.lemma_walk_rises(order, walk, upto - 1);
            assert(self.edges[walk[upto - 1]].target.node_id
                == self.edges[walk[upto]].source.node_id);
        }
    }

    /// Where every edge starts at a node of the blueprint, and every node
    /// that is left out is held back by an edge from a node that is left
    /// out, a node that is left out lies behind a cycle.
    pub proof fn lemma_rest_holds_cycle(self, order: Seq<Name>, left_out: Name)
        requires
            self.nodes.dom().finite(),
            self.ends_are_nodes(),
            self.rest_is_held_back(order),
            self.nodes.contains_key(left_out),
            !order.contains(left_out),
        ensures
            self.has_cycle(),
    {
        let count = self.nodes.dom().len();
        let chain = Seq::new(count + 1, |i: int| self.back(order, left_out, i as nat));
        assert forall|i: int| 0 <= i < chain.len() implies self.nodes.dom().contains(
            #[trigger] chain[i],
        ) by {
            self.lemma_back_stays_out(order, left_out, i as nat);
        }
        let (near, far) = lemma_two_are_same(chain, self.nodes.dom());
        let walk = Seq::new(
            (far - near) as nat,
            |a: int| self.blocker(order, self.back(order, left_out, (far - 1 - a) as nat)),
        );
        assert forall|a: int| 0 <= a < walk.len() implies 0 <= (#[trigger] walk[a])
            < self.edges.len() && self.edges[walk[a]].target.node_id == self.back(
            order,
            left_out,
            (far - 1 - a) as nat,
        ) && self.edges[walk[a]].source.node_id == self.back(
            order,
            left_out,
            (far - a) as nat,
        ) by {
            self.lemma_back_stays_out(order, left_out, (far - 1 - a) as nat);
        }
        assert(self.edges[walk.last()].target.node_id == chain[near]);
        assert(self.edges[walk.first()].source.node_id == chain[far]);
        assert(self.is_cycle(walk));
    }

    /// For a blueprint whose edges start and end at its nodes, sorting
    /// reports nothing exactly if the edges hold no cycle.
    pub proof fn lemma_report_tells_cycles(self, order: Seq<Name>)
        requires
            self.nodes.dom().finite(),
            self.ends_are_nodes(),
            self.in_dependency_order(order),
            self.rest_is_held_back(order),
        ensures
            self.cycle_report(order).len() == 0 <==> !self.has_cycle(),
            self.cycle_report(order).len() == 0 <==> forall|id: Name|
                self.nodes.contains_key(id) ==> order.contains(id),
    {
        order.unique_seq_to_set();
        assert(order.to_set().subset_of(self.nodes.dom())) by {
            assert forall|id: Name| order.to_set().contains(id) implies self.nodes.dom().contains(
                id,
            ) by {
                let i = choose|i: int| 0 <= i < order.len() && order[i] == id;
                assert(self.nodes.contains_key(order[i]));
            }
        }
        vstd::set_lib::lemma_len_subset(order.to_set(), self.nodes.dom());
        if order.len() == self.nodes.len() {
            vstd::set_lib::lemma_subset_equality(order.to_set(), self.nodes.dom());
            assert forall|id: Name| self.nodes.contains_key(id) implies order.contains(id) by {
                assert(order.to_set().contains(id));
            }
            self.lemma_order_excludes_cycles(order);
        } else {
            if forall|id: Name| self.nodes.contains_key(id) ==> order.contains(id) {
                assert(self.nodes.dom() =~= order.to_set());
            }
            let left_out = choose|id: Name| self.nodes.contains_key(id) && !order.contains(id);
            self.lemma_rest_holds_cycle(order, left_out);
        }
    }
}

} // verus!
