//! Kahn's algorithm on node positions: nodes are the numbers below `n`, and
//! each link runs between two of them, or has an end that is no node.

use std::collections::VecDeque;
use vstd::prelude::*;

verus! {

/// An edge between node positions. An end is `None`, or a number that is no
/// node, where the edge names a node that is not there.
#[derive(Clone, Copy, Debug)]
pub struct Link {
    pub source: Option<usize>,
    pub target: Option<usize>,
}

/// Whether link `k` still holds its target back once the nodes in `done` are
/// out: its source is not among them.
pub open spec fn holds_back(links: Seq<Link>, done: Seq<usize>, k: int) -> bool {
    match links[k].source {
        Some(source) => !done.contains(source),
        None => true,
    }
}

/// Whether link `k` still counts while the node `current` is being put out
/// after the nodes in `done`, and its links before place `cut` have been
/// dealt with.
pub open spec fn pending(links: Seq<Link>, done: Seq<usize>, current: usize, cut: int, k: int) -> bool {
    holds_back(links, done, k) && !(k < cut && links[k].source == Some(current))
}

/// How many of the first `upto` links end at `node` and still count.
pub open spec fn tally(
    links: Seq<Link>,
    done: Seq<usize>,
    current: usize,
    cut: int,
    node: usize,
    upto: int,
) -> nat
    decreases upto,
{
    if upto <= 0 {
        0
    } else {
        tally(links, done, current, cut, node, upto - 1) + (if links[upto - 1].target == Some(node)
            && pending(links, done, current, cut, upto - 1) {
            1nat
        } else {
            0nat
        })
    }
}

/// The residual in-degree of `node` once the nodes in `done` are out: the
/// number of links that end at it and do not start at one of them.
pub open spec fn waiting(links: Seq<Link>, done: Seq<usize>, node: usize) -> nat {
    tally(links, done, 0, 0, node, links.len() as int)
}

/// `order` lists nodes, none twice, and each comes after the sources of all
/// the links that end at it.
pub open spec fn in_dependency_order(n: nat, links: Seq<Link>, order: Seq<usize>) -> bool {
    &&& order.no_duplicates()
    &&& forall|i: int| 0 <= i < order.len() ==> (#[trigger] order[i]) < n
    &&& forall|j: int, k: int|
        0 <= j < order.len() && 0 <= k < links.len() && (#[trigger] links[k]).target == Some(
            #[trigger] order[j],
        ) ==> !holds_back(links, order.take(j), k)
}

/// Every node that `order` leaves out is held back by a link whose source
/// `order` leaves out too.
pub open spec fn rest_is_held_back(n: nat, links: Seq<Link>, order: Seq<usize>) -> bool {
    forall|node: usize|
        node < n && !order.contains(node) ==> exists|k: int|
            0 <= k < links.len() && links[k].target == Some(node) && #[trigger] holds_back(
                links,
                order,
                k,
            )
}

/// A tally counts at most the links it looks at.
pub proof fn lemma_tally_bound(
    links: Seq<Link>,
    done: Seq<usize>,
    current: usize,
    cut: int,
    node: usize,
    upto: int,
)
    requires
        0 <= upto,
    ensures
        tally(links, done, current, cut, node, upto) <= upto,
    decreases upto,
{
    if upto > 0 {
        lemma_tally_bound(links, done, current, cut, node, upto - 1);
    }
}

/// Two tallies agree where the same links count.
pub proof fn lemma_tally_same(
    links: Seq<Link>,
    done: Seq<usize>,
    current: usize,
    cut: int,
    other_done: Seq<usize>,
    other_current: usize,
    other_cut: int,
    node: usize,
    upto: int,
)
    requires
        forall|k: int|
            0 <= k < upto ==> pending(links, done, current, cut, k) == pending(
                links,
                other_done,
                other_current,
                other_cut,
                k,
            ),
    ensures
        tally(links, done, current, cut, node, upto) == tally(
            links,
            other_done,
            other_current,
            other_cut,
            node,
            upto,
        ),
    decreases upto,
{
    if upto > 0 {
        lemma_tally_same(
            links,
            done,
            current,
            cut,
            other_done,
            other_current,
            other_cut,
            node,
            upto - 1,
        );
    }
}

/// Moving the cut past one link of the current node takes that link out of
/// the tally of its target and leaves every other tally as it was.
pub proof fn lemma_tally_cut(
    links: Seq<Link>,
    done: Seq<usize>,
    current: usize,
    cut: int,
    next: int,
    node: usize,
    upto: int,
)
    requires
        0 <= cut < next,
        cut < links.len(),
        links[cut].source == Some(current),
        !done.contains(current),
        forall|k: int| cut < k < next ==> (#[trigger] links[k]).source != Some(current),
    ensures
        tally(links, done, current, cut, node, upto) == tally(
            links,
            done,
            current,
            next,
            node,
            upto,
        ) + (if cut < upto && links[cut].target == Some(node) {
            1nat
        } else {
            0nat
        }),
    decreases upto,
{
    if upto > 0 {
        lemma_tally_cut(links, done, current, cut, next, node, upto - 1);
        let k = upto - 1;
        if k < cut {
            assert(pending(links, done, current, cut, k) == pending(links, done, current, next, k));
        } else if k == cut {
            assert(pending(links, done, current, cut, k));
            assert(!pending(links, done, current, next, k));
        } else if k < next {
            assert(links[k].source != Some(current));
            assert(pending(links, done, current, cut, k) == pending(links, done, current, next, k));
        } else {
            assert(pending(links, done, current, cut, k) == pending(links, done, current, next, k));
        }
    }
}

/// A tally is positive exactly if a link that it looks at ends at the node
/// and still counts.
pub proof fn lemma_tally_positive(
    links: Seq<Link>,
    done: Seq<usize>,
    current: usize,
    cut: int,
    node: usize,
    upto: int,
)
    ensures
        tally(links, done, current, cut, node, upto) > 0 <==> exists|k: int|
            0 <= k < upto && links[k].target == Some(node) && #[trigger] pending(
                links,
                done,
                current,
                cut,
                k,
            ),
    decreases upto,
{
    if upto > 0 {
        lemma_tally_positive(links, done, current, cut, node, upto - 1);
        if tally(links, done, current, cut, node, upto) > 0 {
            if tally(links, done, current, cut, node, upto - 1) > 0 {
                let k = choose|k: int|
                    0 <= k < upto - 1 && links[k].target == Some(node) && #[trigger] pending(
                        links,
                        done,
                        current,
                        cut,
                        k,
                    );
                assert(0 <= k < upto && links[k].target == Some(node) && pending(
                    links,
                    done,
                    current,
                    cut,
                    k,
                ));
            } else {
                assert(links[upto - 1].target == Some(node) && pending(
                    links,
                    done,
                    current,
                    cut,
                    upto - 1,
                ));
            }
        }
    }
}

/// A list of distinct numbers below `n` has at most `n` entries.
pub proof fn lemma_distinct_below(list: Seq<usize>, n: nat)
    requires
        list.no_duplicates(),
        forall|i: int| 0 <= i < list.len() ==> (#[trigger] list[i]) < n,
    ensures
        list.len() <= n,
{
    let numbers = list.map_values(|x: usize| x as int);
    assert(numbers.no_duplicates()) by {
        assert forall|i: int, j: int|
            0 <= i < numbers.len() && 0 <= j < numbers.len() && i != j implies numbers[i]
            != numbers[j] by {
            assert(list[i] != list[j]);
        }
    }
    numbers.unique_seq_to_set();
    vstd::set_lib::lemma_int_range(0, n as int);
    assert(numbers.to_set().subset_of(vstd::set_lib::set_int_range(0, n as int))) by {
        assert forall|x: int| numbers.to_set().contains(x) implies vstd::set_lib::set_int_range(
            0,
            n as int,
        ).contains(x) by {
            let i = choose|i: int| 0 <= i < numbers.len() && numbers[i] == x;
            assert(list[i] < n);
        }
    }
    vstd::set_lib::lemma_len_subset(numbers.to_set(), vstd::set_lib::set_int_range(0, n as int));
}

/// Whether `row` has the entry `k`.
pub open spec fn in_row(row: Seq<usize>, k: int) -> bool {
    exists|a: int| 0 <= a < row.len() && (#[trigger] row[a]) as int == k
}

/// `row` lists, in rising order, the places among the first `upto` links of
/// exactly those that start at `source`.
pub open spec fn row_ok(links: Seq<Link>, row: Seq<usize>, source: usize, upto: int) -> bool {
    &&& forall|a: int|
        0 <= a < row.len() ==> (#[trigger] row[a]) < upto && links[row[a] as int].source == Some(
            source,
        )
    &&& forall|a: int, b: int| 0 <= a < b < row.len() ==> (#[trigger] row[a]) < (#[trigger] row[b])
    &&& forall|k: int|
        0 <= k < upto && (#[trigger] links[k]).source == Some(source) ==> in_row(row, k)
}

/// Each node has the row of the links that start at it.
pub open spec fn rows_ok(links: Seq<Link>, rows: Seq<Vec<usize>>, upto: int) -> bool {
    forall|s: int| 0 <= s < rows.len() ==> row_ok(links, (#[trigger] rows[s])@, s as usize, upto)
}

/// The place in the links of entry `j` of a row, or `end` past the row.
pub open spec fn cut_at(row: Seq<usize>, j: int, end: int) -> int {
    if 0 <= j < row.len() {
        row[j] as int
    } else {
        end
    }
}

/// Between two neighbours of its row, and before the first and after the
/// last, no link starts at the node.
pub proof fn lemma_row_gap(links: Seq<Link>, row: Seq<usize>, source: usize, j: int)
    requires
        row_ok(links, row, source, links.len() as int),
        0 <= j <= row.len(),
    ensures
        forall|k: int|
            0 <= k && cut_at(row, j - 1, -1) < k < cut_at(row, j, links.len() as int) ==> (
            #[trigger] links[k]).source != Some(source),
{
    assert forall|k: int|
        0 <= k && cut_at(row, j - 1, -1) < k < cut_at(row, j, links.len() as int) implies (
    #[trigger] links[k]).source != Some(source) by {
        if links[k].source == Some(source) {
            assert(in_row(row, k));
            let a = choose|a: int| 0 <= a < row.len() && (#[trigger] row[a]) as int == k;
            if a < j {
                if a < j - 1 {
                    assert(row[a] < row[j - 1]);
                }
            } else {
                if a > j {
                    assert(row[j] < row[a]);
                }
            }
        }
    }
}

/// The state between two steps: every node whose count is down to zero has
/// been put out or stands in the queue, once, and no other node does.
pub open spec fn frontier_ok(n: nat, counts: Seq<usize>, order: Seq<usize>, queue: Seq<usize>) -> bool {
    &&& counts.len() == n
    &&& order.no_duplicates()
    &&& queue.no_duplicates()
    &&& forall|i: int| 0 <= i < order.len() ==> (#[trigger] order[i]) < n
    &&& forall|i: int| 0 <= i < queue.len() ==> (#[trigger] queue[i]) < n && !order.contains(queue[i])
    &&& forall|node: usize|
        node < n ==> (counts[node as int] == 0 <==> order.contains(node) || queue.contains(node))
}

/// The in-degree of every node, and for every node the places of the links
/// that start at it.
pub fn degrees_and_rows(n: usize, links: &Vec<Link>) -> (tables: (Vec<usize>, Vec<Vec<usize>>))
    ensures
        tables.0@.len() == n,
        tables.1@.len() == n,
        forall|node: usize|
            node < n ==> tables.0@[node as int] == waiting(links@, Seq::<usize>::empty(), node),
        rows_ok(links@, tables.1@, links@.len() as int),
{
    let mut counts: Vec<usize> = Vec::new();
    let mut rows: Vec<Vec<usize>> = Vec::new();
    let mut i: usize = 0;
    while i < n
        invariant
            i <= n,
            counts@.len() == i,
            rows@.len() == i,
            forall|node: int| 0 <= node < i ==> counts@[node] == 0,
            forall|s: int| 0 <= s < i ==> (#[trigger] rows@[s])@.len() == 0,
        decreases n - i,
    {
        counts.push(0);
        rows.push(Vec::new());
        i += 1;
    }
    let ghost none = Seq::<usize>::empty();
    let mut k: usize = 0;
    while k < links.len()
        invariant
            k <= links.len(),
            counts@.len() == n,
            rows@.len() == n,
            none == Seq::<usize>::empty(),
            forall|node: usize|
                node < n ==> counts@[node as int] == tally(links@, none, 0, 0, node, k as int),
            rows_ok(links@, rows@, k as int),
        decreases links.len() - k,
    {
        let link = links[k];
        let ghost before_rows = rows@;
        let ghost before_counts = counts@;
        if let Some(source) = link.source {
            if source < n {
                rows[source].push(k);
                proof {
                    let row = rows@[source as int]@;
                    assert(row[row.len() - 1] == k);
                    assert(before_rows[source as int]@ == row.drop_last());
                    assert forall|j: int|
                        0 <= j < k + 1 && (#[trigger] links@[j]).source == Some(
                            source,
                        ) implies in_row(row, j) by {
                        if j < k {
                            let before_row = before_rows[source as int]@;
                            assert(in_row(before_row, j));
                            let a = choose|a: int|
                                0 <= a < before_row.len() && (#[trigger] before_row[a]) as int
                                    == j;
                            assert(row[a] as int == j);
                        }
                    }
                }
            }
        }
        proof {
            assert forall|s: int| 0 <= s < rows@.len() implies row_ok(
                links@,
                (#[trigger] rows@[s])@,
                s as usize,
                k + 1,
            ) by {
                assert(row_ok(links@, before_rows[s]@, s as usize, k as int));
                if link.source == Some(s as usize) {
                    let row = rows@[s]@;
                    assert forall|a: int| 0 <= a < row.len() implies (#[trigger] row[a]) < k + 1
                        && links@[row[a] as int].source == Some(s as usize) by {
                        if a < row.len() - 1 {
                            assert(row[a] == before_rows[s]@[a]);
                        }
                    }
                    assert forall|a: int, b: int| 0 <= a < b < row.len() implies (
                    #[trigger] row[a]) < (#[trigger] row[b]) by {
                        assert(row[a] == before_rows[s]@[a]);
                        if b < row.len() - 1 {
                            assert(row[b] == before_rows[s]@[b]);
                        }
                    }
                } else {
                    assert(rows@[s] == before_rows[s]);
                }
            }
        }
        if let Some(target) = link.target {
            if target < n {
                proof {
                    lemma_tally_bound(links@, none, 0, 0, target, k as int);
                }
                counts[target] += 1;
            }
        }
        proof {
            assert forall|node: usize| node < n implies counts@[node as int] == tally(
                links@,
                none,
                0,
                0,
                node,
                k + 1,
            ) by {
                assert(before_counts[node as int] == tally(links@, none, 0, 0, node, k as int));
                assert(pending(links@, none, 0, 0, k as int));
            }
        }
        k += 1;
    }
    (counts, rows)
}

/// The nodes whose count is zero, in rising order.
pub fn ready_nodes(counts: &Vec<usize>) -> (queue: VecDeque<usize>)
    ensures
        frontier_ok(counts@.len(), counts@, Seq::<usize>::empty(), queue@),
        forall|i: int, j: int| 0 <= i < j < queue@.len() ==> queue@[i] < queue@[j],
{
    let mut queue: VecDeque<usize> = VecDeque::new();
    let mut node: usize = 0;
    while node < counts.len()
        invariant
            node <= counts.len(),
            forall|i: int| 0 <= i < queue@.len() ==> (#[trigger] queue@[i]) < node,
            forall|i: int, j: int| 0 <= i < j < queue@.len() ==> queue@[i] < queue@[j],
            forall|x: usize| x < node ==> (counts@[x as int] == 0 <==> queue@.contains(x)),
        decreases counts.len() - node,
    {
        if counts[node] == 0 {
            let ghost before = queue@;
            queue.push_back(node);
            proof {
                assert(queue@[queue@.len() - 1] == node);
                assert forall|x: usize| x < node + 1 implies (counts@[x as int] == 0
                    <==> queue@.contains(x)) by {
                    if x < node {
                        if before.contains(x) {
                            let i = choose|i: int| 0 <= i < before.len() && before[i] == x;
                            assert(queue@[i] == x);
                        }
                        if queue@.contains(x) {
                            let i = choose|i: int| 0 <= i < queue@.len() && queue@[i] == x;
                            assert(before[i] == x);
                        }
                    }
                }
            }
        } else {
            proof {
                assert forall|x: usize| x < node + 1 implies (counts@[x as int] == 0
                    <==> queue@.contains(x)) by {
                    if queue@.contains(x) {
                        let i = choose|i: int| 0 <= i < queue@.len() && queue@[i] == x;
                        assert(queue@[i] < node);
                    }
                }
            }
        }
        node += 1;
    }
    queue
}

/// Kahn's algorithm. The result holds the order in which the nodes come out
/// and, for every node, the in-degree that is left to it at the end.
///
/// Nodes whose in-degree is zero wait in a queue, at first in rising order.
/// The node at the front is put out, and every link that starts at it takes
/// one off the in-degree of its target, which joins the queue at zero.
pub fn dependency_order(n: usize, links: &Vec<Link>) -> (outcome: (Vec<usize>, Vec<usize>))
    ensures
        in_dependency_order(n as nat, links@, outcome.0@),
        rest_is_held_back(n as nat, links@, outcome.0@),
        outcome.1@.len() == n,
        forall|node: usize|
            node < n ==> outcome.1@[node as int] == waiting(links@, outcome.0@, node),
        forall|node: usize| node < n ==> (outcome.1@[node as int] == 0 <==> outcome.0@.contains(node)),
{
    let (mut counts, rows) = degrees_and_rows(n, links);
    let mut queue = ready_nodes(&counts);
    let mut order: Vec<usize> = Vec::new();
    let ghost size = links@.len() as int;
    proof {
        assert(order@.take(0) =~= order@);
    }
    while queue.len() > 0
        invariant
            size == links@.len(),
            rows@.len() == n,
            rows_ok(links@, rows@, size),
            frontier_ok(n as nat, counts@, order@, queue@),
            forall|node: usize| node < n ==> counts@[node as int] == waiting(links@, order@, node),
            in_dependency_order(n as nat, links@, order@),
        decreases n - order@.len(),
    {
        let ghost done = order@;
        let ghost before_queue = queue@;
        let current = queue.pop_front().unwrap();
        order.push(current);
        proof {
            assert(before_queue[0] == current);
            assert(!done.contains(current));
            assert(forall|i: int| 0 <= i < queue@.len() ==> queue@[i] == before_queue[i + 1]);
            // The new order is again in dependency order.
            assert forall|j: int, k: int|
                0 <= j < order@.len() && 0 <= k < links@.len() && (#[trigger] links@[k]).target
                    == Some(#[trigger] order@[j]) implies !holds_back(links@, order@.take(j), k) by {
                if j < done.len() {
                    assert(order@.take(j) =~= done.take(j));
                    assert(order@[j] == done[j]);
                } else {
                    assert(order@.take(j) =~= done);
                    if holds_back(links@, done, k) {
                        assert(pending(links@, done, 0, 0, k));
                        lemma_tally_positive(links@, done, 0, 0, current, size);
                    }
                }
            }
            assert(order@.no_duplicates());
            // The frontier without the node that has just left the queue.
            assert forall|i: int| 0 <= i < queue@.len() implies (#[trigger] queue@[i]) < n
                && !order@.contains(queue@[i]) by {
                assert(queue@[i] == before_queue[i + 1]);
                if order@.contains(queue@[i]) {
                    let a = choose|a: int| 0 <= a < order@.len() && order@[a] == queue@[i];
                    if a < done.len() {
                        assert(done[a] == queue@[i]);
                    }
                }
            }
            assert forall|node: usize| node < n implies (counts@[node as int] == 0
                <==> order@.contains(node) || queue@.contains(node)) by {
                if order@.contains(node) {
                    let a = choose|a: int| 0 <= a < order@.len() && order@[a] == node;
                    if a < done.len() {
                        assert(done[a] == node);
                    }
                }
                if queue@.contains(node) {
                    let a = choose|a: int| 0 <= a < queue@.len() && queue@[a] == node;
                    assert(before_queue[a + 1] == node);
                }
                if done.contains(node) {
                    let a = choose|a: int| 0 <= a < done.len() && done[a] == node;
                    assert(order@[a] == node);
                }
                if before_queue.contains(node) {
                    let a = choose|a: int| 0 <= a < before_queue.len() && before_queue[a] == node;
                    if a == 0 {
                        assert(order@[order@.len() - 1] == node);
                    } else {
                        assert(queue@[a - 1] == node);
                    }
                }
            }
            lemma_distinct_below(order@, n as nat);
            // No link of the node has been dealt with yet.
            lemma_row_gap(links@, rows@[current as int]@, current, 0);
            assert forall|node: usize| node < n implies counts@[node as int] == tally(
                links@,
                done,
                current,
                cut_at(rows@[current as int]@, 0, size),
                node,
                size,
            ) by {
                lemma_tally_same(
                    links@,
                    done,
                    0,
                    0,
                    done,
                    current,
                    cut_at(rows@[current as int]@, 0, size),
                    node,
                    size,
                );
            }
        }
        let row = &rows[current];
        let mut j: usize = 0;
        while j < row.len()
            invariant
                j <= row@.len(),
                size == links@.len(),
                current < n,
                rows@.len() == n,
                row@ == rows@[current as int]@,
                row_ok(links@, row@, current, size),
                order@ == done.push(current),
                !done.contains(current),
                frontier_ok(n as nat, counts@, order@, queue@),
                forall|node: usize|
                    node < n ==> counts@[node as int] == tally(
                        links@,
                        done,
                        current,
                        cut_at(row@, j as int, size),
                        node,
                        size,
                    ),
            decreases row@.len() - j,
        {
            let k = row[j];
            let link = links[k];
            let ghost cut = k as int;
            let ghost next = cut_at(row@, j + 1, size);
            let ghost before_counts = counts@;
            let ghost before_queue = queue@;
            proof {
                if j + 1 < row@.len() {
                    assert(row@[j as int] < row@[j + 1]);
                }
                lemma_row_gap(links@, row@, current, j + 1);
                assert forall|node: usize| node < n implies before_counts[node as int] == tally(
                    links@,
                    done,
                    current,
                    next,
                    node,
                    size,
                ) + (if link.target == Some(node) {
                    1nat
                } else {
                    0nat
                }) by {
                    lemma_tally_cut(links@, done, current, cut, next, node, size);
                }
            }
            if let Some(target) = link.target {
                if target < n {
                    counts[target] -= 1;
                    if counts[target] == 0 {
                        queue.push_back(target);
                        proof {
                            assert(queue@[queue@.len() - 1] == target);
                            assert(!before_queue.contains(target));
                            assert(!order@.contains(target));
                            assert forall|node: usize| node < n implies (counts@[node as int] == 0
                                <==> order@.contains(node) || queue@.contains(node)) by {
                                if before_queue.contains(node) {
                                    let a = choose|a: int|
                                        0 <= a < before_queue.len() && before_queue[a] == node;
                                    assert(queue@[a] == node);
                                }
                                if queue@.contains(node) {
                                    let a = choose|a: int|
                                        0 <= a < queue@.len() && queue@[a] == node;
                                    if a < before_queue.len() {
                                        assert(before_queue[a] == node);
                                    }
                                }
                            }
                            assert forall|i: int| 0 <= i < queue@.len() implies (
                            #[trigger] queue@[i]) < n && !order@.contains(queue@[i]) by {
                                if i < before_queue.len() {
                                    assert(queue@[i] == before_queue[i]);
                                }
                            }
                        }
                    }
                }
            }
            j += 1;
        }
        proof {
            assert forall|node: usize| node < n implies counts@[node as int] == waiting(
                links@,
                order@,
                node,
            ) by {
                assert forall|k: int| 0 <= k < size implies pending(links@, done, current, size, k)
                    == pending(links@, order@, 0, 0, k) by {
                    match links@[k].source {
                        Some(source) => {
                            if order@.contains(source) {
                                let a = choose|a: int|
                                    0 <= a < order@.len() && order@[a] == source;
                                if a < done.len() {
                                    assert(done[a] == source);
                                }
                            }
                            if done.contains(source) {
                                let a = choose|a: int| 0 <= a < done.len() && done[a] == source;
                                assert(order@[a] == source);
                            }
                            if source == current {
                                assert(order@[order@.len() - 1] == source);
                            }
                        },
                        None => {},
                    }
                }
                lemma_tally_same(links@, done, current, size, order@, 0, 0, node, size);
            }
        }
    }
    proof {
        assert forall|node: usize| node < n && !order@.contains(node) implies exists|k: int|
            0 <= k < links@.len() && links@[k].target == Some(node) && #[trigger] holds_back(
                links@,
                order@,
                k,
            ) by {
            assert(counts@[node as int] != 0);
            lemma_tally_positive(links@, order@, 0, 0, node, size);
            let k = choose|k: int|
                0 <= k < size && links@[k].target == Some(node) && #[trigger] pending(
                    links@,
                    order@,
                    0,
                    0,
                    k,
                );
            assert(holds_back(links@, order@, k));
        }
    }
    (order, counts)
}

} // verus!
