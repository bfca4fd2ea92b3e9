//! A numbering of the nodes that puts neighbours next to each other.

use vstd::prelude::*;
use crate::hnsw::edges;
use crate::hnsw::graph;
use crate::hnsw::graph::HNSWIndex;
use crate::hnsw::select;
use crate::order;

verus! {

/// The undirected neighbours of each node, with those that one link adds.
pub open spec fn adjacent_by(adj: Seq<Seq<usize>>, u: usize, v: usize) -> Seq<Seq<usize>> {
    if u == v {
        adj
    } else {
        let forth = adj.update(u as int, edges::pushed_unique(adj[u as int], v));
        forth.update(v as int, edges::pushed_unique(forth[v as int], u))
    }
}

/// The undirected neighbours of each node, with those that a list adds.
pub open spec fn adjacent_by_list(adj: Seq<Seq<usize>>, u: usize, list: Seq<usize>) -> Seq<Seq<usize>>
    decreases list.len(),
{
    if list.len() == 0 {
        adj
    } else {
        adjacent_by(adjacent_by_list(adj, u, list.drop_last()), u, list.last())
    }
}

/// The undirected neighbours of `n` nodes by the lists of the first `upto`.
pub open spec fn adjacency(layer: Seq<Seq<usize>>, n: nat, upto: nat) -> Seq<Seq<usize>>
    decreases upto,
{
    if upto == 0 {
        Seq::new(n, |i: int| Seq::<usize>::empty())
    } else {
        adjacent_by_list(adjacency(layer, n, (upto - 1) as nat), (upto - 1) as usize, layer[upto - 1])
    }
}

/// The first of the first `upto` nodes with the fewest neighbours.
pub open spec fn least_degree(adj: Seq<Seq<usize>>, upto: nat) -> int
    decreases upto,
{
    if upto <= 1 {
        0
    } else {
        let before = least_degree(adj, (upto - 1) as nat);
        if adj[upto - 1].len() < adj[before].len() {
            upto - 1
        } else {
            before
        }
    }
}

/// The nodes of a list that are not visited.
pub open spec fn unvisited(list: Seq<usize>, visited: Seq<bool>) -> Seq<usize>
    decreases list.len(),
{
    if list.len() == 0 {
        Seq::empty()
    } else if visited[list.last() as int] {
        unvisited(list.drop_last(), visited)
    } else {
        unvisited(list.drop_last(), visited).push(list.last())
    }
}

/// The nodes in ascending order of their degrees; those of equal degrees keep
/// their order.
pub open spec fn by_degree(adj: Seq<Seq<usize>>, nodes: Seq<usize>) -> Seq<usize> {
    let order = order::stable_order(degrees(adj, nodes));
    Seq::new(nodes.len(), |i: int| nodes[order[i] as int])
}

/// The degrees of nodes.
pub open spec fn degrees(adj: Seq<Seq<usize>>, nodes: Seq<usize>) -> Seq<i64> {
    nodes.map_values(|v: usize| adj[v as int].len() as i64)
}

/// What a breadth-first walk has seen: the nodes in the order in which they were
/// reached, and a flag for each.
pub struct Walk {
    pub queue: Seq<usize>,
    pub visited: Seq<bool>,
}

/// A walk that has reached the nodes of a list as well.
pub open spec fn reached(walk: Walk, nodes: Seq<usize>) -> Walk
    decreases nodes.len(),
{
    if nodes.len() == 0 {
        walk
    } else {
        let before = reached(walk, nodes.drop_last());
        if before.visited[nodes.last() as int] {
            before
        } else {
            Walk {
                queue: before.queue.push(nodes.last()),
                visited: before.visited.update(nodes.last() as int, true),
            }
        }
    }
}

/// Where a breadth-first walk ends that has the first `head` nodes of its queue
/// behind it, after at most `steps` more.
pub open spec fn walked_all(adj: Seq<Seq<usize>>, walk: Walk, head: nat, steps: nat) -> Walk
    decreases steps,
{
    if steps == 0 || head >= walk.queue.len() {
        walk
    } else {
        let u = walk.queue[head as int] as int;
        walked_all(
            adj,
            reached(walk, by_degree(adj, unvisited(adj[u], walk.visited))),
            head + 1,
            (steps - 1) as nat,
        )
    }
}

/// The queue of a walk followed by the first `upto` nodes that it did not reach.
pub open spec fn completed(walk: Walk, upto: nat) -> Seq<usize>
    decreases upto,
{
    if upto == 0 {
        walk.queue
    } else if walk.visited[upto - 1] {
        completed(walk, (upto - 1) as nat)
    } else {
        completed(walk, (upto - 1) as nat).push((upto - 1) as usize)
    }
}

/// A breadth-first walk from one node.
pub open spec fn walk_from(start: usize, n: nat) -> Walk {
    Walk { queue: seq![start], visited: Seq::new(n, |i: int| i == start) }
}

/// The reverse Cuthill-McKee order of the nodes of a layer: a breadth-first walk
/// from a node with the fewest neighbours, which takes neighbours in ascending
/// order of their degrees, then the nodes that it does not reach, all turned
/// round.
pub open spec fn rcm_order(layer: Seq<Seq<usize>>, n: nat) -> Seq<usize> {
    let adj = adjacency(layer, n, n);
    let walk = walked_all(adj, walk_from(least_degree(adj, n) as usize, n), 0, n);
    completed(walk, n).reverse()
}

/// Whether every node of `n` stands once in an order.
pub open spec fn is_order(order: Seq<usize>, n: nat) -> bool {
    &&& order.len() == n
    &&& order.no_duplicates()
    &&& forall|k: int| 0 <= k < n ==> (#[trigger] order[k]) < n
    &&& forall|x: usize| x < n ==> #[trigger] order.contains(x)
}

/// The place of a node in an order.
pub open spec fn place(order: Seq<usize>, node: usize) -> int {
    choose|k: int| 0 <= k < order.len() && order[k] == node
}

/// The place of a node, and the node at a place, belong together.
pub proof fn law_place(order: Seq<usize>, n: nat, node: usize)
    requires
        is_order(order, n),
        node < n,
    ensures
        0 <= place(order, node) < n,
        order[place(order, node)] == node,
        forall|k: int| 0 <= k < n && order[k] == node ==> place(order, node) == k,
{
    assert(order.contains(node));
}

/// Whether a walk has each node once in its queue and flags just those.
spec fn walk_ok(walk: Walk, n: nat) -> bool {
    &&& walk.visited.len() == n
    &&& walk.queue.no_duplicates()
    &&& forall|k: int| 0 <= k < walk.queue.len() ==> (#[trigger] walk.queue[k]) < n
    &&& forall|x: usize| x < n ==> (walk.visited[x as int] <==> #[trigger] walk.queue.contains(x))
    &&& graph::flag_count(walk.visited) == walk.queue.len()
}

proof fn lemma_reach(walk: Walk, node: usize, n: nat)
    requires
        walk_ok(walk, n),
        node < n,
        !walk.visited[node as int],
    ensures
        walk_ok(
            (Walk { queue: walk.queue.push(node), visited: walk.visited.update(node as int, true) }),
            n,
        ),
{
    let after = Walk { queue: walk.queue.push(node), visited: walk.visited.update(node as int, true) };
    assert(!walk.queue.contains(node));
    graph::lemma_flag_count_set(walk.visited, node as int);
    assert forall|x: usize| x < n implies (after.visited[x as int] <==> #[trigger] after.queue.contains(x)) by {
        assert(walk.visited[x as int] <==> walk.queue.contains(x));
        if walk.queue.contains(x) {
            let k = choose|k: int| 0 <= k < walk.queue.len() && walk.queue[k] == x;
            assert(after.queue[k] == x);
        }
        if x == node {
            assert(after.queue[walk.queue.len() as int] == x);
        }
        if after.queue.contains(x) && x != node {
            let k = choose|k: int| 0 <= k < after.queue.len() && after.queue[k] == x;
            assert(walk.queue[k] == x);
        }
    }
    assert forall|i: int, j: int| 0 <= i < after.queue.len() && 0 <= j < after.queue.len() && i != j implies
        after.queue[i] != after.queue[j] by {
        if i == walk.queue.len() {
            assert(walk.queue[j] == after.queue[j]);
        } else if j == walk.queue.len() {
            assert(walk.queue[i] == after.queue[i]);
        } else {
            assert(walk.queue[i] != walk.queue[j]);
        }
    }
}

proof fn lemma_completed(walk: Walk, n: nat, upto: nat)
    requires
        walk_ok(walk, n),
        upto <= n <= usize::MAX,
    ensures
        ({
            let out = completed(walk, upto);
            &&& out.no_duplicates()
            &&& forall|k: int| 0 <= k < out.len() ==> (#[trigger] out[k]) < n
            &&& forall|x: usize|
                x < n ==> (#[trigger] out.contains(x) <==> (walk.visited[x as int] || x < upto))
            &&& out.len() == walk.queue.len() + upto - graph::flag_count(walk.visited.take(upto as int))
        }),
    decreases upto,
{
    if upto == 0 {
        assert(walk.visited.take(0) =~= Seq::<bool>::empty());
    } else {
        let k = (upto - 1) as nat;
        lemma_completed(walk, n, k);
        let before = completed(walk, k);
        let out = completed(walk, upto);
        assert(walk.visited.take(upto as int).drop_last() =~= walk.visited.take(k as int));
        if !walk.visited[k as int] {
            assert(!before.contains(k as usize));
            assert forall|x: usize| x < n implies (#[trigger] out.contains(x) <==> (walk.visited[x as int] || x
                < upto)) by {
                assert(before.contains(x) <==> (walk.visited[x as int] || x < k));
                if before.contains(x) {
                    let i = choose|i: int| 0 <= i < before.len() && before[i] == x;
                    assert(out[i] == x);
                }
                if x == k {
                    assert(out[before.len() as int] == x);
                }
                if out.contains(x) && x != k {
                    let i = choose|i: int| 0 <= i < out.len() && out[i] == x;
                    assert(before[i] == x);
                }
            }
            assert forall|i: int, j: int| 0 <= i < out.len() && 0 <= j < out.len() && i != j implies out[i]
                != out[j] by {
                if i == before.len() {
                    assert(before[j] == out[j]);
                } else if j == before.len() {
                    assert(before[i] == out[i]);
                } else {
                    assert(before[i] != before[j]);
                }
            }
        } else {
            assert forall|x: usize| x < n implies (#[trigger] out.contains(x) <==> (walk.visited[x as int] || x
                < upto)) by {
                assert(before.contains(x) <==> (walk.visited[x as int] || x < k));
            }
        }
    }
}

proof fn lemma_completed_is_order(walk: Walk, n: nat)
    requires
        walk_ok(walk, n),
        n <= usize::MAX,
    ensures
        is_order(completed(walk, n).reverse(), n),
{
    lemma_completed(walk, n, n);
    let out = completed(walk, n);
    let turned = out.reverse();
    assert(walk.visited.take(n as int) =~= walk.visited);
    assert forall|x: usize| x < n implies #[trigger] turned.contains(x) by {
        assert(out.contains(x));
        let k = choose|k: int| 0 <= k < out.len() && out[k] == x;
        assert(turned[out.len() - 1 - k] == x);
    }
    assert forall|k: int| 0 <= k < n implies (#[trigger] turned[k]) < n by {
        assert(turned[k] == out[out.len() - 1 - k]);
    }
    assert forall|i: int, j: int| 0 <= i < turned.len() && 0 <= j < turned.len() && i != j implies turned[i]
        != turned[j] by {
        assert(turned[i] == out[out.len() - 1 - i]);
        assert(turned[j] == out[out.len() - 1 - j]);
    }
}

/// Whether each list holds nodes of `n` only, each once.
pub open spec fn lists_ok(lists: Seq<Seq<usize>>, n: nat) -> bool {
    &&& lists.len() == n
    &&& forall|u: int|
        #![trigger lists[u]]
        0 <= u < n ==> lists[u].no_duplicates() && within(lists[u], n)
}

/// Whether a list holds nodes of `n` only.
pub open spec fn within(list: Seq<usize>, n: nat) -> bool {
    forall|k: int| 0 <= k < list.len() ==> (#[trigger] list[k]) < n
}

pub(crate) proof fn lemma_unique_bounded(list: Seq<usize>, n: nat)
    requires
        list.no_duplicates(),
        within(list, n),
    ensures
        list.len() <= n,
    decreases n,
{
    if list.len() > 0 {
        assert(list[0] < n);
        if exists|k: int| 0 <= k < list.len() && list[k] == n - 1 {
            let k = choose|k: int| 0 <= k < list.len() && list[k] == n - 1;
            let rest = list.remove(k);
            assert forall|i: int| 0 <= i < rest.len() implies (#[trigger] rest[i]) < n - 1 by {
                let j = if i < k {
                    i
                } else {
                    i + 1
                };
                assert(rest[i] == list[j]);
                assert(list[j] != list[k]);
            }
            lemma_unique_bounded(rest, (n - 1) as nat);
        } else {
            lemma_unique_bounded(list, (n - 1) as nat);
        }
    }
}

proof fn lemma_pushed_unique(list: Seq<usize>, node: usize, n: nat)
    requires
        list.no_duplicates(),
        within(list, n),
        node < n,
    ensures
        edges::pushed_unique(list, node).no_duplicates(),
        within(edges::pushed_unique(list, node), n),
{
    let out = edges::pushed_unique(list, node);
    assert forall|k: int| 0 <= k < out.len() implies (#[trigger] out[k]) < n by {
        if k < list.len() {
            assert(list[k] < n);
        }
    }
    assert forall|i: int, j: int| 0 <= i < out.len() && 0 <= j < out.len() && i != j implies out[i] != out[j] by {
        if i < list.len() && j < list.len() {
            assert(list[i] != list[j]);
        } else if i < list.len() {
            assert(list.contains(list[i]));
        } else {
            assert(list.contains(list[j]));
        }
    }
}

proof fn lemma_adjacent_by(adj: Seq<Seq<usize>>, u: usize, v: usize, n: nat)
    requires
        lists_ok(adj, n),
        u < n,
        v < n,
    ensures
        lists_ok(adjacent_by(adj, u, v), n),
{
    if u != v {
        lemma_pushed_unique(adj[u as int], v, n);
        let forth = adj.update(u as int, edges::pushed_unique(adj[u as int], v));
        lemma_pushed_unique(forth[v as int], u, n);
    }
}

proof fn lemma_adjacent_by_list(adj: Seq<Seq<usize>>, u: usize, list: Seq<usize>, n: nat)
    requires
        lists_ok(adj, n),
        u < n,
        within(list, n),
    ensures
        lists_ok(adjacent_by_list(adj, u, list), n),
    decreases list.len(),
{
    if list.len() > 0 {
        lemma_adjacent_by_list(adj, u, list.drop_last(), n);
        assert(list[list.len() - 1] < n);
        lemma_adjacent_by(adjacent_by_list(adj, u, list.drop_last()), u, list.last(), n);
    }
}

pub(crate) proof fn lemma_adjacency(layer: Seq<Seq<usize>>, n: nat, upto: nat)
    requires
        layer.len() == n,
        n <= usize::MAX,
        upto <= n,
        forall|u: int| 0 <= u < n ==> within(#[trigger] layer[u], n),
    ensures
        lists_ok(adjacency(layer, n, upto), n),
    decreases upto,
{
    if upto > 0 {
        lemma_adjacency(layer, n, (upto - 1) as nat);
        assert(within(layer[upto - 1], n));
        lemma_adjacent_by_list(
            adjacency(layer, n, (upto - 1) as nat),
            (upto - 1) as usize,
            layer[upto - 1],
            n,
        );
    }
}

proof fn lemma_unvisited(list: Seq<usize>, visited: Seq<bool>, n: nat)
    requires
        within(list, n),
    ensures
        within(unvisited(list, visited), n),
        unvisited(list, visited).len() <= list.len(),
    decreases list.len(),
{
    if list.len() > 0 {
        let rest = list.drop_last();
        assert forall|k: int| 0 <= k < rest.len() implies (#[trigger] rest[k]) < n by {
            assert(list[k] < n);
        }
        lemma_unvisited(rest, visited, n);
        assert(list[list.len() - 1] < n);
        let before = unvisited(rest, visited);
        let out = unvisited(list, visited);
        assert forall|k: int| 0 <= k < out.len() implies (#[trigger] out[k]) < n by {
            if k < before.len() {
                assert(out[k] == before[k]);
            }
        }
    }
}

proof fn lemma_by_degree(adj: Seq<Seq<usize>>, nodes: Seq<usize>, n: nat)
    requires
        within(nodes, n),
        nodes.len() <= u64::MAX,
    ensures
        within(by_degree(adj, nodes), n),
{
    let keys = degrees(adj, nodes);
    order::law_stable_order(keys);
    let out = by_degree(adj, nodes);
    assert forall|k: int| 0 <= k < out.len() implies (#[trigger] out[k]) < n by {
        assert(order::stable_order(keys)[k] < keys.len());
    }
}

proof fn lemma_reached(walk: Walk, nodes: Seq<usize>, n: nat)
    requires
        walk_ok(walk, n),
        within(nodes, n),
    ensures
        walk_ok(reached(walk, nodes), n),
        reached(walk, nodes).queue.len() >= walk.queue.len(),
    decreases nodes.len(),
{
    if nodes.len() > 0 {
        let rest = nodes.drop_last();
        assert forall|k: int| 0 <= k < rest.len() implies (#[trigger] rest[k]) < n by {
            assert(nodes[k] < n);
        }
        lemma_reached(walk, rest, n);
        assert(nodes[nodes.len() - 1] < n);
        let before = reached(walk, rest);
        if !before.visited[nodes.last() as int] {
            lemma_reach(before, nodes.last(), n);
        }
    }
}

proof fn lemma_next_nodes(adj: Seq<Seq<usize>>, walk: Walk, u: int, n: nat)
    requires
        lists_ok(adj, n),
        0 <= u < n,
        n <= usize::MAX,
    ensures
        within(by_degree(adj, unvisited(adj[u], walk.visited)), n),
        unvisited(adj[u], walk.visited).len() <= n,
{
    lemma_unique_bounded(adj[u], n);
    lemma_unvisited(adj[u], walk.visited, n);
    lemma_by_degree(adj, unvisited(adj[u], walk.visited), n);
}

proof fn lemma_walked_all(adj: Seq<Seq<usize>>, walk: Walk, head: nat, steps: nat, n: nat)
    requires
        lists_ok(adj, n),
        walk_ok(walk, n),
        n <= usize::MAX,
    ensures
        walk_ok(walked_all(adj, walk, head, steps), n),
    decreases steps,
{
    if steps > 0 && head < walk.queue.len() {
        let u = walk.queue[head as int] as int;
        lemma_next_nodes(adj, walk, u, n);
        let nodes = by_degree(adj, unvisited(adj[u], walk.visited));
        lemma_reached(walk, nodes, n);
        lemma_walked_all(adj, reached(walk, nodes), head + 1, (steps - 1) as nat, n);
    }
}

proof fn lemma_walk_from(start: usize, n: nat)
    requires
        start < n,
    ensures
        walk_ok(walk_from(start, n), n),
{
    let empty = Walk { queue: Seq::empty(), visited: Seq::new(n, |i: int| false) };
    lemma_no_flags(empty.visited);
    assert(walk_ok(empty, n));
    lemma_reach(empty, start, n);
    let walk = walk_from(start, n);
    assert(walk.queue =~= empty.queue.push(start));
    assert(walk.visited =~= empty.visited.update(start as int, true));
}

pub(crate) proof fn lemma_no_flags(flags: Seq<bool>)
    requires
        forall|i: int| 0 <= i < flags.len() ==> !#[trigger] flags[i],
    ensures
        graph::flag_count(flags) == 0,
    decreases flags.len(),
{
    if flags.len() > 0 {
        let rest = flags.drop_last();
        assert forall|i: int| 0 <= i < rest.len() implies !#[trigger] rest[i] by {
            assert(!flags[i]);
        }
        lemma_no_flags(rest);
        assert(!flags[flags.len() - 1]);
    }
}

pub(crate) proof fn lemma_least_degree(adj: Seq<Seq<usize>>, upto: nat)
    requires
        upto > 0,
    ensures
        0 <= least_degree(adj, upto) < upto,
        forall|i: int| 0 <= i < upto ==> adj[least_degree(adj, upto)].len() <= (#[trigger] adj[i]).len(),
        forall|i: int|
            0 <= i < least_degree(adj, upto) ==> adj[least_degree(adj, upto)].len() < (#[trigger] adj[i]).len(),
    decreases upto,
{
    if upto > 1 {
        lemma_least_degree(adj, (upto - 1) as nat);
    }
}

/// The reverse Cuthill-McKee order names every node once.
pub proof fn law_rcm_order_names_every_node(layer: Seq<Seq<usize>>, n: nat)
    requires
        layer.len() == n,
        0 < n <= usize::MAX,
        forall|u: int| 0 <= u < n ==> within(#[trigger] layer[u], n),
    ensures
        is_order(rcm_order(layer, n), n),
{
    let adj = adjacency(layer, n, n);
    lemma_adjacency(layer, n, n);
    lemma_least_degree(adj, n);
    let start = walk_from(least_degree(adj, n) as usize, n);
    lemma_walk_from(least_degree(adj, n) as usize, n);
    lemma_walked_all(adj, start, 0, n, n);
    lemma_completed_is_order(walked_all(adj, start, 0, n), n);
}

/// The lists of a vector of lists.
pub open spec fn lists_of(lists: Seq<Vec<usize>>) -> Seq<Seq<usize>> {
    lists.map_values(|list: Vec<usize>| list@)
}

/// Adds a node to a list that does not hold it.
fn push_unique(lists: &mut Vec<Vec<usize>>, at: usize, node: usize)
    requires
        at < old(lists)@.len(),
    ensures
        final(lists)@.len() == old(lists)@.len(),
        lists_of(final(lists)@) == lists_of(old(lists)@).update(
            at as int,
            edges::pushed_unique(lists_of(old(lists)@)[at as int], node),
        ),
{
    let ghost before = lists@;
    if !select::holds(lists[at].as_slice(), node) {
        lists[at].push(node);
    }
    assert(lists_of(lists@) =~= lists_of(before).update(
        at as int,
        edges::pushed_unique(lists_of(before)[at as int], node),
    ));
}

impl HNSWIndex {
    /// The undirected neighbours of each node in the lowest layer.
    fn adjacency_lists(&self) -> (r: Vec<Vec<usize>>)
        requires
            self.wf(),
        ensures
            lists_of(r@) == adjacency(self.links()[0], self.nodes(), self.nodes()),
            lists_ok(lists_of(r@), self.nodes()),
    {
        let n: usize = self.len();
        let ghost layer = self.links()[0];
        proof {
            assert(self.layers@[0]@.len() == n);
            assert forall|u: int| 0 <= u < n implies within(#[trigger] layer[u], n as nat) by {
                assert forall|k: int| 0 <= k < layer[u].len() implies (#[trigger] layer[u][k]) < n by {
                    assert(self.links()[0][u][k] < n);
                }
            }
            lemma_adjacency(layer, n as nat, n as nat);
        }
        let mut adj: Vec<Vec<usize>> = Vec::with_capacity(n);
        let mut i: usize = 0;
        while i < n
            invariant
                i <= n,
                adj@.len() == i,
                forall|k: int| 0 <= k < i ==> (#[trigger] adj@[k])@ == Seq::<usize>::empty(),
            decreases n - i,
        {
            adj.push(Vec::new());
            i += 1;
        }
        assert(lists_of(adj@) =~= adjacency(layer, n as nat, 0));
        let mut u: usize = 0;
        while u < n
            invariant
                u <= n,
                n == self.nodes(),
                self.wf(),
                layer == self.links()[0],
                layer.len() == n,
                self.layers@[0]@.len() == n,
                forall|u: int| 0 <= u < n ==> within(#[trigger] layer[u], n as nat),
                adj@.len() == n,
                lists_of(adj@) == adjacency(layer, n as nat, u as nat),
            decreases n - u,
        {
            let ghost start = lists_of(adj@);
            let list: &Vec<usize> = &self.layers[0][u];
            assert(list@ == layer[u as int]);
            assert(within(layer[u as int], n as nat));
            let mut k: usize = 0;
            while k < list.len()
                invariant
                    k <= list@.len(),
                    u < n,
                    within(list@, n as nat),
                    adj@.len() == n,
                    lists_of(adj@) == adjacent_by_list(start, u, list@.take(k as int)),
                decreases list@.len() - k,
            {
                let v: usize = list[k];
                assert(list@.take(k + 1).drop_last() =~= list@.take(k as int));
                assert(list@.take(k + 1).last() == v);
                if v != u {
                    push_unique(&mut adj, u, v);
                    push_unique(&mut adj, v, u);
                }
                k += 1;
            }
            assert(list@.take(k as int) =~= list@);
            u += 1;
        }
        adj
    }
}

/// The nodes of a list that are not visited, in ascending order of their degrees.
fn next_nodes(adj: &Vec<Vec<usize>>, u: usize, visited: &Vec<bool>) -> (r: Vec<usize>)
    requires
        lists_ok(lists_of(adj@), visited@.len()),
        u < visited@.len(),
    ensures
        r@ == by_degree(lists_of(adj@), unvisited(lists_of(adj@)[u as int], visited@)),
{
    let ghost lists = lists_of(adj@);
    let ghost n = visited@.len();
    let list: &Vec<usize> = &adj[u];
    assert(list@ == lists[u as int]);
    let mut free: Vec<usize> = Vec::new();
    let mut keys: Vec<i64> = Vec::new();
    let mut k: usize = 0;
    while k < list.len()
        invariant
            k <= list@.len(),
            lists == lists_of(adj@),
            lists.len() == adj@.len(),
            n == visited@.len(),
            adj@.len() == n,
            within(list@, n),
            free@ == unvisited(list@.take(k as int), visited@),
            keys@ == degrees(lists, free@),
        decreases list@.len() - k,
    {
        let v: usize = list[k];
        assert(list@.take(k + 1).drop_last() =~= list@.take(k as int));
        assert(list@.take(k + 1).last() == v);
        if !visited[v] {
            let ghost before = free@;
            free.push(v);
            keys.push(adj[v].len() as i64);
            assert(lists[v as int] == adj@[v as int]@);
            assert(keys@ =~= degrees(lists, free@));
        }
        k += 1;
    }
    assert(list@.take(k as int) =~= list@);
    let order: Vec<usize> = order::stable_order_of(keys.as_slice());
    proof {
        let count = keys.len();
        order::law_stable_order(keys@);
    }
    let ghost goal = by_degree(lists, free@);
    let mut out: Vec<usize> = Vec::with_capacity(order.len());
    let mut k: usize = 0;
    while k < order.len()
        invariant
            k <= order@.len(),
            order@.len() == free@.len(),
            goal == by_degree(lists, free@),
            keys@ == degrees(lists, free@),
            forall|i: int|
                0 <= i < order@.len() ==> #[trigger] order@[i] == order::stable_order(keys@)[i] && order@[i]
                    < free@.len(),
            out@ == goal.take(k as int),
        decreases order@.len() - k,
    {
        out.push(free[order[k]]);
        k += 1;
    }
    assert(out@ =~= goal);
    out
}

impl HNSWIndex {
    /// The reverse Cuthill-McKee order of the nodes by their links in the lowest
    /// layer.
    pub(crate) fn rcm_permutation(&self) -> (r: Vec<usize>)
        requires
            self.wf(),
            self.nodes() > 0,
        ensures
            r@ == rcm_order(self.links()[0], self.nodes()),
            is_order(r@, self.nodes()),
    {
        let n: usize = self.len();
        let adj: Vec<Vec<usize>> = self.adjacency_lists();
        let ghost lists = lists_of(adj@);
        let mut start: usize = 0;
        let mut i: usize = 1;
        while i < n
            invariant
                1 <= i <= n,
                start < i,
                lists == lists_of(adj@),
                adj@.len() == n,
                start == least_degree(lists, i as nat),
            decreases n - i,
        {
            assert(lists[i as int] == adj@[i as int]@);
            assert(lists[start as int] == adj@[start as int]@);
            if adj[i].len() < adj[start].len() {
                start = i;
            }
            i += 1;
        }
        let mut visited: Vec<bool> = Vec::with_capacity(n);
        let mut i: usize = 0;
        while i < n
            invariant
                i <= n,
                visited@ == Seq::new(i as nat, |k: int| k == start),
            decreases n - i,
        {
            visited.push(i == start);
            i += 1;
        }
        let mut queue: Vec<usize> = Vec::with_capacity(n);
        queue.push(start);
        assert(queue@ =~= seq![start]);
        let ghost first = walk_from(start, n as nat);
        assert(visited@ =~= first.visited);
        let ghost goal = walked_all(lists, first, 0, n as nat);
        proof {
            lemma_walk_from(start, n as nat);
            lemma_walked_all(lists, first, 0, n as nat, n as nat);
        }
        let mut head: usize = 0;
        while head < queue.len()
            invariant
                lists == lists_of(adj@),
                adj@.len() == n,
                lists_ok(lists, n as nat),
                head <= queue@.len() <= n,
                walk_ok((Walk { queue: queue@, visited: visited@ }), n as nat),
                goal == walked_all(
                    lists,
                    Walk { queue: queue@, visited: visited@ },
                    head as nat,
                    (n - head) as nat,
                ),
            decreases n - head,
        {
            let ghost walk = Walk { queue: queue@, visited: visited@ };
            let u: usize = queue[head];
            let nodes: Vec<usize> = next_nodes(&adj, u, &visited);
            proof {
                lemma_next_nodes(lists, walk, u as int, n as nat);
            }
            let mut k: usize = 0;
            while k < nodes.len()
                invariant
                    k <= nodes@.len(),
                    within(nodes@, n as nat),
                    visited@.len() == n,
                    (Walk { queue: queue@, visited: visited@ }) == reached(walk, nodes@.take(k as int)),
                decreases nodes@.len() - k,
            {
                let v: usize = nodes[k];
                assert(nodes@.take(k + 1).drop_last() =~= nodes@.take(k as int));
                assert(nodes@.take(k + 1).last() == v);
                if !visited[v] {
                    visited.set(v, true);
                    queue.push(v);
                }
                k += 1;
            }
            assert(nodes@.take(k as int) =~= nodes@);
            proof {
                lemma_reached(walk, nodes@, n as nat);
                graph::lemma_flag_count_bound(visited@);
            }
            head += 1;
        }
        let ghost walk = Walk { queue: queue@, visited: visited@ };
        assert(walk == goal);
        let mut out: Vec<usize> = queue;
        let mut i: usize = 0;
        while i < n
            invariant
                i <= n,
                walk.visited == visited@,
                visited@.len() == n,
                out@ == completed(walk, i as nat),
            decreases n - i,
        {
            if !visited[i] {
                out.push(i);
            }
            i += 1;
        }
        proof {
            lemma_completed_is_order(walk, n as nat);
        }
        reversed(&out)
    }
}

/// The nodes in reverse.
fn reversed(nodes: &Vec<usize>) -> (r: Vec<usize>)
    ensures
        r@ == nodes@.reverse(),
{
    let mut out: Vec<usize> = Vec::with_capacity(nodes.len());
    let mut i: usize = nodes.len();
    while i > 0
        invariant
            i <= nodes@.len(),
            out@ == nodes@.reverse().take(nodes@.len() - i),
        decreases i,
    {
        out.push(nodes[i - 1]);
        i -= 1;
    }
    assert(out@ =~= nodes@.reverse());
    out
}

} // verus!
