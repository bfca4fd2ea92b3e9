//! In which order the nodes of a graph are numbered anew.

use vstd::prelude::*;
use crate::hnsw::edges;
use crate::hnsw::rcm;
use crate::hnsw::rcm::Walk;
use crate::laws::encode::numbers;
use crate::laws::neighbours;
use crate::order;

verus! {

/// Whether two nodes are linked, the one way or the other.
pub open spec fn are_linked(layer: Seq<Seq<usize>>, u: usize, v: usize, upto: nat) -> bool {
    u != v && ((u < upto && layer[u as int].contains(v)) || (v < upto && layer[v as int].contains(u)))
}

proof fn lemma_adjacent_by_list(adj: Seq<Seq<usize>>, u: usize, list: Seq<usize>, n: nat, a: usize, b: usize)
    requires
        adj.len() == n,
        u < n,
        a < n,
        rcm::within(list, n),
    ensures
        rcm::adjacent_by_list(adj, u, list).len() == n,
        rcm::adjacent_by_list(adj, u, list)[a as int].contains(b) <==> adj[a as int].contains(b) || (a != b && ((a == u
            && list.contains(b)) || (b == u && list.contains(a)))),
    decreases list.len(),
{
    if list.len() > 0 {
        let rest = list.drop_last();
        assert(rcm::within(rest, n)) by {
            assert forall|k: int| 0 <= k < rest.len() implies (#[trigger] rest[k]) < n by {
                assert(list[k] < n);
            }
        }
        lemma_adjacent_by_list(adj, u, rest, n, a, b);
        let before = rcm::adjacent_by_list(adj, u, rest);
        let v = list.last();
        assert(list[list.len() - 1] < n);
        lemma_contains_last(list, a);
        lemma_contains_last(list, b);
        if u != v {
            let forth = before.update(u as int, edges::pushed_unique(before[u as int], v));
            neighbours::lemma_pushed(before[u as int], v, b);
            neighbours::lemma_pushed(forth[v as int], u, b);
        }
    }
}

proof fn lemma_contains_last(list: Seq<usize>, x: usize)
    requires
        list.len() > 0,
    ensures
        list.contains(x) <==> list.drop_last().contains(x) || list.last() == x,
{
    let rest = list.drop_last();
    if list.contains(x) {
        let k = choose|k: int| 0 <= k < list.len() && list[k] == x;
        if k < rest.len() {
            assert(rest[k] == x);
        }
    }
    if rest.contains(x) {
        let k = choose|k: int| 0 <= k < rest.len() && rest[k] == x;
        assert(list[k] == x);
    }
    assert(list[list.len() - 1] == list.last());
}

proof fn lemma_adjacency(layer: Seq<Seq<usize>>, n: nat, upto: nat, a: usize, b: usize)
    requires
        layer.len() == n,
        n <= usize::MAX,
        upto <= n,
        a < n,
        forall|u: int| 0 <= u < n ==> rcm::within(#[trigger] layer[u], n),
    ensures
        rcm::adjacency(layer, n, upto).len() == n,
        rcm::adjacency(layer, n, upto)[a as int].contains(b) <==> are_linked(layer, a, b, upto),
    decreases upto,
{
    if upto > 0 {
        lemma_adjacency(layer, n, (upto - 1) as nat, a, b);
        assert(rcm::within(layer[upto - 1], n));
        lemma_adjacent_by_list(
            rcm::adjacency(layer, n, (upto - 1) as nat),
            (upto - 1) as usize,
            layer[upto - 1],
            n,
            a,
            b,
        );
    }
}

/// The neighbours by which nodes are ordered are all others that are linked with them,
/// each once, whichever way the link goes.
pub proof fn law_links_count_both_ways(layer: Seq<Seq<usize>>, n: nat, u: usize, v: usize)
    requires
        layer.len() == n,
        n <= usize::MAX,
        u < n,
        v < n,
        forall|u: int| 0 <= u < n ==> rcm::within(#[trigger] layer[u], n),
    ensures
        rcm::adjacency(layer, n, n).len() == n,
        rcm::adjacency(layer, n, n)[u as int].no_duplicates(),
        rcm::adjacency(layer, n, n)[u as int].contains(v) <==> u != v && (layer[u as int].contains(v)
            || layer[v as int].contains(u)),
{
    lemma_adjacency(layer, n, n, u, v);
    rcm::lemma_adjacency(layer, n, n);
}

/// Whether a node has not been reached.
pub open spec fn is_new(reached: Seq<usize>) -> spec_fn(usize) -> bool {
    |v: usize| !reached.contains(v)
}

/// How many neighbours each of some nodes has.
pub open spec fn degrees_of(adj: Seq<Seq<usize>>, nodes: Seq<usize>) -> Seq<int> {
    nodes.map_values(|v: usize| adj[v as int].len() as int)
}

/// Whether nodes are others in the order of their degrees; those of equal degrees as
/// they were.
pub open spec fn are_by_degree(adj: Seq<Seq<usize>>, nodes: Seq<usize>, out: Seq<usize>) -> bool {
    exists|positions: Seq<int>| #[trigger]
        neighbours::is_stable_order(degrees_of(adj, nodes), positions) && out == positions.map_values(
            |i: int| nodes[i],
        )
}

/// Whether the nodes of a walk from one place to another are those of a node's neighbours
/// that were not reached before, by their degrees.
pub open spec fn are_its_followers(adj: Seq<Seq<usize>>, queue: Seq<usize>, node: int, from: int, to: int) -> bool {
    &&& 0 <= from <= to <= queue.len()
    &&& are_by_degree(adj, adj[node].filter(is_new(queue.take(from))), queue.subrange(from, to))
}

/// Whether nodes are in the order of a breadth-first walk: each in turn is followed by
/// those of its neighbours that were not reached before it, by their degrees. The ends
/// say how far the walk had come before each node.
pub open spec fn is_breadth_first(adj: Seq<Seq<usize>>, queue: Seq<usize>, from: int, ends: Seq<int>) -> bool {
    &&& ends.len() == queue.len() - from + 1
    &&& ends.last() == queue.len()
    &&& forall|i: int, j: int|
        #![trigger ends[i], ends[j]]
        0 <= i < ends.len() - 1 && j == i + 1 ==> are_its_followers(
            adj,
            queue,
            queue[from + i] as int,
            ends[i],
            ends[j],
        )
}

/// Whether a walk flags the nodes of its queue and no others.
pub open spec fn is_flagged(walk: Walk, n: nat) -> bool {
    &&& walk.visited.len() == n
    &&& walk.queue.no_duplicates()
    &&& rcm::within(walk.queue, n)
    &&& forall|x: usize| x < n ==> (walk.visited[x as int] <==> #[trigger] walk.queue.contains(x))
}

proof fn lemma_unvisited(list: Seq<usize>, walk: Walk, n: nat)
    requires
        is_flagged(walk, n),
        rcm::within(list, n),
    ensures
        rcm::unvisited(list, walk.visited) == list.filter(is_new(walk.queue)),
    decreases list.len(),
{
    reveal(Seq::filter);
    if list.len() > 0 {
        let rest = list.drop_last();
        assert(rcm::within(rest, n)) by {
            assert forall|k: int| 0 <= k < rest.len() implies (#[trigger] rest[k]) < n by {
                assert(list[k] < n);
            }
        }
        lemma_unvisited(rest, walk, n);
        assert(list[list.len() - 1] < n);
        assert(walk.visited[list.last() as int] <==> walk.queue.contains(list.last()));
    } else {
        assert(list.filter(is_new(walk.queue)) =~= Seq::empty());
    }
}

proof fn lemma_reached(walk: Walk, nodes: Seq<usize>, n: nat)
    requires
        is_flagged(walk, n),
        nodes.no_duplicates(),
        rcm::within(nodes, n),
        forall|k: int| 0 <= k < nodes.len() ==> !walk.queue.contains(#[trigger] nodes[k]),
    ensures
        is_flagged(rcm::reached(walk, nodes), n),
        rcm::reached(walk, nodes).queue == walk.queue + nodes,
    decreases nodes.len(),
{
    if nodes.len() == 0 {
        assert(walk.queue + nodes =~= walk.queue);
    } else {
        let rest = nodes.drop_last();
        let last = nodes.last();
        assert forall|k: int| 0 <= k < rest.len() implies !walk.queue.contains(#[trigger] rest[k]) && rest[k] < n by {
            assert(!walk.queue.contains(nodes[k]) && nodes[k] < n);
        }
        lemma_reached(walk, rest, n);
        let before = rcm::reached(walk, rest);
        assert(last == nodes[nodes.len() - 1] && last < n);
        assert(!before.queue.contains(last)) by {
            if before.queue.contains(last) {
                let k = choose|k: int| 0 <= k < before.queue.len() && before.queue[k] == last;
                if k < walk.queue.len() {
                    assert(walk.queue[k] == last);
                } else {
                    assert(rest[k - walk.queue.len()] == nodes[nodes.len() - 1]);
                }
            }
        }
        assert(!before.visited[last as int]);
        let after = rcm::reached(walk, nodes);
        assert(after.queue == before.queue.push(last));
        assert(after.queue =~= walk.queue + nodes);
        assert forall|x: usize| x < n implies (after.visited[x as int] <==> #[trigger] after.queue.contains(x)) by {
            assert(before.visited[x as int] <==> before.queue.contains(x));
            lemma_contains_last(after.queue, x);
            assert(after.queue.drop_last() =~= before.queue);
        }
    }
}

proof fn lemma_by_degree(adj: Seq<Seq<usize>>, nodes: Seq<usize>, n: nat)
    requires
        nodes.len() <= u64::MAX,
        nodes.no_duplicates(),
        rcm::within(nodes, n),
        adj.len() == n,
        forall|u: int| 0 <= u < n ==> (#[trigger] adj[u]).len() <= 0x7fff_ffff_ffff_ffff,
    ensures
        are_by_degree(adj, nodes, rcm::by_degree(adj, nodes)),
        rcm::by_degree(adj, nodes).no_duplicates(),
        forall|k: int| 0 <= k < rcm::by_degree(adj, nodes).len() ==> nodes.contains(#[trigger] rcm::by_degree(adj, nodes)[k]),
{
    let keys = rcm::degrees(adj, nodes);
    let plain = degrees_of(adj, nodes);
    let found = order::stable_order(keys);
    order::law_stable_order(keys);
    let out = rcm::by_degree(adj, nodes);
    let positions = found.map_values(|i: u64| i as int);
    assert forall|i: int, j: int| 0 <= i < j < positions.len() implies {
        let a = #[trigger] positions[i];
        let b = #[trigger] positions[j];
        plain[a] < plain[b] || (plain[a] == plain[b] && a < b)
    } by {
        let a = found[i];
        let b = found[j];
        assert(keys[a as int] < keys[b as int] || (keys[a as int] == keys[b as int] && a < b));
        assert(nodes[a as int] < n && nodes[b as int] < n);
        assert(adj[nodes[a as int] as int].len() <= 0x7fff_ffff_ffff_ffff);
        assert(adj[nodes[b as int] as int].len() <= 0x7fff_ffff_ffff_ffff);
        assert(keys[a as int] == plain[a as int] && keys[b as int] == plain[b as int]);
    }
    assert(neighbours::is_stable_order(plain, positions));
    assert(out =~= positions.map_values(|i: int| nodes[i]));
    assert forall|i: int, j: int| 0 <= i < out.len() && 0 <= j < out.len() && i != j implies out[i] != out[j] by {
        assert(found[i] != found[j]);
        assert(nodes[found[i] as int] != nodes[found[j] as int]);
    }
    assert forall|k: int| 0 <= k < out.len() implies nodes.contains(#[trigger] out[k]) by {
        assert(nodes[found[k] as int] == out[k]);
    }
}

proof fn lemma_filtered(list: Seq<usize>, keep: spec_fn(usize) -> bool)
    requires
        list.no_duplicates(),
    ensures
        list.filter(keep).no_duplicates(),
        list.filter(keep).len() <= list.len(),
        forall|k: int|
            0 <= k < list.filter(keep).len() ==> list.contains(#[trigger] list.filter(keep)[k]) && keep(
                list.filter(keep)[k],
            ),
    decreases list.len(),
{
    reveal(Seq::filter);
    if list.len() > 0 {
        let rest = list.drop_last();
        lemma_filtered(rest, keep);
        let before = rest.filter(keep);
        let out = list.filter(keep);
        assert forall|k: int| 0 <= k < out.len() implies list.contains(#[trigger] out[k]) && keep(out[k]) by {
            if k < before.len() {
                assert(out[k] == before[k]);
                lemma_contains_last(list, out[k]);
            } else {
                assert(list[list.len() - 1] == out[k]);
            }
        }
        assert forall|i: int, j: int| 0 <= i < out.len() && 0 <= j < out.len() && i != j implies out[i] != out[j] by {
            if i < before.len() && j < before.len() {
                assert(before[i] != before[j]);
            } else {
                let old = if i < before.len() {
                    i
                } else {
                    j
                };
                let k = choose|k: int| 0 <= k < rest.len() && rest[k] == before[old];
                assert(list[k] == before[old]);
                assert(list[k] != list[list.len() - 1]);
            }
        }
    }
}

/// A walk that goes on to its end is a breadth-first one from where it stood.
proof fn lemma_walk(adj: Seq<Seq<usize>>, walk: Walk, head: nat, steps: nat, n: nat) -> (ends: Seq<int>)
    requires
        rcm::lists_ok(adj, n),
        is_flagged(walk, n),
        n <= 0x7fff_ffff_ffff_ffff,
        n <= usize::MAX,
        head <= walk.queue.len(),
        steps + head >= n,
    ensures
        ({
            let end = rcm::walked_all(adj, walk, head, steps);
            &&& is_flagged(end, n)
            &&& end.queue.len() >= walk.queue.len()
            &&& end.queue.take(walk.queue.len() as int) == walk.queue
            &&& is_breadth_first(adj, end.queue, head as int, ends)
            &&& ends[0] == walk.queue.len()
        }),
    decreases steps,
{
    let end = rcm::walked_all(adj, walk, head, steps);
    rcm::lemma_unique_bounded(walk.queue, n);
    if steps == 0 || head >= walk.queue.len() {
        let ends = seq![walk.queue.len() as int];
        assert(end.queue.take(walk.queue.len() as int) =~= walk.queue);
        assert(is_breadth_first(adj, end.queue, head as int, ends));
        ends
    } else {
        let u = walk.queue[head as int] as int;
        assert(0 <= u < n);
        assert(adj[u].no_duplicates() && rcm::within(adj[u], n));
        let new = adj[u].filter(is_new(walk.queue));
        lemma_unvisited(adj[u], walk, n);
        lemma_filtered(adj[u], is_new(walk.queue));
        rcm::lemma_unique_bounded(adj[u], n);
        assert(rcm::within(new, n)) by {
            assert forall|k: int| 0 <= k < new.len() implies (#[trigger] new[k]) < n by {
                assert(adj[u].contains(new[k]));
            }
        }
        assert forall|w: int| 0 <= w < n implies (#[trigger] adj[w]).len() <= 0x7fff_ffff_ffff_ffff by {
            rcm::lemma_unique_bounded(adj[w], n);
        }
        lemma_by_degree(adj, new, n);
        let nodes = rcm::by_degree(adj, new);
        assert forall|k: int| 0 <= k < nodes.len() implies !walk.queue.contains(#[trigger] nodes[k]) && nodes[k] < n by {
            assert(new.contains(nodes[k]));
            let j = choose|j: int| 0 <= j < new.len() && new[j] == nodes[k];
            assert(is_new(walk.queue)(new[j]));
            assert(new[j] < n);
        }
        lemma_reached(walk, nodes, n);
        let next = rcm::reached(walk, nodes);
        let rest = lemma_walk(adj, next, head + 1, (steps - 1) as nat, n);
        let ends = seq![walk.queue.len() as int] + rest;
        assert(end == rcm::walked_all(adj, next, head + 1, (steps - 1) as nat));
        let queue = end.queue;
        assert(queue.take(walk.queue.len() as int) =~= walk.queue) by {
            assert forall|k: int| 0 <= k < walk.queue.len() implies #[trigger] queue[k] == walk.queue[k] by {
                assert(queue.take(next.queue.len() as int)[k] == next.queue[k]);
            }
        }
        let a = walk.queue.len() as int;
        let b = next.queue.len() as int;
        assert(queue.subrange(a, b) =~= nodes) by {
            assert forall|k: int| 0 <= k < nodes.len() implies #[trigger] queue.subrange(a, b)[k] == nodes[k] by {
                assert(queue.take(b)[a + k] == next.queue[a + k]);
            }
        }
        assert(queue[head as int] == walk.queue[head as int]) by {
            assert(queue.take(walk.queue.len() as int)[head as int] == walk.queue[head as int]);
        }
        assert forall|i: int, j: int|
            #![trigger ends[i], ends[j]]
            0 <= i < ends.len() - 1 && j == i + 1 implies are_its_followers(
            adj,
            queue,
            queue[head as int + i] as int,
            ends[i],
            ends[j],
        ) by {
            if i == 0 {
                assert(ends[i] == walk.queue.len() && ends[j] == rest[0]);
                assert(are_its_followers(adj, queue, u, a, b));
            } else {
                assert(ends[i] == rest[i - 1] && ends[j] == rest[j - 1]);
                assert(head + 1 + (i - 1) == head + i);
            }
        }
        assert(ends.last() == rest.last());
        assert(is_breadth_first(adj, queue, head as int, ends));
        ends
    }
}

/// Whether a number is that of a node that is not among some.
pub open spec fn is_left(nodes: Seq<usize>) -> spec_fn(int) -> bool {
    |k: int| !nodes.contains(k as usize)
}

proof fn lemma_completed(walk: Walk, n: nat, upto: nat)
    requires
        is_flagged(walk, n),
        upto <= n <= usize::MAX,
    ensures
        rcm::completed(walk, upto) == walk.queue + numbers(upto).filter(is_left(walk.queue)).map_values(
            |k: int| k as usize,
        ),
    decreases upto,
{
    reveal(Seq::filter);
    let f = |k: int| k as usize;
    if upto == 0 {
        assert(numbers(0).filter(is_left(walk.queue)) =~= Seq::<int>::empty());
        assert(walk.queue + Seq::<int>::empty().map_values(f) =~= walk.queue);
    } else {
        let k = (upto - 1) as nat;
        lemma_completed(walk, n, k);
        assert(numbers(upto).drop_last() =~= numbers(k));
        let before = numbers(k).filter(is_left(walk.queue));
        assert(walk.visited[k as int] <==> walk.queue.contains(k as usize));
        if !walk.visited[k as int] {
            assert(numbers(upto).filter(is_left(walk.queue)) == before.push(k as int));
            assert(before.push(k as int).map_values(f) =~= before.map_values(f).push(k as usize));
            assert((walk.queue + before.map_values(f)).push(k as usize) =~= walk.queue + before.map_values(f).push(
                k as usize,
            ));
        } else {
            assert(numbers(upto).filter(is_left(walk.queue)) == before);
        }
    }
}

/// Whether an order, read from its end, is that of a breadth-first walk from the first
/// of the nodes with the fewest neighbours, followed by the nodes that it does not reach.
pub open spec fn is_turned_walk(
    adj: Seq<Seq<usize>>,
    order: Seq<usize>,
    queue: Seq<usize>,
    ends: Seq<int>,
) -> bool {
    &&& queue.len() > 0
    &&& is_breadth_first(adj, queue, 0, ends)
    &&& ends[0] == 1
    &&& forall|v: int|
        0 <= v < adj.len() ==> {
            let least = adj[queue[0] as int].len();
            least < (#[trigger] adj[v]).len() || (least == adj[v].len() && queue[0] <= v)
        }
    &&& order.reverse() == queue + numbers(adj.len()).filter(is_left(queue)).map_values(|k: int| k as usize)
}

/// Nodes are numbered anew in the reverse order of a breadth-first walk.
pub proof fn law_numbers_follow_a_breadth_first_walk(layer: Seq<Seq<usize>>, n: nat)
    requires
        layer.len() == n,
        0 < n <= usize::MAX,
        n <= 0x7fff_ffff_ffff_ffff,
        forall|u: int| 0 <= u < n ==> rcm::within(#[trigger] layer[u], n),
    ensures
        exists|queue: Seq<usize>, ends: Seq<int>| #[trigger]
            is_turned_walk(rcm::adjacency(layer, n, n), rcm::rcm_order(layer, n), queue, ends),
{
    let adj = rcm::adjacency(layer, n, n);
    rcm::lemma_adjacency(layer, n, n);
    rcm::lemma_least_degree(adj, n);
    let start = rcm::least_degree(adj, n) as usize;
    let walk = rcm::walk_from(start, n);
    assert(is_flagged(walk, n)) by {
        assert forall|x: usize| x < n implies (walk.visited[x as int] <==> #[trigger] walk.queue.contains(x)) by {
            if x == start {
                assert(walk.queue[0] == x);
            }
        }
    }
    let ends = lemma_walk(adj, walk, 0, n, n);
    let end = rcm::walked_all(adj, walk, 0, n);
    let queue = end.queue;
    assert(queue[0] == start) by {
        assert(queue.take(1)[0] == walk.queue[0]);
    }
    lemma_completed(end, n, n);
    let order = rcm::rcm_order(layer, n);
    assert(order.reverse() =~= rcm::completed(end, n));
    assert(is_turned_walk(adj, order, queue, ends));
}

} // verus!
