//! Bounded breadth-first search and induced-arc extraction.

use crate::edge_set::{hash_set_to_vec, EdgeSet};
use crate::facts::{lemma_id_set_bounded, lemma_take_next_contains};
use crate::graph::{has_arc, is_symmetric, neighbors, reversed, Edge, Graph};
use crate::reach::{lemma_within_monotone, lemma_zero_hops_is_start, reachable_set, within};
use std::collections::{HashSet, VecDeque};
use vstd::prelude::*;

verus! {

/// Every visited node carries its exact hop distance, bounded by `limit`.
spec fn labels_ok(
    g: Map<u32, Seq<u32>>,
    start: u32,
    limit: nat,
    visited: Set<u32>,
    depth: Map<u32, nat>,
) -> bool {
    &&& depth.dom() == visited
    &&& visited.contains(start)
    &&& depth[start] == 0
    &&& forall|v: u32| #[trigger]
        visited.contains(v) ==> {
            &&& depth[v] <= limit
            &&& within(g, start, v, depth[v])
            &&& depth[v] > 0 ==> !within(g, start, v, (depth[v] - 1) as nat)
        }
}

/// A queued entry names a visited node with its recorded distance, which is
/// `lo` or `lo + 1`.
spec fn entry_ok(e: (u32, usize), visited: Set<u32>, depth: Map<u32, nat>, lo: nat) -> bool {
    &&& visited.contains(e.0)
    &&& depth[e.0] == e.1
    &&& lo <= e.1 <= lo + 1
}

/// The queue holds entries of two adjacent levels at most, the lower level first.
spec fn queue_ok(
    queue: Seq<(u32, usize)>,
    visited: Set<u32>,
    depth: Map<u32, nat>,
    lo: nat,
) -> bool {
    &&& forall|i: int| 0 <= i < queue.len() ==> entry_ok(#[trigger] queue[i], visited, depth, lo)
    &&& forall|i: int, j: int| 0 <= i <= j < queue.len() ==> queue[i].1 <= queue[j].1
}

spec fn pending(queue: Seq<(u32, usize)>, v: u32) -> bool {
    exists|i: int| 0 <= i < queue.len() && (#[trigger] queue[i]).0 == v
}

/// Every visited node is expanded already, is `current`, or waits in the queue.
spec fn accounted(
    visited: Set<u32>,
    queue: Seq<(u32, usize)>,
    done: Set<u32>,
    current: Option<u32>,
) -> bool {
    forall|v: u32| #[trigger]
        visited.contains(v) ==> done.contains(v) || current == Some(v) || pending(queue, v)
}

/// The neighbours of every expanded node below the limit are visited.
spec fn closed_ok(
    g: Map<u32, Seq<u32>>,
    limit: nat,
    visited: Set<u32>,
    depth: Map<u32, nat>,
    done: Set<u32>,
) -> bool {
    forall|u: u32, n: u32|
        done.contains(u) && depth[u] < limit && #[trigger] has_arc(g, u, n) ==> visited.contains(n)
}

/// Every node within `lo` hops is visited.
spec fn level_covered(g: Map<u32, Seq<u32>>, start: u32, visited: Set<u32>, lo: nat) -> bool {
    forall|w: u32| #[trigger] within(g, start, w, lo) ==> visited.contains(w)
}

/// A recorded distance is the least hop count, so it is below any bound under
/// which the node is reached.
proof fn lemma_label_least(
    g: Map<u32, Seq<u32>>,
    start: u32,
    limit: nat,
    visited: Set<u32>,
    depth: Map<u32, nat>,
    v: u32,
    k: nat,
)
    requires
        labels_ok(g, start, limit, visited, depth),
        visited.contains(v),
        within(g, start, v, k),
    ensures
        depth[v] <= k,
{
    if depth[v] > k {
        lemma_within_monotone(g, start, v, k, (depth[v] - 1) as nat);
    }
}

/// Taking the front entry off the queue keeps the remaining entries in order,
/// and the node taken becomes the current one.
proof fn lemma_after_pop(
    queue: Seq<(u32, usize)>,
    visited: Set<u32>,
    depth: Map<u32, nat>,
    done: Set<u32>,
)
    requires
        queue.len() > 0,
        queue_ok(queue, visited, depth, queue[0].1 as nat),
        accounted(visited, queue, done, None),
    ensures
        queue_ok(queue.subrange(1, queue.len() as int), visited, depth, queue[0].1 as nat),
        accounted(visited, queue.subrange(1, queue.len() as int), done, Some(queue[0].0)),
{
    let rest = queue.subrange(1, queue.len() as int);
    assert forall|i: int| 0 <= i < rest.len() implies entry_ok(
        #[trigger] rest[i],
        visited,
        depth,
        queue[0].1 as nat,
    ) by {
        assert(rest[i] == queue[i + 1]);
    }
    assert forall|i: int, j: int| 0 <= i <= j < rest.len() implies rest[i].1 <= rest[j].1 by {
        assert(rest[i] == queue[i + 1]);
        assert(rest[j] == queue[j + 1]);
    }
    assert forall|v: u32| #[trigger] visited.contains(v) implies done.contains(v) || Some(
        queue[0].0,
    ) == Some(v) || pending(rest, v) by {
        if !done.contains(v) && queue[0].0 != v {
            let i = choose|i: int| 0 <= i < queue.len() && (#[trigger] queue[i]).0 == v;
            assert(rest[i - 1] == queue[i]);
        }
    }
}

/// Visiting a new neighbour `n` of the current node `u` keeps the search state
/// consistent.
proof fn lemma_discover(
    g: Map<u32, Seq<u32>>,
    start: u32,
    limit: nat,
    visited: Set<u32>,
    depth: Map<u32, nat>,
    queue: Seq<(u32, usize)>,
    done: Set<u32>,
    u: u32,
    d: usize,
    n: u32,
)
    requires
        labels_ok(g, start, limit, visited, depth),
        queue_ok(queue, visited, depth, d as nat),
        level_covered(g, start, visited, d as nat),
        accounted(visited, queue, done, Some(u)),
        closed_ok(g, limit, visited, depth, done),
        done.subset_of(visited),
        visited.contains(u),
        depth[u] == d,
        d < limit,
        d < usize::MAX,
        has_arc(g, u, n),
        !visited.contains(n),
    ensures
        labels_ok(g, start, limit, visited.insert(n), depth.insert(n, (d + 1) as nat)),
        queue_ok(
            queue.push((n, (d + 1) as usize)),
            visited.insert(n),
            depth.insert(n, (d + 1) as nat),
            d as nat,
        ),
        level_covered(g, start, visited.insert(n), d as nat),
        accounted(visited.insert(n), queue.push((n, (d + 1) as usize)), done, Some(u)),
        closed_ok(g, limit, visited.insert(n), depth.insert(n, (d + 1) as nat), done),
{
    let visited2 = visited.insert(n);
    let depth2 = depth.insert(n, (d + 1) as nat);
    let queue2 = queue.push((n, (d + 1) as usize));
    assert(depth2.dom() =~= visited2);
    assert(within(g, start, n, (d + 1) as nat));
    assert(!within(g, start, n, d as nat));
    assert forall|v: u32| #[trigger] visited2.contains(v) implies {
        &&& depth2[v] <= limit
        &&& within(g, start, v, depth2[v])
        &&& depth2[v] > 0 ==> !within(g, start, v, (depth2[v] - 1) as nat)
    } by {
        if v != n {
            assert(visited.contains(v));
        }
    }
    assert forall|i: int| 0 <= i < queue2.len() implies entry_ok(
        #[trigger] queue2[i],
        visited2,
        depth2,
        d as nat,
    ) by {
        if i < queue.len() {
            assert(queue2[i] == queue[i]);
            assert(entry_ok(queue[i], visited, depth, d as nat));
        }
    }
    assert forall|i: int, j: int| 0 <= i <= j < queue2.len() implies queue2[i].1
        <= queue2[j].1 by {
        if i < queue.len() {
            assert(entry_ok(queue[i], visited, depth, d as nat));
        }
    }
    assert forall|v: u32| #[trigger] visited2.contains(v) implies done.contains(v) || Some(u)
        == Some(v) || pending(queue2, v) by {
        if v == n {
            assert(queue2[queue.len() as int].0 == n);
        } else if !done.contains(v) && u != v {
            assert(visited.contains(v));
            let i = choose|i: int| 0 <= i < queue.len() && (#[trigger] queue[i]).0 == v;
            assert(queue2[i] == queue[i]);
        }
    }
    assert forall|x: u32, m: u32|
        done.contains(x) && depth2[x] < limit && #[trigger] has_arc(
            g,
            x,
            m,
        ) implies visited2.contains(m) by {
        assert(visited.contains(x));
        assert(depth2[x] == depth[x]);
    }
}

/// Once the current node is expanded, the queue front again bounds a fully
/// visited level.
proof fn lemma_after_expand(
    g: Map<u32, Seq<u32>>,
    start: u32,
    limit: nat,
    visited: Set<u32>,
    depth: Map<u32, nat>,
    queue: Seq<(u32, usize)>,
    done: Set<u32>,
    u: u32,
    d: usize,
)
    requires
        labels_ok(g, start, limit, visited, depth),
        queue_ok(queue, visited, depth, d as nat),
        level_covered(g, start, visited, d as nat),
        accounted(visited, queue, done, Some(u)),
        closed_ok(g, limit, visited, depth, done),
        done.subset_of(visited),
        visited.contains(u),
        depth[u] == d,
        d < limit ==> forall|n: u32| #[trigger] has_arc(g, u, n) ==> visited.contains(n),
    ensures
        accounted(visited, queue, done.insert(u), None),
        closed_ok(g, limit, visited, depth, done.insert(u)),
        done.insert(u).subset_of(visited),
        queue.len() > 0 ==> queue_ok(queue, visited, depth, queue[0].1 as nat) && level_covered(
            g,
            start,
            visited,
            queue[0].1 as nat,
        ),
{
    let done2 = done.insert(u);
    assert forall|v: u32| #[trigger] visited.contains(v) implies done2.contains(v) || pending(
        queue,
        v,
    ) by {}
    if queue.len() > 0 {
        let lo = queue[0].1;
        assert(entry_ok(queue[0], visited, depth, d as nat));
        assert forall|i: int| 0 <= i < queue.len() implies entry_ok(
            #[trigger] queue[i],
            visited,
            depth,
            lo as nat,
        ) by {
            assert(entry_ok(queue[i], visited, depth, d as nat));
            assert(queue[0].1 <= queue[i].1);
        }
        if lo != d {
            assert forall|w: u32| #[trigger] within(g, start, w, lo as nat) implies visited.contains(
                w,
            ) by {
                if !within(g, start, w, d as nat) {
                    let x = choose|x: u32| #[trigger]
                        has_arc(g, x, w) && within(g, start, x, d as nat);
                    assert(visited.contains(x));
                    lemma_label_least(g, start, limit, visited, depth, x, d as nat);
                    if pending(queue, x) {
                        let i = choose|i: int| 0 <= i < queue.len() && (#[trigger] queue[i]).0 == x;
                        assert(entry_ok(queue[i], visited, depth, d as nat));
                        assert(queue[0].1 <= queue[i].1);
                    }
                    assert(done2.contains(x));
                    assert(depth[x] < limit);
                }
            }
        }
    }
}

/// When nothing is left to expand, the visited set is exactly the set of nodes
/// within `limit` hops.
proof fn lemma_closure(
    g: Map<u32, Seq<u32>>,
    start: u32,
    limit: nat,
    visited: Set<u32>,
    depth: Map<u32, nat>,
    w: u32,
    k: nat,
)
    requires
        labels_ok(g, start, limit, visited, depth),
        closed_ok(g, limit, visited, depth, visited),
        k <= limit,
        within(g, start, w, k),
    ensures
        visited.contains(w),
    decreases k,
{
    if k > 0 {
        if within(g, start, w, (k - 1) as nat) {
            lemma_closure(g, start, limit, visited, depth, w, (k - 1) as nat);
        } else {
            let x = choose|x: u32| #[trigger]
                has_arc(g, x, w) && within(g, start, x, (k - 1) as nat);
            lemma_closure(g, start, limit, visited, depth, x, (k - 1) as nat);
            lemma_label_least(g, start, limit, visited, depth, x, (k - 1) as nat);
        }
    }
}

/// Breadth-first search from `start_node` that follows at most `max_depth` arcs.
///
/// Returns every node within `max_depth` hops of `start_node`, the start node
/// included even when the graph has no entry for it.
pub fn bfs(graph: &Graph, start_node: u32, max_depth: usize) -> (visited: HashSet<u32>)
    ensures
        visited@ == reachable_set(graph@, start_node, max_depth as nat),
        visited@.contains(start_node),
        max_depth == 0 ==> visited@ == set![start_node],
{
    broadcast use vstd::std_specs::hash::group_hash_axioms;

    let mut visited: HashSet<u32> = HashSet::new();
    let mut queue: VecDeque<(u32, usize)> = VecDeque::new();

    queue.push_back((start_node, 0));
    visited.insert(start_node);

    let ghost g = graph@;
    let ghost limit = max_depth as nat;
    let ghost mut depth: Map<u32, nat> = Map::empty().insert(start_node, 0nat);
    let ghost mut done: Set<u32> = Set::empty();
    proof {
        lemma_id_set_bounded(visited@);
        assert(depth.dom() =~= visited@);
        assert(queue@[0] == (start_node, 0usize));
        assert(pending(queue@, start_node));
    }

    while queue.len() > 0
        invariant
            g == graph@,
            limit == max_depth as nat,
            labels_ok(g, start_node, limit, visited@, depth),
            accounted(visited@, queue@, done, None),
            closed_ok(g, limit, visited@, depth, done),
            done.subset_of(visited@),
            queue@.len() > 0 ==> queue_ok(queue@, visited@, depth, queue@[0].1 as nat)
                && level_covered(g, start_node, visited@, queue@[0].1 as nat),
            visited@.finite(),
            visited@.len() <= 0x1_0000_0000,
        decreases 0x1_0000_0000 - visited@.len() + queue@.len(),
    {
        let ghost before = queue@;
        let ghost balance = visited@.len() - queue@.len();
        let (current_node, level) = queue.pop_front().unwrap();
        proof {
            lemma_after_pop(before, visited@, depth, done);
            assert(entry_ok(before[0], visited@, depth, before[0].1 as nat));
        }

        if level < max_depth {
            match graph.nodes.get(&current_node) {
                Some(list) => {
                    let mut j: usize = 0;
                    while j < list.len()
                        invariant
                            g == graph@,
                            limit == max_depth as nat,
                            j <= list.len(),
                            list@ == neighbors(g, current_node),
                            labels_ok(g, start_node, limit, visited@, depth),
                            queue_ok(queue@, visited@, depth, level as nat),
                            level_covered(g, start_node, visited@, level as nat),
                            accounted(visited@, queue@, done, Some(current_node)),
                            closed_ok(g, limit, visited@, depth, done),
                            done.subset_of(visited@),
                            visited@.contains(current_node),
                            depth[current_node] == level,
                            level < max_depth,
                            forall|k: int| 0 <= k < j ==> visited@.contains(#[trigger] list@[k]),
                            visited@.len() - queue@.len() == balance + 1,
                            visited@.finite(),
                            visited@.len() <= 0x1_0000_0000,
                        decreases list.len() - j,
                    {
                        let neighbor = list[j];
                        if !visited.contains(&neighbor) {
                            proof {
                                assert(list@[j as int] == neighbor);
                                assert(has_arc(g, current_node, neighbor));
                                lemma_discover(
                                    g,
                                    start_node,
                                    limit,
                                    visited@,
                                    depth,
                                    queue@,
                                    done,
                                    current_node,
                                    level,
                                    neighbor,
                                );
                                depth = depth.insert(neighbor, (level + 1) as nat);
                            }
                            visited.insert(neighbor);
                            queue.push_back((neighbor, level + 1));
                            proof {
                                lemma_id_set_bounded(visited@);
                            }
                        }
                        j += 1;
                    }
                    proof {
                        assert forall|n: u32| #[trigger]
                            has_arc(g, current_node, n) implies visited@.contains(n) by {
                            let k = choose|k: int| 0 <= k < list@.len() && list@[k] == n;
                            assert(visited@.contains(list@[k]));
                        }
                    }
                },
                None => {
                    assert(neighbors(g, current_node) =~= Seq::<u32>::empty());
                },
            }
        }
        proof {
            lemma_after_expand(
                g,
                start_node,
                limit,
                visited@,
                depth,
                queue@,
                done,
                current_node,
                level,
            );
            done = done.insert(current_node);
        }
    }

    proof {
        assert forall|v: u32| visited@.contains(v) <==> within(g, start_node, v, limit) by {
            if visited@.contains(v) {
                assert(done.contains(v));
                lemma_within_monotone(g, start_node, v, depth[v], limit);
            }
            if within(g, start_node, v, limit) {
                assert forall|u: u32, n: u32|
                    visited@.contains(u) && depth[u] < limit && #[trigger] has_arc(
                        g,
                        u,
                        n,
                    ) implies visited@.contains(n) by {
                    assert(done.contains(u));
                }
                lemma_closure(g, start_node, limit, visited@, depth, v, limit);
            }
        }
        assert(visited@ =~= reachable_set(g, start_node, limit));
        if max_depth == 0 {
            lemma_zero_hops_is_start(g, start_node);
        }
    }
    visited
}

/// The arcs of `g` that start and end inside `nodes`.
pub open spec fn induced_arcs(g: Map<u32, Seq<u32>>, nodes: Set<u32>) -> Set<Edge> {
    Set::new(
        |e: Edge| nodes.contains(e.from) && nodes.contains(e.to) && has_arc(g, e.from, e.to),
    )
}

/// In a graph that stores every arc in both directions, the induced arcs come
/// in pairs: each connection between two members yields two arcs.
pub proof fn lemma_induced_arcs_symmetric(g: Map<u32, Seq<u32>>, nodes: Set<u32>, e: Edge)
    requires
        is_symmetric(g),
    ensures
        induced_arcs(g, nodes).contains(e) <==> induced_arcs(g, nodes).contains(reversed(e)),
{
    if has_arc(g, e.from, e.to) {
        assert(has_arc(g, e.to, e.from));
    }
    if has_arc(g, e.to, e.from) {
        assert(has_arc(g, e.from, e.to));
    }
}

/// Collects the arcs of `graph` whose two endpoints both lie in `nodes`.
///
/// An arc that the adjacency lists hold more than once appears once. A
/// connection stored in both directions yields two arcs.
pub fn find_edges(graph: &Graph, nodes: &HashSet<u32>) -> (edges: EdgeSet)
    ensures
        edges@ == induced_arcs(graph@, nodes@),
        forall|e: Edge| #[trigger]
            edges@.contains(e) ==> nodes@.contains(e.from) && nodes@.contains(e.to)
                && graph@.contains_key(e.from),
{
    broadcast use vstd::std_specs::hash::group_hash_axioms;

    let ghost g = graph@;
    let mut edges = EdgeSet::new();
    let members = hash_set_to_vec(nodes);
    let mut i: usize = 0;
    while i < members.len()
        invariant
            g == graph@,
            i <= members.len(),
            members@.to_set() == nodes@,
            forall|e: Edge|
                edges@.contains(e) <==> induced_arcs(g, nodes@).contains(e) && members@.take(
                    i as int,
                ).contains(e.from),
        decreases members.len() - i,
    {
        let node = members[i];
        proof {
            assert(members@.to_set().contains(members@[i as int]));
        }
        match graph.nodes.get(&node) {
            Some(list) => {
                let mut j: usize = 0;
                while j < list.len()
                    invariant
                        g == graph@,
                        j <= list.len(),
                        i < members.len(),
                        node == members@[i as int],
                        nodes@.contains(node),
                        list@ == neighbors(g, node),
                        forall|e: Edge|
                            edges@.contains(e) <==> (induced_arcs(g, nodes@).contains(e)
                                && members@.take(i as int).contains(e.from)) || (e.from == node
                                && nodes@.contains(e.to) && list@.take(j as int).contains(e.to)),
                    decreases list.len() - j,
                {
                    let neighbor = list[j];
                    if nodes.contains(&neighbor) {
                        edges.insert(Edge { from: node, to: neighbor });
                    }
                    proof {
                        assert forall|e: Edge|
                            edges@.contains(e) <==> (induced_arcs(g, nodes@).contains(e)
                                && members@.take(i as int).contains(e.from)) || (e.from == node
                                && nodes@.contains(e.to) && list@.take(j + 1).contains(e.to)) by {
                            lemma_take_next_contains(list@, j as int, e.to);
                        }
                    }
                    j += 1;
                }
                proof {
                    assert(list@.take(j as int) =~= list@);
                }
            },
            None => {
                assert(neighbors(g, node) =~= Seq::<u32>::empty());
            },
        }
        proof {
            assert forall|e: Edge|
                edges@.contains(e) <==> induced_arcs(g, nodes@).contains(e) && members@.take(
                    i + 1,
                ).contains(e.from) by {
                lemma_take_next_contains(members@, i as int, e.from);
            }
        }
        i += 1;
    }
    proof {
        assert(members@.take(i as int) =~= members@);
        assert forall|e: Edge| edges@.contains(e) <==> induced_arcs(g, nodes@).contains(e) by {
            if induced_arcs(g, nodes@).contains(e) {
                assert(members@.to_set().contains(e.from));
            }
        }
        assert(edges@ =~= induced_arcs(g, nodes@));
    }
    edges
}

} // verus!
