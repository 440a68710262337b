use vstd::prelude::*;

use crate::message::NodeId;
use crate::teemp::{
    async_flood, async_pop, async_sends, earliest, find_node, is_earliest, lemma_find_node, lemma_find_node_ids,
    lemma_mark_start, mark_start, start_sends, AsyncModel, Event, NodeModel,
};

verus! {

/// `path` is a walk of ids from `start`: each id but the last names a node that
/// has the next id as neighbour.
pub open spec fn id_walk(nodes: Seq<NodeModel>, start: NodeId, path: Seq<NodeId>) -> bool {
    &&& path.len() > 0
    &&& path[0] == start
    &&& forall|t: int|
        #![trigger path[t]]
        0 <= t < path.len() - 1 ==> (find_node(nodes, path[t]) matches Some(k) && nodes[k].neighbors.contains(
            path[t + 1],
        ))
}

/// Id `id` can be reached from `start` along neighbour lists.
pub open spec fn reaches(nodes: Seq<NodeModel>, start: NodeId, id: NodeId) -> bool {
    exists|path: Seq<NodeId>| #[trigger] id_walk(nodes, start, path) && path.last() == id
}

/// No two nodes share an id.
pub open spec fn unique_ids(nodes: Seq<NodeModel>) -> bool {
    forall|i: int, j: int| 0 <= i < nodes.len() && 0 <= j < nodes.len() && nodes[i].id == nodes[j].id ==> i == j
}

/// Id `p` names a node that lists `w` as neighbour.
pub open spec fn lists(nodes: Seq<NodeModel>, p: NodeId, w: NodeId) -> bool {
    find_node(nodes, p) matches Some(k) && nodes[k].neighbors.contains(w)
}

/// Some event in the queue goes to `w`.
pub open spec fn pending(queue: Seq<Event>, w: NodeId) -> bool {
    exists|q: int| 0 <= q < queue.len() && (#[trigger] queue[q]).receiver == w
}

/// The state of an event-driven flooding from `start` over the network `g0`:
/// the network's ids and edges are kept; every neighbour of a visited node is
/// visited or has an event on its way; events come from visited nodes and go
/// to ids reachable from `start`, and their senders list their receivers;
/// visited nodes are reachable from `start`; the start is at level 0; and each
/// visited node but the start has a parent that lists it.
pub open spec fn flood_inv(g0: Seq<NodeModel>, start: NodeId, st: AsyncModel) -> bool {
    let nodes = st.nodes;
    &&& unique_ids(g0)
    &&& nodes.len() == g0.len()
    &&& forall|i: int| 0 <= i < nodes.len() ==> (#[trigger] nodes[i]).id == g0[i].id && nodes[i].neighbors == g0[i].neighbors
    &&& find_node(nodes, start) matches Some(s) ==> nodes[s].state.visited
    &&& forall|i: int, k: int|
        0 <= i < nodes.len() && nodes[i].state.visited && 0 <= k < nodes[i].neighbors.len() ==> (find_node(
            nodes,
            #[trigger] nodes[i].neighbors[k],
        ) matches Some(j) ==> nodes[j].state.visited || pending(st.queue, nodes[i].neighbors[k]))
    &&& forall|q: int|
        0 <= q < st.queue.len() ==> (find_node(nodes, (#[trigger] st.queue[q]).sender) matches Some(j)
            && nodes[j].state.visited)
    &&& forall|q: int| 0 <= q < st.queue.len() ==> reaches(g0, start, (#[trigger] st.queue[q]).receiver)
    &&& forall|i: int| 0 <= i < nodes.len() && (#[trigger] nodes[i]).state.visited ==> reaches(g0, start, nodes[i].id)
    &&& forall|q: int| 0 <= q < st.queue.len() ==> lists(g0, (#[trigger] st.queue[q]).sender, st.queue[q].receiver)
    &&& find_node(nodes, start) matches Some(s) ==> nodes[s].state.level == Some(0u32)
    &&& forall|i: int|
        0 <= i < nodes.len() && (#[trigger] nodes[i]).state.visited && nodes[i].id != start ==> (
        nodes[i].state.parent matches Some(p) && lists(g0, p, nodes[i].id))
}

proof fn lemma_earliest_exists(q: Seq<Event>)
    requires
        q.len() > 0,
    ensures
        is_earliest(q, earliest(q)),
{
    let i = lemma_min_index(q, q.len() as int);
    assert(is_earliest(q, i));
}

proof fn lemma_min_index(q: Seq<Event>, k: int) -> (i: int)
    requires
        1 <= k <= q.len(),
    ensures
        0 <= i < k,
        forall|j: int| 0 <= j < k ==> q[i].time <= (#[trigger] q[j]).time,
        forall|j: int| 0 <= j < i ==> q[i].time < (#[trigger] q[j]).time,
    decreases k,
{
    if k == 1 {
        0
    } else {
        let b = lemma_min_index(q, k - 1);
        if q[k - 1].time < q[b].time {
            k - 1
        } else {
            b
        }
    }
}

proof fn lemma_async_sends_facts(neighbors: Seq<NodeId>, parent: NodeId, time: u64, from: NodeId)
    ensures
        forall|j: int|
            0 <= j < async_sends(neighbors, parent, time, from).len() ==> (#[trigger] async_sends(
                neighbors,
                parent,
                time,
                from,
            )[j]).sender == from && neighbors.contains(async_sends(neighbors, parent, time, from)[j].receiver),
        forall|k: int|
            0 <= k < neighbors.len() && #[trigger] neighbors[k] != parent ==> pending(
                async_sends(neighbors, parent, time, from),
                neighbors[k],
            ),
    decreases neighbors.len(),
{
    if neighbors.len() > 0 {
        let init = neighbors.drop_last();
        lemma_async_sends_facts(init, parent, time, from);
        let rest = async_sends(init, parent, time, from);
        let out = async_sends(neighbors, parent, time, from);
        assert forall|j: int| 0 <= j < out.len() implies (#[trigger] out[j]).sender == from && neighbors.contains(
            out[j].receiver,
        ) by {
            if j < rest.len() {
                assert(out[j] == rest[j]);
                let kk = choose|kk: int| 0 <= kk < init.len() && init[kk] == rest[j].receiver;
                assert(neighbors[kk] == init[kk]);
            } else {
                assert(neighbors[neighbors.len() - 1] == neighbors.last());
            }
        }
        assert forall|k: int| 0 <= k < neighbors.len() && #[trigger] neighbors[k] != parent implies pending(
            out,
            neighbors[k],
        ) by {
            if k < neighbors.len() - 1 {
                assert(init[k] == neighbors[k]);
                let q = choose|q: int| 0 <= q < rest.len() && (#[trigger] rest[q]).receiver == init[k];
                assert(out[q] == rest[q]);
            } else {
                assert(out[rest.len() as int].receiver == neighbors[k]);
            }
        }
    }
}


/// With unique ids, looking up a node's id finds that node.
pub(crate) proof fn lemma_find_own(nodes: Seq<NodeModel>, i: int)
    requires
        unique_ids(nodes),
        0 <= i < nodes.len(),
    ensures
        find_node(nodes, nodes[i].id) == Some(i),
{
    lemma_find_node(nodes, nodes[i].id);
}

/// A walk extended by a neighbour of its last node is a walk.
pub(crate) proof fn lemma_walk_push(nodes: Seq<NodeModel>, start: NodeId, path: Seq<NodeId>, k: int, w: NodeId)
    requires
        id_walk(nodes, start, path),
        find_node(nodes, path.last()) == Some(k),
        nodes[k].neighbors.contains(w),
    ensures
        id_walk(nodes, start, path.push(w)),
        path.push(w).last() == w,
{
    let p2 = path.push(w);
    assert forall|t: int|
        #![trigger p2[t]]
        0 <= t < p2.len() - 1 implies (find_node(nodes, p2[t]) matches Some(k) && nodes[k].neighbors.contains(p2[t + 1])) by {
        if t < path.len() - 1 {
            assert(p2[t] == path[t] && p2[t + 1] == path[t + 1]);
            assert(path[t] == path[t]);
        } else {
            assert(p2[t] == path.last());
        }
    }
}

/// Delivering the earliest event keeps the state of the flooding.
proof fn lemma_flood_pop(g0: Seq<NodeModel>, start: NodeId, st: AsyncModel)
    requires
        flood_inv(g0, start, st),
        st.queue.len() > 0,
    ensures
        flood_inv(g0, start, async_pop(st)),
{
    let nodes = st.nodes;
    let n = nodes.len() as int;
    lemma_earliest_exists(st.queue);
    let i = earliest(st.queue);
    let e = st.queue[i];
    let rest = st.queue.remove(i);
    let st2 = async_pop(st);
    let nodes2 = st2.nodes;
    lemma_find_node(nodes, e.receiver);
    assert forall|id: NodeId| #[trigger] find_node(nodes2, id) == find_node(nodes, id) by {
        lemma_find_node_ids(nodes2, nodes, id);
    }
    assert forall|id: NodeId| #[trigger] find_node(nodes, id) == find_node(g0, id) by {
        lemma_find_node_ids(nodes, g0, id);
    }
    // What stays in the queue keeps its place, shifted past the delivered event.
    assert forall|q: int| 0 <= q < rest.len() implies #[trigger] rest[q] == (if q < i { st.queue[q] } else { st.queue[q + 1] }) by {
    }
    // A pending event to `w` other than the delivered one stays pending.
    assert forall|w: NodeId| pending(st.queue, w) && w != e.receiver implies #[trigger] pending(rest, w) by {
        let q = choose|q: int| 0 <= q < st.queue.len() && (#[trigger] st.queue[q]).receiver == w;
        if q < i {
            assert(rest[q] == st.queue[q]);
        } else {
            assert(q != i);
            assert(rest[q - 1] == st.queue[q]);
        }
    }
    match find_node(nodes, e.receiver) {
        Some(k) => {
            if !nodes[k].state.visited {
                let nd = nodes[k];
                let out = async_sends(nd.neighbors, e.sender, (e.time + 1) as u64, e.receiver);
                lemma_async_sends_facts(nd.neighbors, e.sender, (e.time + 1) as u64, e.receiver);
                assert(st2.queue == rest + out);
                assert(nodes2[k].state.visited);
                assert forall|w: NodeId| #[trigger] pending(rest, w) implies pending(st2.queue, w) by {
                    let q = choose|q: int| 0 <= q < rest.len() && (#[trigger] rest[q]).receiver == w;
                    assert(st2.queue[q] == rest[q]);
                }
                assert forall|w: NodeId| #[trigger] pending(out, w) implies pending(st2.queue, w) by {
                    let q = choose|q: int| 0 <= q < out.len() && (#[trigger] out[q]).receiver == w;
                    assert(st2.queue[rest.len() + q] == out[q]);
                }
                let sj = find_node(nodes, e.sender).unwrap();
                assert(nodes[sj].state.visited);
                // Neighbours of visited nodes.
                assert forall|a: int, kk: int|
                    0 <= a < n && nodes2[a].state.visited && 0 <= kk < nodes2[a].neighbors.len() implies (find_node(
                    nodes2,
                    #[trigger] nodes2[a].neighbors[kk],
                ) matches Some(j) ==> nodes2[j].state.visited || pending(st2.queue, nodes2[a].neighbors[kk])) by {
                    let w = nodes2[a].neighbors[kk];
                    assert(find_node(nodes2, w) == find_node(nodes, w));
                    if let Some(j) = find_node(nodes2, w) {
                        assert(0 <= j < n) by {
                            lemma_find_node(nodes, w);
                        }
                        if a == k {
                            assert(w == nd.neighbors[kk]);
                            if w == e.sender {
                                assert(j == sj);
                                assert(sj != k);
                                assert(nodes2[sj] == nodes[sj]);
                            } else {
                                assert(pending(out, w));
                                assert(pending(st2.queue, w));
                            }
                        } else {
                            assert(nodes2[a] == nodes[a]);
                            assert(w == nodes[a].neighbors[kk]);
                            assert(nodes[a].state.visited);
                            assert(find_node(nodes, nodes[a].neighbors[kk]) == Some(j));
                            if j == k {
                                assert(nodes2[k].state.visited);
                            } else if nodes[j].state.visited {
                                assert(nodes2[j] == nodes[j]);
                            } else {
                                assert(pending(st.queue, w));
                                if w == e.receiver {
                                    assert(j == k);
                                }
                                assert(pending(rest, w));
                                assert(pending(st2.queue, w));
                            }
                        }
                    }
                }
                // Events come from visited nodes and go to reachable ids.
                assert(reaches(g0, start, e.receiver));
                let path = choose|path: Seq<NodeId>| #[trigger] id_walk(g0, start, path) && path.last() == e.receiver;
                assert(find_node(g0, e.receiver) == Some(k));
                assert forall|q: int| 0 <= q < st2.queue.len() implies (find_node(nodes2, (#[trigger] st2.queue[q]).sender) matches Some(
                    j,
                ) && nodes2[j].state.visited) && reaches(g0, start, st2.queue[q].receiver) by {
                    if q < rest.len() {
                        assert(st2.queue[q] == rest[q]);
                        let q0 = if q < i { q } else { q + 1 };
                        assert(rest[q] == st.queue[q0]);
                        let ev = st.queue[q0];
                        assert(find_node(nodes, ev.sender) matches Some(j) && nodes[j].state.visited);
                        let j = find_node(nodes, ev.sender).unwrap();
                        lemma_find_node(nodes, ev.sender);
                        assert(find_node(nodes2, ev.sender) == Some(j));
                        if j != k {
                            assert(nodes2[j] == nodes[j]);
                        }
                    } else {
                        let o = out[q - rest.len()];
                        assert(st2.queue[q] == o);
                        assert(o.sender == e.receiver);
                        assert(find_node(nodes2, e.receiver) == Some(k));
                        assert(g0[k].neighbors == nd.neighbors);
                        lemma_walk_push(g0, start, path, k, o.receiver);
                        assert(id_walk(g0, start, path.push(o.receiver)));
                    }
                }
                assert forall|a: int| 0 <= a < n && (#[trigger] nodes2[a]).state.visited implies reaches(g0, start, nodes2[a].id) by {
                    if a == k {
                        assert(nodes2[a].id == e.receiver);
                    } else {
                        assert(nodes2[a] == nodes[a]);
                    }
                }
                assert forall|a: int| 0 <= a < n implies (#[trigger] nodes2[a]).id == g0[a].id && nodes2[a].neighbors == g0[a].neighbors by {
                    if a != k {
                        assert(nodes2[a] == nodes[a]);
                    }
                }
                if let Some(sv) = find_node(nodes2, start) {
                    lemma_find_node(nodes, start);
                    if sv != k {
                        assert(nodes2[sv] == nodes[sv]);
                    }
                }
                assert(nodes2.len() == n);
            } else {
                assert(st2.queue == rest);
                assert(nodes2 == nodes);
                assert forall|a: int, kk: int|
                    0 <= a < n && nodes2[a].state.visited && 0 <= kk < nodes2[a].neighbors.len() implies (find_node(
                    nodes2,
                    #[trigger] nodes2[a].neighbors[kk],
                ) matches Some(j) ==> nodes2[j].state.visited || pending(st2.queue, nodes2[a].neighbors[kk])) by {
                    let w = nodes[a].neighbors[kk];
                    if let Some(j) = find_node(nodes, w) {
                        if !nodes[j].state.visited {
                            assert(w != e.receiver);
                        }
                    }
                }
                assert forall|q: int| 0 <= q < st2.queue.len() implies (find_node(nodes2, (#[trigger] st2.queue[q]).sender) matches Some(
                    j,
                ) && nodes2[j].state.visited) && reaches(g0, start, st2.queue[q].receiver) by {
                    let q0 = if q < i { q } else { q + 1 };
                    assert(rest[q] == st.queue[q0]);
                }
            }
        },
        None => {
            assert(st2.queue == rest);
            assert(nodes2 == nodes);
            assert forall|a: int, kk: int|
                0 <= a < n && nodes2[a].state.visited && 0 <= kk < nodes2[a].neighbors.len() implies (find_node(
                nodes2,
                #[trigger] nodes2[a].neighbors[kk],
            ) matches Some(j) ==> nodes2[j].state.visited || pending(st2.queue, nodes2[a].neighbors[kk])) by {
                let w = nodes[a].neighbors[kk];
                if let Some(j) = find_node(nodes, w) {
                    if !nodes[j].state.visited {
                        assert(w != e.receiver);
                    }
                }
            }
            assert forall|q: int| 0 <= q < st2.queue.len() implies (find_node(nodes2, (#[trigger] st2.queue[q]).sender) matches Some(
                j,
            ) && nodes2[j].state.visited) && reaches(g0, start, st2.queue[q].receiver) by {
                let q0 = if q < i { q } else { q + 1 };
                assert(rest[q] == st.queue[q0]);
            }
        },
    }
}


/// Deliveries keep the state of the flooding.
proof fn lemma_flood_run(g0: Seq<NodeModel>, start: NodeId, st: AsyncModel, fuel: nat)
    requires
        flood_inv(g0, start, st),
    ensures
        flood_inv(g0, start, async_flood(st, fuel)),
    decreases fuel,
{
    if fuel > 0 && st.queue.len() > 0 {
        lemma_flood_pop(g0, start, st);
        lemma_flood_run(g0, start, async_pop(st), (fuel - 1) as nat);
    }
}

/// The first events of a run: the start node visited, an event to each of its
/// neighbours.
pub open spec fn flood_start(g0: Seq<NodeModel>, start: NodeId, message_count: u64, max_time: u64) -> AsyncModel {
    let marked = mark_start(g0, start);
    AsyncModel {
        nodes: marked,
        queue: match find_node(marked, start) {
            Some(i) => start_sends(marked[i].neighbors, start),
            None => seq![],
        },
        message_count,
        max_time,
    }
}

proof fn lemma_flood_start(g0: Seq<NodeModel>, start: NodeId, message_count: u64, max_time: u64)
    requires
        unique_ids(g0),
        forall|i: int| 0 <= i < g0.len() ==> !(#[trigger] g0[i]).state.visited,
    ensures
        flood_inv(g0, start, flood_start(g0, start, message_count, max_time)),
{
    let st = flood_start(g0, start, message_count, max_time);
    let marked = st.nodes;
    let n = g0.len() as int;
    lemma_mark_start(g0, start);
    assert forall|id: NodeId| #[trigger] find_node(marked, id) == find_node(g0, id) by {
        lemma_find_node_ids(marked, g0, id);
    }
    lemma_find_node(g0, start);
    let root = seq![start];
    assert(id_walk(g0, start, root));
    match find_node(g0, start) {
        Some(s) => {
            let q = start_sends(marked[s].neighbors, start);
            assert(st.queue == q);
            assert forall|a: int| 0 <= a < n && (#[trigger] marked[a]).state.visited implies a == s by {
                if a != s {
                    assert(marked[a] == g0[a]);
                }
            }
            assert forall|a: int, kk: int|
                0 <= a < n && marked[a].state.visited && 0 <= kk < marked[a].neighbors.len() implies (find_node(
                marked,
                #[trigger] marked[a].neighbors[kk],
            ) matches Some(j) ==> marked[j].state.visited || pending(st.queue, marked[a].neighbors[kk])) by {
                assert(a == s);
                assert(q[kk].receiver == marked[s].neighbors[kk]);
            }
            assert forall|qq: int| 0 <= qq < st.queue.len() implies (find_node(marked, (#[trigger] st.queue[qq]).sender) matches Some(
                j,
            ) && marked[j].state.visited) && reaches(g0, start, st.queue[qq].receiver) by {
                let w = marked[s].neighbors[qq];
                assert(q[qq].receiver == w);
                assert(g0[s].neighbors.contains(w));
                lemma_walk_push(g0, start, root, s, w);
                assert(id_walk(g0, start, root.push(w)));
            }
            assert forall|a: int| 0 <= a < n && (#[trigger] marked[a]).state.visited implies reaches(g0, start, marked[a].id) by {
                assert(a == s);
                assert(root.last() == start);
            }
        },
        None => {
            assert(marked == g0);
        },
    }
}

/// With nothing in transit, every node along a walk from `start` is visited.
proof fn lemma_flood_walk(g0: Seq<NodeModel>, start: NodeId, st: AsyncModel, path: Seq<NodeId>, t: int)
    requires
        flood_inv(g0, start, st),
        st.queue.len() == 0,
        id_walk(g0, start, path),
        0 <= t < path.len(),
    ensures
        find_node(st.nodes, path[t]) matches Some(j) ==> st.nodes[j].state.visited,
    decreases t,
{
    let nodes = st.nodes;
    lemma_find_node_ids(nodes, g0, path[t]);
    if t > 0 {
        lemma_flood_walk(g0, start, st, path, t - 1);
        assert(path[t - 1] == path[t - 1]);
        lemma_find_node_ids(nodes, g0, path[t - 1]);
        let k0 = find_node(g0, path[t - 1]).unwrap();
        lemma_find_node(g0, path[t - 1]);
        assert(g0[k0].neighbors.contains(path[t]));
        let kk = choose|kk: int| 0 <= kk < g0[k0].neighbors.len() && g0[k0].neighbors[kk] == path[t];
        assert(nodes[k0].neighbors[kk] == path[t]);
        assert(nodes[k0].state.visited);
        if let Some(j) = find_node(nodes, path[t]) {
            assert(!pending(st.queue, path[t]));
        }
    }
}

/// Event-driven flooding from `start` over a network with unique ids that
/// nothing has visited yet (`AsyncSimulator::run` ends in this state with no
/// event left): once no event is left, a node is visited exactly when its id
/// can be reached from `start` along neighbour lists; and at any time each
/// visited node but the start has as parent a node that lists it as
/// neighbour, and the start is at level 0.
pub proof fn lemma_async_flood_visits_reachable(
    g0: Seq<NodeModel>,
    start: NodeId,
    message_count: u64,
    max_time: u64,
    fuel: nat,
)
    requires
        unique_ids(g0),
        forall|i: int| 0 <= i < g0.len() ==> !(#[trigger] g0[i]).state.visited,
    ensures
        ({
            let fin = async_flood(flood_start(g0, start, message_count, max_time), fuel);
            &&& fin.queue.len() == 0 ==> forall|i: int|
                0 <= i < g0.len() ==> ((#[trigger] fin.nodes[i]).state.visited <==> reaches(g0, start, g0[i].id))
            &&& forall|i: int|
                0 <= i < g0.len() && (#[trigger] fin.nodes[i]).state.visited && g0[i].id != start ==> (
                fin.nodes[i].state.parent matches Some(p) && lists(g0, p, g0[i].id))
            &&& find_node(g0, start) matches Some(s) ==> fin.nodes[s].state.level == Some(0u32)
        }),
{
    let st0 = flood_start(g0, start, message_count, max_time);
    lemma_flood_start(g0, start, message_count, max_time);
    lemma_flood_run(g0, start, st0, fuel);
    let fin = async_flood(st0, fuel);
    lemma_find_node_ids(fin.nodes, g0, start);
    if fin.queue.len() == 0 {
        assert forall|i: int| 0 <= i < g0.len() implies ((#[trigger] fin.nodes[i]).state.visited <==> reaches(
            g0,
            start,
            g0[i].id,
        )) by {
            if reaches(g0, start, g0[i].id) {
                let path = choose|path: Seq<NodeId>| #[trigger] id_walk(g0, start, path) && path.last() == g0[i].id;
                lemma_flood_walk(g0, start, fin, path, path.len() - 1);
                lemma_find_own(g0, i);
                lemma_find_node_ids(fin.nodes, g0, g0[i].id);
            }
        }
    }
}

} // verus!
