use vstd::prelude::*;

use crate::message::{MessageType, NodeId};
use crate::teemp::{
    deliver_flood, find_node, first_wave, flood_targets, lemma_counts_bounded, lemma_counts_same,
    lemma_counts_update, lemma_deliver_flood, lemma_find_node, lemma_find_node_ids, lemma_mark_start,
    lemma_process_all, mark_start, process_all, sync_flood, tag, all_visited, unvisited_count, NodeModel,
    NodeState,
};
use crate::teemp_reach::{id_walk, lemma_find_own, lemma_walk_push, lists, reaches, unique_ids};

verus! {

/// Some message in transit goes to `w`.
pub open spec fn in_transit(msgs: Seq<(NodeId, NodeId, MessageType)>, w: NodeId) -> bool {
    exists|q: int| 0 <= q < msgs.len() && (#[trigger] msgs[q]).1 == w
}

/// Id `s` names a visited node that lists `w` as neighbour.
pub open spec fn visited_lister(nodes: Seq<NodeModel>, s: NodeId, w: NodeId) -> bool {
    find_node(nodes, s) matches Some(k) && nodes[k].state.visited && nodes[k].neighbors.contains(w)
}

/// The state of a round-based flooding from `start` over the network `g0`
/// between two rounds: ids and edges are kept and inboxes are empty; the start
/// is visited at level 0; every neighbour of a visited node is visited or has a
/// message on its way; messages come from visited nodes that list their
/// receiver; visited nodes are reachable from `start`; and each visited node
/// but the start has a parent that lists it.
pub open spec fn round_inv(
    g0: Seq<NodeModel>,
    start: NodeId,
    nodes: Seq<NodeModel>,
    current: Seq<(NodeId, NodeId, MessageType)>,
) -> bool {
    &&& unique_ids(g0)
    &&& nodes.len() == g0.len()
    &&& forall|i: int|
        0 <= i < nodes.len() ==> (#[trigger] nodes[i]).id == g0[i].id && nodes[i].neighbors == g0[i].neighbors
            && nodes[i].inbox.len() == 0
    &&& find_node(nodes, start) matches Some(s) ==> nodes[s].state.visited && nodes[s].state.level == Some(0u32)
    &&& forall|i: int, k: int|
        0 <= i < nodes.len() && nodes[i].state.visited && 0 <= k < nodes[i].neighbors.len() ==> (find_node(
            nodes,
            #[trigger] nodes[i].neighbors[k],
        ) matches Some(j) ==> nodes[j].state.visited || in_transit(current, nodes[i].neighbors[k]))
    &&& forall|q: int| 0 <= q < current.len() ==> visited_lister(nodes, (#[trigger] current[q]).0, current[q].1)
    &&& forall|i: int| 0 <= i < nodes.len() && (#[trigger] nodes[i]).state.visited ==> reaches(g0, start, nodes[i].id)
    &&& forall|i: int|
        0 <= i < nodes.len() && (#[trigger] nodes[i]).state.visited && nodes[i].id != start ==> (
        nodes[i].state.parent matches Some(p) && lists(g0, p, nodes[i].id))
}

/// Delivery keeps ids, edges and states; every inbox entry comes from a visited
/// node that lists the receiver, and a node with a message on its way gets
/// one.
proof fn lemma_deliver_facts(nodes: Seq<NodeModel>, msgs: Seq<(NodeId, NodeId, MessageType)>)
    requires
        forall|i: int| 0 <= i < nodes.len() ==> (#[trigger] nodes[i]).inbox.len() == 0,
        forall|q: int| 0 <= q < msgs.len() ==> visited_lister(nodes, (#[trigger] msgs[q]).0, msgs[q].1),
    ensures
        ({
            let d = deliver_flood(nodes, msgs);
            &&& d.len() == nodes.len()
            &&& forall|i: int|
                0 <= i < nodes.len() ==> (#[trigger] d[i]).id == nodes[i].id && d[i].neighbors == nodes[i].neighbors
                    && d[i].state == nodes[i].state
            &&& forall|i: int, e: int|
                0 <= i < d.len() && 0 <= e < d[i].inbox.len() ==> visited_lister(nodes, (#[trigger] d[i].inbox[e]).0, d[i].id)
            &&& forall|q: int|
                0 <= q < msgs.len() ==> (find_node(d, (#[trigger] msgs[q]).1) matches Some(j) ==> d[j].inbox.len() > 0)
        }),
    decreases msgs.len(),
{
    lemma_deliver_flood(nodes, msgs);
    if msgs.len() > 0 {
        let init = msgs.drop_last();
        assert forall|q: int| 0 <= q < init.len() implies visited_lister(nodes, (#[trigger] init[q]).0, init[q].1) by {
            assert(init[q] == msgs[q]);
        }
        lemma_deliver_facts(nodes, init);
        let before = deliver_flood(nodes, init);
        let d = deliver_flood(nodes, msgs);
        let (s, r, m) = msgs.last();
        assert(msgs.last() == msgs[msgs.len() - 1]);
        lemma_find_node(before, r);
        assert forall|id: NodeId| #[trigger] find_node(d, id) == find_node(before, id) by {
            lemma_find_node_ids(d, before, id);
        }
        assert forall|i: int, e: int|
            0 <= i < d.len() && 0 <= e < d[i].inbox.len() implies visited_lister(nodes, (#[trigger] d[i].inbox[e]).0, d[i].id) by {
            match find_node(before, r) {
                Some(k) => {
                    if i == k && e == before[k].inbox.len() {
                        assert(d[i].inbox[e] == (s, m));
                    } else if i == k {
                        assert(d[i].inbox[e] == before[i].inbox[e]);
                    } else {
                        assert(d[i] == before[i]);
                    }
                },
                None => {},
            }
        }
        assert forall|q: int| 0 <= q < msgs.len() implies (find_node(d, (#[trigger] msgs[q]).1) matches Some(j) ==> d[j].inbox.len()
            > 0) by {
            if q < msgs.len() - 1 {
                assert(init[q] == msgs[q]);
                if let Some(j) = find_node(before, msgs[q].1) {
                    lemma_find_node(before, msgs[q].1);
                    if let Some(k) = find_node(before, r) {
                        if j == k {
                            assert(d[j].inbox.len() == before[j].inbox.len() + 1);
                        } else {
                            assert(d[j] == before[j]);
                        }
                    }
                }
            }
        }
    }
}

/// Flood targets are neighbours, and every neighbour other than the parent is
/// one.
proof fn lemma_flood_targets_facts(neighbors: Seq<NodeId>, parent: NodeId)
    ensures
        forall|j: int|
            0 <= j < flood_targets(neighbors, parent).len() ==> neighbors.contains(
                (#[trigger] flood_targets(neighbors, parent)[j]).0,
            ),
        forall|k: int|
            0 <= k < neighbors.len() && #[trigger] neighbors[k] != parent ==> exists|j: int|
                0 <= j < flood_targets(neighbors, parent).len() && (#[trigger] flood_targets(neighbors, parent)[j]).0
                    == neighbors[k],
    decreases neighbors.len(),
{
    if neighbors.len() > 0 {
        let init = neighbors.drop_last();
        lemma_flood_targets_facts(init, parent);
        let rest = flood_targets(init, parent);
        let out = flood_targets(neighbors, parent);
        assert forall|j: int| 0 <= j < out.len() implies neighbors.contains((#[trigger] out[j]).0) by {
            if j < rest.len() {
                assert(out[j] == rest[j]);
                let kk = choose|kk: int| 0 <= kk < init.len() && init[kk] == rest[j].0;
                assert(neighbors[kk] == init[kk]);
            } else {
                assert(neighbors[neighbors.len() - 1] == neighbors.last());
            }
        }
        assert forall|k: int| 0 <= k < neighbors.len() && #[trigger] neighbors[k] != parent implies exists|j: int|
            0 <= j < out.len() && (#[trigger] out[j]).0 == neighbors[k] by {
            if k < neighbors.len() - 1 {
                assert(init[k] == neighbors[k]);
                let j = choose|j: int| 0 <= j < rest.len() && (#[trigger] rest[j]).0 == init[k];
                assert(out[j] == rest[j]);
            } else {
                assert(out[rest.len() as int].0 == neighbors[k]);
            }
        }
    }
}

/// Message `msg` comes from a node of `d` that is visited in this round, and
/// goes to one of its neighbours.
pub open spec fn sent_by(d: Seq<NodeModel>, msg: (NodeId, NodeId, MessageType)) -> bool {
    exists|a: int|
        0 <= a < d.len() && !(#[trigger] d[a]).state.visited && d[a].inbox.len() > 0 && msg.0 == d[a].id
            && d[a].neighbors.contains(msg.1)
}

/// A node that sends in a round is one that gets visited in it; it sends to
/// its neighbours, and to every one of them other than its new parent.
proof fn lemma_process_out(d: Seq<NodeModel>)
    ensures
        forall|q: int| 0 <= q < process_all(d).1.len() ==> sent_by(d, #[trigger] process_all(d).1[q]),
        forall|a: int, k: int|
            0 <= a < d.len() && !d[a].state.visited && d[a].inbox.len() > 0 && 0 <= k < d[a].neighbors.len()
                && #[trigger] d[a].neighbors[k] != d[a].inbox[0].0 ==> in_transit(process_all(d).1, d[a].neighbors[k]),
    decreases d.len(),
{
    if d.len() > 0 {
        let init = d.drop_last();
        lemma_process_out(init);
        let (ns, out) = process_all(init);
        let last = d.last();
        let (nd, o) = last.process();
        let all = process_all(d).1;
        let t = tag(last.id, o);
        assert(all == out + t);
        assert(d.last() == d[d.len() - 1]);
        let parent = if last.inbox.len() > 0 { last.inbox[0].0 } else { 0 };
        lemma_flood_targets_facts(last.neighbors, parent);
        assert forall|q: int| 0 <= q < all.len() implies sent_by(d, #[trigger] all[q]) by {
            if q < out.len() {
                assert(all[q] == out[q]);
                assert(sent_by(init, out[q]));
                let a = choose|a: int|
                    0 <= a < init.len() && !(#[trigger] init[a]).state.visited && init[a].inbox.len() > 0 && out[q].0
                        == init[a].id && init[a].neighbors.contains(out[q].1);
                assert(init[a] == d[a]);
                assert(0 <= a < d.len() && !d[a].state.visited && d[a].inbox.len() > 0 && all[q].0 == d[a].id
                    && d[a].neighbors.contains(all[q].1));
            } else {
                let a = d.len() - 1;
                assert(all[q] == t[q - out.len()]);
                assert(o.len() > 0);
                assert(o == flood_targets(last.neighbors, parent));
                assert(o[q - out.len()].0 == all[q].1);
                assert(all[q].0 == last.id);
                assert(0 <= a < d.len() && !d[a].state.visited && d[a].inbox.len() > 0 && all[q].0 == d[a].id
                    && d[a].neighbors.contains(all[q].1));
            }
        }
        assert forall|a: int, k: int|
            0 <= a < d.len() && !d[a].state.visited && d[a].inbox.len() > 0 && 0 <= k < d[a].neighbors.len()
                && #[trigger] d[a].neighbors[k] != d[a].inbox[0].0 implies in_transit(all, d[a].neighbors[k]) by {
            if a < d.len() - 1 {
                assert(init[a] == d[a]);
                let q = choose|q: int| 0 <= q < out.len() && (#[trigger] out[q]).1 == init[a].neighbors[k];
                assert(all[q] == out[q]);
            } else {
                let j = choose|j: int| 0 <= j < o.len() && (#[trigger] o[j]).0 == last.neighbors[k];
                assert(all[out.len() + j] == t[j]);
            }
        }
    }
}

/// Handling a round never unvisits a node, nor changes a visited node's state;
/// a node with mail is visited afterwards.
proof fn lemma_process_state(nd: NodeModel)
    ensures
        nd.process().0.id == nd.id,
        nd.process().0.neighbors == nd.neighbors,
        nd.process().0.inbox.len() == 0,
        nd.process().0.state.level == nd.state.level,
        nd.state.visited ==> nd.process().0.state == nd.state && nd.process().1.len() == 0,
        nd.inbox.len() > 0 ==> nd.process().0.state.visited,
        !nd.state.visited && nd.inbox.len() > 0 ==> nd.process().0.state.parent == Some(nd.inbox[0].0),
        !nd.state.visited && nd.inbox.len() == 0 ==> !nd.process().0.state.visited,
{
}

/// One round keeps the state of the flooding.
proof fn lemma_round(
    g0: Seq<NodeModel>,
    start: NodeId,
    nodes: Seq<NodeModel>,
    current: Seq<(NodeId, NodeId, MessageType)>,
)
    requires
        round_inv(g0, start, nodes, current),
    ensures
        round_inv(g0, start, process_all(deliver_flood(nodes, current)).0, process_all(deliver_flood(nodes, current)).1),
{
    let n = nodes.len() as int;
    let d = deliver_flood(nodes, current);
    lemma_deliver_facts(nodes, current);
    lemma_process_all(d);
    lemma_process_out(d);
    let nodes2 = process_all(d).0;
    let next = process_all(d).1;
    assert forall|i: int| 0 <= i < n implies #[trigger] nodes2[i] == d[i].process().0 by {}
    assert forall|i: int| 0 <= i < n implies (#[trigger] nodes2[i]).id == g0[i].id && nodes2[i].neighbors
        == g0[i].neighbors && nodes2[i].inbox.len() == 0 by {
        lemma_process_state(d[i]);
    }
    assert forall|id: NodeId| #[trigger] find_node(nodes2, id) == find_node(g0, id) by {
        lemma_find_node_ids(nodes2, g0, id);
    }
    assert forall|id: NodeId| #[trigger] find_node(nodes, id) == find_node(g0, id) by {
        lemma_find_node_ids(nodes, g0, id);
    }
    assert forall|id: NodeId| #[trigger] find_node(d, id) == find_node(g0, id) by {
        lemma_find_node_ids(d, g0, id);
    }
    // Visited nodes stay visited with their state; the others are visited
    // exactly when they got mail.
    assert forall|i: int| 0 <= i < n && nodes[i].state.visited implies (#[trigger] nodes2[i]).state == nodes[i].state by {
        lemma_process_state(d[i]);
    }
    if let Some(s) = find_node(nodes2, start) {
        lemma_find_node(g0, start);
        lemma_process_state(d[s]);
    }
    assert forall|i: int, k: int|
        0 <= i < n && nodes2[i].state.visited && 0 <= k < nodes2[i].neighbors.len() implies (find_node(
        nodes2,
        #[trigger] nodes2[i].neighbors[k],
    ) matches Some(j) ==> nodes2[j].state.visited || in_transit(next, nodes2[i].neighbors[k])) by {
        let w = nodes2[i].neighbors[k];
        assert(w == nodes[i].neighbors[k]);
        if let Some(j) = find_node(nodes2, w) {
            lemma_find_node(g0, w);
            lemma_process_state(d[j]);
            lemma_process_state(d[i]);
            if nodes[i].state.visited {
                assert(find_node(nodes, nodes[i].neighbors[k]) == Some(j));
                if !nodes[j].state.visited {
                    assert(in_transit(current, w));
                    let q = choose|q: int| 0 <= q < current.len() && (#[trigger] current[q]).1 == w;
                    assert(find_node(d, current[q].1) == Some(j));
                    assert(d[j].inbox.len() > 0);
                }
            } else {
                assert(!d[i].state.visited && d[i].inbox.len() > 0);
                let p = d[i].inbox[0].0;
                if w == p {
                    assert(visited_lister(nodes, d[i].inbox[0].0, d[i].id));
                    assert(find_node(nodes, p) == Some(j));
                    assert(nodes[j].state.visited);
                } else {
                    assert(d[i].neighbors[k] == w);
                    assert(in_transit(next, d[i].neighbors[k]));
                }
            }
        }
    }
    assert forall|q: int| 0 <= q < next.len() implies visited_lister(nodes2, (#[trigger] next[q]).0, next[q].1) by {
        assert(sent_by(d, next[q]));
        let a = choose|a: int|
            0 <= a < d.len() && !(#[trigger] d[a]).state.visited && d[a].inbox.len() > 0 && next[q].0 == d[a].id
                && d[a].neighbors.contains(next[q].1);
        lemma_find_own(g0, a);
        lemma_process_state(d[a]);
        assert(find_node(nodes2, next[q].0) == Some(a));
    }
    assert forall|i: int| 0 <= i < n && (#[trigger] nodes2[i]).state.visited implies reaches(g0, start, nodes2[i].id) && (
    nodes2[i].id != start ==> (nodes2[i].state.parent matches Some(p) && lists(g0, p, nodes2[i].id))) by {
        lemma_process_state(d[i]);
        if !nodes[i].state.visited {
            assert(!d[i].state.visited && d[i].inbox.len() > 0);
            let p = d[i].inbox[0].0;
            assert(visited_lister(nodes, p, d[i].id));
            let k = find_node(nodes, p).unwrap();
            lemma_find_node(g0, p);
            assert(nodes[k].state.visited);
            assert(reaches(g0, start, nodes[k].id));
            assert(nodes[k].id == p);
            let path = choose|path: Seq<NodeId>| #[trigger] id_walk(g0, start, path) && path.last() == p;
            assert(g0[k].neighbors.contains(nodes2[i].id));
            lemma_walk_push(g0, start, path, k, nodes2[i].id);
            assert(id_walk(g0, start, path.push(nodes2[i].id)));
        }
    }
}

/// With nothing in transit, every node along a walk from `start` is visited.
proof fn lemma_round_walk(
    g0: Seq<NodeModel>,
    start: NodeId,
    nodes: Seq<NodeModel>,
    path: Seq<NodeId>,
    t: int,
)
    requires
        round_inv(g0, start, nodes, seq![]),
        id_walk(g0, start, path),
        0 <= t < path.len(),
    ensures
        find_node(nodes, path[t]) matches Some(j) ==> nodes[j].state.visited,
    decreases t,
{
    lemma_find_node_ids(nodes, g0, path[t]);
    if t > 0 {
        lemma_round_walk(g0, start, nodes, path, t - 1);
        assert(path[t - 1] == path[t - 1]);
        lemma_find_node_ids(nodes, g0, path[t - 1]);
        let k0 = find_node(g0, path[t - 1]).unwrap();
        lemma_find_node(g0, path[t - 1]);
        assert(g0[k0].neighbors.contains(path[t]));
        let kk = choose|kk: int| 0 <= kk < g0[k0].neighbors.len() && g0[k0].neighbors[kk] == path[t];
        assert(nodes[k0].neighbors[kk] == path[t]);
        assert(nodes[k0].state.visited);
        let none: Seq<(NodeId, NodeId, MessageType)> = seq![];
        assert(!in_transit(none, path[t]));
    }
}

/// A node is counted unvisited unless it is visited.
proof fn lemma_none_unvisited(nodes: Seq<NodeModel>)
    requires
        unvisited_count(nodes) == 0,
    ensures
        all_visited(nodes),
    decreases nodes.len(),
{
    if nodes.len() > 0 {
        lemma_none_unvisited(nodes.drop_last());
        assert forall|i: int| 0 <= i < nodes.len() implies (#[trigger] nodes[i]).state.visited by {
            if i < nodes.len() - 1 {
                assert(nodes.drop_last()[i] == nodes[i]);
            }
        }
    }
}

/// Where the rounds end: a node is visited exactly when it can be reached from
/// `start`; each visited node but the start has a parent that lists it; the
/// start keeps level 0; and the rounds run are at most the unvisited nodes,
/// plus one if messages are in transit.
proof fn lemma_rounds_end(
    g0: Seq<NodeModel>,
    start: NodeId,
    nodes: Seq<NodeModel>,
    current: Seq<(NodeId, NodeId, MessageType)>,
    rounds: nat,
    count: nat,
    fuel: nat,
)
    requires
        round_inv(g0, start, nodes, current),
        fuel >= unvisited_count(nodes) + (if current.len() > 0 { 1nat } else { 0nat }),
    ensures
        ({
            let (fin, r, c) = sync_flood(nodes, current, rounds, count, fuel);
            &&& fin.len() == g0.len()
            &&& forall|i: int| 0 <= i < g0.len() ==> ((#[trigger] fin[i]).state.visited <==> reaches(g0, start, g0[i].id))
            &&& forall|i: int|
                0 <= i < g0.len() && (#[trigger] fin[i]).state.visited && g0[i].id != start ==> (
                fin[i].state.parent matches Some(p) && lists(g0, p, g0[i].id))
            &&& find_node(g0, start) matches Some(s) ==> fin[s].state.level == Some(0u32)
            &&& r <= rounds + unvisited_count(nodes) + (if current.len() > 0 { 1nat } else { 0nat })
        }),
    decreases fuel,
{
    lemma_find_node_ids(nodes, g0, start);
    if fuel == 0 || current.len() == 0 || all_visited(nodes) {
        if !all_visited(nodes) {
            assert(current.len() == 0);
            assert(current == Seq::<(NodeId, NodeId, MessageType)>::empty());
            assert forall|i: int| 0 <= i < g0.len() && reaches(g0, start, g0[i].id) implies (#[trigger] nodes[i]).state.visited by {
                let path = choose|path: Seq<NodeId>| #[trigger] id_walk(g0, start, path) && path.last() == g0[i].id;
                lemma_round_walk(g0, start, nodes, path, path.len() - 1);
                lemma_find_own(g0, i);
                lemma_find_node_ids(nodes, g0, g0[i].id);
            }
        }
    } else {
        let d = deliver_flood(nodes, current);
        let (ns, next) = process_all(d);
        lemma_round(g0, start, nodes, current);
        lemma_deliver_flood(nodes, current);
        lemma_counts_same(d, nodes);
        lemma_process_all(d);
        lemma_rounds_end(g0, start, ns, next, rounds + 1, count + next.len(), (fuel - 1) as nat);
    }
}

/// Round-based flooding from `start` over a network with unique ids, empty
/// inboxes and no node visited yet (`SyncSimulator::run` ends in this state):
/// a node is visited exactly when its id can be reached from `start` along
/// neighbour lists; each visited node but the start has as parent a node that
/// lists it as neighbour; the start is at level 0; and at most as many rounds
/// run as the network has nodes.
pub proof fn lemma_sync_flood_visits_reachable(g0: Seq<NodeModel>, start: NodeId, rounds: nat, count: nat)
    requires
        unique_ids(g0),
        forall|i: int| 0 <= i < g0.len() ==> !(#[trigger] g0[i]).state.visited && g0[i].inbox.len() == 0,
    ensures
        ({
            let marked = mark_start(g0, start);
            let (fin, r, c) = sync_flood(marked, first_wave(marked, start), rounds, count, (g0.len() + 1) as nat);
            &&& fin.len() == g0.len()
            &&& forall|i: int| 0 <= i < g0.len() ==> ((#[trigger] fin[i]).state.visited <==> reaches(g0, start, g0[i].id))
            &&& forall|i: int|
                0 <= i < g0.len() && (#[trigger] fin[i]).state.visited && g0[i].id != start ==> (
                fin[i].state.parent matches Some(p) && lists(g0, p, g0[i].id))
            &&& find_node(g0, start) matches Some(s) ==> fin[s].state.level == Some(0u32)
            &&& r <= rounds + g0.len()
        }),
{
    let marked = mark_start(g0, start);
    let first = first_wave(marked, start);
    let n = g0.len() as int;
    lemma_mark_start(g0, start);
    lemma_counts_bounded(g0);
    lemma_counts_bounded(marked);
    assert forall|id: NodeId| #[trigger] find_node(marked, id) == find_node(g0, id) by {
        lemma_find_node_ids(marked, g0, id);
    }
    lemma_find_node(g0, start);
    let root = seq![start];
    assert(id_walk(g0, start, root));
    match find_node(g0, start) {
        Some(s) => {
            let x = NodeModel { state: NodeState { visited: true, level: Some(0), ..g0[s].state }, ..g0[s] };
            lemma_counts_update(g0, s, x);
            assert(marked == g0.update(s, x));
            assert forall|a: int| 0 <= a < n && (#[trigger] marked[a]).state.visited implies a == s by {
                if a != s {
                    assert(marked[a] == g0[a]);
                }
            }
            assert forall|i: int| 0 <= i < n implies (#[trigger] marked[i]).id == g0[i].id && marked[i].neighbors
                == g0[i].neighbors && marked[i].inbox.len() == 0 by {
                if i != s {
                    assert(marked[i] == g0[i]);
                }
            }
            assert forall|a: int, kk: int|
                0 <= a < n && marked[a].state.visited && 0 <= kk < marked[a].neighbors.len() implies (find_node(
                marked,
                #[trigger] marked[a].neighbors[kk],
            ) matches Some(j) ==> marked[j].state.visited || in_transit(first, marked[a].neighbors[kk])) by {
                assert(a == s);
                assert(first[kk].1 == marked[s].neighbors[kk]);
            }
            assert forall|q: int| 0 <= q < first.len() implies visited_lister(marked, (#[trigger] first[q]).0, first[q].1) by {
                assert(first[q].1 == marked[s].neighbors[q]);
            }
            assert forall|a: int| 0 <= a < n && (#[trigger] marked[a]).state.visited implies reaches(g0, start, marked[a].id) by {
                assert(a == s);
                assert(root.last() == start);
            }
        },
        None => {
            assert(marked == g0);
            assert(first.len() == 0);
        },
    }
    assert(round_inv(g0, start, marked, first));
    lemma_rounds_end(g0, start, marked, first, rounds, count, (g0.len() + 1) as nat);
}

} // verus!
