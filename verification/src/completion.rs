use vstd::prelude::*;

use crate::bfs::{
    bfs_inv, good_msg, good_state, lemma_bfs_done, lemma_bfs_first_round, lemma_bfs_round, lemma_bfs_step,
    lemma_bfs_tree_levels_are_distances, lemma_chain_from, lemma_chain_has, lemma_deliver_from, lemma_deliver_len,
    lemma_outputs_from, lemma_round_facts, lemma_walk_reached, lvl, reached_or_pending, same_edges, spread,
    walk_from_root, within,
};
use crate::graph::{
    bfs_entry, count_visited, fresh, lemma_round_outputs_bounded, lemma_step_wf, msg_ok, node_wf,
    round_outputs, send_bound, stepped, GraphModel,
};
use crate::message::{Message, MessageAsync, MessageSync, MessageType, NodeId};
use crate::node::{forward_chain, lemma_top_index, top_index, NodeModel};
use crate::sims::{
    finished, initialized, lemma_max_degree, round_delays, sync_run, AsyncSimModel, StopRule, MAX_ROUNDS,
};

verus! {

/// At most every node is visited, and all are exactly when the count says so.
pub proof fn lemma_count_visited_bounds<T: Message>(nodes: Seq<NodeModel<T>>)
    ensures
        count_visited(nodes) <= nodes.len(),
        count_visited(nodes) == nodes.len() <==> forall|i: int| 0 <= i < nodes.len() ==> (#[trigger] nodes[i]).state.visited,
    decreases nodes.len(),
{
    if nodes.len() > 0 {
        let init = nodes.drop_last();
        lemma_count_visited_bounds(init);
        if forall|i: int| 0 <= i < nodes.len() ==> (#[trigger] nodes[i]).state.visited {
            assert forall|i: int| 0 <= i < init.len() implies (#[trigger] init[i]).state.visited by {
                assert(init[i] == nodes[i]);
            }
            assert(nodes.last() == nodes[nodes.len() - 1]);
        }
        if count_visited(nodes) == nodes.len() {
            assert forall|i: int| 0 <= i < nodes.len() implies (#[trigger] nodes[i]).state.visited by {
                if i < nodes.len() - 1 {
                    assert(init[i] == nodes[i]);
                }
            }
        }
    }
}

/// A change of state that keeps every visit and adds one adds to the count.
pub proof fn lemma_count_visited_grows<T: Message>(a: Seq<NodeModel<T>>, b: Seq<NodeModel<T>>, w: int)
    requires
        a.len() == b.len(),
        forall|i: int| 0 <= i < a.len() && (#[trigger] a[i]).state.visited ==> b[i].state.visited,
        0 <= w < a.len(),
        !a[w].state.visited,
        b[w].state.visited,
    ensures
        count_visited(a) + 1 <= count_visited(b),
    decreases a.len(),
{
    let ai = a.drop_last();
    let bi = b.drop_last();
    assert forall|i: int| 0 <= i < ai.len() && (#[trigger] ai[i]).state.visited implies bi[i].state.visited by {
        assert(ai[i] == a[i] && bi[i] == b[i]);
    }
    assert(a.last() == a[a.len() - 1] && b.last() == b[b.len() - 1]);
    if w == a.len() - 1 {
        crate::graph::lemma_count_visited_mono(ai, bi);
    } else {
        assert(ai[w] == a[w] && bi[w] == b[w]);
        lemma_count_visited_grows(ai, bi, w);
    }
}

/// Forwarded round-based messages keep the time and level of the one they are made from.
proof fn lemma_sync_chain_time(msg: MessageSync, nbrs: Seq<NodeId>, skip: NodeId, d: Seq<usize>, k: int, idx: int)
    requires
        0 <= idx < forward_chain(msg, nbrs, skip, d, k).len(),
    ensures
        forward_chain(msg, nbrs, skip, d, k)[idx].time == msg.time,
        forward_chain(msg, nbrs, skip, d, k)[idx].level == msg.level,
    decreases nbrs.len(),
{
    let rest = nbrs.drop_first();
    if nbrs[0] == skip {
        lemma_sync_chain_time(msg, rest, skip, d, k, idx);
    } else {
        let next = msg.spec_next_in_level(nbrs[0], d[k]);
        if idx > 0 {
            lemma_sync_chain_time(next, rest, skip, d, k + 1, idx - 1);
            assert(forward_chain(msg, nbrs, skip, d, k)[idx] == forward_chain(next, rest, skip, d, k + 1)[idx - 1]);
        }
    }
}

/// The clocks, levels and acknowledgement counts after `r` rounds are at most
/// `r`, and at most `r` rounds' worth of messages were sent since `base`.
pub open spec fn counters_ok(g: GraphModel<MessageSync>, r: int, base: int) -> bool {
    &&& forall|i: int, k: int|
        0 <= i < g.nodes.len() && 0 <= k < g.nodes[i].inbox.len() ==> (#[trigger] g.nodes[i].inbox[k]).time <= r
            && g.nodes[i].inbox[k].level <= r
    &&& forall|i: int| 0 <= i < g.nodes.len() ==> #[trigger] g.nodes[i].acks <= r
    &&& g.messages_sent <= base + r * send_bound(g.nodes)
}

/// One step of a node whose messages are at most `r` on both counters.
proof fn lemma_sync_step_counters(nd: NodeModel<MessageSync>, d: Seq<usize>, r: int)
    requires
        nd.ready(d),
        forall|k: int| 0 <= k < nd.inbox.len() ==> (#[trigger] nd.inbox[k]).time <= r && nd.inbox[k].level <= r,
    ensures
        forall|k: int|
            0 <= k < nd.step(d).0.inbox.len() ==> (#[trigger] nd.step(d).0.inbox[k]).time <= r
                && nd.step(d).0.inbox[k].level <= r,
        forall|q: int|
            0 <= q < nd.step(d).1.len() ==> (#[trigger] nd.step(d).1[q]).time <= r + 1 && nd.step(d).1[q].level
                <= r + 1,
        nd.step(d).0.acks <= nd.acks + 1,
{
    if nd.inbox.len() > 0 {
        lemma_top_index(nd.inbox);
        let t = top_index(nd.inbox);
        let m = nd.inbox[t];
        let nd2 = nd.step(d).0;
        let out = nd.step(d).1;
        assert(nd2.inbox == nd.inbox.remove(t));
        assert forall|k: int| 0 <= k < nd2.inbox.len() implies (#[trigger] nd2.inbox[k]).time <= r
            && nd2.inbox[k].level <= r by {
            if k < t {
                assert(nd2.inbox[k] == nd.inbox[k]);
            } else {
                assert(nd2.inbox[k] == nd.inbox[k + 1]);
            }
        }
        if !m.ack && !nd.state.visited && !(nd.neighbors.len() == 1 && m.sender is Some) {
            let skip = match m.sender {
                Some(p) => p,
                None => usize::MAX,
            };
            let first = m.spec_to_next_level(nd.last_sent);
            assert forall|q: int| 0 <= q < out.len() implies (#[trigger] out[q]).time <= r + 1 && out[q].level
                <= r + 1 by {
                lemma_sync_chain_time(first, nd.neighbors, skip, d, 0, q);
            }
        }
    }
}


/// The bound on a round's messages depends on the edges alone.
proof fn lemma_send_bound_edges<T: Message>(a: Seq<NodeModel<T>>, b: Seq<NodeModel<T>>)
    requires
        a.len() == b.len(),
        forall|i: int| 0 <= i < a.len() ==> (#[trigger] a[i]).neighbors == b[i].neighbors,
    ensures
        send_bound(a) == send_bound(b),
    decreases a.len(),
{
    if a.len() > 0 {
        assert forall|i: int| 0 <= i < a.len() - 1 implies (#[trigger] a.drop_last()[i]).neighbors == b.drop_last()[i].neighbors by {
            assert(a.drop_last()[i] == a[i] && b.drop_last()[i] == b[i]);
        }
        lemma_send_bound_edges(a.drop_last(), b.drop_last());
        assert(a.last() == a[a.len() - 1] && b.last() == b[b.len() - 1]);
    }
}

/// A round adds one to every bound of `counters_ok`.
pub(crate) proof fn lemma_round_counters(g: GraphModel<MessageSync>, r: int, base: int, d: Seq<usize>)
    requires
        g.wf(),
        r >= 0,
        counters_ok(g, r, base),
        g.round_ready(d),
    ensures
        counters_ok(g.round(d), r + 1, base),
        send_bound(g.round(d).nodes) == send_bound(g.nodes),
{
    let n = g.nodes.len() as int;
    let st = stepped(g.nodes, d);
    let outs = round_outputs(g.nodes, d);
    let after = g.round(d).nodes;
    assert forall|k: int| 0 <= k < n implies node_wf(#[trigger] st[k], k, n) by {
        assert(g.nodes[k].ready(d));
        lemma_step_wf(g.nodes[k], k, n, d);
    }
    lemma_round_outputs_bounded(g.nodes, d, n);
    assert forall|q: int| 0 <= q < outs.len() implies (#[trigger] outs[q]).receiver_of() < n by {
        assert(msg_ok(outs[q], n));
    }
    lemma_deliver_len(st, outs);
    assert forall|i: int| 0 <= i < n implies {
        &&& (#[trigger] after[i]).acks <= r + 1
        &&& after[i].neighbors == g.nodes[i].neighbors
        &&& forall|k: int| 0 <= k < st[i].inbox.len() ==> (#[trigger] st[i].inbox[k]).time <= r && st[i].inbox[k].level <= r
    } by {
        assert(after[i].with_inbox(st[i].inbox) == st[i]);
        assert(g.nodes[i].ready(d));
        assert forall|k: int| 0 <= k < g.nodes[i].inbox.len() implies (#[trigger] g.nodes[i].inbox[k]).time <= r
            && g.nodes[i].inbox[k].level <= r by {
        }
        lemma_sync_step_counters(g.nodes[i], d, r);
        lemma_step_wf(g.nodes[i], i, n, d);
    }
    assert forall|i: int, k: int|
        0 <= i < n && 0 <= k < after[i].inbox.len() implies (#[trigger] after[i].inbox[k]).time <= r + 1
            && after[i].inbox[k].level <= r + 1 by {
        let x = after[i].inbox[k];
        lemma_deliver_from(st, outs, i, k);
        if !(exists|kk: int| 0 <= kk < st[i].inbox.len() && x == #[trigger] st[i].inbox[kk]) {
            let q = choose|q: int| 0 <= q < outs.len() && (#[trigger] outs[q]) == x && outs[q].receiver_of() == i;
            lemma_outputs_from(g.nodes, d, q);
            let (s, kk) = choose|s: int, kk: int|
                0 <= s < n && 0 <= kk < g.nodes[s].step(d).1.len() && outs[q] == #[trigger] g.nodes[s].step(d).1[kk];
            assert(g.nodes[s].ready(d));
            assert forall|k2: int| 0 <= k2 < g.nodes[s].inbox.len() implies (#[trigger] g.nodes[s].inbox[k2]).time <= r
                && g.nodes[s].inbox[k2].level <= r by {
            }
            lemma_sync_step_counters(g.nodes[s], d, r);
        }
    }
    lemma_send_bound_edges(after, g.nodes);
    let sb = send_bound(g.nodes);
    assert((r + 1) * sb == r * sb + sb) by (nonlinear_arith);
}


/// A search whose counters have room can go through its next round.
pub(crate) proof fn lemma_search_ready(
    g0: Seq<NodeModel<MessageSync>>,
    g: GraphModel<MessageSync>,
    r: int,
    base: int,
    d: Seq<usize>,
)
    requires
        bfs_inv(g, r),
        same_edges(g0, g.nodes),
        counters_ok(g, r, base),
        r <= MAX_ROUNDS,
        d == round_delays(g0),
        base + (MAX_ROUNDS + 1) * send_bound(g0) <= usize::MAX,
    ensures
        g.round_ready(d),
{
    let n = g.nodes.len() as int;
    lemma_max_degree(g0);
    lemma_send_bound_edges(g.nodes, g0);
    assert forall|i: int| 0 <= i < n implies #[trigger] g.nodes[i].ready(d) by {
        let nd = g.nodes[i];
        assert(g0[i].neighbors == nd.neighbors);
        assert(g0[i].neighbors.len() <= crate::sims::max_degree(g0));
        if nd.inbox.len() > 0 {
            lemma_top_index(nd.inbox);
            let t = top_index(nd.inbox);
            let m = nd.inbox[t];
            assert(m.time <= r && m.level <= r);
            assert(nd.acks <= r);
            assert(good_msg(g.nodes, m, i, r));
        }
    }
    let sb = send_bound(g0);
    assert((r + 1) * sb <= (MAX_ROUNDS + 1) * sb) by (nonlinear_arith)
        requires
            r + 1 <= MAX_ROUNDS + 1,
            sb >= 0,
    ;
    assert((r + 1) * sb == r * sb + sb) by (nonlinear_arith);
}

/// Node `i` is at the end of a walk from node 0.
pub open spec fn reachable<T: Message>(nodes: Seq<NodeModel<T>>, i: int) -> bool {
    exists|path: Seq<int>| #[trigger] walk_from_root(nodes, path) && path.last() == i
}

/// Every node can be reached from node 0.
pub open spec fn connected<T: Message>(nodes: Seq<NodeModel<T>>) -> bool {
    forall|i: int| 0 <= i < nodes.len() ==> #[trigger] reachable(nodes, i)
}

/// A walk from a visited node 0 to an unvisited node steps somewhere from a
/// visited node to an unvisited one.
proof fn lemma_walk_boundary(
    g0: Seq<NodeModel<MessageSync>>,
    nodes: Seq<NodeModel<MessageSync>>,
    path: Seq<int>,
    t: int,
) -> (u: int)
    requires
        walk_from_root(g0, path),
        g0.len() == nodes.len(),
        nodes[0].state.visited,
        0 <= t < path.len(),
        !nodes[path[t]].state.visited,
    ensures
        1 <= u <= t,
        nodes[path[u - 1]].state.visited,
        !nodes[path[u]].state.visited,
    decreases t,
{
    if nodes[path[t - 1]].state.visited {
        t
    } else {
        lemma_walk_boundary(g0, nodes, path, t - 1)
    }
}

/// While some node of a connected graph is unvisited, every round of the search
/// visits at least one more node.
proof fn lemma_search_progress(
    g0: Seq<NodeModel<MessageSync>>,
    g: GraphModel<MessageSync>,
    r: int,
    d: Seq<usize>,
) -> (w: int)
    requires
        bfs_inv(g, r),
        same_edges(g0, g.nodes),
        connected(g0),
        g.nodes.len() <= usize::MAX,
        g.round_ready(d),
        count_visited(g.nodes) < g.nodes.len(),
    ensures
        count_visited(g.nodes) + 1 <= count_visited(g.round(d).nodes),
        0 <= w < g.nodes.len(),
        g.round(d).nodes[w].state.visited,
        lvl(g.round(d).nodes[w]) == r,
{
    let n = g.nodes.len() as int;
    lemma_count_visited_bounds(g.nodes);
    let v = choose|v: int| 0 <= v < n && !(#[trigger] g.nodes[v]).state.visited;
    assert(reachable(g0, v));
    let path = choose|path: Seq<int>| #[trigger] walk_from_root(g0, path) && path.last() == v;
    let u = lemma_walk_boundary(g0, g.nodes, path, path.len() - 1);
    let a = path[u - 1];
    let w = path[u];
    assert(0 <= a < n && 0 <= w < n);
    assert(g0[a].neighbors.contains(w as NodeId));
    assert(g0[a].neighbors == g.nodes[a].neighbors);
    let kk = choose|kk: int| 0 <= kk < g.nodes[a].neighbors.len() && g.nodes[a].neighbors[kk] == w as NodeId;
    assert(g.nodes[a].neighbors[kk] as int == w);
    assert(good_state(g.nodes, a, r));
    assert(spread(g.nodes, a, r));
    assert(lvl(g.nodes[a]) == r - 1);
    assert(reached_or_pending(g.nodes, g.nodes[a].neighbors[kk] as int, lvl(g.nodes[a]) + 1));
    assert(g.nodes[w].inbox.len() > 0);
    assert(g.nodes[w].ready(d));
    lemma_bfs_step(g, r, w, d);
    lemma_round_facts(g, r, d);
    crate::graph::lemma_round_keeps_visited(g, d);
    lemma_count_visited_grows(g.nodes, g.round(d).nodes, w);
    w
}


/// The rest of a search on a connected graph: each round visits one more node
/// until all are, so the run ends by round `n` with every node visited.
proof fn lemma_search_run(
    g0: Seq<NodeModel<MessageSync>>,
    g: GraphModel<MessageSync>,
    r: int,
    base: int,
    d: Seq<usize>,
)
    requires
        bfs_inv(g, r),
        same_edges(g0, g.nodes),
        counters_ok(g, r, base),
        connected(g0),
        d == round_delays(g0),
        base + (MAX_ROUNDS + 1) * send_bound(g0) <= usize::MAX,
        r <= count_visited(g.nodes),
        g.nodes.len() <= MAX_ROUNDS,
        exists|i: int| 0 <= i < g.nodes.len() && (#[trigger] g.nodes[i]).state.visited && lvl(g.nodes[i]) == r - 1,
    ensures
        sync_run(g, d, StopRule::AllVisited, r as nat) matches Some((gf, t)) && r <= t <= g.nodes.len() && forall|i: int|
            0 <= i < gf.nodes.len() ==> (#[trigger] gf.nodes[i]).state.visited && gf.nodes[i].state.level is Some,
        sync_run(g, d, StopRule::AllVisited, r as nat) matches Some((gf, t)) ==> bfs_inv(gf, t as int) && same_edges(
            g0,
            gf.nodes,
        ) && exists|i: int| 0 <= i < gf.nodes.len() && (#[trigger] gf.nodes[i]).state.visited && lvl(gf.nodes[i]) == t - 1,
    decreases g.nodes.len() - r,
{
    let n = g.nodes.len() as int;
    lemma_count_visited_bounds(g.nodes);
    if finished(g, StopRule::AllVisited) {
        assert forall|i: int| 0 <= i < n implies (#[trigger] g.nodes[i]).state.visited && g.nodes[i].state.level is Some by {
            assert(good_state(g.nodes, i, r));
        }
    } else {
        lemma_search_ready(g0, g, r, base, d);
        let w = lemma_search_progress(g0, g, r, d);
        lemma_bfs_round(g, r, d);
        lemma_round_counters(g, r, base, d);
        let g2 = g.round(d);
        assert(same_edges(g0, g2.nodes));
        assert(g2.nodes[w].state.visited);
        lemma_search_run(g0, g2, r + 1, base, d);
    }
}

/// Before the first round of a run from node 0 of a fresh graph, every counter
/// is at 0 and the round can go ahead.
pub(crate) proof fn lemma_first_round_ready(g: GraphModel<MessageSync>, ty: MessageType)
    requires
        0 < g.nodes.len(),
        forall|i: int| 0 <= i < g.nodes.len() ==> #[trigger] fresh(g.nodes[i], i, g.nodes.len() as int),
        g.messages_sent + (MAX_ROUNDS + 1) * send_bound(g.nodes) <= usize::MAX,
    ensures
        initialized(g, ty).wf(),
        initialized(g, ty).round_ready(round_delays(g.nodes)),
        counters_ok(initialized(g, ty), 0, g.messages_sent as int),
{
    let n = g.nodes.len() as int;
    let gi = initialized(g, ty);
    let d = round_delays(g.nodes);
    let base = g.messages_sent as int;
    let m0 = MessageSync::spec_new(0, None, 0, 0, ty);
    assert(fresh(g.nodes[0], 0, n));
    assert(gi.nodes[0].inbox =~= seq![m0]);
    lemma_max_degree(g.nodes);
    lemma_send_bound_edges(gi.nodes, g.nodes);
    assert forall|i: int| 0 <= i < n implies node_wf(#[trigger] gi.nodes[i], i, n) && gi.nodes[i].ready(d) by {
        assert(fresh(g.nodes[i], i, n));
        assert(g.nodes[i].neighbors.len() <= crate::sims::max_degree(g.nodes));
        if i == 0 {
            lemma_top_index(gi.nodes[0].inbox);
            assert forall|k: int| 0 <= k < gi.nodes[0].inbox.len() implies crate::graph::msg_to(
                #[trigger] gi.nodes[0].inbox[k],
                0,
                n,
            ) by {
                assert(gi.nodes[0].inbox[k] == m0);
            }
        }
    }
    let sb = send_bound(g.nodes);
    assert(sb <= (MAX_ROUNDS + 1) * sb) by (nonlinear_arith)
        requires
            sb >= 0,
    ;
    assert forall|i: int, k: int| 0 <= i < n && 0 <= k < gi.nodes[i].inbox.len() implies (
    #[trigger] gi.nodes[i].inbox[k]).time <= 0 && gi.nodes[i].inbox[k].level <= 0 by {
        assert(fresh(g.nodes[i], i, n));
        assert(i == 0);
        assert(gi.nodes[0].inbox[k] == m0);
    }
    assert forall|i: int| 0 <= i < n implies #[trigger] gi.nodes[i].acks <= 0 by {
        assert(fresh(g.nodes[i], i, n));
    }
}

/// Where a search from node 0 of a fresh, connected graph ends: every node
/// visited, the invariant of the search after `t` rounds, the edges as they
/// were, and a node visited in the last round.
proof fn lemma_search_outcome(g: GraphModel<MessageSync>, ty: MessageType)
    requires
        g.symmetric(),
        0 < g.nodes.len() <= MAX_ROUNDS,
        forall|i: int| 0 <= i < g.nodes.len() ==> #[trigger] fresh(g.nodes[i], i, g.nodes.len() as int),
        connected(g.nodes),
        g.messages_sent + (MAX_ROUNDS + 1) * send_bound(g.nodes) <= usize::MAX,
    ensures
        sync_run(initialized(g, ty), round_delays(g.nodes), StopRule::AllVisited, 0) matches Some((gf, t)) && 1 <= t
            <= g.nodes.len() && forall|i: int|
            0 <= i < gf.nodes.len() ==> (#[trigger] gf.nodes[i]).state.visited && gf.nodes[i].state.level is Some,
        sync_run(initialized(g, ty), round_delays(g.nodes), StopRule::AllVisited, 0) matches Some((gf, t)) ==> bfs_inv(
            gf,
            t as int,
        ) && same_edges(g.nodes, gf.nodes) && exists|i: int|
            0 <= i < gf.nodes.len() && (#[trigger] gf.nodes[i]).state.visited && lvl(gf.nodes[i]) == t - 1,
{
    let n = g.nodes.len() as int;
    let gi = initialized(g, ty);
    let d = round_delays(g.nodes);
    let base = g.messages_sent as int;
    // Nothing is visited before the first round.
    assert(fresh(g.nodes[0], 0, n));
    assert(!gi.nodes[0].state.visited);
    lemma_count_visited_bounds(gi.nodes);
    assert(!finished(gi, StopRule::AllVisited));
    lemma_first_round_ready(g, ty);
    lemma_bfs_first_round(g, ty, d);
    lemma_round_counters(gi, 0, base, d);
    let g1 = gi.round(d);
    assert forall|i: int| 0 <= i < n && (#[trigger] gi.nodes[i]).state.visited implies g1.nodes[i].state.visited by {
        assert(fresh(g.nodes[i], i, n));
    }
    lemma_count_visited_grows(gi.nodes, g1.nodes, 0);
    assert(good_state(g1.nodes, 0, 1));
    lemma_search_run(g.nodes, g1, 1, base, d);
    assert(sync_run(gi, d, StopRule::AllVisited, 0) == sync_run(g1, d, StopRule::AllVisited, 1));
}



/// A round-based search, flooding or breadth-first, from node 0 of a fresh,
/// connected graph whose edges go both ways and that has at most `MAX_ROUNDS`
/// nodes, ends after at most as many rounds as there are nodes, with every node
/// visited and given a level (given room in the message counter for every
/// round).
pub proof fn lemma_sync_search_visits_every_node(g: GraphModel<MessageSync>, ty: MessageType)
    requires
        g.symmetric(),
        0 < g.nodes.len() <= MAX_ROUNDS,
        forall|i: int| 0 <= i < g.nodes.len() ==> #[trigger] fresh(g.nodes[i], i, g.nodes.len() as int),
        connected(g.nodes),
        g.messages_sent + (MAX_ROUNDS + 1) * send_bound(g.nodes) <= usize::MAX,
    ensures
        sync_run(initialized(g, ty), round_delays(g.nodes), StopRule::AllVisited, 0) matches Some((gf, t)) && 1 <= t
            <= g.nodes.len() && forall|i: int|
            0 <= i < gf.nodes.len() ==> (#[trigger] gf.nodes[i]).state.visited && gf.nodes[i].state.level is Some,
{
    lemma_search_outcome(g, ty);
}

/// The number of rounds of such a search is one more than the distance from
/// node 0 to the node furthest from it: every node can be reached along
/// `t - 1` edges, and some node not along fewer.
pub proof fn lemma_sync_search_rounds_are_radius(g: GraphModel<MessageSync>, ty: MessageType)
    requires
        g.symmetric(),
        0 < g.nodes.len() <= MAX_ROUNDS,
        forall|i: int| 0 <= i < g.nodes.len() ==> #[trigger] fresh(g.nodes[i], i, g.nodes.len() as int),
        connected(g.nodes),
        g.messages_sent + (MAX_ROUNDS + 1) * send_bound(g.nodes) <= usize::MAX,
    ensures
        sync_run(initialized(g, ty), round_delays(g.nodes), StopRule::AllVisited, 0) matches Some((gf, t)) && (forall|i: int|
            0 <= i < g.nodes.len() ==> #[trigger] within(g.nodes, i, (t - 1) as nat)) && (t >= 2 ==> exists|i: int|
            0 <= i < g.nodes.len() && !#[trigger] within(g.nodes, i, (t - 2) as nat)),
{
    lemma_search_outcome(g, ty);
    let n = g.nodes.len() as int;
    if let Some((gf, t)) = sync_run(initialized(g, ty), round_delays(g.nodes), StopRule::AllVisited, 0) {
        lemma_bfs_done(g.nodes, gf, t as int);
        let data = gf.nodes.map_values(|nd: NodeModel<MessageSync>| bfs_entry(nd));
        lemma_bfs_tree_levels_are_distances(g.nodes, data);
        assert forall|i: int| 0 <= i < n implies #[trigger] within(g.nodes, i, (t - 1) as nat) by {
            assert(good_state(gf.nodes, i, t as int));
            assert(data[i] == bfs_entry(gf.nodes[i]));
            assert(within(g.nodes, i, data[i].1 as nat));
            let path = choose|path: Seq<int>|
                #[trigger] walk_from_root(g.nodes, path) && path.last() == i && path.len() <= data[i].1 as nat + 1;
            assert(path.len() <= (t - 1) as nat + 1);
        }
        let i0 = choose|i: int| 0 <= i < gf.nodes.len() && (#[trigger] gf.nodes[i]).state.visited && lvl(gf.nodes[i]) == t - 1;
        assert(data[i0] == bfs_entry(gf.nodes[i0]));
        if t >= 2 {
            assert(((t - 2) as nat) < data[i0].1);
            assert(!within(g.nodes, i0, (t - 2) as nat));
        }
    }
}

/// The rest of a search from node 0 of a graph in which every node can be
/// reached along at most `rad` edges: the run ends by round `rad + 1`.
proof fn lemma_search_run_radius(
    g0: Seq<NodeModel<MessageSync>>,
    g: GraphModel<MessageSync>,
    r: int,
    base: int,
    d: Seq<usize>,
    rad: nat,
)
    requires
        bfs_inv(g, r),
        same_edges(g0, g.nodes),
        counters_ok(g, r, base),
        d == round_delays(g0),
        base + (MAX_ROUNDS + 1) * send_bound(g0) <= usize::MAX,
        forall|i: int| 0 <= i < g0.len() ==> #[trigger] within(g0, i, rad),
        rad < MAX_ROUNDS,
        r <= rad + 1,
        g.nodes.len() <= usize::MAX,
        exists|i: int| 0 <= i < g.nodes.len() && (#[trigger] g.nodes[i]).state.visited && lvl(g.nodes[i]) == r - 1,
    ensures
        sync_run(g, d, StopRule::AllVisited, r as nat) matches Some((gf, t)) && r <= t <= rad + 1 && forall|i: int|
            0 <= i < gf.nodes.len() ==> (#[trigger] gf.nodes[i]).state.visited && gf.nodes[i].state.level is Some,
        sync_run(g, d, StopRule::AllVisited, r as nat) matches Some((gf, t)) ==> bfs_inv(gf, t as int) && same_edges(
            g0,
            gf.nodes,
        ) && exists|i: int| 0 <= i < gf.nodes.len() && (#[trigger] gf.nodes[i]).state.visited && lvl(gf.nodes[i]) == t - 1,
    decreases rad + 1 - r,
{
    let n = g.nodes.len() as int;
    lemma_count_visited_bounds(g.nodes);
    if finished(g, StopRule::AllVisited) {
        assert forall|i: int| 0 <= i < n implies (#[trigger] g.nodes[i]).state.visited && g.nodes[i].state.level is Some by {
            assert(good_state(g.nodes, i, r));
        }
    } else {
        // Every node within `rad` edges is visited by round `rad + 1`.
        if r == rad + 1 {
            assert forall|i: int| 0 <= i < n implies (#[trigger] g.nodes[i]).state.visited by {
                assert(within(g0, i, rad));
                let path = choose|path: Seq<int>| #[trigger] walk_from_root(g0, path) && path.last() == i && path.len() <= rad + 1;
                lemma_walk_reached(g0, g, r, path, path.len() - 1);
            }
        }
        assert forall|i: int| 0 <= i < g0.len() implies #[trigger] reachable(g0, i) by {
            assert(within(g0, i, rad));
            let path = choose|path: Seq<int>| #[trigger] walk_from_root(g0, path) && path.last() == i && path.len() <= rad + 1;
        }
        lemma_search_ready(g0, g, r, base, d);
        let w = lemma_search_progress(g0, g, r, d);
        lemma_bfs_round(g, r, d);
        lemma_round_counters(g, r, base, d);
        let g2 = g.round(d);
        assert(same_edges(g0, g2.nodes));
        assert(g2.nodes[w].state.visited);
        lemma_search_run_radius(g0, g2, r + 1, base, d, rad);
    }
}

/// A round-based search, flooding or breadth-first, from node 0 of a fresh
/// graph whose edges go both ways and in which every node can be reached along
/// at most `rad < MAX_ROUNDS` edges, ends after `t <= rad + 1` rounds with every
/// node visited and given a level; `t - 1` is the largest distance from node 0
/// (given room in the message counter for every round).
pub proof fn lemma_sync_search_within_radius(g: GraphModel<MessageSync>, ty: MessageType, rad: nat)
    requires
        g.symmetric(),
        0 < g.nodes.len() <= usize::MAX,
        forall|i: int| 0 <= i < g.nodes.len() ==> #[trigger] fresh(g.nodes[i], i, g.nodes.len() as int),
        forall|i: int| 0 <= i < g.nodes.len() ==> #[trigger] within(g.nodes, i, rad),
        rad < MAX_ROUNDS,
        g.messages_sent + (MAX_ROUNDS + 1) * send_bound(g.nodes) <= usize::MAX,
    ensures
        sync_run(initialized(g, ty), round_delays(g.nodes), StopRule::AllVisited, 0) matches Some((gf, t)) && 1 <= t
            <= rad + 1 && (forall|i: int|
            0 <= i < gf.nodes.len() ==> (#[trigger] gf.nodes[i]).state.visited && gf.nodes[i].state.level is Some) && (
        forall|i: int| 0 <= i < g.nodes.len() ==> #[trigger] within(g.nodes, i, (t - 1) as nat)) && (t >= 2 ==> exists|i: int|
            0 <= i < g.nodes.len() && !#[trigger] within(g.nodes, i, (t - 2) as nat)),
{
    let n = g.nodes.len() as int;
    let gi = initialized(g, ty);
    let d = round_delays(g.nodes);
    let base = g.messages_sent as int;
    assert(fresh(g.nodes[0], 0, n));
    assert(!gi.nodes[0].state.visited);
    lemma_count_visited_bounds(gi.nodes);
    assert(!finished(gi, StopRule::AllVisited));
    lemma_first_round_ready(g, ty);
    lemma_bfs_first_round(g, ty, d);
    lemma_round_counters(gi, 0, base, d);
    let g1 = gi.round(d);
    assert(good_state(g1.nodes, 0, 1));
    lemma_search_run_radius(g.nodes, g1, 1, base, d, rad);
    assert(sync_run(gi, d, StopRule::AllVisited, 0) == sync_run(g1, d, StopRule::AllVisited, 1));
    if let Some((gf, t)) = sync_run(gi, d, StopRule::AllVisited, 0) {
        lemma_bfs_done(g.nodes, gf, t as int);
        let data = gf.nodes.map_values(|nd: NodeModel<MessageSync>| bfs_entry(nd));
        lemma_bfs_tree_levels_are_distances(g.nodes, data);
        assert forall|i: int| 0 <= i < n implies #[trigger] within(g.nodes, i, (t - 1) as nat) by {
            assert(good_state(gf.nodes, i, t as int));
            assert(data[i] == bfs_entry(gf.nodes[i]));
            assert(within(g.nodes, i, data[i].1 as nat));
            let path = choose|path: Seq<int>|
                #[trigger] walk_from_root(g.nodes, path) && path.last() == i && path.len() <= data[i].1 as nat + 1;
            assert(path.len() <= (t - 1) as nat + 1);
        }
        let i0 = choose|i: int| 0 <= i < gf.nodes.len() && (#[trigger] gf.nodes[i]).state.visited && lvl(gf.nodes[i]) == t - 1;
        assert(data[i0] == bfs_entry(gf.nodes[i0]));
        if t >= 2 {
            assert(((t - 2) as nat) < data[i0].1);
            assert(!within(g.nodes, i0, (t - 2) as nat));
        }
    }
}

/// Some message in transit is a search message for node `w`.
pub open spec fn search_pending(queue: Seq<MessageAsync>, w: int) -> bool {
    exists|q: int| 0 <= q < queue.len() && !(#[trigger] queue[q]).ack && queue[q].receiver == w
}

/// The state of an event-driven search: no node holds a message; the root is
/// visited or about to be; every neighbour of a visited node is visited or
/// about to be; and a search message in transit comes from a visited node that
/// has its receiver as neighbour, or is the start message to the root.
pub open spec fn async_search_inv(s: AsyncSimModel) -> bool {
    let nodes = s.graph.nodes;
    &&& s.wf()
    &&& s.graph.symmetric()
    &&& nodes.len() <= usize::MAX
    &&& forall|i: int| 0 <= i < nodes.len() ==> (#[trigger] nodes[i]).inbox.len() == 0
    &&& nodes[0].state.visited || search_pending(s.queue, 0)
    &&& forall|i: int, k: int|
        0 <= i < nodes.len() && nodes[i].state.visited && 0 <= k < nodes[i].neighbors.len() ==> {
            let w = #[trigger] nodes[i].neighbors[k] as int;
            nodes[w].state.visited || search_pending(s.queue, w)
        }
    &&& forall|q: int| 0 <= q < s.queue.len() && !(#[trigger] s.queue[q]).ack ==> match s.queue[q].sender {
        Some(p) => nodes[p as int].state.visited && nodes[p as int].neighbors.contains(s.queue[q].receiver),
        None => s.queue[q].receiver == 0,
    }
}

/// An event-driven search starts in that state.
pub proof fn lemma_async_search_start(g: GraphModel<MessageAsync>, ty: MessageType)
    requires
        g.wf(),
        g.symmetric(),
        0 < g.nodes.len() <= usize::MAX,
        forall|i: int| 0 <= i < g.nodes.len() ==> (#[trigger] g.nodes[i]).inbox.len() == 0 && !g.nodes[i].state.visited,
    ensures
        async_search_inv(
            AsyncSimModel { graph: g, queue: seq![MessageAsync::spec_new(0, None, 0, 0, ty)], time: 0 },
        ),
{
    let s = AsyncSimModel { graph: g, queue: seq![MessageAsync::spec_new(0, None, 0, 0, ty)], time: 0 };
    assert(s.queue[0].receiver == 0 && !s.queue[0].ack);
    assert(search_pending(s.queue, 0));
}

/// Delivering the next message keeps the state of an event-driven search.
pub proof fn lemma_async_search_step(s: AsyncSimModel, d: Seq<u64>)
    requires
        async_search_inv(s),
        s.can_step(d),
    ensures
        async_search_inv(s.step(d)),
{
    let nodes = s.graph.nodes;
    let n = nodes.len() as int;
    lemma_top_index(s.queue);
    let i = top_index(s.queue);
    let m = s.queue[i];
    assert(msg_ok(m, n));
    let x = m.receiver as int;
    let nd = nodes[x].receive(m);
    assert(nd.inbox =~= seq![m]);
    lemma_top_index(nd.inbox);
    assert(top_index(nd.inbox) == 0);
    assert(node_wf(nodes[x], x, n));
    assert(node_wf(nd, x, n)) by {
        assert forall|k: int| 0 <= k < nd.inbox.len() implies crate::graph::msg_to(#[trigger] nd.inbox[k], x, n) by {
            assert(nd.inbox[k] == m);
        }
    }
    assert(nd.ready(d));
    lemma_step_wf(nd, x, n, d);
    crate::graph::lemma_step_keeps_visited_state(nd, d);
    let nd2 = nd.step(d).0;
    let out = nd.step(d).1;
    let rest = s.queue.remove(i);
    let s2 = s.step(d);
    let nodes2 = s2.graph.nodes;
    assert(nodes2 == nodes.update(x, nd2));
    assert(s2.queue == rest + out);
    assert(nd2.inbox.len() == 0);
    MessageAsync::lemma_constructors(m, nd.last_sent, 0, 0);
    let p = match m.sender {
        Some(p) => p,
        None => 0,
    };
    MessageAsync::lemma_constructors(m, nd.last_sent, p, d[0]);
    MessageAsync::lemma_constructors(m, m.time, p, d[0]);
    let par = match nodes[x].state.parent {
        Some(q) => q,
        None => 0,
    };
    MessageAsync::lemma_constructors(m, m.time, par, d[0]);
    let newly = !m.ack && !nodes[x].state.visited;
    let skip = match m.sender {
        Some(p) => p,
        None => usize::MAX,
    };
    let first = m.spec_to_next_level(nd.last_sent);
    let chain = newly && !(nd.neighbors.len() == 1 && m.sender is Some);
    if chain {
        assert(out == forward_chain(first, nd.neighbors, skip, d, 0));
    }
    // A message left in transit keeps its place, shifted past the delivered one.
    assert forall|q: int| 0 <= q < rest.len() implies #[trigger] s2.queue[q] == rest[q] && (q < i ==> rest[q]
        == s.queue[q]) && (q >= i ==> rest[q] == s.queue[q + 1]) by {
    }
    // What the receiver sends that is not an acknowledgement is a forwarded search message.
    assert forall|q: int| 0 <= q < out.len() && !(#[trigger] out[q]).ack implies chain && out[q].sender == Some(
        x as NodeId,
    ) && nodes[x].neighbors.contains(out[q].receiver) by {
        if chain {
            lemma_chain_from(first, nd.neighbors, skip, d, 0, q);
            let j = choose|j: int| 0 <= j < nd.neighbors.len() && #[trigger] nd.neighbors[j] == out[q].receiver_of();
            assert(nodes[x].neighbors[j] == out[q].receiver);
        }
    }
    // A node with a search message pending keeps it, or is the receiver, now visited.
    assert forall|w: int| 0 <= w < n && search_pending(s.queue, w) && !nodes2[w].state.visited implies search_pending(
        s2.queue,
        w,
    ) by {
        let q = choose|q: int| 0 <= q < s.queue.len() && !(#[trigger] s.queue[q]).ack && s.queue[q].receiver == w;
        if q == i {
            assert(w == x);
            assert(nodes2[x] == nd2);
        } else if q < i {
            assert(s2.queue[q] == s.queue[q]);
        } else {
            assert(s2.queue[q - 1] == s.queue[q]);
        }
    }
    assert forall|w: int| 0 <= w < n && nodes[w].state.visited implies #[trigger] nodes2[w].state.visited by {
        if w == x {
            assert(nd.state == nodes[x].state);
        }
    }
    // The root.
    if !nodes2[0].state.visited {
        assert(search_pending(s.queue, 0));
    }
    // Neighbours of visited nodes.
    assert forall|u: int, k: int|
        0 <= u < n && nodes2[u].state.visited && 0 <= k < nodes2[u].neighbors.len() implies {
            let w = #[trigger] nodes2[u].neighbors[k] as int;
            nodes2[w].state.visited || search_pending(s2.queue, w)
        } by {
        assert(nodes2[u].neighbors == nodes[u].neighbors);
        assert(node_wf(nodes[u], u, n));
        let w = nodes[u].neighbors[k] as int;
        if nodes[u].state.visited {
            assert(nodes[w].state.visited || search_pending(s.queue, w));
        } else {
            // `u` is the receiver, visited by this very message.
            assert(u == x);
            assert(newly);
            if nd.neighbors[k] == skip {
                let sp = m.sender.unwrap() as int;
                assert(nodes[sp].state.visited);
            } else if !chain {
                let sp = m.sender.unwrap() as int;
                assert(nodes[sp].neighbors.contains(x as NodeId));
                assert(nodes[sp].neighbors.contains(x as NodeId) <==> nodes[x].neighbors.contains(sp as NodeId));
                let j = choose|j: int| 0 <= j < nodes[x].neighbors.len() && nodes[x].neighbors[j] == sp as NodeId;
                assert(j == 0 && k == 0);
            } else {
                lemma_chain_has(first, nd.neighbors, skip, d, 0, k);
                let qq = choose|qq: int|
                    0 <= qq < forward_chain(first, nd.neighbors, skip, d, 0).len()
                        && (#[trigger] forward_chain(first, nd.neighbors, skip, d, 0)[qq]).receiver_of() == nd.neighbors[k];
                lemma_chain_from(first, nd.neighbors, skip, d, 0, qq);
                assert(s2.queue[rest.len() + qq] == out[qq]);
            }
        }
    }
    // Search messages in transit.
    assert forall|q: int| 0 <= q < s2.queue.len() && !(#[trigger] s2.queue[q]).ack implies match s2.queue[q].sender {
        Some(p) => nodes2[p as int].state.visited && nodes2[p as int].neighbors.contains(s2.queue[q].receiver),
        None => s2.queue[q].receiver == 0,
    } by {
        if q < rest.len() {
            let q0 = if q < i { q } else { q + 1 };
            assert(s2.queue[q] == s.queue[q0]);
            if let Some(p) = s.queue[q0].sender {
                assert(nodes[p as int].state.visited);
                assert(nodes2[p as int].neighbors == nodes[p as int].neighbors);
            }
        } else {
            let qo = q - rest.len();
            assert(s2.queue[q] == out[qo]);
            assert(nodes2[x].neighbors == nodes[x].neighbors);
        }
    }
    assert forall|a: int, b: int| 0 <= a < n && 0 <= b < n implies (#[trigger] nodes2[a].neighbors.contains(b as NodeId)
        <==> #[trigger] nodes2[b].neighbors.contains(a as NodeId)) by {
        assert(nodes2[a].neighbors == nodes[a].neighbors && nodes2[b].neighbors == nodes[b].neighbors);
        assert(nodes[a].neighbors.contains(b as NodeId) <==> nodes[b].neighbors.contains(a as NodeId));
    }
    assert forall|w: int| 0 <= w < n implies (#[trigger] nodes2[w]).inbox.len() == 0 by {
    }
}


/// With nothing in transit, every node along a walk from the root is visited.
proof fn lemma_async_walk_visited(s: AsyncSimModel, path: Seq<int>, t: int)
    requires
        async_search_inv(s),
        s.queue.len() == 0,
        walk_from_root(s.graph.nodes, path),
        0 <= t < path.len(),
    ensures
        s.graph.nodes[path[t]].state.visited,
    decreases t,
{
    let nodes = s.graph.nodes;
    if t > 0 {
        lemma_async_walk_visited(s, path, t - 1);
        let a = path[t - 1];
        let b = path[t];
        assert(nodes[a].neighbors.contains(b as NodeId));
        let kk = choose|kk: int| 0 <= kk < nodes[a].neighbors.len() && nodes[a].neighbors[kk] == b as NodeId;
        assert(nodes[a].neighbors[kk] as int == b);
    }
}

/// An event-driven search that runs out of messages in transit has visited
/// every node of a connected graph.
pub proof fn lemma_async_quiet_search_visited_all(s: AsyncSimModel)
    requires
        async_search_inv(s),
        s.queue.len() == 0,
        connected(s.graph.nodes),
    ensures
        forall|i: int| 0 <= i < s.graph.nodes.len() ==> (#[trigger] s.graph.nodes[i]).state.visited,
{
    assert forall|i: int| 0 <= i < s.graph.nodes.len() implies (#[trigger] s.graph.nodes[i]).state.visited by {
        assert(reachable(s.graph.nodes, i));
        let path = choose|path: Seq<int>| #[trigger] walk_from_root(s.graph.nodes, path) && path.last() == i;
        lemma_async_walk_visited(s, path, path.len() - 1);
    }
}

} // verus!
