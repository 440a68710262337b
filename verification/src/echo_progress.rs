use vstd::prelude::*;

use crate::bfs::{bfs_inv, good_state, lemma_bfs_first_round, lemma_bfs_round, lemma_round_facts, lvl, same_edges};
use crate::completion::{counters_ok, lemma_first_round_ready, lemma_round_counters, lemma_search_ready};
use crate::echo::{
    acked, ackp, active_child, child_edge, child_nbr, distinct, echo_inv, edge_ok, ew, handles, lemma_echo_after,
    lemma_echo_edge, lemma_echo_first_round, lemma_echo_round, lemma_n_acked_bound, n_acked, newly, srch, top_msg,
};
use crate::graph::{fresh, node_wf, send_bound, GraphModel};
use crate::message::{Message, MessageSync, MessageType, NodeId};
use crate::node::NodeModel;
use crate::sims::{finished, initialized, round_delays, sync_run, StopRule, MAX_ROUNDS};

verus! {

/// What is left to do on the `k`-th edge of `u`: nothing on the edge to its parent.
pub open spec fn edge_term(nodes: Seq<NodeModel<MessageSync>>, u: int, k: int) -> nat {
    if child_edge(nodes, u, k) {
        ew(nodes, u, nodes[u].neighbors[k] as int)
    } else {
        0
    }
}

/// What is left to do on the first `j` edges of `u`.
pub open spec fn edge_sum(nodes: Seq<NodeModel<MessageSync>>, u: int, j: int) -> nat
    decreases j,
{
    if j <= 0 {
        0
    } else {
        edge_sum(nodes, u, j - 1) + edge_term(nodes, u, j - 1)
    }
}

/// What is left to do at node `u`: its edges once visited; before that, two
/// steps per edge and one for the visit.
pub open spec fn node_work(nodes: Seq<NodeModel<MessageSync>>, u: int) -> nat {
    if nodes[u].state.visited {
        edge_sum(nodes, u, nodes[u].neighbors.len() as int)
    } else {
        2 * nodes[u].neighbors.len() + 1
    }
}

/// What is left to do at the first `j` nodes.
pub open spec fn work(nodes: Seq<NodeModel<MessageSync>>, j: int) -> nat
    decreases j,
{
    if j <= 0 {
        0
    } else {
        work(nodes, j - 1) + node_work(nodes, j - 1)
    }
}

/// Two steps per edge and one per node: the work of a graph that nothing has
/// visited yet.
pub open spec fn echo_bound(nodes: Seq<NodeModel<MessageSync>>, j: int) -> nat
    decreases j,
{
    if j <= 0 {
        0
    } else {
        echo_bound(nodes, j - 1) + 2 * nodes[j - 1].neighbors.len() + 1
    }
}

proof fn lemma_edge_sum_mono(a: Seq<NodeModel<MessageSync>>, b: Seq<NodeModel<MessageSync>>, u: int, j: int, k0: int)
    requires
        0 <= j,
        forall|k: int| 0 <= k < j ==> #[trigger] edge_term(b, u, k) <= edge_term(a, u, k),
    ensures
        edge_sum(b, u, j) + (if 0 <= k0 < j && edge_term(b, u, k0) < edge_term(a, u, k0) { 1int } else { 0int })
            <= edge_sum(a, u, j),
    decreases j,
{
    if j > 0 {
        lemma_edge_sum_mono(a, b, u, j - 1, k0);
        assert(edge_term(b, u, j - 1) <= edge_term(a, u, j - 1));
    }
}

proof fn lemma_edge_sum_bound(nodes: Seq<NodeModel<MessageSync>>, u: int, j: int)
    requires
        0 <= j,
    ensures
        edge_sum(nodes, u, j) <= 2 * j,
    decreases j,
{
    if j > 0 {
        lemma_edge_sum_bound(nodes, u, j - 1);
    }
}

proof fn lemma_work_mono(a: Seq<NodeModel<MessageSync>>, b: Seq<NodeModel<MessageSync>>, j: int, u0: int)
    requires
        0 <= j,
        forall|u: int| 0 <= u < j ==> #[trigger] node_work(b, u) <= node_work(a, u),
    ensures
        work(b, j) + (if 0 <= u0 < j && node_work(b, u0) < node_work(a, u0) { 1int } else { 0int }) <= work(a, j),
    decreases j,
{
    if j > 0 {
        lemma_work_mono(a, b, j - 1, u0);
        assert(node_work(b, j - 1) <= node_work(a, j - 1));
    }
}

proof fn lemma_work_unvisited(nodes: Seq<NodeModel<MessageSync>>, j: int)
    requires
        0 <= j <= nodes.len(),
        forall|u: int| 0 <= u < j ==> !(#[trigger] nodes[u]).state.visited,
    ensures
        work(nodes, j) == echo_bound(nodes, j),
    decreases j,
{
    if j > 0 {
        lemma_work_unvisited(nodes, j - 1);
    }
}


/// A round leaves no node more to do, and less to a node whose edge moves on.
proof fn lemma_node_work_round(g: GraphModel<MessageSync>, r: int, d: Seq<usize>, u: int, x: int)
    requires
        echo_inv(g, r),
        g.round_ready(d),
        0 <= u < g.nodes.len(),
    ensures
        node_work(g.round(d).nodes, u) <= node_work(g.nodes, u),
        newly(g.nodes[u]) ==> node_work(g.round(d).nodes, u) < node_work(g.nodes, u),
        g.nodes[u].state.visited && g.nodes[u].inbox.len() > 0 && top_msg(g.nodes[u]).ack ==> node_work(
            g.round(d).nodes,
            u,
        ) < node_work(g.nodes, u),
        0 <= x < g.nodes.len() && g.nodes[u].state.visited && handles(g.nodes[x], u as NodeId, false) ==> node_work(
            g.round(d).nodes,
            u,
        ) < node_work(g.nodes, u),
{
    let n = g.nodes.len() as int;
    let nodes = g.nodes;
    let after = g.round(d).nodes;
    let nu = nodes[u];
    let len = nu.neighbors.len() as int;
    lemma_round_facts(g, r, d);
    lemma_echo_after(g, r, d, u);
    if !nu.state.visited {
        if newly(nu) {
            lemma_edge_sum_bound(after, u, len);
        }
    } else {
        assert forall|k: int| 0 <= k < len implies #[trigger] edge_term(after, u, k) <= edge_term(nodes, u, k) by {
            if child_edge(after, u, k) {
                lemma_echo_edge(g, r, d, u, k);
            }
        }
        lemma_edge_sum_mono(nodes, after, u, len, -1);
        if nu.inbox.len() > 0 && top_msg(nu).ack {
            let y = top_msg(nu).sender.unwrap();
            assert(child_nbr(nodes, u, y as int));
            let k0 = choose|k0: int| 0 <= k0 < len && nu.neighbors[k0] == (y as int) as NodeId;
            assert(child_edge(nodes, u, k0));
            lemma_echo_edge(g, r, d, u, k0);
            assert(handles(nu, nu.neighbors[k0], true));
            lemma_edge_sum_mono(nodes, after, u, len, k0);
        }
        if 0 <= x < n && handles(nodes[x], u as NodeId, false) {
            lemma_echo_after(g, r, d, x);
            assert(srch(nodes, u, x) >= 1);
            assert(child_nbr(nodes, u, x));
            let k0 = choose|k0: int| 0 <= k0 < len && nu.neighbors[k0] == x as NodeId;
            assert(nu.neighbors[k0] as int == x);
            assert(child_edge(nodes, u, k0));
            lemma_echo_edge(g, r, d, u, k0);
            lemma_edge_sum_mono(nodes, after, u, len, k0);
        }
    }
}

/// A round in which some node handles a message leaves less to do overall.
proof fn lemma_work_round(g: GraphModel<MessageSync>, r: int, d: Seq<usize>, x: int)
    requires
        echo_inv(g, r),
        g.round_ready(d),
        0 <= x < g.nodes.len(),
        g.nodes[x].inbox.len() > 0,
    ensures
        work(g.round(d).nodes, g.nodes.len() as int) + 1 <= work(g.nodes, g.nodes.len() as int),
{
    let n = g.nodes.len() as int;
    let nodes = g.nodes;
    let after = g.round(d).nodes;
    lemma_round_facts(g, r, d);
    lemma_echo_after(g, r, d, x);
    assert forall|u: int| 0 <= u < n implies #[trigger] node_work(after, u) <= node_work(nodes, u) by {
        lemma_node_work_round(g, r, d, u, x);
    }
    let m = top_msg(nodes[x]);
    if m.ack {
        lemma_node_work_round(g, r, d, x, x);
        lemma_work_mono(nodes, after, n, x);
    } else if nodes[x].state.visited {
        let v = m.sender.unwrap() as int;
        assert(handles(nodes[x], v as NodeId, false));
        lemma_node_work_round(g, r, d, v, x);
        lemma_work_mono(nodes, after, n, v);
    } else {
        lemma_node_work_round(g, r, d, x, x);
        lemma_work_mono(nodes, after, n, x);
    }
}


/// Every counted neighbour but the one at `kp` makes a count of at least the
/// rest.
proof fn lemma_n_acked_lower(nodes: Seq<NodeModel<MessageSync>>, u: int, j: int, kp: int)
    requires
        0 <= j <= nodes[u].neighbors.len(),
        forall|k: int|
            0 <= k < j && k != kp ==> #[trigger] child_edge(nodes, u, k) && acked(nodes, u, nodes[u].neighbors[k] as int),
    ensures
        n_acked(nodes, u, j) + (if 0 <= kp < j { 1int } else { 0int }) >= j,
    decreases j,
{
    if j > 0 {
        lemma_n_acked_lower(nodes, u, j - 1, kp);
        if j - 1 != kp {
            assert(child_edge(nodes, u, j - 1) && acked(nodes, u, nodes[u].neighbors[j - 1] as int));
        }
    }
}

/// A node without parent that has counted every neighbour among the first `j`
/// has a count of `j`.
proof fn lemma_n_acked_all(nodes: Seq<NodeModel<MessageSync>>, u: int, j: int)
    requires
        0 <= j <= nodes[u].neighbors.len(),
        nodes[u].state.parent is None,
        forall|k: int| 0 <= k < j && #[trigger] child_edge(nodes, u, k) ==> acked(nodes, u, nodes[u].neighbors[k] as int),
    ensures
        n_acked(nodes, u, j) == j,
    decreases j,
{
    if j > 0 {
        lemma_n_acked_all(nodes, u, j - 1);
        assert(child_edge(nodes, u, j - 1));
    }
}

/// With no message anywhere, every visited node has heard back from all its
/// neighbours: one that has not waits on a child that has not either, further
/// from the root each time.
proof fn lemma_idle_all_done(g: GraphModel<MessageSync>, r: int, x: int)
    requires
        echo_inv(g, r),
        forall|i: int| 0 <= i < g.nodes.len() ==> (#[trigger] g.nodes[i]).inbox.len() == 0,
        0 <= x < g.nodes.len(),
        g.nodes[x].state.visited,
    ensures
        g.nodes[x].all_acks(),
    decreases r - lvl(g.nodes[x]),
{
    let n = g.nodes.len() as int;
    let nodes = g.nodes;
    let nd = nodes[x];
    let len = nd.neighbors.len() as int;
    assert(good_state(nodes, x, r));
    assert(distinct(nd.neighbors));
    assert(nd.acks == n_acked(nodes, x, len));
    assert forall|k: int| 0 <= k < len && #[trigger] child_edge(nodes, x, k) implies acked(nodes, x, nd.neighbors[k] as int) by {
        let w = nd.neighbors[k] as int;
        assert(node_wf(nd, x, n));
        assert(0 <= w < n);
        assert(edge_ok(nodes, x, w));
        assert(srch(nodes, x, w) == 0);
        assert(ackp(nodes, x, w) == 0);
        if active_child(nodes, x, w) {
            assert(good_state(nodes, w, r));
            lemma_idle_all_done(g, r, w);
        }
    }
    match nd.state.parent {
        Some(p) => {
            assert(nodes[p as int].neighbors.contains(x as NodeId));
            assert(nodes[p as int].neighbors.contains(x as NodeId) <==> nodes[x].neighbors.contains((p as int) as NodeId));
            let kp = choose|kp: int| 0 <= kp < len && nd.neighbors[kp] == p;
            assert forall|k: int| 0 <= k < len && k != kp implies #[trigger] child_edge(nodes, x, k) && acked(
                nodes,
                x,
                nd.neighbors[k] as int,
            ) by {
                assert(nd.neighbors[k] != nd.neighbors[kp]);
                assert(child_edge(nodes, x, k));
                assert(acked(nodes, x, nd.neighbors[k] as int));
            }
            lemma_n_acked_lower(nodes, x, len, kp);
            lemma_n_acked_bound(nodes, x, len, kp, kp);
        },
        None => {
            lemma_n_acked_all(nodes, x, len);
            lemma_n_acked_bound(nodes, x, len, -1, -1);
        },
    }
}

/// While the root has not heard back from all its neighbours, some node holds a
/// message.
proof fn lemma_not_done_busy(g: GraphModel<MessageSync>, r: int) -> (x: int)
    requires
        echo_inv(g, r),
        !g.nodes[0].all_acks(),
    ensures
        0 <= x < g.nodes.len(),
        g.nodes[x].inbox.len() > 0,
{
    if exists|x: int| 0 <= x < g.nodes.len() && (#[trigger] g.nodes[x]).inbox.len() > 0 {
        choose|x: int| 0 <= x < g.nodes.len() && (#[trigger] g.nodes[x]).inbox.len() > 0
    } else {
        lemma_idle_all_done(g, r, 0);
        0
    }
}

/// The rest of a flooding with acknowledgements: every round until the root
/// has heard back from all its neighbours leaves less to do, so the root hears
/// back within `bound` rounds.
proof fn lemma_echo_live_run(
    g0: Seq<NodeModel<MessageSync>>,
    g: GraphModel<MessageSync>,
    r: int,
    base: int,
    d: Seq<usize>,
    bound: int,
)
    requires
        echo_inv(g, r),
        same_edges(g0, g.nodes),
        counters_ok(g, r, base),
        d == round_delays(g0),
        base + (MAX_ROUNDS + 1) * send_bound(g0) <= usize::MAX,
        work(g.nodes, g.nodes.len() as int) + r <= bound,
        bound <= MAX_ROUNDS,
    ensures
        sync_run(g, d, StopRule::RootAcknowledged, r as nat) matches Some((gf, t)) && gf.nodes[0].all_acks() && t
            <= bound,
    decreases work(g.nodes, g.nodes.len() as int),
{
    if !finished(g, StopRule::RootAcknowledged) {
        let x = lemma_not_done_busy(g, r);
        lemma_search_ready(g0, g, r, base, d);
        lemma_work_round(g, r, d, x);
        lemma_echo_round(g, r, d);
        lemma_bfs_round(g, r, d);
        lemma_round_counters(g, r, base, d);
        let g2 = g.round(d);
        assert(same_edges(g0, g2.nodes));
        lemma_echo_live_run(g0, g2, r + 1, base, d, bound);
    }
}

proof fn lemma_echo_bound_edges(a: Seq<NodeModel<MessageSync>>, b: Seq<NodeModel<MessageSync>>, j: int)
    requires
        0 <= j <= a.len(),
        a.len() == b.len(),
        forall|i: int| 0 <= i < a.len() ==> (#[trigger] a[i]).neighbors == b[i].neighbors,
    ensures
        echo_bound(a, j) == echo_bound(b, j),
    decreases j,
{
    if j > 0 {
        lemma_echo_bound_edges(a, b, j - 1);
        assert(a[j - 1].neighbors == b[j - 1].neighbors);
    }
}

/// The first round leaves less to do than the bound.
proof fn lemma_first_round_work(g: GraphModel<MessageSync>, ty: MessageType, d: Seq<usize>)
    requires
        0 < g.nodes.len(),
        forall|i: int| 0 <= i < g.nodes.len() ==> #[trigger] fresh(g.nodes[i], i, g.nodes.len() as int),
        initialized(g, ty).wf(),
        initialized(g, ty).round_ready(d),
        bfs_inv(initialized(g, ty).round(d), 1),
    ensures
        work(initialized(g, ty).round(d).nodes, g.nodes.len() as int) + 1 <= echo_bound(g.nodes, g.nodes.len() as int),
{
    let n = g.nodes.len() as int;
    let gi = initialized(g, ty);
    let g1 = gi.round(d);
    // Nothing was visited before the first round, and only the root is after it.
    assert forall|u: int| 0 <= u < n implies !(#[trigger] gi.nodes[u]).state.visited by {
        assert(fresh(g.nodes[u], u, n));
    }
    lemma_work_unvisited(gi.nodes, n);
    lemma_echo_bound_edges(gi.nodes, g.nodes, n);
    let st = crate::graph::stepped(gi.nodes, d);
    let outs = crate::graph::round_outputs(gi.nodes, d);
    crate::graph::lemma_round_outputs_bounded(gi.nodes, d, n);
    assert forall|q: int| 0 <= q < outs.len() implies (#[trigger] outs[q]).receiver_of() < n by {
        assert(crate::graph::msg_ok(outs[q], n));
    }
    crate::bfs::lemma_deliver_len(st, outs);
    assert forall|u: int| 0 <= u < n implies #[trigger] node_work(g1.nodes, u) <= node_work(gi.nodes, u) by {
        assert(g1.nodes[u].with_inbox(st[u].inbox) == st[u]);
        assert(fresh(g.nodes[u], u, n));
        if u != 0 {
            assert(gi.nodes[u] == g.nodes[u]);
        } else {
            crate::graph::lemma_step_keeps_visited_state(gi.nodes[0], d);
            assert(g1.nodes[0].state.visited);
            lemma_edge_sum_bound(g1.nodes, 0, g1.nodes[0].neighbors.len() as int);
        }
    }
    assert(node_work(g1.nodes, 0) < node_work(gi.nodes, 0)) by {
        assert(g1.nodes[0].with_inbox(st[0].inbox) == st[0]);
        crate::graph::lemma_step_keeps_visited_state(gi.nodes[0], d);
        assert(g1.nodes[0].state.visited);
        assert(!gi.nodes[0].state.visited);
        lemma_edge_sum_bound(g1.nodes, 0, g1.nodes[0].neighbors.len() as int);
    }
    lemma_work_mono(gi.nodes, g1.nodes, n, 0);
}

/// Root end detection ends: in a round-based flooding with acknowledgements
/// from node 0 of a fresh graph whose edges go both ways, with no edge listed
/// twice, the root hears back from all its neighbours after at most two rounds
/// per edge end and one per node (where that is within `MAX_ROUNDS`, and the
/// message counter has room for every round).
pub proof fn lemma_root_end_detection_ends(g: GraphModel<MessageSync>, ty: MessageType)
    requires
        g.symmetric(),
        0 < g.nodes.len() <= usize::MAX,
        forall|i: int| 0 <= i < g.nodes.len() ==> #[trigger] fresh(g.nodes[i], i, g.nodes.len() as int),
        forall|i: int| 0 <= i < g.nodes.len() ==> distinct(#[trigger] g.nodes[i].neighbors),
        g.messages_sent + (MAX_ROUNDS + 1) * send_bound(g.nodes) <= usize::MAX,
        echo_bound(g.nodes, g.nodes.len() as int) <= MAX_ROUNDS,
    ensures
        sync_run(initialized(g, ty), round_delays(g.nodes), StopRule::RootAcknowledged, 0) matches Some((gf, t))
            && gf.nodes[0].all_acks() && t <= echo_bound(g.nodes, g.nodes.len() as int),
{
    let n = g.nodes.len() as int;
    let gi = initialized(g, ty);
    let d = round_delays(g.nodes);
    let base = g.messages_sent as int;
    let bound = echo_bound(g.nodes, n) as int;
    if !finished(gi, StopRule::RootAcknowledged) {
        lemma_first_round_ready(g, ty);
        lemma_echo_first_round(g, ty, d);
        lemma_bfs_first_round(g, ty, d);
        lemma_round_counters(gi, 0, base, d);
        let g1 = gi.round(d);
        lemma_first_round_work(g, ty, d);
        lemma_echo_live_run(g.nodes, g1, 1, base, d, bound);
        assert(sync_run(gi, d, StopRule::RootAcknowledged, 0) == sync_run(g1, d, StopRule::RootAcknowledged, 1));
    }
}

} // verus!
