use vstd::prelude::*;

use crate::bfs::{
    same_edges, bfs_inv, good_state, lemma_bfs_first_round, lemma_bfs_round, lemma_chain_from, lemma_bfs_step, lemma_deliver_from, lemma_deliver_len, lemma_outputs_from,
    lemma_round_facts, lvl, walk_from_root,
};
use crate::completion::reachable;
use crate::graph::{deliver, fresh, lemma_step_wf, msg_to, node_wf, round_outputs, stepped, GraphModel};
use crate::message::MessageType;
use crate::sims::{finished, initialized, round_delays, sync_run, StopRule, MAX_ROUNDS};
use crate::message::{Message, MessageSync, NodeId};
use crate::node::{forward_chain, lemma_top_index, top_index, NodeModel};

verus! {

/// `m` goes from `from` to `to` and is, or is not, an acknowledgement.
pub open spec fn on_edge(m: MessageSync, from: NodeId, to: NodeId, ack: bool) -> bool {
    m.sender == Some(from) && m.receiver == to && m.ack == ack
}

/// How many of `s` go from `from` to `to` and are, or are not, acknowledgements.
pub open spec fn n_msgs(s: Seq<MessageSync>, from: NodeId, to: NodeId, ack: bool) -> nat
    decreases s.len(),
{
    if s.len() == 0 {
        0
    } else {
        n_msgs(s.drop_last(), from, to, ack) + if on_edge(s.last(), from, to, ack) {
            1nat
        } else {
            0nat
        }
    }
}

pub proof fn lemma_n_msgs_add(a: Seq<MessageSync>, b: Seq<MessageSync>, from: NodeId, to: NodeId, ack: bool)
    ensures
        n_msgs(a + b, from, to, ack) == n_msgs(a, from, to, ack) + n_msgs(b, from, to, ack),
    decreases b.len(),
{
    if b.len() > 0 {
        assert((a + b).drop_last() =~= a + b.drop_last());
        lemma_n_msgs_add(a, b.drop_last(), from, to, ack);
        assert((a + b).last() == b.last());
    } else {
        assert(a + b =~= a);
    }
}

pub proof fn lemma_n_msgs_remove(s: Seq<MessageSync>, i: int, from: NodeId, to: NodeId, ack: bool)
    requires
        0 <= i < s.len(),
    ensures
        n_msgs(s.remove(i), from, to, ack) + (if on_edge(s[i], from, to, ack) { 1nat } else { 0nat }) == n_msgs(
            s,
            from,
            to,
            ack,
        ),
    decreases s.len(),
{
    if i == s.len() - 1 {
        assert(s.remove(i) =~= s.drop_last());
    } else {
        lemma_n_msgs_remove(s.drop_last(), i, from, to, ack);
        assert(s.remove(i) =~= s.drop_last().remove(i).push(s.last()));
        assert(s.remove(i).drop_last() =~= s.drop_last().remove(i));
        assert(s.drop_last()[i] == s[i]);
    }
}

/// No message of `s` is on the edge exactly when the count is 0.
pub proof fn lemma_n_msgs_zero(s: Seq<MessageSync>, from: NodeId, to: NodeId, ack: bool)
    ensures
        n_msgs(s, from, to, ack) == 0 <==> forall|k: int| 0 <= k < s.len() ==> !on_edge(#[trigger] s[k], from, to, ack),
    decreases s.len(),
{
    if s.len() > 0 {
        lemma_n_msgs_zero(s.drop_last(), from, to, ack);
        if n_msgs(s, from, to, ack) == 0 {
            assert forall|k: int| 0 <= k < s.len() implies !on_edge(#[trigger] s[k], from, to, ack) by {
                if k < s.len() - 1 {
                    assert(s.drop_last()[k] == s[k]);
                }
            }
        }
        if forall|k: int| 0 <= k < s.len() ==> !on_edge(#[trigger] s[k], from, to, ack) {
            assert forall|k: int| 0 <= k < s.drop_last().len() implies !on_edge(#[trigger] s.drop_last()[k], from, to, ack) by {
                assert(s.drop_last()[k] == s[k]);
            }
            assert(s.last() == s[s.len() - 1]);
        }
    }
}

/// Messages delivered to node `x` add their count to its inbox.
pub proof fn lemma_n_msgs_deliver(
    nodes: Seq<NodeModel<MessageSync>>,
    msgs: Seq<MessageSync>,
    x: NodeId,
    from: NodeId,
    ack: bool,
)
    requires
        forall|q: int| 0 <= q < msgs.len() ==> (#[trigger] msgs[q]).receiver < nodes.len(),
        x < nodes.len(),
    ensures
        deliver(nodes, msgs).len() == nodes.len(),
        n_msgs(deliver(nodes, msgs)[x as int].inbox, from, x, ack) == n_msgs(nodes[x as int].inbox, from, x, ack)
            + n_msgs(msgs, from, x, ack),
    decreases msgs.len(),
{
    if msgs.len() > 0 {
        let m = msgs.last();
        let r = m.receiver as int;
        assert(msgs[msgs.len() - 1].receiver < nodes.len());
        let nodes2 = nodes.update(r, nodes[r].receive(m));
        let rest = msgs.drop_last();
        assert forall|q: int| 0 <= q < rest.len() implies (#[trigger] rest[q]).receiver < nodes2.len() by {
            assert(rest[q] == msgs[q]);
        }
        lemma_n_msgs_deliver(nodes2, rest, x, from, ack);
        if r == x as int {
            assert(nodes2[r].inbox == nodes[r].inbox.push(m));
            assert(nodes[r].inbox.push(m).drop_last() =~= nodes[r].inbox);
        } else {
            assert(nodes2[x as int] == nodes[x as int]);
        }
    }
}

/// What node `from` sends is the whole of the round's messages from it.
pub proof fn lemma_n_msgs_outputs(
    nodes: Seq<NodeModel<MessageSync>>,
    d: Seq<usize>,
    from: NodeId,
    to: NodeId,
    ack: bool,
)
    requires
        forall|i: int, q: int|
            0 <= i < nodes.len() && 0 <= q < nodes[i].step(d).1.len() ==> (#[trigger] nodes[i].step(d).1[q]).sender
                == Some(i as NodeId),
        nodes.len() <= usize::MAX,
    ensures
        n_msgs(round_outputs(nodes, d), from, to, ack) == if from < nodes.len() {
            n_msgs(nodes[from as int].step(d).1, from, to, ack)
        } else {
            0
        },
    decreases nodes.len(),
{
    if nodes.len() > 0 {
        let init = nodes.drop_last();
        let last = nodes.len() - 1;
        assert forall|i: int, q: int|
            0 <= i < init.len() && 0 <= q < init[i].step(d).1.len() implies (#[trigger] init[i].step(d).1[q]).sender
                == Some(i as NodeId) by {
            assert(init[i] == nodes[i]);
        }
        lemma_n_msgs_outputs(init, d, from, to, ack);
        let b = nodes.last().step(d).1;
        lemma_n_msgs_add(round_outputs(init, d), b, from, to, ack);
        assert(nodes.last() == nodes[last]);
        if from as int != last {
            assert forall|q: int| 0 <= q < b.len() implies !on_edge(#[trigger] b[q], from, to, ack) by {
                assert(nodes[last].step(d).1[q].sender == Some(last as NodeId));
            }
            lemma_n_msgs_zero(b, from, to, ack);
            if from < init.len() {
                assert(init[from as int] == nodes[from as int]);
            }
        }
    }
}

/// No neighbour appears twice.
pub open spec fn distinct(s: Seq<NodeId>) -> bool {
    forall|a: int, b: int| 0 <= a < b < s.len() ==> s[a] != s[b]
}

/// A forwarded search goes once to each neighbour but `skip`, and is no
/// acknowledgement.
pub proof fn lemma_n_msgs_chain(
    msg: MessageSync,
    nbrs: Seq<NodeId>,
    skip: NodeId,
    d: Seq<usize>,
    k: int,
    from: NodeId,
    to: NodeId,
)
    requires
        distinct(nbrs),
        msg.sender == Some(from),
        !msg.ack,
    ensures
        n_msgs(forward_chain(msg, nbrs, skip, d, k), from, to, false) == if to != skip && nbrs.contains(to) {
            1nat
        } else {
            0nat
        },
        n_msgs(forward_chain(msg, nbrs, skip, d, k), from, to, true) == 0,
    decreases nbrs.len(),
{
    if nbrs.len() > 0 {
        let rest = nbrs.drop_first();
        assert(distinct(rest)) by {
            assert forall|a: int, b: int| 0 <= a < b < rest.len() implies rest[a] != rest[b] by {
                assert(rest[a] == nbrs[a + 1] && rest[b] == nbrs[b + 1]);
            }
        }
        assert(rest.contains(to) ==> nbrs.contains(to)) by {
            if rest.contains(to) {
                let j = choose|j: int| 0 <= j < rest.len() && rest[j] == to;
                assert(nbrs[j + 1] == to);
            }
        }
        assert(nbrs.contains(to) && nbrs[0] != to ==> rest.contains(to)) by {
            if nbrs.contains(to) && nbrs[0] != to {
                let j = choose|j: int| 0 <= j < nbrs.len() && nbrs[j] == to;
                assert(rest[j - 1] == to);
            }
        }
        assert(nbrs[0] == to ==> !rest.contains(to)) by {
            if nbrs[0] == to && rest.contains(to) {
                let j = choose|j: int| 0 <= j < rest.len() && rest[j] == to;
                assert(nbrs[j + 1] == nbrs[0]);
            }
        }
        if nbrs[0] == skip {
            lemma_n_msgs_chain(msg, rest, skip, d, k, from, to);
        } else {
            let next = msg.spec_next_in_level(nbrs[0], d[k]);
            lemma_n_msgs_chain(next, rest, skip, d, k + 1, from, to);
            let tail = forward_chain(next, rest, skip, d, k + 1);
            lemma_n_msgs_add(seq![next], tail, from, to, false);
            lemma_n_msgs_add(seq![next], tail, from, to, true);
            let one = seq![next];
            assert(one.drop_last() =~= Seq::<MessageSync>::empty());
            assert(n_msgs(Seq::<MessageSync>::empty(), from, to, false) == 0);
            assert(n_msgs(Seq::<MessageSync>::empty(), from, to, true) == 0);
            assert(one.last() == next);
            assert(next.sender == Some(from) && !next.ack && next.receiver == nbrs[0]);
            assert(n_msgs(one, from, to, false) == if nbrs[0] == to { 1nat } else { 0nat });
            assert(n_msgs(one, from, to, true) == 0);
            assert(forward_chain(msg, nbrs, skip, d, k) == one + tail);
        }
    }
}


/// The message a node handles next.
pub open spec fn top_msg(nd: NodeModel<MessageSync>) -> MessageSync {
    nd.inbox[top_index(nd.inbox)]
}

/// The node handles a message from `y` that is, or is not, an acknowledgement.
pub open spec fn handles(nd: NodeModel<MessageSync>, y: NodeId, ack: bool) -> bool {
    nd.inbox.len() > 0 && top_msg(nd).sender == Some(y) && top_msg(nd).ack == ack
}

/// The node is visited by the message it handles.
pub open spec fn newly(nd: NodeModel<MessageSync>) -> bool {
    nd.inbox.len() > 0 && !top_msg(nd).ack && !nd.state.visited
}

/// A node reached from its only neighbour answers at once.
pub open spec fn leaf(nd: NodeModel<MessageSync>) -> bool {
    nd.neighbors.len() == 1 && top_msg(nd).sender is Some
}

/// The node sends an acknowledgement to `y` as it handles its message.
pub open spec fn acks_to(nd: NodeModel<MessageSync>, y: NodeId) -> bool {
    let m = top_msg(nd);
    &&& nd.inbox.len() > 0
    &&& {
        ||| m.ack && nd.state.parent == Some(y) && nd.acks + 2 == nd.neighbors.len()
        ||| !m.ack && nd.state.visited && m.sender == Some(y)
        ||| newly(nd) && leaf(nd) && m.sender == Some(y)
    }
}

/// What one step of node `x` sends and keeps, counted edge by edge.
pub proof fn lemma_echo_node(nd: NodeModel<MessageSync>, x: NodeId, n: int, d: Seq<usize>)
    requires
        node_wf(nd, x as int, n),
        n <= usize::MAX,
        nd.ready(d),
        distinct(nd.neighbors),
    ensures
        forall|y: NodeId| #[trigger] n_msgs(nd.step(d).1, x, y, false) == if newly(nd) && !leaf(nd) && Some(y)
            != top_msg(nd).sender && nd.neighbors.contains(y) {
            1nat
        } else {
            0nat
        },
        forall|y: NodeId| #[trigger] n_msgs(nd.step(d).1, x, y, true) == if acks_to(nd, y) {
            1nat
        } else {
            0nat
        },
        forall|y: NodeId, a: bool|
            #[trigger] n_msgs(nd.step(d).0.inbox, y, x, a) + (if handles(nd, y, a) { 1nat } else { 0nat }) == n_msgs(
                nd.inbox,
                y,
                x,
                a,
            ),
        nd.step(d).0.acks == nd.acks + if nd.inbox.len() > 0 && top_msg(nd).ack {
            1int
        } else {
            0int
        },
        nd.state.visited ==> nd.step(d).0.state == nd.state,
        newly(nd) ==> nd.step(d).0.state.visited && nd.step(d).0.state.parent == top_msg(nd).sender,
        !nd.state.visited && !newly(nd) ==> nd.step(d).0.state == nd.state,
        nd.step(d).0.neighbors == nd.neighbors,
{
    let nd2 = nd.step(d).0;
    let out = nd.step(d).1;
    if nd.inbox.len() == 0 {
        assert forall|y: NodeId| #[trigger] n_msgs(nd.step(d).1, x, y, false) == 0 by {
        }
        assert forall|y: NodeId| #[trigger] n_msgs(nd.step(d).1, x, y, true) == 0 by {
        }
    } else {
        lemma_top_index(nd.inbox);
        let t = top_index(nd.inbox);
        let m = nd.inbox[t];
        assert(msg_to(m, x as int, n));
        assert forall|y: NodeId, a: bool|
            #[trigger] n_msgs(nd.step(d).0.inbox, y, x, a) + (if handles(nd, y, a) { 1nat } else { 0nat }) == n_msgs(
                nd.inbox,
                y,
                x,
                a,
            ) by {
            lemma_n_msgs_remove(nd.inbox, t, y, x, a);
        }
        let skip = match m.sender {
            Some(p) => p,
            None => usize::MAX,
        };
        let first = m.spec_to_next_level(nd.last_sent);
        if newly(nd) && !leaf(nd) {
            assert(out == forward_chain(first, nd.neighbors, skip, d, 0));
            assert forall|y: NodeId| #[trigger] n_msgs(nd.step(d).1, x, y, false) == if Some(y) != m.sender
                && nd.neighbors.contains(y) {
                1nat
            } else {
                0nat
            } by {
                lemma_n_msgs_chain(first, nd.neighbors, skip, d, 0, x, y);
                if nd.neighbors.contains(y) && m.sender is None {
                    let j = choose|j: int| 0 <= j < nd.neighbors.len() && nd.neighbors[j] == y;
                    assert(nd.neighbors[j] < n);
                }
            }
            assert forall|y: NodeId| #[trigger] n_msgs(nd.step(d).1, x, y, true) == 0 by {
                lemma_n_msgs_chain(first, nd.neighbors, skip, d, 0, x, y);
            }
        } else {
            // At most one acknowledgement goes out.
            assert(out.len() <= 1);
            assert forall|q: int| 0 <= q < out.len() implies (#[trigger] out[q]).ack && out[q].sender == Some(x) by {
            }
            assert forall|y: NodeId| #[trigger] n_msgs(nd.step(d).1, x, y, false) == 0 by {
                if out.len() == 1 {
                    assert(out.drop_last() =~= Seq::<MessageSync>::empty());
                    assert(n_msgs(Seq::<MessageSync>::empty(), x, y, false) == 0);
                }
            }
            assert forall|y: NodeId| #[trigger] n_msgs(nd.step(d).1, x, y, true) == if acks_to(nd, y) {
                1nat
            } else {
                0nat
            } by {
                if out.len() == 1 {
                    assert(out.drop_last() =~= Seq::<MessageSync>::empty());
                    assert(n_msgs(Seq::<MessageSync>::empty(), x, y, true) == 0);
                }
            }
        }
    }
}


/// Search messages from `u` waiting at `w`.
pub open spec fn srch(nodes: Seq<NodeModel<MessageSync>>, u: int, w: int) -> nat {
    n_msgs(nodes[w].inbox, u as NodeId, w as NodeId, false)
}

/// Acknowledgements from `w` waiting at `u`.
pub open spec fn ackp(nodes: Seq<NodeModel<MessageSync>>, u: int, w: int) -> nat {
    n_msgs(nodes[u].inbox, w as NodeId, u as NodeId, true)
}

/// `w` was reached from `u` and has not yet heard back from all its own neighbours.
pub open spec fn active_child(nodes: Seq<NodeModel<MessageSync>>, u: int, w: int) -> bool {
    &&& nodes[w].state.visited
    &&& nodes[w].state.parent == Some(u as NodeId)
    &&& !nodes[w].all_acks()
}

/// `u` has counted `w`'s answer: nothing is under way on the edge.
pub open spec fn acked(nodes: Seq<NodeModel<MessageSync>>, u: int, w: int) -> bool {
    &&& srch(nodes, u, w) == 0
    &&& ackp(nodes, u, w) == 0
    &&& !active_child(nodes, u, w)
    &&& nodes[w].state.visited
}

/// The edge from visited `u` to `w`, not its parent, is in one of four states:
/// the search is on its way, the answer is, `w` is busy with its own
/// neighbours, or `u` has counted the answer.
pub open spec fn edge_ok(nodes: Seq<NodeModel<MessageSync>>, u: int, w: int) -> bool {
    ||| srch(nodes, u, w) == 1 && ackp(nodes, u, w) == 0 && !active_child(nodes, u, w)
    ||| srch(nodes, u, w) == 0 && ackp(nodes, u, w) == 1 && !active_child(nodes, u, w) && nodes[w].state.visited
    ||| srch(nodes, u, w) == 0 && ackp(nodes, u, w) == 0 && active_child(nodes, u, w)
    ||| acked(nodes, u, w)
}

/// What is left to do on the edge from `u` to `w`: 2 while the search is on
/// its way, 1 until `u` has counted the answer, then 0.
pub open spec fn ew(nodes: Seq<NodeModel<MessageSync>>, u: int, w: int) -> nat {
    if acked(nodes, u, w) {
        0
    } else if srch(nodes, u, w) >= 1 {
        2
    } else {
        1
    }
}

/// The `k`-th neighbour of `u` is not its parent.
pub open spec fn child_edge(nodes: Seq<NodeModel<MessageSync>>, u: int, k: int) -> bool {
    nodes[u].state.parent != Some(nodes[u].neighbors[k])
}

/// How many of the first `j` neighbours of `u`, parent aside, `u` has counted.
pub open spec fn n_acked(nodes: Seq<NodeModel<MessageSync>>, u: int, j: int) -> nat
    decreases j,
{
    if j <= 0 {
        0
    } else {
        n_acked(nodes, u, j - 1) + if child_edge(nodes, u, j - 1) && acked(nodes, u, nodes[u].neighbors[j - 1] as int) {
            1nat
        } else {
            0nat
        }
    }
}

/// `w` is a neighbour of `u` other than its parent.
pub open spec fn child_nbr(nodes: Seq<NodeModel<MessageSync>>, u: int, w: int) -> bool {
    nodes[u].neighbors.contains(w as NodeId) && nodes[u].state.parent != Some(w as NodeId)
}

/// The state of a flooding with acknowledgements after `r >= 1` rounds.
pub open spec fn echo_inv(g: GraphModel<MessageSync>, r: int) -> bool {
    let nodes = g.nodes;
    let n = nodes.len();
    &&& bfs_inv(g, r)
    &&& n <= usize::MAX
    &&& forall|i: int| 0 <= i < n ==> distinct(#[trigger] nodes[i].neighbors)
    &&& forall|u: int, k: int|
        0 <= u < n && nodes[u].state.visited && 0 <= k < nodes[u].neighbors.len() && child_edge(nodes, u, k) ==> edge_ok(
            nodes,
            u,
            #[trigger] nodes[u].neighbors[k] as int,
        )
    &&& forall|u: int, w: int| 0 <= u < n && 0 <= w < n && #[trigger] srch(nodes, u, w) > 0 ==> nodes[u].state.visited && child_nbr(nodes, u, w)
    &&& forall|u: int, w: int| 0 <= u < n && 0 <= w < n && #[trigger] ackp(nodes, u, w) > 0 ==> nodes[u].state.visited && child_nbr(nodes, u, w)
    &&& forall|i: int, k: int| 0 <= i < n && 0 <= k < nodes[i].inbox.len() && (#[trigger] nodes[i].inbox[k]).ack ==> nodes[i].inbox[k].sender is Some
    &&& forall|u: int| 0 <= u < n && (#[trigger] nodes[u]).state.visited ==> nodes[u].acks == n_acked(nodes, u, nodes[u].neighbors.len() as int)
    &&& forall|u: int| 0 <= u < n && !(#[trigger] nodes[u]).state.visited ==> nodes[u].acks == 0
}

/// The count of the first `j` neighbours is at most `j`, and less by one for
/// each neighbour not counted.
pub(crate) proof fn lemma_n_acked_bound(nodes: Seq<NodeModel<MessageSync>>, u: int, j: int, k1: int, k2: int)
    requires
        0 <= j,
    ensures
        n_acked(nodes, u, j) <= j,
        (0 <= k1 < j && !(child_edge(nodes, u, k1) && acked(nodes, u, nodes[u].neighbors[k1] as int))) ==> n_acked(
            nodes,
            u,
            j,
        ) + 1 <= j,
        (0 <= k1 < j && 0 <= k2 < j && k1 != k2 && !(child_edge(nodes, u, k1) && acked(
            nodes,
            u,
            nodes[u].neighbors[k1] as int,
        )) && !(child_edge(nodes, u, k2) && acked(nodes, u, nodes[u].neighbors[k2] as int))) ==> n_acked(nodes, u, j)
            + 2 <= j,
    decreases j,
{
    if j > 0 {
        lemma_n_acked_bound(nodes, u, j - 1, k1, k2);
        lemma_n_acked_bound(nodes, u, j - 1, k2, k1);
    }
}

/// A node that has heard back from all its neighbours, parent aside, has
/// counted each of them, and holds no acknowledgement.
proof fn lemma_done_counted(g: GraphModel<MessageSync>, r: int, u: int)
    requires
        echo_inv(g, r),
        0 <= u < g.nodes.len(),
        g.nodes[u].state.visited,
        g.nodes[u].all_acks(),
    ensures
        forall|k: int|
            0 <= k < g.nodes[u].neighbors.len() && child_edge(g.nodes, u, k) ==> #[trigger] acked(
                g.nodes,
                u,
                g.nodes[u].neighbors[k] as int,
            ),
        forall|w: int| 0 <= w < g.nodes.len() ==> #[trigger] ackp(g.nodes, u, w) == 0,
{
    let nodes = g.nodes;
    let nd = nodes[u];
    let len = nd.neighbors.len() as int;
    assert(good_state(nodes, u, r));
    assert(nd.acks <= n_acked(nodes, u, len));
    // The parent, where there is one, is a neighbour exactly once.
    assert forall|k: int| 0 <= k < len && child_edge(nodes, u, k) implies #[trigger] acked(nodes, u, nd.neighbors[k] as int) by {
        if !acked(nodes, u, nd.neighbors[k] as int) {
            match nd.state.parent {
                Some(p) => {
                    assert(nodes[p as int].neighbors.contains(u as NodeId));
                    assert(nodes[p as int].neighbors.contains(u as NodeId) <==> nodes[u].neighbors.contains((p as int) as NodeId));
                    let kp = choose|kp: int| 0 <= kp < len && nd.neighbors[kp] == p;
                    assert(kp != k);
                    lemma_n_acked_bound(nodes, u, len, k, kp);
                },
                None => {
                    lemma_n_acked_bound(nodes, u, len, k, k);
                },
            }
        }
    }
    assert forall|w: int| 0 <= w < nodes.len() implies #[trigger] ackp(nodes, u, w) == 0 by {
        if ackp(nodes, u, w) > 0 {
            assert(child_nbr(nodes, u, w));
            let k = choose|k: int| 0 <= k < len && nd.neighbors[k] == w as NodeId;
            assert(nd.neighbors[k] as int == w);
            assert(acked(nodes, u, nd.neighbors[k] as int));
        }
    }
}

/// Once the root has heard back from all its neighbours, every visited node has
/// heard back from all of its own.
proof fn lemma_visited_done(g: GraphModel<MessageSync>, r: int, u: int)
    requires
        echo_inv(g, r),
        g.nodes[0].all_acks(),
        0 <= u < g.nodes.len(),
        g.nodes[u].state.visited,
    ensures
        g.nodes[u].all_acks(),
    decreases lvl(g.nodes[u]),
{
    let nodes = g.nodes;
    assert(good_state(nodes, u, r));
    if u != 0 {
        let p = nodes[u].state.parent.unwrap() as int;
        assert(good_state(nodes, p, r));
        lemma_visited_done(g, r, p);
        lemma_done_counted(g, r, p);
        assert(nodes[p].neighbors.contains(u as NodeId));
        let k = choose|k: int| 0 <= k < nodes[p].neighbors.len() && nodes[p].neighbors[k] == u as NodeId;
        assert(nodes[p].neighbors[k] as int == u);
        if nodes[p].state.parent == Some(u as NodeId) {
            assert(lvl(nodes[u]) + 1 == lvl(nodes[p]));
        }
        assert(child_edge(nodes, p, k));
        assert(acked(nodes, p, nodes[p].neighbors[k] as int));
    }
}

/// Once the root has heard back from all its neighbours, every node that can
/// be reached from the root is visited.
pub proof fn lemma_echo_done(g: GraphModel<MessageSync>, r: int)
    requires
        echo_inv(g, r),
        g.nodes[0].all_acks(),
    ensures
        forall|i: int| 0 <= i < g.nodes.len() && #[trigger] reachable(g.nodes, i) ==> g.nodes[i].state.visited,
{
    assert forall|i: int| 0 <= i < g.nodes.len() && #[trigger] reachable(g.nodes, i) implies g.nodes[i].state.visited by {
        let path = choose|path: Seq<int>| #[trigger] walk_from_root(g.nodes, path) && path.last() == i;
        lemma_echo_walk(g, r, path, path.len() - 1);
    }
}

proof fn lemma_echo_walk(g: GraphModel<MessageSync>, r: int, path: Seq<int>, t: int)
    requires
        echo_inv(g, r),
        g.nodes[0].all_acks(),
        walk_from_root(g.nodes, path),
        0 <= t < path.len(),
    ensures
        g.nodes[path[t]].state.visited,
    decreases t,
{
    let nodes = g.nodes;
    if t > 0 {
        lemma_echo_walk(g, r, path, t - 1);
        let a = path[t - 1];
        let b = path[t];
        assert(nodes[a].neighbors.contains(b as NodeId));
        let kk = choose|kk: int| 0 <= kk < nodes[a].neighbors.len() && nodes[a].neighbors[kk] == b as NodeId;
        assert(nodes[a].neighbors[kk] as int == b);
        lemma_visited_done(g, r, a);
        lemma_done_counted(g, r, a);
        assert(good_state(nodes, a, r));
        if !child_edge(nodes, a, kk) {
            assert(nodes[a].state.parent == Some(b as NodeId));
        } else {
            assert(acked(nodes, a, nodes[a].neighbors[kk] as int));
        }
    }
}


/// What every node sends in a round comes from it.
proof fn lemma_outputs_senders(g: GraphModel<MessageSync>, d: Seq<usize>)
    requires
        g.wf(),
        g.round_ready(d),
    ensures
        forall|i: int, q: int|
            0 <= i < g.nodes.len() && 0 <= q < g.nodes[i].step(d).1.len() ==> (#[trigger] g.nodes[i].step(d).1[q]).sender
                == Some(i as NodeId),
{
    let n = g.nodes.len() as int;
    assert forall|i: int, q: int|
        0 <= i < n && 0 <= q < g.nodes[i].step(d).1.len() implies (#[trigger] g.nodes[i].step(d).1[q]).sender == Some(
            i as NodeId,
        ) by {
        assert(g.nodes[i].ready(d));
        lemma_step_wf(g.nodes[i], i, n, d);
    }
}

/// How a round changes the messages under way on the edge from `u` to `w`.
proof fn lemma_echo_counts(g: GraphModel<MessageSync>, r: int, d: Seq<usize>, u: int, w: int)
    requires
        echo_inv(g, r),
        g.round_ready(d),
        0 <= u < g.nodes.len(),
        0 <= w < g.nodes.len(),
    ensures
        srch(g.round(d).nodes, u, w) + (if handles(g.nodes[w], u as NodeId, false) { 1nat } else { 0nat }) == srch(
            g.nodes,
            u,
            w,
        ) + (if newly(g.nodes[u]) && !leaf(g.nodes[u]) && Some(w as NodeId) != top_msg(g.nodes[u]).sender
            && g.nodes[u].neighbors.contains(w as NodeId) {
            1nat
        } else {
            0nat
        }),
        ackp(g.round(d).nodes, u, w) + (if handles(g.nodes[u], w as NodeId, true) { 1nat } else { 0nat }) == ackp(
            g.nodes,
            u,
            w,
        ) + (if acks_to(g.nodes[w], u as NodeId) { 1nat } else { 0nat }),
{
    let n = g.nodes.len() as int;
    let nodes = g.nodes;
    lemma_round_facts(g, r, d);
    let st = stepped(nodes, d);
    let outs = round_outputs(nodes, d);
    lemma_outputs_senders(g, d);
    assert(node_wf(nodes[u], u, n) && node_wf(nodes[w], w, n));
    assert(nodes[u].ready(d) && nodes[w].ready(d));
    lemma_echo_node(nodes[u], u as NodeId, n, d);
    lemma_echo_node(nodes[w], w as NodeId, n, d);
    lemma_n_msgs_deliver(st, outs, w as NodeId, u as NodeId, false);
    lemma_n_msgs_deliver(st, outs, u as NodeId, w as NodeId, true);
    lemma_n_msgs_outputs(nodes, d, u as NodeId, w as NodeId, false);
    lemma_n_msgs_outputs(nodes, d, w as NodeId, u as NodeId, true);
    assert(n_msgs(nodes[u].step(d).1, u as NodeId, w as NodeId, false) == n_msgs(nodes[u].step(d).1, u as NodeId, w as NodeId, false));
    assert(n_msgs(nodes[w].step(d).1, w as NodeId, u as NodeId, true) == n_msgs(nodes[w].step(d).1, w as NodeId, u as NodeId, true));
    assert(n_msgs(st[w].inbox, u as NodeId, w as NodeId, false) == n_msgs(st[w].inbox, u as NodeId, w as NodeId, false));
    assert(n_msgs(st[u].inbox, w as NodeId, u as NodeId, true) == n_msgs(st[u].inbox, w as NodeId, u as NodeId, true));
}


/// What a round does to the state, the count of acknowledgements and the edges
/// of node `x`.
pub(crate) proof fn lemma_echo_after(g: GraphModel<MessageSync>, r: int, d: Seq<usize>, x: int)
    requires
        echo_inv(g, r),
        g.round_ready(d),
        0 <= x < g.nodes.len(),
    ensures
        ({
            let nd = g.nodes[x];
            let a = g.round(d).nodes[x];
            &&& a.neighbors == nd.neighbors
            &&& a.acks == nd.acks + if nd.inbox.len() > 0 && top_msg(nd).ack { 1int } else { 0int }
            &&& nd.state.visited ==> a.state == nd.state
            &&& newly(nd) ==> a.state.visited && a.state.parent == top_msg(nd).sender
            &&& !nd.state.visited && !newly(nd) ==> a.state == nd.state
            &&& nd.inbox.len() > 0 ==> top_msg(nd).receiver == x && (top_msg(nd).sender matches Some(s) ==> s < g.nodes.len())
            &&& forall|y: NodeId, b: bool| #[trigger] handles(nd, y, b) ==> n_msgs(nd.inbox, y, x as NodeId, b) >= 1
            &&& nd.inbox.len() > 0 && top_msg(nd).ack ==> {
                &&& top_msg(nd).sender is Some
                &&& nd.state.visited
                &&& child_nbr(g.nodes, x, top_msg(nd).sender.unwrap() as int)
            }
            &&& nd.inbox.len() > 0 && !top_msg(nd).ack ==> {
                &&& top_msg(nd).sender is Some
                &&& g.nodes[top_msg(nd).sender.unwrap() as int].state.visited
                &&& child_nbr(g.nodes, top_msg(nd).sender.unwrap() as int, x)
            }
        }),
{
    let n = g.nodes.len() as int;
    let nd = g.nodes[x];
    lemma_round_facts(g, r, d);
    let st = stepped(g.nodes, d);
    let outs = round_outputs(g.nodes, d);
    lemma_deliver_len(st, outs);
    assert(g.round(d).nodes[x].with_inbox(st[x].inbox) == st[x]);
    assert(node_wf(nd, x, n));
    assert(nd.ready(d));
    lemma_echo_node(nd, x as NodeId, n, d);
    assert forall|y: NodeId, b: bool| #[trigger] handles(nd, y, b) implies n_msgs(nd.inbox, y, x as NodeId, b) >= 1 by {
        assert(n_msgs(nd.step(d).0.inbox, y, x as NodeId, b) + 1 == n_msgs(nd.inbox, y, x as NodeId, b));
    }
    if nd.inbox.len() > 0 {
        lemma_top_index(nd.inbox);
        let t = top_index(nd.inbox);
        let m = nd.inbox[t];
        assert(msg_to(m, x, n));
        if m.ack {
            assert(m.sender is Some);
            let y = m.sender.unwrap();
            assert(handles(nd, y, true));
            assert(ackp(g.nodes, x, y as int) >= 1);
        } else {
            assert(crate::bfs::good_msg(g.nodes, m, x, r));
            let y = m.sender.unwrap();
            assert(handles(nd, y, false));
            assert(srch(g.nodes, y as int, x) >= 1);
        }
    }
}

/// A visited node that has heard back from all its neighbours keeps its state
/// through a round, and handles no acknowledgement.
proof fn lemma_done_steady(g: GraphModel<MessageSync>, r: int, d: Seq<usize>, w: int)
    requires
        echo_inv(g, r),
        g.round_ready(d),
        0 <= w < g.nodes.len(),
        g.nodes[w].state.visited,
        g.nodes[w].all_acks(),
    ensures
        !(g.nodes[w].inbox.len() > 0 && top_msg(g.nodes[w]).ack),
        g.round(d).nodes[w].all_acks(),
        g.round(d).nodes[w].state == g.nodes[w].state,
{
    let nd = g.nodes[w];
    lemma_echo_after(g, r, d, w);
    lemma_done_counted(g, r, w);
    if nd.inbox.len() > 0 && top_msg(nd).ack {
        let m = top_msg(nd);
        assert(nd.inbox[top_index(nd.inbox)].ack);
        lemma_top_index(nd.inbox);
        assert(m.sender is Some);
        let y = m.sender.unwrap();
        assert(handles(nd, y, true));
        assert(ackp(g.nodes, w, y as int) == 0);
    }
}


/// A round keeps every edge from a visited node in one of its four states; an
/// edge whose answer `u` had counted stays so, and an edge whose answer `u`
/// handles in the round becomes so.
pub(crate) proof fn lemma_echo_edge(g: GraphModel<MessageSync>, r: int, d: Seq<usize>, u: int, k: int)
    requires
        echo_inv(g, r),
        g.round_ready(d),
        0 <= u < g.nodes.len(),
        g.round(d).nodes[u].state.visited,
        0 <= k < g.nodes[u].neighbors.len(),
        child_edge(g.round(d).nodes, u, k),
    ensures
        edge_ok(g.round(d).nodes, u, g.nodes[u].neighbors[k] as int),
        g.nodes[u].state.visited && acked(g.nodes, u, g.nodes[u].neighbors[k] as int) ==> acked(
            g.round(d).nodes,
            u,
            g.nodes[u].neighbors[k] as int,
        ),
        g.nodes[u].state.visited && handles(g.nodes[u], g.nodes[u].neighbors[k], true) ==> !acked(
            g.nodes,
            u,
            g.nodes[u].neighbors[k] as int,
        ) && acked(g.round(d).nodes, u, g.nodes[u].neighbors[k] as int),
        g.nodes[u].state.visited && acked(g.round(d).nodes, u, g.nodes[u].neighbors[k] as int) ==> acked(
            g.nodes,
            u,
            g.nodes[u].neighbors[k] as int,
        ) || handles(g.nodes[u], g.nodes[u].neighbors[k], true),
        !g.nodes[u].state.visited ==> !acked(g.round(d).nodes, u, g.nodes[u].neighbors[k] as int),
        !g.nodes[u].state.visited ==> ew(g.round(d).nodes, u, g.nodes[u].neighbors[k] as int) == 2,
        g.nodes[u].state.visited ==> ew(g.round(d).nodes, u, g.nodes[u].neighbors[k] as int) <= ew(
            g.nodes,
            u,
            g.nodes[u].neighbors[k] as int,
        ),
        g.nodes[u].state.visited && (handles(g.nodes[g.nodes[u].neighbors[k] as int], u as NodeId, false) || handles(
            g.nodes[u],
            g.nodes[u].neighbors[k],
            true,
        )) ==> ew(g.round(d).nodes, u, g.nodes[u].neighbors[k] as int) < ew(
            g.nodes,
            u,
            g.nodes[u].neighbors[k] as int,
        ),
{
    let n = g.nodes.len() as int;
    let nodes = g.nodes;
    let after = g.round(d).nodes;
    let nu = nodes[u];
    let w = nu.neighbors[k] as int;
    assert(node_wf(nu, u, n));
    assert(0 <= w < n);
    assert(w as NodeId == nu.neighbors[k]);
    let nw = nodes[w];
    lemma_echo_after(g, r, d, u);
    lemma_echo_after(g, r, d, w);
    lemma_echo_counts(g, r, d, u, w);
    assert(good_state(nodes, u, r));
    assert(good_state(nodes, w, r));
    assert(after[u].neighbors[k] == nu.neighbors[k]);
    if nw.state.visited && nw.all_acks() {
        lemma_done_steady(g, r, d, w);
    }
    if !nu.state.visited {
        // `u` is visited by this round's message, from its parent.
        assert(newly(nu));
        let m = top_msg(nu);
        assert(srch(nodes, u, w) == 0);
        assert(ackp(nodes, u, w) == 0);
        assert(!handles(nw, u as NodeId, false));
        assert(!handles(nu, w as NodeId, true));
        let v = m.sender.unwrap();
        assert(handles(nu, v, false));
        assert(srch(nodes, v as int, u) >= 1);
        assert(child_nbr(nodes, v as int, u));
        assert(nodes[v as int].neighbors.contains(u as NodeId) <==> nodes[u].neighbors.contains((v as int) as NodeId));
        if leaf(nu) {
            let j = choose|j: int| 0 <= j < nu.neighbors.len() && nu.neighbors[j] == v;
            assert(j == 0 && k == 0);
        }
        assert(nu.neighbors.contains(w as NodeId));
        if nw.state.visited && nw.state.parent == Some(u as NodeId) {
            assert(nodes[u].state.visited);
        }
        assert(!acks_to(nw, u as NodeId));
        assert(srch(after, u, w) == 1);
        assert(ackp(after, u, w) == 0);
        assert(!active_child(after, u, w));
    } else {
        assert(child_edge(nodes, u, k));
        assert(edge_ok(nodes, u, w));
        assert(!newly(nu));
        if srch(nodes, u, w) == 0 {
            assert(!handles(nw, u as NodeId, false));
        }
        if ackp(nodes, u, w) == 0 {
            assert(!handles(nu, w as NodeId, true));
        }
        if active_child(nodes, u, w) {
            // `w` is busy with its own neighbours; it answers once it has heard back from them all.
            if acks_to(nw, u as NodeId) {
                assert(after[w].all_acks());
            } else if nw.inbox.len() > 0 && top_msg(nw).ack {
                assert(!after[w].all_acks());
            }
        } else if nw.state.visited {
            if nw.state.parent == Some(u as NodeId) {
                assert(nw.all_acks());
            }
            if handles(nw, u as NodeId, false) {
                assert(acks_to(nw, u as NodeId));
            }
        } else {
            // `w` not visited: the search from `u` is on its way.
            assert(srch(nodes, u, w) == 1);
            if handles(nw, u as NodeId, false) {
                assert(newly(nw));
                if !leaf(nw) {
                    assert(nw.neighbors.contains(u as NodeId)) by {
                        assert(child_nbr(nodes, u, w));
                        assert(nodes[u].neighbors.contains(w as NodeId) <==> nodes[w].neighbors.contains(u as NodeId));
                    }
                    assert(nw.neighbors.len() != 1);
                    assert(nw.neighbors.len() >= 1);
                    assert(!after[w].all_acks());
                } else {
                    assert(after[w].all_acks());
                }
            } else if newly(nw) {
                assert(top_msg(nw).sender != Some(u as NodeId));
            }
        }
    }
}


/// After a round, messages under way on an edge still run from a visited node
/// to a neighbour other than its parent, or back.
proof fn lemma_echo_strays(g: GraphModel<MessageSync>, r: int, d: Seq<usize>, u: int, w: int)
    requires
        echo_inv(g, r),
        g.round_ready(d),
        0 <= u < g.nodes.len(),
        0 <= w < g.nodes.len(),
    ensures
        srch(g.round(d).nodes, u, w) > 0 ==> g.round(d).nodes[u].state.visited && child_nbr(g.round(d).nodes, u, w),
        ackp(g.round(d).nodes, u, w) > 0 ==> g.round(d).nodes[u].state.visited && child_nbr(g.round(d).nodes, u, w),
{
    let nodes = g.nodes;
    let nw = nodes[w];
    lemma_echo_after(g, r, d, u);
    lemma_echo_after(g, r, d, w);
    lemma_echo_counts(g, r, d, u, w);
    assert(good_state(nodes, u, r));
    assert(good_state(nodes, w, r));
    if acks_to(nw, u as NodeId) && nw.inbox.len() > 0 && top_msg(nw).ack {
        assert(nw.state.parent == Some(u as NodeId));
        assert(u != w);
        if nodes[u].state.parent == Some(w as NodeId) {
            assert(lvl(nodes[w]) + 1 == lvl(nodes[u]));
        }
    }
}

/// A round that keeps every counted answer counted keeps the count, and adds
/// one for an answer counted anew.
proof fn lemma_n_acked_mono(
    a: Seq<NodeModel<MessageSync>>,
    b: Seq<NodeModel<MessageSync>>,
    u: int,
    j: int,
    k0: int,
)
    requires
        0 <= u < a.len(),
        0 <= u < b.len(),
        a[u].neighbors == b[u].neighbors,
        0 <= j <= a[u].neighbors.len(),
        forall|k: int|
            0 <= k < j && #[trigger] child_edge(a, u, k) && acked(a, u, a[u].neighbors[k] as int) ==> child_edge(b, u, k)
                && acked(b, u, b[u].neighbors[k] as int),
    ensures
        n_acked(b, u, j) >= n_acked(a, u, j) + if 0 <= k0 < j && !(child_edge(a, u, k0) && acked(
            a,
            u,
            a[u].neighbors[k0] as int,
        )) && child_edge(b, u, k0) && acked(b, u, b[u].neighbors[k0] as int) {
            1int
        } else {
            0int
        },
    decreases j,
{
    if j > 0 {
        lemma_n_acked_mono(a, b, u, j - 1, k0);
        if child_edge(a, u, j - 1) && acked(a, u, a[u].neighbors[j - 1] as int) {
            assert(child_edge(b, u, j - 1) && acked(b, u, b[u].neighbors[j - 1] as int));
        }
    }
}

/// After a round, every edge from a visited node is in one of its four
/// states, and messages under way run along edges.
proof fn lemma_echo_round_edges(g: GraphModel<MessageSync>, r: int, d: Seq<usize>)
    requires
        echo_inv(g, r),
        g.round_ready(d),
    ensures
        ({
            let after = g.round(d).nodes;
            let n = g.nodes.len() as int;
            &&& forall|u: int, k: int|
                0 <= u < n && after[u].state.visited && 0 <= k < after[u].neighbors.len() && child_edge(after, u, k)
                    ==> edge_ok(after, u, #[trigger] after[u].neighbors[k] as int)
            &&& forall|u: int, w: int| 0 <= u < n && 0 <= w < n && #[trigger] srch(after, u, w) > 0 ==> after[u].state.visited && child_nbr(after, u, w)
            &&& forall|u: int, w: int| 0 <= u < n && 0 <= w < n && #[trigger] ackp(after, u, w) > 0 ==> after[u].state.visited && child_nbr(after, u, w)
        }),
{
    let n = g.nodes.len() as int;
    let after = g.round(d).nodes;
    lemma_round_facts(g, r, d);
    assert forall|u: int, k: int|
        0 <= u < n && after[u].state.visited && 0 <= k < after[u].neighbors.len() && child_edge(after, u, k) implies edge_ok(
        after,
        u,
        #[trigger] after[u].neighbors[k] as int,
    ) by {
        lemma_echo_edge(g, r, d, u, k);
    }
    assert forall|u: int, w: int| 0 <= u < n && 0 <= w < n && #[trigger] srch(after, u, w) > 0 implies after[u].state.visited
        && child_nbr(after, u, w) by {
        lemma_echo_strays(g, r, d, u, w);
    }
    assert forall|u: int, w: int| 0 <= u < n && 0 <= w < n && #[trigger] ackp(after, u, w) > 0 implies after[u].state.visited
        && child_nbr(after, u, w) by {
        lemma_echo_strays(g, r, d, u, w);
    }
}

/// After a round, every acknowledgement waiting somewhere has a sender.
proof fn lemma_echo_round_senders(g: GraphModel<MessageSync>, r: int, d: Seq<usize>)
    requires
        echo_inv(g, r),
        g.round_ready(d),
    ensures
        forall|i: int, k: int|
            0 <= i < g.nodes.len() && 0 <= k < g.round(d).nodes[i].inbox.len() && (#[trigger] g.round(d).nodes[i].inbox[k]).ack
                ==> g.round(d).nodes[i].inbox[k].sender is Some,
{
    let n = g.nodes.len() as int;
    let nodes = g.nodes;
    let after = g.round(d).nodes;
    lemma_round_facts(g, r, d);
    let st = stepped(nodes, d);
    let outs = round_outputs(nodes, d);
    lemma_outputs_senders(g, d);
    assert forall|i: int, k: int| 0 <= i < n && 0 <= k < after[i].inbox.len() && (#[trigger] after[i].inbox[k]).ack implies after[i].inbox[k].sender is Some by {
        let x = after[i].inbox[k];
        lemma_deliver_from(st, outs, i, k);
        if exists|kk: int| 0 <= kk < st[i].inbox.len() && x == #[trigger] st[i].inbox[kk] {
            let kk = choose|kk: int| 0 <= kk < st[i].inbox.len() && x == #[trigger] st[i].inbox[kk];
            assert(nodes[i].ready(d));
            lemma_bfs_step(g, r, i, d);
            let k0 = choose|k0: int| 0 <= k0 < nodes[i].inbox.len() && #[trigger] st[i].inbox[kk] == nodes[i].inbox[k0];
            assert(nodes[i].inbox[k0].ack);
        } else {
            let q = choose|q: int| 0 <= q < outs.len() && (#[trigger] outs[q]) == x && outs[q].receiver_of() == i;
            lemma_outputs_from(nodes, d, q);
            let (s, kk) = choose|s: int, kk: int|
                0 <= s < n && 0 <= kk < nodes[s].step(d).1.len() && outs[q] == #[trigger] nodes[s].step(d).1[kk];
        }
    }
}

/// A round keeps every counted answer counted.
proof fn lemma_acked_kept(g: GraphModel<MessageSync>, r: int, d: Seq<usize>, u: int)
    requires
        echo_inv(g, r),
        g.round_ready(d),
        0 <= u < g.nodes.len(),
        g.nodes[u].state.visited,
    ensures
        forall|k: int|
            0 <= k < g.nodes[u].neighbors.len() && #[trigger] child_edge(g.nodes, u, k) && acked(
                g.nodes,
                u,
                g.nodes[u].neighbors[k] as int,
            ) ==> child_edge(g.round(d).nodes, u, k) && acked(
                g.round(d).nodes,
                u,
                g.round(d).nodes[u].neighbors[k] as int,
            ),
{
    lemma_echo_after(g, r, d, u);
    assert forall|k: int|
        0 <= k < g.nodes[u].neighbors.len() && #[trigger] child_edge(g.nodes, u, k) && acked(
            g.nodes,
            u,
            g.nodes[u].neighbors[k] as int,
        ) implies child_edge(g.round(d).nodes, u, k) && acked(
        g.round(d).nodes,
        u,
        g.round(d).nodes[u].neighbors[k] as int,
    ) by {
        lemma_echo_edge(g, r, d, u, k);
    }
}

/// A round counts anew only the answer that the node handles, at `k0`.
proof fn lemma_acked_new(g: GraphModel<MessageSync>, r: int, d: Seq<usize>, u: int, k0: int)
    requires
        echo_inv(g, r),
        g.round_ready(d),
        0 <= u < g.nodes.len(),
        g.nodes[u].state.visited,
        g.nodes[u].inbox.len() > 0 && top_msg(g.nodes[u]).ack ==> 0 <= k0 < g.nodes[u].neighbors.len() && Some(
            g.nodes[u].neighbors[k0],
        ) == top_msg(g.nodes[u]).sender,
    ensures
        forall|k: int|
            0 <= k < g.nodes[u].neighbors.len() && #[trigger] child_edge(g.round(d).nodes, u, k) && acked(
                g.round(d).nodes,
                u,
                g.round(d).nodes[u].neighbors[k] as int,
            ) ==> k == k0 || (child_edge(g.nodes, u, k) && acked(g.nodes, u, g.nodes[u].neighbors[k] as int)),
{
    lemma_echo_after(g, r, d, u);
    assert(distinct(g.nodes[u].neighbors));
    assert forall|k: int|
        0 <= k < g.nodes[u].neighbors.len() && #[trigger] child_edge(g.round(d).nodes, u, k) && acked(
            g.round(d).nodes,
            u,
            g.round(d).nodes[u].neighbors[k] as int,
        ) implies k == k0 || (child_edge(g.nodes, u, k) && acked(g.nodes, u, g.nodes[u].neighbors[k] as int)) by {
        lemma_echo_edge(g, r, d, u, k);
    }
}

/// A node visited by the round has counted no answer yet.
proof fn lemma_acked_none(g: GraphModel<MessageSync>, r: int, d: Seq<usize>, u: int)
    requires
        echo_inv(g, r),
        g.round_ready(d),
        0 <= u < g.nodes.len(),
        !g.nodes[u].state.visited,
        g.round(d).nodes[u].state.visited,
    ensures
        forall|k: int|
            0 <= k < g.nodes[u].neighbors.len() ==> !(#[trigger] child_edge(g.round(d).nodes, u, k) && acked(
                g.round(d).nodes,
                u,
                g.round(d).nodes[u].neighbors[k] as int,
            )),
{
    lemma_echo_after(g, r, d, u);
    assert forall|k: int|
        0 <= k < g.nodes[u].neighbors.len() implies !(#[trigger] child_edge(g.round(d).nodes, u, k) && acked(
            g.round(d).nodes,
            u,
            g.round(d).nodes[u].neighbors[k] as int,
        )) by {
        if child_edge(g.round(d).nodes, u, k) {
            lemma_echo_edge(g, r, d, u, k);
        }
    }
}

/// No counted answer among the first `j` neighbours: the count is 0.
proof fn lemma_n_acked_zero(nodes: Seq<NodeModel<MessageSync>>, u: int, j: int)
    requires
        0 <= j <= nodes[u].neighbors.len(),
        forall|k: int|
            0 <= k < j ==> !(#[trigger] child_edge(nodes, u, k) && acked(nodes, u, nodes[u].neighbors[k] as int)),
    ensures
        n_acked(nodes, u, j) == 0,
    decreases j,
{
    if j > 0 {
        lemma_n_acked_zero(nodes, u, j - 1);
    }
}

/// After a round, a visited node's count of answers is the number it has
/// counted, and 0 while it is not visited.
proof fn lemma_echo_round_acks(g: GraphModel<MessageSync>, r: int, d: Seq<usize>, u: int)
    requires
        echo_inv(g, r),
        g.round_ready(d),
        0 <= u < g.nodes.len(),
    ensures
        g.round(d).nodes[u].state.visited ==> g.round(d).nodes[u].acks == n_acked(
            g.round(d).nodes,
            u,
            g.round(d).nodes[u].neighbors.len() as int,
        ),
        !g.round(d).nodes[u].state.visited ==> g.round(d).nodes[u].acks == 0,
{
    let nodes = g.nodes;
    let after = g.round(d).nodes;
    let nu = nodes[u];
    let len = nu.neighbors.len() as int;
    lemma_round_facts(g, r, d);
    lemma_echo_after(g, r, d, u);
    if nu.state.visited {
        assert(nodes[u].acks == n_acked(nodes, u, len));
        lemma_acked_kept(g, r, d, u);
        if nu.inbox.len() > 0 && top_msg(nu).ack {
            let y = top_msg(nu).sender.unwrap();
            assert(child_nbr(nodes, u, y as int));
            let k0 = choose|k0: int| 0 <= k0 < len && nu.neighbors[k0] == (y as int) as NodeId;
            assert(child_edge(nodes, u, k0));
            lemma_echo_edge(g, r, d, u, k0);
            lemma_n_acked_mono(nodes, after, u, len, k0);
            lemma_acked_new(g, r, d, u, k0);
            lemma_n_acked_upper(nodes, after, u, len, k0);
        } else {
            lemma_n_acked_mono(nodes, after, u, len, -1);
            lemma_acked_new(g, r, d, u, -1);
            lemma_n_acked_upper(nodes, after, u, len, -1);
        }
    } else if after[u].state.visited {
        lemma_acked_none(g, r, d, u);
        lemma_n_acked_zero(after, u, len);
    }
}

/// A round that counts no answer anew, but possibly the one at `k0`, adds at
/// most that one to the count.
proof fn lemma_n_acked_upper(
    a: Seq<NodeModel<MessageSync>>,
    b: Seq<NodeModel<MessageSync>>,
    u: int,
    j: int,
    k0: int,
)
    requires
        0 <= u < a.len(),
        0 <= u < b.len(),
        a[u].neighbors == b[u].neighbors,
        0 <= j <= a[u].neighbors.len(),
        forall|k: int|
            0 <= k < j && #[trigger] child_edge(b, u, k) && acked(b, u, b[u].neighbors[k] as int) ==> k == k0 || (
            child_edge(a, u, k) && acked(a, u, a[u].neighbors[k] as int)),
    ensures
        n_acked(b, u, j) <= n_acked(a, u, j) + if 0 <= k0 < j { 1int } else { 0int },
    decreases j,
{
    if j > 0 {
        lemma_n_acked_upper(a, b, u, j - 1, k0);
    }
}

/// A round keeps the state of a flooding with acknowledgements.
pub proof fn lemma_echo_round(g: GraphModel<MessageSync>, r: int, d: Seq<usize>)
    requires
        echo_inv(g, r),
        g.round_ready(d),
    ensures
        echo_inv(g.round(d), r + 1),
{
    let n = g.nodes.len() as int;
    let nodes = g.nodes;
    let after = g.round(d).nodes;
    lemma_bfs_round(g, r, d);
    lemma_round_facts(g, r, d);
    assert forall|i: int| 0 <= i < n implies distinct(#[trigger] after[i].neighbors) by {
        assert(distinct(nodes[i].neighbors));
    }
    lemma_echo_round_edges(g, r, d);
    lemma_echo_round_senders(g, r, d);
    assert forall|u: int| 0 <= u < n && (#[trigger] after[u]).state.visited implies after[u].acks == n_acked(after, u, after[u].neighbors.len() as int) by {
        lemma_echo_round_acks(g, r, d, u);
    }
    assert forall|u: int| 0 <= u < n && !(#[trigger] after[u]).state.visited implies after[u].acks == 0 by {
        lemma_echo_round_acks(g, r, d, u);
    }
}


/// The first round of a flooding with acknowledgements from node 0 of a fresh
/// graph.
pub(crate) proof fn lemma_echo_first_round(g: GraphModel<MessageSync>, ty: MessageType, d: Seq<usize>)
    requires
        g.symmetric(),
        0 < g.nodes.len() <= usize::MAX,
        forall|i: int| 0 <= i < g.nodes.len() ==> #[trigger] fresh(g.nodes[i], i, g.nodes.len() as int),
        forall|i: int| 0 <= i < g.nodes.len() ==> distinct(#[trigger] g.nodes[i].neighbors),
        initialized(g, ty).round_ready(d),
    ensures
        echo_inv(initialized(g, ty).round(d), 1),
{
    let n = g.nodes.len() as int;
    let gi = initialized(g, ty);
    let nodes = gi.nodes;
    let m0 = MessageSync::spec_new(0, None, 0, 0, ty);
    lemma_bfs_first_round(g, ty, d);
    assert(fresh(g.nodes[0], 0, n));
    assert(nodes[0].inbox =~= seq![m0]);
    assert forall|i: int| 0 <= i < n implies node_wf(#[trigger] nodes[i], i, n) by {
        assert(fresh(g.nodes[i], i, n));
        if i == 0 {
            assert forall|k: int| 0 <= k < nodes[0].inbox.len() implies msg_to(#[trigger] nodes[0].inbox[k], 0, n) by {
                assert(nodes[0].inbox[k] == m0);
            }
        }
    }
    let st = stepped(nodes, d);
    let outs = round_outputs(nodes, d);
    let after = gi.round(d).nodes;
    assert forall|k: int| 0 <= k < n implies node_wf(#[trigger] st[k], k, n) by {
        assert(nodes[k].ready(d));
        lemma_step_wf(nodes[k], k, n, d);
    }
    crate::graph::lemma_round_outputs_bounded(nodes, d, n);
    assert forall|q: int| 0 <= q < outs.len() implies (#[trigger] outs[q]).receiver_of() < n by {
        assert(crate::graph::msg_ok(outs[q], n));
    }
    lemma_deliver_len(st, outs);
    lemma_outputs_senders(gi, d);
    lemma_top_index(nodes[0].inbox);
    assert(top_index(nodes[0].inbox) == 0);
    assert(top_msg(nodes[0]) == m0);
    // Each node as the round leaves it: only node 0 changed, and nobody holds an old message.
    assert forall|i: int| 0 <= i < n implies {
        &&& (#[trigger] after[i]).acks == 0
        &&& after[i].neighbors == g.nodes[i].neighbors
        &&& st[i].inbox.len() == 0
        &&& (i != 0 ==> after[i].state == g.nodes[i].state && nodes[i].step(d).1.len() == 0)
    } by {
        assert(after[i].with_inbox(st[i].inbox) == st[i]);
        assert(fresh(g.nodes[i], i, n));
        if i != 0 {
            assert(nodes[i] == g.nodes[i]);
        }
    }
    assert(nodes[0].ready(d));
    lemma_echo_node(nodes[0], 0, n, d);
    let first = m0.spec_to_next_level(nodes[0].last_sent);
    assert(nodes[0].step(d).1 == forward_chain(first, nodes[0].neighbors, usize::MAX, d, 0));
    assert forall|u: int, w: int|
        #![trigger srch(after, u, w)]
        #![trigger ackp(after, u, w)]
        0 <= u < n && 0 <= w < n implies srch(after, u, w) == (if u == 0 && nodes[0].neighbors.contains(
        w as NodeId,
    ) {
        1nat
    } else {
        0nat
    }) && ackp(after, u, w) == 0 by {
        lemma_n_msgs_deliver(st, outs, w as NodeId, u as NodeId, false);
        lemma_n_msgs_deliver(st, outs, u as NodeId, w as NodeId, true);
        lemma_n_msgs_outputs(nodes, d, u as NodeId, w as NodeId, false);
        lemma_n_msgs_outputs(nodes, d, w as NodeId, u as NodeId, true);
        assert(st[w].inbox =~= Seq::<MessageSync>::empty());
        assert(st[u].inbox =~= Seq::<MessageSync>::empty());
        assert(n_msgs(Seq::<MessageSync>::empty(), u as NodeId, w as NodeId, false) == 0);
        assert(n_msgs(Seq::<MessageSync>::empty(), w as NodeId, u as NodeId, true) == 0);
        if u != 0 {
            assert(nodes[u].step(d).1 =~= Seq::<MessageSync>::empty());
        }
        if w != 0 {
            assert(nodes[w].step(d).1 =~= Seq::<MessageSync>::empty());
        }
        assert(n_msgs(nodes[0].step(d).1, 0, u as NodeId, true) == 0);
    }
    assert forall|i: int, k: int| 0 <= i < n && 0 <= k < after[i].inbox.len() implies !(#[trigger] after[i].inbox[k]).ack by {
        let x = after[i].inbox[k];
        lemma_deliver_from(st, outs, i, k);
        let q = choose|q: int| 0 <= q < outs.len() && (#[trigger] outs[q]) == x && outs[q].receiver_of() == i;
        lemma_outputs_from(nodes, d, q);
        let (s, kk) = choose|s: int, kk: int|
            0 <= s < n && 0 <= kk < nodes[s].step(d).1.len() && outs[q] == #[trigger] nodes[s].step(d).1[kk];
        assert(s == 0);
        lemma_chain_from(first, nodes[0].neighbors, usize::MAX, d, 0, kk);
    }
    assert forall|u: int, k: int|
        0 <= u < n && after[u].state.visited && 0 <= k < after[u].neighbors.len() && child_edge(after, u, k) implies edge_ok(
        after,
        u,
        #[trigger] after[u].neighbors[k] as int,
    ) by {
        assert(fresh(g.nodes[u], u, n));
        assert(u == 0);
        let w = after[0].neighbors[k] as int;
        assert(after[0].neighbors[k] < n && after[0].neighbors[k] != 0);
        assert(fresh(g.nodes[w], w, n));
        assert(nodes[0].neighbors[k] == w as NodeId);
        assert(srch(after, 0, w) == 1);
        assert(ackp(after, 0, w) == 0);
    }
    assert forall|u: int, w: int| 0 <= u < n && 0 <= w < n && #[trigger] srch(after, u, w) > 0 implies after[u].state.visited
        && child_nbr(after, u, w) by {
        assert(srch(after, u, w) == (if u == 0 && nodes[0].neighbors.contains(w as NodeId) { 1nat } else { 0nat }));
    }
    assert forall|u: int, w: int| 0 <= u < n && 0 <= w < n && #[trigger] ackp(after, u, w) > 0 implies after[u].state.visited
        && child_nbr(after, u, w) by {
        assert(ackp(after, u, w) == 0);
    }
    assert forall|i: int| 0 <= i < n implies distinct(#[trigger] after[i].neighbors) by {
        assert(distinct(g.nodes[i].neighbors));
    }
    assert forall|u: int| 0 <= u < n && (#[trigger] after[u]).state.visited implies after[u].acks == n_acked(after, u, after[u].neighbors.len() as int) by {
        assert(fresh(g.nodes[u], u, n));
        assert(u == 0);
        assert forall|k: int|
            0 <= k < after[0].neighbors.len() implies !(#[trigger] child_edge(after, 0, k) && acked(after, 0, after[0].neighbors[k] as int)) by {
            let w = after[0].neighbors[k] as int;
            assert(after[0].neighbors[k] < n);
            assert(nodes[0].neighbors[k] == w as NodeId);
            assert(srch(after, 0, w) == 1);
        }
        lemma_n_acked_zero(after, 0, after[0].neighbors.len() as int);
    }
    assert forall|u: int| 0 <= u < n && !(#[trigger] after[u]).state.visited implies after[u].acks == 0 by {
    }
}


/// The rest of a flooding with acknowledgements keeps its state, for some round
/// count, and the edges.
proof fn lemma_echo_run(
    g0: Seq<NodeModel<MessageSync>>,
    g: GraphModel<MessageSync>,
    r: int,
    d: Seq<usize>,
    t: nat,
) -> (r2: int)
    requires
        echo_inv(g, r),
        same_edges(g0, g.nodes),
    ensures
        sync_run(g, d, StopRule::RootAcknowledged, t) matches Some((gf, _)) ==> echo_inv(gf, r2) && same_edges(g0, gf.nodes),
    decreases MAX_ROUNDS + 1 - t,
{
    if finished(g, StopRule::RootAcknowledged) {
        r
    } else if !g.round_ready(d) {
        r
    } else {
        lemma_echo_round(g, r, d);
        lemma_bfs_round(g, r, d);
        if t + 1 > MAX_ROUNDS {
            r + 1
        } else {
            lemma_echo_run(g0, g.round(d), r + 1, d, t + 1)
        }
    }
}

/// A walk keeps being a walk in a graph with the same edges.
proof fn lemma_walk_same_edges(a: Seq<NodeModel<MessageSync>>, b: Seq<NodeModel<MessageSync>>, path: Seq<int>)
    requires
        same_edges(a, b),
        walk_from_root(a, path),
    ensures
        walk_from_root(b, path),
{
    assert forall|t: int|
        #![trigger path[t]]
        0 <= t < path.len() - 1 implies b[path[t]].neighbors.contains(path[t + 1] as NodeId) by {
        assert(0 <= path[t] < a.len());
        assert(a[path[t]].neighbors == b[path[t]].neighbors);
    }
}

/// Root end detection is sound: in a round-based flooding with
/// acknowledgements from node 0 of a fresh graph whose edges go both ways, with
/// no edge listed twice and at least one edge at the root, once the root has
/// heard back from all its neighbours every node that can be reached from the
/// root has been visited.
pub proof fn lemma_root_end_detection_sound(g: GraphModel<MessageSync>, ty: MessageType)
    requires
        g.symmetric(),
        0 < g.nodes.len() <= usize::MAX,
        forall|i: int| 0 <= i < g.nodes.len() ==> #[trigger] fresh(g.nodes[i], i, g.nodes.len() as int),
        forall|i: int| 0 <= i < g.nodes.len() ==> distinct(#[trigger] g.nodes[i].neighbors),
        g.nodes[0].neighbors.len() > 0,
    ensures
        sync_run(initialized(g, ty), round_delays(g.nodes), StopRule::RootAcknowledged, 0) matches Some((gf, _))
            ==> (gf.nodes[0].all_acks() ==> forall|i: int|
            0 <= i < g.nodes.len() && #[trigger] reachable(g.nodes, i) ==> gf.nodes[i].state.visited),
{
    let n = g.nodes.len() as int;
    let gi = initialized(g, ty);
    let d = round_delays(g.nodes);
    assert(fresh(g.nodes[0], 0, n));
    assert(!finished(gi, StopRule::RootAcknowledged));
    if gi.round_ready(d) {
        lemma_echo_first_round(g, ty, d);
        lemma_bfs_first_round(g, ty, d);
        let g1 = gi.round(d);
        let r2 = lemma_echo_run(g.nodes, g1, 1, d, 1);
        assert(sync_run(gi, d, StopRule::RootAcknowledged, 0) == sync_run(g1, d, StopRule::RootAcknowledged, 1));
        if let Some((gf, _)) = sync_run(gi, d, StopRule::RootAcknowledged, 0) {
            if gf.nodes[0].all_acks() {
                lemma_echo_done(gf, r2);
                assert forall|i: int| 0 <= i < n && #[trigger] reachable(g.nodes, i) implies gf.nodes[i].state.visited by {
                    let path = choose|path: Seq<int>| #[trigger] walk_from_root(g.nodes, path) && path.last() == i;
                    lemma_walk_same_edges(g.nodes, gf.nodes, path);
                    assert(reachable(gf.nodes, i));
                }
            }
        }
    }
}

} // verus!
