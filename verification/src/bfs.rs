use vstd::prelude::*;

use crate::graph::{
    bfs_entry, deliver, fresh, is_bfs_tree_spec, lemma_deliver_wf, lemma_round_outputs_bounded, lemma_step_wf, msg_ok, msg_to,
    node_wf, round_outputs, stepped, GraphModel,
};
use crate::sims::{finished, initialized, round_delays, sync_run, StopRule, MAX_ROUNDS};
use crate::message::{Message, MessageSync, MessageType, NodeId};
use crate::node::{forward_chain, lemma_top_index, top_index, NodeModel, NodeState};

verus! {

/// Every message of a round comes from the step of some node.
pub proof fn lemma_outputs_from<T: Message>(nodes: Seq<NodeModel<T>>, d: Seq<T::Time>, k: int)
    requires
        0 <= k < round_outputs(nodes, d).len(),
    ensures
        exists|i: int, kk: int|
            0 <= i < nodes.len() && 0 <= kk < nodes[i].step(d).1.len() && round_outputs(nodes, d)[k]
                == #[trigger] nodes[i].step(d).1[kk],
    decreases nodes.len(),
{
    let init = nodes.drop_last();
    let a = round_outputs(init, d);
    let b = nodes.last().step(d).1;
    if k < a.len() {
        lemma_outputs_from(init, d, k);
        let (i, kk) = choose|i: int, kk: int|
            0 <= i < init.len() && 0 <= kk < init[i].step(d).1.len() && a[k] == #[trigger] init[i].step(d).1[kk];
        assert(init[i] == nodes[i]);
        assert(round_outputs(nodes, d)[k] == a[k]);
    } else {
        assert(round_outputs(nodes, d)[k] == b[k - a.len()]);
        assert(nodes.last() == nodes[nodes.len() - 1]);
    }
}

/// Every message sent in a step is among the messages of the round.
pub proof fn lemma_outputs_has<T: Message>(nodes: Seq<NodeModel<T>>, d: Seq<T::Time>, i: int, kk: int)
    requires
        0 <= i < nodes.len(),
        0 <= kk < nodes[i].step(d).1.len(),
    ensures
        exists|k: int| 0 <= k < round_outputs(nodes, d).len() && #[trigger] round_outputs(nodes, d)[k] == nodes[i].step(d).1[kk],
    decreases nodes.len(),
{
    let init = nodes.drop_last();
    let a = round_outputs(init, d);
    if i < nodes.len() - 1 {
        assert(init[i] == nodes[i]);
        lemma_outputs_has(init, d, i, kk);
        let k = choose|k: int| 0 <= k < a.len() && #[trigger] a[k] == init[i].step(d).1[kk];
        assert(round_outputs(nodes, d)[k] == a[k]);
    } else {
        assert(nodes.last() == nodes[i]);
        assert(round_outputs(nodes, d)[a.len() + kk] == nodes[i].step(d).1[kk]);
    }
}

/// After delivery, every message in an inbox was there before or was delivered
/// to that node.
pub proof fn lemma_deliver_from<T: Message>(nodes: Seq<NodeModel<T>>, msgs: Seq<T>, i: int, k: int)
    requires
        forall|q: int| 0 <= q < msgs.len() ==> (#[trigger] msgs[q]).receiver_of() < nodes.len(),
        0 <= i < nodes.len(),
        0 <= k < deliver(nodes, msgs)[i].inbox.len(),
    ensures
        deliver(nodes, msgs).len() == nodes.len(),
        (exists|kk: int| 0 <= kk < nodes[i].inbox.len() && deliver(nodes, msgs)[i].inbox[k] == #[trigger] nodes[i].inbox[kk])
            || (exists|q: int| 0 <= q < msgs.len() && (#[trigger] msgs[q]) == deliver(nodes, msgs)[i].inbox[k] && msgs[q].receiver_of() == i),
    decreases msgs.len(),
{
    lemma_deliver_len(nodes, msgs);
    if msgs.len() == 0 {
        assert(deliver(nodes, msgs)[i].inbox[k] == nodes[i].inbox[k]);
    } else {
        let m = msgs.last();
        assert(msgs[msgs.len() - 1].receiver_of() < nodes.len());
        let r = m.receiver_of() as int;
        let nodes2 = nodes.update(r, nodes[r].receive(m));
        let rest = msgs.drop_last();
        assert forall|q: int| 0 <= q < rest.len() implies (#[trigger] rest[q]).receiver_of() < nodes2.len() by {
            assert(rest[q] == msgs[q]);
        }
        lemma_deliver_from(nodes2, rest, i, k);
        let x = deliver(nodes, msgs)[i].inbox[k];
        assert(deliver(nodes, msgs) == deliver(nodes2, rest));
        if exists|q: int| 0 <= q < rest.len() && (#[trigger] rest[q]) == x && rest[q].receiver_of() == i {
            let q = choose|q: int| 0 <= q < rest.len() && (#[trigger] rest[q]) == x && rest[q].receiver_of() == i;
            assert(msgs[q] == rest[q]);
        } else {
            let kk = choose|kk: int| 0 <= kk < nodes2[i].inbox.len() && x == #[trigger] nodes2[i].inbox[kk];
            if i == r && kk == nodes[i].inbox.len() {
                assert(msgs[msgs.len() - 1] == x);
            } else {
                assert(nodes2[i].inbox[kk] == nodes[i].inbox[kk]);
            }
        }
    }
}

pub proof fn lemma_deliver_len<T: Message>(nodes: Seq<NodeModel<T>>, msgs: Seq<T>)
    requires
        forall|q: int| 0 <= q < msgs.len() ==> (#[trigger] msgs[q]).receiver_of() < nodes.len(),
    ensures
        deliver(nodes, msgs).len() == nodes.len(),
        forall|i: int| 0 <= i < nodes.len() ==> (#[trigger] deliver(nodes, msgs)[i]).with_inbox(nodes[i].inbox) == nodes[i],
    decreases msgs.len(),
{
    if msgs.len() > 0 {
        let m = msgs.last();
        let r = m.receiver_of() as int;
        let nodes2 = nodes.update(r, nodes[r].receive(m));
        let rest = msgs.drop_last();
        assert forall|q: int| 0 <= q < rest.len() implies (#[trigger] rest[q]).receiver_of() < nodes2.len() by {
            assert(rest[q] == msgs[q]);
        }
        lemma_deliver_len(nodes2, rest);
        assert forall|i: int| 0 <= i < nodes.len() implies (#[trigger] deliver(nodes, msgs)[i]).with_inbox(nodes[i].inbox) == nodes[i] by {
            assert(deliver(nodes, msgs)[i].with_inbox(nodes2[i].inbox) == nodes2[i]);
        }
    }
}

/// Every delivered message ends up in its receiver's inbox.
pub proof fn lemma_deliver_has<T: Message>(nodes: Seq<NodeModel<T>>, msgs: Seq<T>, q: int)
    requires
        forall|p: int| 0 <= p < msgs.len() ==> (#[trigger] msgs[p]).receiver_of() < nodes.len(),
        0 <= q < msgs.len(),
    ensures
        exists|kk: int|
            0 <= kk < deliver(nodes, msgs)[msgs[q].receiver_of() as int].inbox.len()
                && #[trigger] deliver(nodes, msgs)[msgs[q].receiver_of() as int].inbox[kk] == msgs[q],
    decreases msgs.len(),
{
    let m = msgs.last();
    let r = m.receiver_of() as int;
    let nodes2 = nodes.update(r, nodes[r].receive(m));
    let rest = msgs.drop_last();
    assert forall|p: int| 0 <= p < rest.len() implies (#[trigger] rest[p]).receiver_of() < nodes2.len() by {
        assert(rest[p] == msgs[p]);
    }
    if q < msgs.len() - 1 {
        assert(rest[q] == msgs[q]);
        lemma_deliver_has(nodes2, rest, q);
    } else {
        lemma_deliver_keeps(nodes2, rest, r, nodes[r].inbox.len() as int);
    }
}

/// Delivery only appends to inboxes.
pub proof fn lemma_deliver_keeps<T: Message>(nodes: Seq<NodeModel<T>>, msgs: Seq<T>, i: int, k: int)
    requires
        forall|p: int| 0 <= p < msgs.len() ==> (#[trigger] msgs[p]).receiver_of() < nodes.len(),
        0 <= i < nodes.len(),
        0 <= k < nodes[i].inbox.len(),
    ensures
        k < deliver(nodes, msgs)[i].inbox.len(),
        deliver(nodes, msgs)[i].inbox[k] == nodes[i].inbox[k],
    decreases msgs.len(),
{
    if msgs.len() > 0 {
        let m = msgs.last();
        let r = m.receiver_of() as int;
        let nodes2 = nodes.update(r, nodes[r].receive(m));
        let rest = msgs.drop_last();
        assert forall|p: int| 0 <= p < rest.len() implies (#[trigger] rest[p]).receiver_of() < nodes2.len() by {
            assert(rest[p] == msgs[p]);
        }
        lemma_deliver_keeps(nodes2, rest, i, k);
    }
}

/// What a forwarded message keeps from the one it is made from, and where it goes.
pub proof fn lemma_chain_from<T: Message>(msg: T, nbrs: Seq<NodeId>, skip: NodeId, d: Seq<T::Time>, k: int, idx: int)
    requires
        0 <= idx < forward_chain(msg, nbrs, skip, d, k).len(),
    ensures
        ({
            let x = forward_chain(msg, nbrs, skip, d, k)[idx];
            &&& x.sender_of() == msg.sender_of()
            &&& x.level_of() == msg.level_of()
            &&& x.ack_of() == msg.ack_of()
            &&& x.type_of() == msg.type_of()
            &&& x.receiver_of() != skip
            &&& exists|j: int| 0 <= j < nbrs.len() && #[trigger] nbrs[j] == x.receiver_of()
        }),
    decreases nbrs.len(),
{
    let rest = nbrs.drop_first();
    if nbrs[0] == skip {
        lemma_chain_from(msg, rest, skip, d, k, idx);
        let x = forward_chain(msg, nbrs, skip, d, k)[idx];
        let j = choose|j: int| 0 <= j < rest.len() && #[trigger] rest[j] == x.receiver_of();
        assert(nbrs[j + 1] == rest[j]);
    } else {
        let next = msg.spec_next_in_level(nbrs[0], d[k]);
        T::lemma_constructors(msg, T::zero(), nbrs[0], d[k]);
        if idx == 0 {
            assert(forward_chain(msg, nbrs, skip, d, k)[0] == next);
            assert(nbrs[0] == next.receiver_of());
        } else {
            lemma_chain_from(next, rest, skip, d, k + 1, idx - 1);
            assert(forward_chain(msg, nbrs, skip, d, k)[idx] == forward_chain(next, rest, skip, d, k + 1)[idx - 1]);
            let x = forward_chain(msg, nbrs, skip, d, k)[idx];
            let j = choose|j: int| 0 <= j < rest.len() && #[trigger] rest[j] == x.receiver_of();
            assert(nbrs[j + 1] == rest[j]);
        }
    }
}

/// Every neighbour other than `skip` gets a forwarded message.
pub proof fn lemma_chain_has<T: Message>(msg: T, nbrs: Seq<NodeId>, skip: NodeId, d: Seq<T::Time>, k: int, j: int)
    requires
        0 <= j < nbrs.len(),
        nbrs[j] != skip,
    ensures
        exists|idx: int|
            0 <= idx < forward_chain(msg, nbrs, skip, d, k).len()
                && (#[trigger] forward_chain(msg, nbrs, skip, d, k)[idx]).receiver_of() == nbrs[j],
    decreases nbrs.len(),
{
    let rest = nbrs.drop_first();
    if nbrs[0] == skip {
        assert(rest[j - 1] == nbrs[j]);
        lemma_chain_has(msg, rest, skip, d, k, j - 1);
        assert(forward_chain(msg, nbrs, skip, d, k) == forward_chain(msg, rest, skip, d, k));
    } else {
        let next = msg.spec_next_in_level(nbrs[0], d[k]);
        T::lemma_constructors(msg, T::zero(), nbrs[0], d[k]);
        if j == 0 {
            assert(forward_chain(msg, nbrs, skip, d, k)[0] == next);
        } else {
            assert(rest[j - 1] == nbrs[j]);
            lemma_chain_has(next, rest, skip, d, k + 1, j - 1);
            let idx = choose|idx: int|
                0 <= idx < forward_chain(next, rest, skip, d, k + 1).len()
                    && (#[trigger] forward_chain(next, rest, skip, d, k + 1)[idx]).receiver_of() == rest[j - 1];
            assert(forward_chain(msg, nbrs, skip, d, k)[idx + 1] == forward_chain(next, rest, skip, d, k + 1)[idx]);
        }
    }
}

/// The level of a node, as an integer.
pub open spec fn lvl(nd: NodeModel<MessageSync>) -> int {
    nd.state.level.unwrap() as int
}

/// A search message in the inbox of node `i`, after `r` rounds: its sender is
/// visited one level up and has `i` as neighbour.
pub open spec fn good_flood(nodes: Seq<NodeModel<MessageSync>>, m: MessageSync, i: int, r: int) -> bool {
    &&& m.sender is Some
    &&& m.sender.unwrap() < nodes.len()
    &&& nodes[m.sender.unwrap() as int].state.visited
    &&& lvl(nodes[m.sender.unwrap() as int]) + 1 == m.level
    &&& m.level <= r
    &&& nodes[m.sender.unwrap() as int].neighbors.contains(i as NodeId)
}

/// A message in the inbox of node `i`: a search message as above, or an
/// acknowledgement to a visited node.
pub open spec fn good_msg(nodes: Seq<NodeModel<MessageSync>>, m: MessageSync, i: int, r: int) -> bool {
    &&& m.ack ==> nodes[i].state.visited
    &&& !m.ack ==> good_flood(nodes, m, i, r)
}

/// Node `i` after `r` rounds: it has a level exactly when visited, at most
/// `r - 1`; the root is at level 0 without parent; any other visited node has a
/// visited parent one level up that has it as neighbour.
pub open spec fn good_state(nodes: Seq<NodeModel<MessageSync>>, i: int, r: int) -> bool {
    let nd = nodes[i];
    &&& nd.state.visited == (nd.state.level is Some)
    &&& nd.state.visited ==> {
        &&& lvl(nd) <= r - 1
        &&& i == 0 ==> nd.state.parent is None && lvl(nd) == 0
        &&& i != 0 ==> {
            &&& nd.state.parent is Some
            &&& nd.state.parent.unwrap() < nodes.len()
            &&& nodes[nd.state.parent.unwrap() as int].state.visited
            &&& lvl(nodes[nd.state.parent.unwrap() as int]) + 1 == lvl(nd)
            &&& nodes[nd.state.parent.unwrap() as int].neighbors.contains(i as NodeId)
        }
    }
}

/// Node `j` is visited at level at most `bound`, or, unvisited, holds a search
/// message of level at most `bound`.
pub open spec fn reached_or_pending(nodes: Seq<NodeModel<MessageSync>>, j: int, bound: int) -> bool {
    ||| nodes[j].state.visited && lvl(nodes[j]) <= bound
    ||| !nodes[j].state.visited && exists|q: int|
        0 <= q < nodes[j].inbox.len() && !(#[trigger] nodes[j].inbox[q]).ack && nodes[j].inbox[q].level <= bound
}

/// The neighbours of a node visited two rounds ago or earlier are visited, at
/// most one level further; those of a node visited in the last round are
/// visited so, or hold its message.
pub open spec fn spread(nodes: Seq<NodeModel<MessageSync>>, i: int, r: int) -> bool {
    &&& (nodes[i].state.visited && lvl(nodes[i]) <= r - 2) ==> forall|k: int|
        0 <= k < nodes[i].neighbors.len() ==> {
            let j = #[trigger] nodes[i].neighbors[k] as int;
            nodes[j].state.visited && lvl(nodes[j]) <= lvl(nodes[i]) + 1
        }
    &&& (nodes[i].state.visited && lvl(nodes[i]) == r - 1) ==> forall|k: int|
        0 <= k < nodes[i].neighbors.len() ==> reached_or_pending(nodes, #[trigger] nodes[i].neighbors[k] as int, lvl(nodes[i]) + 1)
}

/// The state of a breadth-first search after `r >= 1` rounds.
pub open spec fn bfs_inv(g: GraphModel<MessageSync>, r: int) -> bool {
    &&& r >= 1
    &&& g.wf()
    &&& g.symmetric()
    &&& g.nodes.len() > 0
    &&& g.nodes[0].state.visited
    &&& forall|i: int| 0 <= i < g.nodes.len() ==> #[trigger] good_state(g.nodes, i, r)
    &&& forall|i: int, k: int|
        0 <= i < g.nodes.len() && 0 <= k < g.nodes[i].inbox.len() ==> good_msg(g.nodes, #[trigger] g.nodes[i].inbox[k], i, r)
    &&& forall|i: int| 0 <= i < g.nodes.len() ==> #[trigger] spread(g.nodes, i, r)
}

/// An unvisited node holds only search messages, all of level `r`.
pub proof fn lemma_unvisited_inbox(g: GraphModel<MessageSync>, r: int, i: int, k: int)
    requires
        bfs_inv(g, r),
        0 <= i < g.nodes.len(),
        !g.nodes[i].state.visited,
        0 <= k < g.nodes[i].inbox.len(),
    ensures
        !g.nodes[i].inbox[k].ack,
        g.nodes[i].inbox[k].level == r,
{
    let m = g.nodes[i].inbox[k];
    assert(good_msg(g.nodes, m, i, r));
    let p = m.sender.unwrap() as int;
    let nb = g.nodes[p].neighbors;
    assert(spread(g.nodes, p, r));
    assert(good_state(g.nodes, p, r));
    if lvl(g.nodes[p]) <= r - 2 {
        let kk = choose|kk: int| 0 <= kk < nb.len() && nb[kk] == i as NodeId;
        assert(nb[kk] as int == i);
    }
}

/// A message that node `i` sends in the round, given its state `nd2` after it.
pub open spec fn good_out(
    nodes: Seq<NodeModel<MessageSync>>,
    x: MessageSync,
    i: int,
    nd2: NodeModel<MessageSync>,
    r: int,
) -> bool {
    &&& x.receiver < nodes.len()
    &&& x.ack ==> nodes[x.receiver as int].state.visited
    &&& !x.ack ==> {
        &&& x.sender == Some(i as NodeId)
        &&& nd2.state.visited
        &&& nd2.state.level is Some
        &&& lvl(nd2) + 1 == x.level
        &&& x.level <= r + 1
        &&& nodes[i].neighbors.contains(x.receiver)
    }
}

/// One node's step in a breadth-first search.
pub proof fn lemma_bfs_step(g: GraphModel<MessageSync>, r: int, i: int, d: Seq<usize>)
    requires
        bfs_inv(g, r),
        0 <= i < g.nodes.len(),
        g.nodes[i].ready(d),
    ensures
        ({
            let nd = g.nodes[i];
            let nd2 = nd.step(d).0;
            let out = nd.step(d).1;
            &&& nd2.neighbors == nd.neighbors
            &&& nd2.id == nd.id
            &&& nd.state.visited ==> nd2.state == nd.state
            &&& (!nd.state.visited && nd.inbox.len() == 0) ==> nd2 == nd
            &&& (!nd.state.visited && nd.inbox.len() > 0) ==> {
                &&& nd2.state.visited
                &&& nd2.state.level is Some
                &&& lvl(nd2) == r
                &&& nd2.state.parent is Some
                &&& nd2.state.parent.unwrap() < g.nodes.len()
                &&& g.nodes[nd2.state.parent.unwrap() as int].state.visited
                &&& lvl(g.nodes[nd2.state.parent.unwrap() as int]) + 1 == r
                &&& g.nodes[nd2.state.parent.unwrap() as int].neighbors.contains(i as NodeId)
                &&& forall|k: int|
                    0 <= k < nd.neighbors.len() && nd.neighbors[k] != nd2.state.parent.unwrap() ==> exists|q: int|
                        0 <= q < out.len() && !(#[trigger] out[q]).ack && out[q].receiver == nd.neighbors[k]
                            && out[q].level == r + 1
            }
            &&& forall|k: int| 0 <= k < nd2.inbox.len() ==> exists|kk: int|
                0 <= kk < nd.inbox.len() && #[trigger] nd2.inbox[k] == nd.inbox[kk]
            &&& forall|q: int| 0 <= q < out.len() ==> good_out(g.nodes, #[trigger] out[q], i, nd2, r)
        }),
{
    let n = g.nodes.len() as int;
    let nd = g.nodes[i];
    assert(node_wf(nd, i, n));
    assert(good_state(g.nodes, i, r));
    if nd.inbox.len() > 0 {
        lemma_top_index(nd.inbox);
        let t = top_index(nd.inbox);
        let m = nd.inbox[t];
        assert(good_msg(g.nodes, m, i, r));
        let nd2 = nd.step(d).0;
        let out = nd.step(d).1;
        let rest = nd.inbox.remove(t);
        assert(nd2.inbox == rest);
        assert forall|k: int| 0 <= k < nd2.inbox.len() implies exists|kk: int|
            0 <= kk < nd.inbox.len() && #[trigger] nd2.inbox[k] == nd.inbox[kk] by {
            if k < t {
                assert(nd2.inbox[k] == nd.inbox[k]);
            } else {
                assert(nd2.inbox[k] == nd.inbox[k + 1]);
            }
        }
        if !nd.state.visited {
            lemma_unvisited_inbox(g, r, i, t);
            assert(i != 0);
            let p = m.sender.unwrap();
            assert(g.nodes[p as int].neighbors.contains(i as NodeId));
            assert(g.nodes[p as int].neighbors.contains(i as NodeId) <==> g.nodes[i].neighbors.contains((p as int) as NodeId));
            assert(g.nodes[i].neighbors.contains(p));
            let pk = choose|pk: int| 0 <= pk < nd.neighbors.len() && nd.neighbors[pk] == p;
            if nd.neighbors.len() == 1 {
                assert(pk == 0);
                assert(out[0].receiver == p);
                assert(good_out(g.nodes, out[0], i, nd2, r));
            } else {
                let first = m.spec_to_next_level(nd.last_sent);
                assert(first.sender == Some(i as NodeId));
                assert(out == forward_chain(first, nd.neighbors, p, d, 0));
                assert forall|q: int| 0 <= q < out.len() implies good_out(g.nodes, #[trigger] out[q], i, nd2, r) by {
                    lemma_chain_from(first, nd.neighbors, p, d, 0, q);
                    let j = choose|j: int| 0 <= j < nd.neighbors.len() && #[trigger] nd.neighbors[j] == out[q].receiver_of();
                    assert(nd.neighbors[j] < n);
                    assert(nd.neighbors.contains(out[q].receiver));
                }
                assert forall|k: int|
                    0 <= k < nd.neighbors.len() && nd.neighbors[k] != nd2.state.parent.unwrap() implies exists|q: int|
                        0 <= q < out.len() && !(#[trigger] out[q]).ack && out[q].receiver == nd.neighbors[k]
                            && out[q].level == r + 1 by {
                    lemma_chain_has(first, nd.neighbors, p, d, 0, k);
                    let q = choose|q: int|
                        0 <= q < forward_chain(first, nd.neighbors, p, d, 0).len()
                            && (#[trigger] forward_chain(first, nd.neighbors, p, d, 0)[q]).receiver_of() == nd.neighbors[k];
                    lemma_chain_from(first, nd.neighbors, p, d, 0, q);
                }
            }
        } else if m.ack {
            if out.len() > 0 {
                let p = nd.state.parent.unwrap();
                assert(i != 0);
                assert(out[0].receiver == p);
                assert(good_out(g.nodes, out[0], i, nd2, r));
            }
        } else {
            assert(good_out(g.nodes, out[0], i, nd2, r));
        }
    }
}

/// Two node sequences with the same edges.
pub open spec fn same_edges(a: Seq<NodeModel<MessageSync>>, b: Seq<NodeModel<MessageSync>>) -> bool {
    &&& a.len() == b.len()
    &&& forall|i: int| 0 <= i < a.len() ==> (#[trigger] a[i]).neighbors == b[i].neighbors
}

/// What one round of a breadth-first search does to each node.
pub(crate) proof fn lemma_round_facts(g: GraphModel<MessageSync>, r: int, d: Seq<usize>)
    requires
        bfs_inv(g, r),
        g.round_ready(d),
    ensures
        ({
            let n = g.nodes.len() as int;
            let st = stepped(g.nodes, d);
            let outs = round_outputs(g.nodes, d);
            let after = g.round(d).nodes;
            &&& after == deliver(st, outs)
            &&& st.len() == n
            &&& after.len() == n
            &&& forall|q: int| 0 <= q < outs.len() ==> (#[trigger] outs[q]).receiver_of() < n
            &&& forall|q: int| 0 <= q < outs.len() ==> msg_ok(#[trigger] outs[q], n)
            &&& forall|i: int| 0 <= i < n ==> (#[trigger] after[i]).state == st[i].state && after[i].neighbors
                == g.nodes[i].neighbors && after[i].id == g.nodes[i].id
            &&& forall|i: int| 0 <= i < n ==> #[trigger] st[i] == g.nodes[i].step(d).0
            &&& forall|i: int| 0 <= i < n ==> node_wf(#[trigger] st[i], i, n)
            &&& g.round(d).wf()
        }),
{
    let n = g.nodes.len() as int;
    let st = stepped(g.nodes, d);
    let outs = round_outputs(g.nodes, d);
    assert forall|k: int| 0 <= k < n implies node_wf(#[trigger] st[k], k, n) by {
        lemma_step_wf(g.nodes[k], k, n, d);
    }
    lemma_round_outputs_bounded(g.nodes, d, n);
    assert forall|q: int| 0 <= q < outs.len() implies (#[trigger] outs[q]).receiver_of() < n by {
        assert(msg_ok(outs[q], n));
    }
    lemma_deliver_wf(st, outs);
    lemma_deliver_len(st, outs);
    let after = g.round(d).nodes;
    assert forall|i: int| 0 <= i < n implies (#[trigger] after[i]).state == st[i].state && after[i].neighbors
        == g.nodes[i].neighbors && after[i].id == g.nodes[i].id by {
        assert(after[i].with_inbox(st[i].inbox) == st[i]);
        lemma_step_wf(g.nodes[i], i, n, d);
    }
}

/// After a round, every node's state is as the invariant asks.
proof fn lemma_round_states(g: GraphModel<MessageSync>, r: int, d: Seq<usize>)
    requires
        bfs_inv(g, r),
        g.round_ready(d),
    ensures
        forall|i: int| 0 <= i < g.nodes.len() ==> #[trigger] good_state(g.round(d).nodes, i, r + 1),
        g.round(d).nodes[0].state.visited,
{
    lemma_round_facts(g, r, d);
    let n = g.nodes.len() as int;
    let st = stepped(g.nodes, d);
    let after = g.round(d).nodes;
    assert forall|i: int| 0 <= i < n implies #[trigger] good_state(after, i, r + 1) by {
        assert(good_state(g.nodes, i, r));
        assert(g.nodes[i].ready(d));
        lemma_bfs_step(g, r, i, d);
        if g.nodes[i].state.visited && i != 0 {
            let p = g.nodes[i].state.parent.unwrap() as int;
            assert(g.nodes[p].ready(d));
            lemma_bfs_step(g, r, p, d);
        } else if !g.nodes[i].state.visited && g.nodes[i].inbox.len() > 0 {
            let p = st[i].state.parent.unwrap() as int;
            assert(g.nodes[p].ready(d));
            lemma_bfs_step(g, r, p, d);
        }
    }
    assert(g.nodes[0].ready(d));
    lemma_bfs_step(g, r, 0, d);
}

/// After a round, every message in every inbox is as the invariant asks.
proof fn lemma_round_msgs(g: GraphModel<MessageSync>, r: int, d: Seq<usize>)
    requires
        bfs_inv(g, r),
        g.round_ready(d),
    ensures
        forall|i: int, k: int|
            0 <= i < g.nodes.len() && 0 <= k < g.round(d).nodes[i].inbox.len() ==> good_msg(
                g.round(d).nodes,
                #[trigger] g.round(d).nodes[i].inbox[k],
                i,
                r + 1,
            ),
{
    lemma_round_facts(g, r, d);
    let n = g.nodes.len() as int;
    let st = stepped(g.nodes, d);
    let outs = round_outputs(g.nodes, d);
    let after = g.round(d).nodes;
    assert forall|i: int, k: int|
        0 <= i < n && 0 <= k < after[i].inbox.len() implies good_msg(after, #[trigger] after[i].inbox[k], i, r + 1) by {
        let x = after[i].inbox[k];
        lemma_deliver_from(st, outs, i, k);
        if exists|kk: int| 0 <= kk < st[i].inbox.len() && x == #[trigger] st[i].inbox[kk] {
            let kk = choose|kk: int| 0 <= kk < st[i].inbox.len() && x == #[trigger] st[i].inbox[kk];
            assert(g.nodes[i].ready(d));
            lemma_bfs_step(g, r, i, d);
            let k0 = choose|k0: int| 0 <= k0 < g.nodes[i].inbox.len() && #[trigger] st[i].inbox[kk] == g.nodes[i].inbox[k0];
            assert(good_msg(g.nodes, g.nodes[i].inbox[k0], i, r));
            if x.ack {
                lemma_bfs_step(g, r, i, d);
            } else {
                let p = x.sender.unwrap() as int;
                assert(g.nodes[p].ready(d));
                lemma_bfs_step(g, r, p, d);
            }
        } else {
            let q = choose|q: int| 0 <= q < outs.len() && (#[trigger] outs[q]) == x && outs[q].receiver_of() == i;
            lemma_outputs_from(g.nodes, d, q);
            let (s, kk) = choose|s: int, kk: int|
                0 <= s < n && 0 <= kk < g.nodes[s].step(d).1.len() && outs[q] == #[trigger] g.nodes[s].step(d).1[kk];
            assert(g.nodes[s].ready(d));
            lemma_bfs_step(g, r, s, d);
            assert(good_out(g.nodes, g.nodes[s].step(d).1[kk], s, st[s], r));
            if x.ack {
                assert(g.nodes[i].ready(d));
                lemma_bfs_step(g, r, i, d);
            }
        }
    }
}


/// After a round, what the visited nodes reach is as the invariant asks.
proof fn lemma_round_spread(g: GraphModel<MessageSync>, r: int, d: Seq<usize>)
    requires
        bfs_inv(g, r),
        g.round_ready(d),
    ensures
        forall|i: int| 0 <= i < g.nodes.len() ==> #[trigger] spread(g.round(d).nodes, i, r + 1),
{
    lemma_round_facts(g, r, d);
    lemma_round_states(g, r, d);
    let n = g.nodes.len() as int;
    let st = stepped(g.nodes, d);
    let outs = round_outputs(g.nodes, d);
    let after = g.round(d).nodes;
    assert forall|i: int| 0 <= i < n implies #[trigger] spread(after, i, r + 1) by {
        let nd = g.nodes[i];
        assert(nd.ready(d));
        lemma_bfs_step(g, r, i, d);
        assert(good_state(g.nodes, i, r));
        assert(good_state(after, i, r + 1));
        assert(node_wf(nd, i, n));
        assert(spread(g.nodes, i, r));
        if after[i].state.visited && lvl(after[i]) <= r - 1 {
            assert(nd.state.visited);
            assert forall|k: int| 0 <= k < after[i].neighbors.len() implies {
                let j = #[trigger] after[i].neighbors[k] as int;
                after[j].state.visited && lvl(after[j]) <= lvl(after[i]) + 1
            } by {
                let j = after[i].neighbors[k] as int;
                assert(nd.neighbors[k] as int == j);
                assert(0 <= j < n);
                assert(g.nodes[j].ready(d));
                lemma_bfs_step(g, r, j, d);
                if lvl(nd) == r - 1 {
                    assert(reached_or_pending(g.nodes, nd.neighbors[k] as int, lvl(nd) + 1));
                    if !g.nodes[j].state.visited {
                        let q = choose|q: int|
                            0 <= q < g.nodes[j].inbox.len() && !(#[trigger] g.nodes[j].inbox[q]).ack
                                && g.nodes[j].inbox[q].level <= lvl(nd) + 1;
                        assert(g.nodes[j].inbox.len() > 0);
                    }
                }
            }
        }
        if after[i].state.visited && lvl(after[i]) == r {
            assert(!nd.state.visited);
            assert(nd.inbox.len() > 0);
            let p = st[i].state.parent.unwrap();
            assert forall|k: int| 0 <= k < after[i].neighbors.len() implies reached_or_pending(
                after,
                #[trigger] after[i].neighbors[k] as int,
                lvl(after[i]) + 1,
            ) by {
                let j = after[i].neighbors[k] as int;
                assert(nd.neighbors[k] as int == j);
                assert(0 <= j < n);
                assert(good_state(after, j, r + 1));
                if nd.neighbors[k] == p {
                    assert(g.nodes[p as int].ready(d));
                    lemma_bfs_step(g, r, p as int, d);
                } else {
                    let out = nd.step(d).1;
                    let q = choose|q: int|
                        0 <= q < out.len() && !(#[trigger] out[q]).ack && out[q].receiver == nd.neighbors[k]
                            && out[q].level == r + 1;
                    lemma_outputs_has(g.nodes, d, i, q);
                    let kq = choose|kq: int| 0 <= kq < outs.len() && #[trigger] outs[kq] == out[q];
                    lemma_deliver_has(st, outs, kq);
                    let kk = choose|kk: int|
                        0 <= kk < deliver(st, outs)[outs[kq].receiver_of() as int].inbox.len()
                            && #[trigger] deliver(st, outs)[outs[kq].receiver_of() as int].inbox[kk] == outs[kq];
                    assert(after[j].inbox[kk] == out[q]);
                }
            }
        }
    }
}

/// One round keeps the invariant of a breadth-first search, one round further,
/// and keeps the edges.
pub proof fn lemma_bfs_round(g: GraphModel<MessageSync>, r: int, d: Seq<usize>)
    requires
        bfs_inv(g, r),
        g.round_ready(d),
    ensures
        bfs_inv(g.round(d), r + 1),
        same_edges(g.nodes, g.round(d).nodes),
{
    lemma_round_facts(g, r, d);
    lemma_round_states(g, r, d);
    lemma_round_msgs(g, r, d);
    lemma_round_spread(g, r, d);
    let after = g.round(d);
    assert forall|a: int, b: int|
        0 <= a < after.nodes.len() && 0 <= b < after.nodes.len() implies (#[trigger] after.nodes[a].neighbors.contains(
        b as NodeId) <==> #[trigger] after.nodes[b].neighbors.contains(a as NodeId)) by {
        assert(g.nodes[a].neighbors.contains(b as NodeId) <==> g.nodes[b].neighbors.contains(a as NodeId));
    }
}


/// The first round of a breadth-first search from node 0 of a fresh graph.
pub(crate) proof fn lemma_bfs_first_round(g: GraphModel<MessageSync>, ty: MessageType, d: Seq<usize>)
    requires
        g.symmetric(),
        0 < g.nodes.len() <= usize::MAX,
        forall|i: int| 0 <= i < g.nodes.len() ==> #[trigger] fresh(g.nodes[i], i, g.nodes.len() as int),
        initialized(g, ty).round_ready(d),
    ensures
        bfs_inv(initialized(g, ty).round(d), 1),
        same_edges(g.nodes, initialized(g, ty).round(d).nodes),
{
    let n = g.nodes.len() as int;
    let gi = initialized(g, ty);
    let m0 = MessageSync::spec_new(0, None, 0, 0, ty);
    assert(fresh(g.nodes[0], 0, n));
    assert(gi.nodes[0].inbox =~= seq![m0]);
    assert forall|i: int| 0 <= i < n implies node_wf(#[trigger] gi.nodes[i], i, n) by {
        assert(fresh(g.nodes[i], i, n));
        if i == 0 {
            assert forall|k: int| 0 <= k < gi.nodes[0].inbox.len() implies msg_to(#[trigger] gi.nodes[0].inbox[k], 0, n) by {
                assert(gi.nodes[0].inbox[k] == m0);
            }
        }
    }
    let st = stepped(gi.nodes, d);
    let outs = round_outputs(gi.nodes, d);
    let after = gi.round(d).nodes;
    assert forall|k: int| 0 <= k < n implies node_wf(#[trigger] st[k], k, n) by {
        assert(gi.nodes[k].ready(d));
        lemma_step_wf(gi.nodes[k], k, n, d);
    }
    lemma_round_outputs_bounded(gi.nodes, d, n);
    assert forall|q: int| 0 <= q < outs.len() implies (#[trigger] outs[q]).receiver_of() < n by {
        assert(msg_ok(outs[q], n));
    }
    lemma_deliver_wf(st, outs);
    lemma_deliver_len(st, outs);
    // Node 0 takes the start message and forwards it one level down.
    let nd0 = gi.nodes[0];
    lemma_top_index(nd0.inbox);
    assert(top_index(nd0.inbox) == 0);
    let first = m0.spec_to_next_level(nd0.last_sent);
    let nbrs = nd0.neighbors;
    assert(nd0.step(d).1 == forward_chain(first, nbrs, usize::MAX, d, 0));
    assert(st[0].state == NodeState { visited: true, parent: None, level: Some(0usize) });
    assert(st[0].inbox.len() == 0);
    assert forall|i: int| 0 <= i < n implies (#[trigger] after[i]).state == st[i].state && after[i].neighbors
        == g.nodes[i].neighbors && st[i].inbox.len() == 0 by {
        assert(after[i].with_inbox(st[i].inbox) == st[i]);
        assert(fresh(g.nodes[i], i, n));
        if i != 0 {
            assert(gi.nodes[i] == g.nodes[i]);
            assert(st[i] == g.nodes[i]);
        }
    }
    // Every message after the round is one that node 0 forwarded.
    assert forall|i: int, k: int|
        0 <= i < n && 0 <= k < after[i].inbox.len() implies good_msg(after, #[trigger] after[i].inbox[k], i, 1) by {
        let x = after[i].inbox[k];
        lemma_deliver_from(st, outs, i, k);
        let q = choose|q: int| 0 <= q < outs.len() && (#[trigger] outs[q]) == x && outs[q].receiver_of() == i;
        lemma_outputs_from(gi.nodes, d, q);
        let (s, kk) = choose|s: int, kk: int|
            0 <= s < n && 0 <= kk < gi.nodes[s].step(d).1.len() && outs[q] == #[trigger] gi.nodes[s].step(d).1[kk];
        if s != 0 {
            assert(fresh(g.nodes[s], s, n));
            assert(gi.nodes[s] == g.nodes[s]);
        }
        assert(s == 0);
        lemma_chain_from(first, nbrs, usize::MAX, d, 0, kk);
        let j = choose|j: int| 0 <= j < nbrs.len() && #[trigger] nbrs[j] == x.receiver_of();
        assert(after[0].neighbors.contains(i as NodeId));
    }
    // Every neighbour of node 0 holds its message.
    assert forall|i: int| 0 <= i < n implies #[trigger] spread(after, i, 1) by {
        assert(after[i].state == st[i].state);
        if i != 0 {
            assert(fresh(g.nodes[i], i, n));
            assert(st[i] == g.nodes[i]);
        } else {
            assert forall|k: int| 0 <= k < after[0].neighbors.len() implies reached_or_pending(
                after,
                #[trigger] after[0].neighbors[k] as int,
                lvl(after[0]) + 1,
            ) by {
                assert(fresh(g.nodes[0], 0, n));
                let j = nbrs[k] as int;
                assert(after[0].neighbors[k] == nbrs[k]);
                assert(0 < j < n);
                assert(fresh(g.nodes[j], j, n));
                lemma_chain_has(first, nbrs, usize::MAX, d, 0, k);
                let idx = choose|idx: int|
                    0 <= idx < forward_chain(first, nbrs, usize::MAX, d, 0).len()
                        && (#[trigger] forward_chain(first, nbrs, usize::MAX, d, 0)[idx]).receiver_of() == nbrs[k];
                lemma_chain_from(first, nbrs, usize::MAX, d, 0, idx);
                lemma_outputs_has(gi.nodes, d, 0, idx);
                let kq = choose|kq: int| 0 <= kq < outs.len() && #[trigger] outs[kq] == nd0.step(d).1[idx];
                lemma_deliver_has(st, outs, kq);
                let kk = choose|kk: int|
                    0 <= kk < deliver(st, outs)[outs[kq].receiver_of() as int].inbox.len()
                        && #[trigger] deliver(st, outs)[outs[kq].receiver_of() as int].inbox[kk] == outs[kq];
                assert(after[j].inbox[kk] == outs[kq]);
            }
        }
    }
    assert forall|i: int| 0 <= i < n implies #[trigger] good_state(after, i, 1) by {
        assert(fresh(g.nodes[i], i, n));
    }
    let ga = gi.round(d);
    assert forall|a: int, b: int|
        0 <= a < ga.nodes.len() && 0 <= b < ga.nodes.len() implies (#[trigger] ga.nodes[a].neighbors.contains(
        b as NodeId) <==> #[trigger] ga.nodes[b].neighbors.contains(a as NodeId)) by {
        assert(g.nodes[a].neighbors.contains(b as NodeId) <==> g.nodes[b].neighbors.contains(a as NodeId));
    }
}


/// The rest of a round-based search keeps the invariant, for some round count,
/// and the edges.
proof fn lemma_bfs_run(
    g0: Seq<NodeModel<MessageSync>>,
    g: GraphModel<MessageSync>,
    r: int,
    d: Seq<usize>,
    t: nat,
) -> (r2: int)
    requires
        bfs_inv(g, r),
        same_edges(g0, g.nodes),
    ensures
        sync_run(g, d, StopRule::AllVisited, t) matches Some((gf, _)) ==> bfs_inv(gf, r2) && same_edges(g0, gf.nodes),
    decreases MAX_ROUNDS + 1 - t,
{
    if finished(g, StopRule::AllVisited) {
        r
    } else if !g.round_ready(d) {
        r
    } else {
        lemma_bfs_round(g, r, d);
        if t + 1 > MAX_ROUNDS {
            r + 1
        } else {
            lemma_bfs_run(g0, g.round(d), r + 1, d, t + 1)
        }
    }
}

/// Once every node has a level, the invariant of the search says that the
/// parents and levels form a breadth-first tree of the graph.
pub(crate) proof fn lemma_bfs_done(g0: Seq<NodeModel<MessageSync>>, g: GraphModel<MessageSync>, r: int)
    requires
        bfs_inv(g, r),
        same_edges(g0, g.nodes),
        forall|i: int| 0 <= i < g.nodes.len() ==> (#[trigger] g.nodes[i]).state.level is Some,
    ensures
        is_bfs_tree_spec(g0, g.nodes.map_values(|nd: NodeModel<MessageSync>| bfs_entry(nd))),
{
    let n = g.nodes.len() as int;
    let data = g.nodes.map_values(|nd: NodeModel<MessageSync>| bfs_entry(nd));
    assert(good_state(g.nodes, 0, r));
    assert(data[0] == bfs_entry(g.nodes[0]));
    assert forall|i: int| 1 <= i < n implies {
        let (p, l) = #[trigger] data[i];
        &&& p < n
        &&& data[p as int].1 + 1 == l
        &&& g0[p as int].neighbors.contains(i as NodeId)
    } by {
        assert(good_state(g.nodes, i, r));
        assert(g.nodes[i].state.level is Some);
        let p = g.nodes[i].state.parent.unwrap() as int;
        assert(data[i] == bfs_entry(g.nodes[i]));
        assert(data[p] == bfs_entry(g.nodes[p]));
        assert(g0[p].neighbors == g.nodes[p].neighbors);
    }
    assert forall|i: int, k: int| 0 <= i < n && 0 <= k < g0[i].neighbors.len() implies {
        let j = #[trigger] g0[i].neighbors[k];
        &&& j < n
        &&& data[j as int].1 <= data[i].1 + 1
    } by {
        assert(g0[i].neighbors == g.nodes[i].neighbors);
        assert(node_wf(g.nodes[i], i, n));
        let j = g.nodes[i].neighbors[k] as int;
        assert(g.nodes[i].neighbors[k] < n);
        assert(good_state(g.nodes, i, r));
        assert(good_state(g.nodes, j, r));
        assert(g.nodes[i].state.level is Some);
        assert(g.nodes[j].state.level is Some);
        assert(spread(g.nodes, i, r));
        assert(data[i] == bfs_entry(g.nodes[i]));
        assert(data[j] == bfs_entry(g.nodes[j]));
        if lvl(g.nodes[i]) == r - 1 {
            assert(reached_or_pending(g.nodes, g.nodes[i].neighbors[k] as int, lvl(g.nodes[i]) + 1));
        }
    }
}

/// A round-based breadth-first search from node 0 of a fresh graph whose edges
/// go both ways: when the run ends with a level at every node, the parent and
/// level that each node reports form a breadth-first tree of the graph: the
/// root has level 0 and no parent, every other node's parent is a neighbour one
/// level up, and no edge joins levels more than one apart.
pub proof fn lemma_sync_bfs_builds_bfs_tree(g: GraphModel<MessageSync>)
    requires
        g.symmetric(),
        0 < g.nodes.len() <= usize::MAX,
        forall|i: int| 0 <= i < g.nodes.len() ==> #[trigger] fresh(g.nodes[i], i, g.nodes.len() as int),
    ensures
        sync_run(initialized(g, MessageType::Bfs), round_delays(g.nodes), StopRule::AllVisited, 0) matches Some((gf, _))
            ==> ((forall|i: int| 0 <= i < gf.nodes.len() ==> (#[trigger] gf.nodes[i]).state.level is Some)
            ==> is_bfs_tree_spec(g.nodes, gf.nodes.map_values(|nd: NodeModel<MessageSync>| bfs_entry(nd)))),
{
    let gi = initialized(g, MessageType::Bfs);
    let d = round_delays(g.nodes);
    if finished(gi, StopRule::AllVisited) {
        assert(fresh(g.nodes[0], 0, g.nodes.len() as int));
        assert(!(gi.nodes[0].state.level is Some));
    } else if gi.round_ready(d) {
        lemma_bfs_first_round(g, MessageType::Bfs, d);
        let r2 = lemma_bfs_run(g.nodes, gi.round(d), 1, d, 1);
        assert(sync_run(gi, d, StopRule::AllVisited, 0) == sync_run(gi.round(d), d, StopRule::AllVisited, 1));
        if let Some((gf, _)) = sync_run(gi, d, StopRule::AllVisited, 0) {
            if forall|i: int| 0 <= i < gf.nodes.len() ==> (#[trigger] gf.nodes[i]).state.level is Some {
                lemma_bfs_done(g.nodes, gf, r2);
            }
        }
    }
}


/// `path` is a walk in the graph that starts at node 0.
pub open spec fn walk_from_root<T: Message>(nodes: Seq<NodeModel<T>>, path: Seq<int>) -> bool {
    &&& path.len() > 0
    &&& path[0] == 0
    &&& forall|t: int| 0 <= t < path.len() ==> 0 <= #[trigger] path[t] < nodes.len()
    &&& forall|t: int|
        #![trigger path[t]]
        0 <= t < path.len() - 1 ==> nodes[path[t]].neighbors.contains(path[t + 1] as NodeId)
}

/// Node `i` can be reached from node 0 along at most `k` edges.
pub open spec fn within<T: Message>(nodes: Seq<NodeModel<T>>, i: int, k: nat) -> bool {
    exists|path: Seq<int>| #[trigger] walk_from_root(nodes, path) && path.last() == i && path.len() <= k + 1
}

/// Under a breadth-first tree, the node at step `t` of a walk from node 0 has
/// level at most `t`.
proof fn lemma_walk_levels<T: Message>(nodes: Seq<NodeModel<T>>, data: Seq<(NodeId, usize)>, path: Seq<int>, t: int)
    requires
        is_bfs_tree_spec(nodes, data),
        nodes.len() <= usize::MAX,
        walk_from_root(nodes, path),
        0 <= t < path.len(),
    ensures
        data[path[t]].1 <= t,
    decreases t,
{
    if t > 0 {
        lemma_walk_levels(nodes, data, path, t - 1);
        let a = path[t - 1];
        let b = path[t];
        assert(nodes[a].neighbors.contains(b as NodeId));
        let kk = choose|kk: int| 0 <= kk < nodes[a].neighbors.len() && nodes[a].neighbors[kk] == b as NodeId;
        let x = nodes[a].neighbors[kk];
        assert(x as int == b);
        assert(data[x as int].1 <= data[a].1 + 1);
    }
}

/// Under a breadth-first tree, the parents lead from node 0 to node `i` along as
/// many edges as its level.
proof fn lemma_parent_walk<T: Message>(nodes: Seq<NodeModel<T>>, data: Seq<(NodeId, usize)>, i: int) -> (path: Seq<int>)
    requires
        is_bfs_tree_spec(nodes, data),
        0 <= i < nodes.len(),
    ensures
        walk_from_root(nodes, path),
        path.last() == i,
        path.len() == data[i].1 + 1,
    decreases data[i].1,
{
    if i == 0 {
        seq![0]
    } else {
        let p = data[i].0 as int;
        assert(data[p].1 + 1 == data[i].1);
        let prev = lemma_parent_walk(nodes, data, p);
        let path = prev.push(i);
        assert(path[prev.len() - 1] == p);
        assert forall|t: int| 0 <= t < path.len() implies 0 <= #[trigger] path[t] < nodes.len() by {
            if t < prev.len() {
                assert(path[t] == prev[t]);
            }
        }
        assert forall|t: int|
            #![trigger path[t]]
            0 <= t < path.len() - 1 implies nodes[path[t]].neighbors.contains(path[t + 1] as NodeId) by {
            if t < prev.len() - 1 {
                assert(path[t] == prev[t]);
                assert(path[t + 1] == prev[t + 1]);
                assert(prev[t] == prev[t]);
            }
        }
        path
    }
}

/// In a breadth-first tree the level of each node is its distance from node 0:
/// the node can be reached along that many edges and along no fewer.
pub proof fn lemma_bfs_tree_levels_are_distances<T: Message>(nodes: Seq<NodeModel<T>>, data: Seq<(NodeId, usize)>)
    requires
        is_bfs_tree_spec(nodes, data),
        nodes.len() <= usize::MAX,
    ensures
        forall|i: int| 0 <= i < nodes.len() ==> #[trigger] within(nodes, i, data[i].1 as nat),
        forall|i: int, k: nat| 0 <= i < nodes.len() && k < data[i].1 ==> !#[trigger] within(nodes, i, k),
{
    assert forall|i: int| 0 <= i < nodes.len() implies #[trigger] within(nodes, i, data[i].1 as nat) by {
        let path = lemma_parent_walk(nodes, data, i);
        assert(walk_from_root(nodes, path));
    }
    assert forall|i: int, k: nat| 0 <= i < nodes.len() && k < data[i].1 implies !#[trigger] within(nodes, i, k) by {
        if within(nodes, i, k) {
            let path = choose|path: Seq<int>| #[trigger] walk_from_root(nodes, path) && path.last() == i && path.len() <= k + 1;
            lemma_walk_levels(nodes, data, path, path.len() - 1);
        }
    }
}


/// What one round of a node does, for messages addressed to it: it handles
/// exactly one pending message, if it has any; once visited it keeps its
/// parent and level; everything it sends comes from it; and every search
/// message it sends goes to one of its neighbours other than its parent.
pub proof fn lemma_node_round_law<T: Message>(nd: NodeModel<T>, i: NodeId, d: Seq<T::Time>)
    requires
        forall|k: int| 0 <= k < nd.inbox.len() ==> (#[trigger] nd.inbox[k]).receiver_of() == i,
        nd.ready(d),
    ensures
        nd.inbox.len() > 0 ==> nd.step(d).0.inbox.len() + 1 == nd.inbox.len(),
        nd.inbox.len() == 0 ==> nd.step(d).0 == nd && nd.step(d).1.len() == 0,
        nd.state.visited ==> nd.step(d).0.state == nd.state,
        nd.step(d).0.neighbors == nd.neighbors,
        forall|q: int| 0 <= q < nd.step(d).1.len() ==> (#[trigger] nd.step(d).1[q]).sender_of() == Some(i),
        forall|q: int|
            0 <= q < nd.step(d).1.len() && !(#[trigger] nd.step(d).1[q]).ack_of() ==> nd.neighbors.contains(
                nd.step(d).1[q].receiver_of(),
            ) && nd.step(d).0.state.parent != Some(nd.step(d).1[q].receiver_of()),
{
    crate::graph::lemma_step_keeps_visited_state(nd, d);
    if nd.inbox.len() > 0 {
        lemma_top_index(nd.inbox);
        let t = top_index(nd.inbox);
        let m = nd.inbox[t];
        assert(m.receiver_of() == i);
        let out = nd.step(d).1;
        let p = match m.sender_of() {
            Some(p) => p,
            None => 0,
        };
        let par = match nd.state.parent {
            Some(q) => q,
            None => 0,
        };
        T::lemma_constructors(m, nd.last_sent, p, d[0]);
        T::lemma_constructors(m, m.time_of(), par, d[0]);
        if !m.ack_of() && !nd.state.visited && !(nd.neighbors.len() == 1 && m.sender_of() is Some) {
            let skip = match m.sender_of() {
                Some(p) => p,
                None => usize::MAX,
            };
            let first = m.spec_to_next_level(nd.last_sent);
            assert(out == forward_chain(first, nd.neighbors, skip, d, 0));
            assert forall|q: int| 0 <= q < out.len() implies (#[trigger] out[q]).sender_of() == Some(i) && (!out[q].ack_of()
                ==> nd.neighbors.contains(out[q].receiver_of()) && nd.step(d).0.state.parent != Some(out[q].receiver_of())) by {
                lemma_chain_from(first, nd.neighbors, skip, d, 0, q);
                let j = choose|j: int| 0 <= j < nd.neighbors.len() && #[trigger] nd.neighbors[j] == out[q].receiver_of();
            }
        }
    }
}

/// A call on a node: a message arrives, or the node runs a round.
pub enum NodeCall<T> {
    Receive(T),
    Round,
}

/// The node after a sequence of calls.
pub open spec fn apply_calls<T: Message>(nd: NodeModel<T>, calls: Seq<NodeCall<T>>, d: Seq<T::Time>) -> NodeModel<T>
    decreases calls.len(),
{
    if calls.len() == 0 {
        nd
    } else {
        let before = apply_calls(nd, calls.drop_last(), d);
        match calls.last() {
            NodeCall::Receive(m) => before.receive(m),
            NodeCall::Round => before.step(d).0,
        }
    }
}

/// Over any sequence of calls, a node that is visited stays visited with the
/// same parent and level; a round takes exactly one pending message when there
/// is one and none otherwise, and an arrival adds exactly one; and if every
/// message that arrives is addressed to node `i`, its inbox holds only such
/// messages, so that `lemma_node_round_law` applies to each of its rounds.
pub proof fn lemma_node_calls_law<T: Message>(
    nd: NodeModel<T>,
    calls: Seq<NodeCall<T>>,
    d: Seq<T::Time>,
    j: int,
    i: NodeId,
)
    requires
        0 <= j <= calls.len(),
    ensures
        ((forall|k: int| 0 <= k < nd.inbox.len() ==> (#[trigger] nd.inbox[k]).receiver_of() == i) && (forall|c: int|
            0 <= c < calls.len() ==> (#[trigger] calls[c] matches NodeCall::Receive(m) ==> m.receiver_of() == i)))
            ==> forall|k: int|
            0 <= k < apply_calls(nd, calls, d).inbox.len() ==> (#[trigger] apply_calls(nd, calls, d).inbox[k]).receiver_of()
                == i,
        apply_calls(nd, calls.take(j), d).state.visited ==> apply_calls(nd, calls, d).state == apply_calls(
            nd,
            calls.take(j),
            d,
        ).state,
        apply_calls(nd, calls, d).neighbors == nd.neighbors,
        calls.len() > 0 ==> apply_calls(nd, calls, d).inbox.len() == match calls.last() {
            NodeCall::Receive(_) => apply_calls(nd, calls.drop_last(), d).inbox.len() + 1int,
            NodeCall::Round => if apply_calls(nd, calls.drop_last(), d).inbox.len() > 0 {
                apply_calls(nd, calls.drop_last(), d).inbox.len() - 1
            } else {
                0int
            },
        },
    decreases calls.len(),
{
    if calls.len() > 0 {
        let init = calls.drop_last();
        let before = apply_calls(nd, init, d);
        crate::graph::lemma_step_keeps_visited_state(before, d);
        if j == calls.len() {
            assert(calls.take(j) =~= calls);
        } else {
            assert(init.take(j) =~= calls.take(j));
            lemma_node_calls_law(nd, init, d, j, i);
        }
        lemma_node_calls_law(nd, init, d, 0, i);
        if (forall|k: int| 0 <= k < nd.inbox.len() ==> (#[trigger] nd.inbox[k]).receiver_of() == i) && (forall|c: int|
            0 <= c < calls.len() ==> (#[trigger] calls[c] matches NodeCall::Receive(m) ==> m.receiver_of() == i)) {
            assert forall|c: int| 0 <= c < init.len() implies (#[trigger] init[c] matches NodeCall::Receive(m) ==> m.receiver_of() == i) by {
                assert(init[c] == calls[c]);
            }
            let after = apply_calls(nd, calls, d);
            assert(calls.last() == calls[calls.len() - 1]);
            match calls.last() {
                NodeCall::Receive(m) => {
                    assert forall|k: int| 0 <= k < after.inbox.len() implies (#[trigger] after.inbox[k]).receiver_of() == i by {
                        if k < before.inbox.len() {
                            assert(after.inbox[k] == before.inbox[k]);
                        }
                    }
                },
                NodeCall::Round => {
                    if before.inbox.len() > 0 {
                        let t = top_index(before.inbox);
                        lemma_top_index(before.inbox);
                        assert(after.inbox == before.inbox.remove(t));
                        assert forall|k: int| 0 <= k < after.inbox.len() implies (#[trigger] after.inbox[k]).receiver_of() == i by {
                            if k < t {
                                assert(after.inbox[k] == before.inbox[k]);
                            } else {
                                assert(after.inbox[k] == before.inbox[k + 1]);
                            }
                        }
                    }
                },
            }
        }
    }
}

/// The graph after `k` rounds.
pub open spec fn after_rounds(g: GraphModel<MessageSync>, d: Seq<usize>, k: nat) -> GraphModel<MessageSync>
    decreases k,
{
    if k == 0 {
        g
    } else {
        after_rounds(g, d, (k - 1) as nat).round(d)
    }
}

/// After `k >= 1` rounds of a search from node 0 of a fresh graph, the
/// invariant of the search holds for `k`, and the edges are as they were.
proof fn lemma_rounds_inv(g: GraphModel<MessageSync>, ty: MessageType, d: Seq<usize>, k: nat)
    requires
        g.symmetric(),
        0 < g.nodes.len() <= usize::MAX,
        forall|i: int| 0 <= i < g.nodes.len() ==> #[trigger] fresh(g.nodes[i], i, g.nodes.len() as int),
        k >= 1,
        forall|j: nat| j < k ==> #[trigger] after_rounds(initialized(g, ty), d, j).round_ready(d),
    ensures
        bfs_inv(after_rounds(initialized(g, ty), d, k), k as int),
        same_edges(g.nodes, after_rounds(initialized(g, ty), d, k).nodes),
    decreases k,
{
    let gi = initialized(g, ty);
    if k == 1 {
        assert(after_rounds(gi, d, 0).round_ready(d));
        assert(after_rounds(gi, d, 1) == gi.round(d));
        lemma_bfs_first_round(g, ty, d);
    } else {
        let j = (k - 1) as nat;
        lemma_rounds_inv(g, ty, d, j);
        assert(after_rounds(gi, d, j).round_ready(d));
        lemma_bfs_round(after_rounds(gi, d, j), j as int, d);
    }
}

/// The parents of a visited node lead back to node 0 along as many edges as
/// its level.
proof fn lemma_level_walk(g0: Seq<NodeModel<MessageSync>>, gk: GraphModel<MessageSync>, r: int, v: int) -> (path: Seq<int>)
    requires
        bfs_inv(gk, r),
        same_edges(g0, gk.nodes),
        0 <= v < gk.nodes.len(),
        gk.nodes[v].state.visited,
    ensures
        walk_from_root(g0, path),
        path.last() == v,
        path.len() == lvl(gk.nodes[v]) + 1,
    decreases lvl(gk.nodes[v]),
{
    assert(good_state(gk.nodes, v, r));
    if v == 0 {
        seq![0]
    } else {
        let p = gk.nodes[v].state.parent.unwrap() as int;
        assert(good_state(gk.nodes, p, r));
        let prev = lemma_level_walk(g0, gk, r, p);
        let path = prev.push(v);
        assert(path[prev.len() - 1] == p);
        assert(g0[p].neighbors == gk.nodes[p].neighbors);
        assert forall|t: int| 0 <= t < path.len() implies 0 <= #[trigger] path[t] < g0.len() by {
            if t < prev.len() {
                assert(path[t] == prev[t]);
            }
        }
        assert forall|t: int|
            #![trigger path[t]]
            0 <= t < path.len() - 1 implies g0[path[t]].neighbors.contains(path[t + 1] as NodeId) by {
            if t < prev.len() - 1 {
                assert(path[t] == prev[t]);
                assert(path[t + 1] == prev[t + 1]);
                assert(prev[t] == prev[t]);
            }
        }
        path
    }
}

/// After `r` rounds, the node at step `t < r` of a walk from node 0 is visited,
/// at level at most `t`.
pub(crate) proof fn lemma_walk_reached(g0: Seq<NodeModel<MessageSync>>, gk: GraphModel<MessageSync>, r: int, path: Seq<int>, t: int)
    requires
        bfs_inv(gk, r),
        same_edges(g0, gk.nodes),
        gk.nodes.len() <= usize::MAX,
        walk_from_root(g0, path),
        0 <= t < path.len(),
        t <= r - 1,
    ensures
        gk.nodes[path[t]].state.visited,
        lvl(gk.nodes[path[t]]) <= t,
    decreases t,
{
    if t == 0 {
        assert(good_state(gk.nodes, 0, r));
    } else {
        lemma_walk_reached(g0, gk, r, path, t - 1);
        let a = path[t - 1];
        let b = path[t];
        assert(g0[a].neighbors.contains(b as NodeId));
        assert(g0[a].neighbors == gk.nodes[a].neighbors);
        let kk = choose|kk: int| 0 <= kk < gk.nodes[a].neighbors.len() && gk.nodes[a].neighbors[kk] == b as NodeId;
        assert(gk.nodes[a].neighbors[kk] as int == b);
        assert(spread(gk.nodes, a, r));
    }
}

/// After `k >= 1` rounds of a search from node 0 of a fresh graph whose edges
/// go both ways: a node is visited exactly when it can be reached from node 0
/// along at most `k - 1` edges; a visited node's level is its distance from
/// node 0; node 0 has no parent, and every other visited node has as parent a
/// visited neighbour one level closer to node 0.
pub proof fn lemma_rounds_law(g: GraphModel<MessageSync>, ty: MessageType, d: Seq<usize>, k: nat)
    requires
        g.symmetric(),
        0 < g.nodes.len() <= usize::MAX,
        forall|i: int| 0 <= i < g.nodes.len() ==> #[trigger] fresh(g.nodes[i], i, g.nodes.len() as int),
        k >= 1,
        forall|j: nat| j < k ==> #[trigger] after_rounds(initialized(g, ty), d, j).round_ready(d),
    ensures
        ({
            let gk = after_rounds(initialized(g, ty), d, k);
            &&& forall|v: int|
                0 <= v < g.nodes.len() ==> (#[trigger] gk.nodes[v].state.visited <==> within(g.nodes, v, (k - 1) as nat))
            &&& forall|v: int|
                0 <= v < g.nodes.len() && #[trigger] gk.nodes[v].state.visited ==> (gk.nodes[v].state.level matches Some(l)
                    && within(g.nodes, v, l as nat) && forall|l2: nat| l2 < l ==> !#[trigger] within(g.nodes, v, l2))
            &&& gk.nodes[0].state.visited && gk.nodes[0].state.parent is None
            &&& forall|v: int|
                0 < v < g.nodes.len() && #[trigger] gk.nodes[v].state.visited ==> (gk.nodes[v].state.parent matches Some(u)
                    && u < g.nodes.len() && gk.nodes[u as int].state.visited && g.nodes[u as int].neighbors.contains(
                    v as NodeId,
                ) && gk.nodes[u as int].state.level.unwrap() + 1 == gk.nodes[v].state.level.unwrap())
        }),
{
    let gi = initialized(g, ty);
    let gk = after_rounds(gi, d, k);
    let n = g.nodes.len() as int;
    let r = k as int;
    lemma_rounds_inv(g, ty, d, k);
    assert forall|v: int| 0 <= v < n implies (#[trigger] gk.nodes[v].state.visited <==> within(g.nodes, v, (k - 1) as nat)) by {
        assert(good_state(gk.nodes, v, r));
        if gk.nodes[v].state.visited {
            let path = lemma_level_walk(g.nodes, gk, r, v);
            assert(walk_from_root(g.nodes, path));
        }
        if within(g.nodes, v, (k - 1) as nat) {
            let path = choose|path: Seq<int>| #[trigger] walk_from_root(g.nodes, path) && path.last() == v && path.len() <= (k - 1) as nat + 1;
            lemma_walk_reached(g.nodes, gk, r, path, path.len() - 1);
        }
    }
    assert forall|v: int| 0 <= v < n && #[trigger] gk.nodes[v].state.visited implies (gk.nodes[v].state.level matches Some(l)
        && within(g.nodes, v, l as nat) && forall|l2: nat| l2 < l ==> !#[trigger] within(g.nodes, v, l2)) by {
        assert(good_state(gk.nodes, v, r));
        let l = gk.nodes[v].state.level.unwrap();
        let path = lemma_level_walk(g.nodes, gk, r, v);
        assert(walk_from_root(g.nodes, path));
        assert forall|l2: nat| l2 < l implies !#[trigger] within(g.nodes, v, l2) by {
            if within(g.nodes, v, l2) {
                let p2 = choose|p2: Seq<int>| #[trigger] walk_from_root(g.nodes, p2) && p2.last() == v && p2.len() <= l2 + 1;
                lemma_walk_reached(g.nodes, gk, r, p2, p2.len() - 1);
            }
        }
    }
    assert(good_state(gk.nodes, 0, r));
    assert forall|v: int| 0 < v < n && #[trigger] gk.nodes[v].state.visited implies (gk.nodes[v].state.parent matches Some(u)
        && u < n && gk.nodes[u as int].state.visited && g.nodes[u as int].neighbors.contains(v as NodeId)
        && gk.nodes[u as int].state.level.unwrap() + 1 == gk.nodes[v].state.level.unwrap()) by {
        assert(good_state(gk.nodes, v, r));
        let u = gk.nodes[v].state.parent.unwrap() as int;
        assert(g.nodes[u].neighbors == gk.nodes[u].neighbors);
    }
}

} // verus!
