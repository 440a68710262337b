use vstd::prelude::*;

use crate::message::{Message, MessageType, NodeId};
use crate::node::{
    forward_chain, is_first_min, lemma_top_index, top_index, Node, NodeModel, NodeState, NO_PARENT,
};
use crate::random::{random_below, random_ratio};

verus! {

/// Numerator of the chance that two given nodes get an edge.
pub const EDGE_NUMERATOR: u32 = 1;

/// Denominator of the chance that two given nodes get an edge.
pub const EDGE_DENOMINATOR: u32 = 10;

/// The abstract value of a graph.
pub struct GraphModel<T: Message> {
    pub nodes: Seq<NodeModel<T>>,
    pub messages_sent: usize,
}

/// A message that belongs in the inbox of node `i` of an `n`-node graph.
pub open spec fn msg_to<T: Message>(m: T, i: int, n: int) -> bool {
    &&& m.receiver_of() == i
    &&& m.sender_of() matches Some(s) ==> s < n
}

/// A message between nodes of an `n`-node graph.
pub open spec fn msg_ok<T: Message>(m: T, n: int) -> bool {
    &&& m.receiver_of() < n
    &&& m.sender_of() matches Some(s) ==> s < n
}

/// Node `i` of an `n`-node graph: its id, its edges (no loops), its inbox and its parent fit.
pub open spec fn node_wf<T: Message>(nd: NodeModel<T>, i: int, n: int) -> bool {
    &&& nd.id == i
    &&& forall|k: int|
        0 <= k < nd.neighbors.len() ==> #[trigger] nd.neighbors[k] < n && nd.neighbors[k] != i
    &&& forall|k: int| 0 <= k < nd.inbox.len() ==> msg_to(#[trigger] nd.inbox[k], i, n)
    &&& nd.state.parent matches Some(p) ==> p < n
}

/// The nodes after each handled its next message.
pub open spec fn stepped<T: Message>(nodes: Seq<NodeModel<T>>, delays: Seq<T::Time>) -> Seq<NodeModel<T>> {
    Seq::new(nodes.len(), |i: int| nodes[i].step(delays).0)
}

/// The messages that the nodes send in one round, node by node.
pub open spec fn round_outputs<T: Message>(nodes: Seq<NodeModel<T>>, delays: Seq<T::Time>) -> Seq<T>
    decreases nodes.len(),
{
    if nodes.len() == 0 {
        seq![]
    } else {
        round_outputs(nodes.drop_last(), delays) + nodes.last().step(delays).1
    }
}

/// Delivers `msgs`, the last one first, each into the inbox of its receiver.
pub open spec fn deliver<T: Message>(nodes: Seq<NodeModel<T>>, msgs: Seq<T>) -> Seq<NodeModel<T>>
    decreases msgs.len(),
{
    if msgs.len() == 0 {
        nodes
    } else {
        let m = msgs.last();
        let r = m.receiver_of() as int;
        deliver(nodes.update(r, nodes[r].receive(m)), msgs.drop_last())
    }
}

/// Number of visited nodes.
pub open spec fn count_visited<T: Message>(nodes: Seq<NodeModel<T>>) -> nat
    decreases nodes.len(),
{
    if nodes.len() == 0 {
        0
    } else {
        count_visited(nodes.drop_last()) + if nodes.last().state.visited {
            1nat
        } else {
            0nat
        }
    }
}

/// An upper bound on the messages sent in one round.
pub open spec fn send_bound<T: Message>(nodes: Seq<NodeModel<T>>) -> nat
    decreases nodes.len(),
{
    if nodes.len() == 0 {
        0
    } else {
        send_bound(nodes.drop_last()) + nodes.last().neighbors.len() + 1
    }
}

/// What `get_bfs_data` reports for a node.
pub open spec fn bfs_entry<T: Message>(nd: NodeModel<T>) -> (NodeId, usize) {
    (
        match nd.state.parent {
            Some(p) => p,
            None => NO_PARENT,
        },
        nd.state.level.unwrap(),
    )
}

/// A node as `Graph::new` leaves it: no message handled or pending, and edges
/// only to other nodes of the graph.
pub open spec fn fresh<T: Message>(nd: NodeModel<T>, i: int, n: int) -> bool {
    &&& nd.id == i
    &&& forall|k: int|
        0 <= k < nd.neighbors.len() ==> #[trigger] nd.neighbors[k] < n && nd.neighbors[k] != i
    &&& nd.inbox.len() == 0
    &&& nd.state == NodeState { visited: false, parent: None, level: None }
    &&& nd.last_sent == T::zero()
    &&& nd.acks == 0
}

/// How many times `x` appears in `s`.
pub open spec fn occurrences(s: Seq<NodeId>, x: NodeId) -> nat
    decreases s.len(),
{
    if s.len() == 0 {
        0
    } else {
        occurrences(s.drop_last(), x) + if s.last() == x {
            1nat
        } else {
            0nat
        }
    }
}

proof fn lemma_occurrences_push(s: Seq<NodeId>, y: NodeId)
    ensures
        forall|x: NodeId| #[trigger] occurrences(s.push(y), x) == occurrences(s, x) + if y == x { 1nat } else { 0nat },
{
    assert(s.push(y).drop_last() =~= s);
}

/// The neighbour lists of the graph on `n` nodes built by adding `edges` in
/// order, each in both directions.
pub open spec fn edge_lists(n: nat, edges: Seq<(NodeId, NodeId)>) -> Seq<Seq<NodeId>>
    decreases edges.len(),
{
    if edges.len() == 0 {
        Seq::new(n, |i: int| Seq::<NodeId>::empty())
    } else {
        let prev = edge_lists(n, edges.drop_last());
        let (a, b) = edges.last();
        let mid = prev.update(a as int, prev[a as int].push(b));
        mid.update(b as int, mid[b as int].push(a))
    }
}

proof fn lemma_edge_lists_len(n: nat, edges: Seq<(NodeId, NodeId)>)
    requires
        forall|k: int| 0 <= k < edges.len() ==> (#[trigger] edges[k]).0 < n && edges[k].1 < n,
    ensures
        edge_lists(n, edges).len() == n,
    decreases edges.len(),
{
    if edges.len() > 0 {
        assert forall|k: int| 0 <= k < edges.drop_last().len() implies (#[trigger] edges.drop_last()[k]).0 < n
            && edges.drop_last()[k].1 < n by {
            assert(edges.drop_last()[k] == edges[k]);
        }
        lemma_edge_lists_len(n, edges.drop_last());
        assert(edges.last() == edges[edges.len() - 1]);
    }
}

proof fn lemma_push_contains(s: Seq<NodeId>, x: NodeId)
    ensures
        forall|y: NodeId| #[trigger] s.push(x).contains(y) <==> (s.contains(y) || y == x),
{
    assert forall|y: NodeId| #[trigger] s.push(x).contains(y) <==> (s.contains(y) || y == x) by {
        if s.contains(y) {
            let k = choose|k: int| 0 <= k < s.len() && s[k] == y;
            assert(s.push(x)[k] == y);
        }
        if y == x {
            assert(s.push(x)[s.len() as int] == y);
        }
        if s.push(x).contains(y) && y != x {
            let k = choose|k: int| 0 <= k < s.push(x).len() && s.push(x)[k] == y;
            assert(s[k] == y);
        }
    }
}

/// The pairs `(r, j)` with `r < j < n` of row `r`, by increasing `j`.
pub open spec fn pair_row(n: nat, r: nat) -> Seq<(NodeId, NodeId)> {
    Seq::new((n - 1 - r) as nat, |t: int| (r as NodeId, (r + 1 + t) as NodeId))
}

/// The pairs `(r, j)` with `r < j < n` and `r < i`, row by row.
pub open spec fn pairs_upto(n: nat, i: nat) -> Seq<(NodeId, NodeId)>
    decreases i,
{
    if i == 0 {
        seq![]
    } else {
        pairs_upto(n, (i - 1) as nat) + pair_row(n, (i - 1) as nat)
    }
}

/// Every pair of distinct nodes of `0..n`, smaller first, in the order in
/// which a random graph draws their coins.
pub open spec fn all_pairs(n: nat) -> Seq<(NodeId, NodeId)> {
    pairs_upto(n, n)
}

/// The pairs whose coin came up true, in order.
pub open spec fn select(pairs: Seq<(NodeId, NodeId)>, coins: Seq<bool>) -> Seq<(NodeId, NodeId)>
    decreases pairs.len(),
{
    if pairs.len() == 0 || coins.len() == 0 {
        seq![]
    } else {
        let rest = select(pairs.drop_last(), coins.drop_last());
        if coins.last() {
            rest.push(pairs.last())
        } else {
            rest
        }
    }
}

/// Some edge of `edges` has `k` as an end.
pub open spec fn touched(edges: Seq<(NodeId, NodeId)>, k: NodeId) -> bool
    decreases edges.len(),
{
    edges.len() > 0 && (touched(edges.drop_last(), k) || edges.last().0 == k || edges.last().1 == k)
}

/// The node that a draw `pick` from `0..n - 1` names among the nodes other
/// than `k`.
pub open spec fn skip_self(pick: NodeId, k: NodeId) -> NodeId {
    if pick >= k {
        (pick + 1) as NodeId
    } else {
        pick
    }
}

/// The picks `0..n - 1` of node `k < n` name the other nodes one to one, in
/// increasing order: a pick never names `k`, stays below `n`, larger picks
/// name larger nodes, and every node other than `k` is named by some pick. A
/// uniform pick thus gives a uniform other node.
pub proof fn lemma_skip_self_law(n: nat, k: NodeId)
    requires
        k < n <= usize::MAX,
    ensures
        forall|p: NodeId| p < n - 1 ==> #[trigger] skip_self(p, k) != k && skip_self(p, k) < n,
        forall|p: NodeId, q: NodeId| p < q < n - 1 ==> #[trigger] skip_self(p, k) < #[trigger] skip_self(q, k),
        forall|t: NodeId| t < n && t != k ==> #[trigger] named_by_a_pick(n, k, t),
{
    assert forall|t: NodeId| t < n && t != k implies #[trigger] named_by_a_pick(n, k, t) by {
        if t < k {
            assert(skip_self(t, k) == t);
        } else {
            assert(skip_self((t - 1) as NodeId, k) == t);
        }
    }
}

/// Some pick `p < n - 1` of node `k` names `t`.
pub open spec fn named_by_a_pick(n: nat, k: NodeId, t: NodeId) -> bool {
    exists|p: NodeId| p < n - 1 && #[trigger] skip_self(p, k) == t
}

/// For each node `k < i` that no edge of `drawn` touches, in order, the edge
/// from the node that `picks[k]` names to `k`.
pub open spec fn fallback_edges(drawn: Seq<(NodeId, NodeId)>, picks: Seq<usize>, i: nat) -> Seq<(NodeId, NodeId)>
    decreases i,
{
    if i == 0 {
        seq![]
    } else {
        let rest = fallback_edges(drawn, picks, (i - 1) as nat);
        let k = (i - 1) as NodeId;
        if touched(drawn, k) {
            rest
        } else {
            rest.push((skip_self(picks[k as int], k), k))
        }
    }
}

/// The edges of the random graph on `n` nodes drawn with these coins (one per
/// pair, in the order of `all_pairs`) and picks (one per node): the pairs
/// whose coin is true, then a fallback edge for each node that they leave
/// without one.
pub open spec fn random_edges(n: nat, coins: Seq<bool>, picks: Seq<usize>) -> Seq<(NodeId, NodeId)> {
    let drawn = select(all_pairs(n), coins);
    drawn + fallback_edges(drawn, picks, n)
}

/// Earlier rows are a prefix of later ones.
proof fn lemma_pairs_prefix(n: nat, i: nat, i2: nat)
    requires
        i <= i2,
    ensures
        pairs_upto(n, i).len() <= pairs_upto(n, i2).len(),
        pairs_upto(n, i2).take(pairs_upto(n, i).len() as int) == pairs_upto(n, i),
    decreases i2,
{
    if i2 == i {
        assert(pairs_upto(n, i2).take(pairs_upto(n, i).len() as int) =~= pairs_upto(n, i));
    } else {
        lemma_pairs_prefix(n, i, (i2 - 1) as nat);
        let a = pairs_upto(n, (i2 - 1) as nat);
        let l0 = pairs_upto(n, i).len() as int;
        assert(pairs_upto(n, i2) == a + pair_row(n, (i2 - 1) as nat));
        assert((a + pair_row(n, (i2 - 1) as nat)).take(l0) =~= a.take(l0));
    }
}

/// The number of pairs in the first `i` rows, and that each is a pair of
/// distinct nodes, smaller first.
proof fn lemma_pairs_upto(n: nat, i: nat)
    requires
        i <= n,
        n <= usize::MAX,
    ensures
        2 * pairs_upto(n, i).len() == i * (2 * n - i - 1),
        forall|t: int| 0 <= t < pairs_upto(n, i).len() ==> (#[trigger] pairs_upto(n, i)[t]).0 < pairs_upto(n, i)[t].1 < n,
    decreases i,
{
    if i > 0 {
        lemma_pairs_upto(n, (i - 1) as nat);
        let a = pairs_upto(n, (i - 1) as nat);
        let r = pair_row(n, (i - 1) as nat);
        assert(2 * (a.len() + r.len()) == i * (2 * n - i - 1)) by (nonlinear_arith)
            requires
                2 * a.len() == (i - 1) * (2 * n - (i - 1) - 1),
                r.len() == n - i,
                1 <= i <= n,
        ;
        assert forall|t: int| 0 <= t < pairs_upto(n, i).len() implies (#[trigger] pairs_upto(n, i)[t]).0 < pairs_upto(n, i)[t].1 < n by {
            if t >= a.len() {
                assert(pairs_upto(n, i)[t] == r[t - a.len()]);
            } else {
                assert(pairs_upto(n, i)[t] == a[t]);
            }
        }
    }
}

/// There are `n * (n - 1) / 2` pairs, and each is a pair of distinct nodes,
/// smaller first.
proof fn lemma_all_pairs(n: nat)
    requires
        n <= usize::MAX,
    ensures
        all_pairs(n).len() == n * (n - 1) / 2,
        forall|t: int| 0 <= t < all_pairs(n).len() ==> (#[trigger] all_pairs(n)[t]).0 < all_pairs(n)[t].1 < n,
{
    lemma_pairs_upto(n, n);
    let l = all_pairs(n).len();
    assert(2 * l == n * (n - 1)) by (nonlinear_arith)
        requires
            2 * l == n * (2 * n - n - 1),
    ;
    assert(l == n * (n - 1) / 2) by (nonlinear_arith)
        requires
            2 * l == n * (n - 1),
    ;
}

/// An edge list touches `k` exactly when one of its edges has `k` as an end.
pub proof fn lemma_touched_law(edges: Seq<(NodeId, NodeId)>, k: NodeId)
    ensures
        touched(edges, k) <==> exists|e: int| 0 <= e < edges.len() && ((#[trigger] edges[e]).0 == k || edges[e].1 == k),
    decreases edges.len(),
{
    if edges.len() > 0 {
        let init = edges.drop_last();
        lemma_touched_law(init, k);
        if touched(edges, k) {
            if touched(init, k) {
                let e = choose|e: int| 0 <= e < init.len() && ((#[trigger] init[e]).0 == k || init[e].1 == k);
                assert(edges[e] == init[e]);
            } else {
                assert(edges[edges.len() - 1] == edges.last());
            }
        }
        if exists|e: int| 0 <= e < edges.len() && ((#[trigger] edges[e]).0 == k || edges[e].1 == k) {
            let e = choose|e: int| 0 <= e < edges.len() && ((#[trigger] edges[e]).0 == k || edges[e].1 == k);
            if e < edges.len() - 1 {
                assert(init[e] == edges[e]);
            }
        }
    }
}

/// The fallback edges: exactly one for each node below `i` that the drawn
/// edges leave alone, ending at that node and starting at the node its pick
/// names; none for any other node.
pub proof fn lemma_fallback_law(drawn: Seq<(NodeId, NodeId)>, picks: Seq<usize>, i: nat)
    requires
        i <= usize::MAX,
    ensures
        forall|e: int|
            0 <= e < fallback_edges(drawn, picks, i).len() ==> {
                let x = #[trigger] fallback_edges(drawn, picks, i)[e];
                x.1 < i && !touched(drawn, x.1) && x.0 == skip_self(picks[x.1 as int], x.1)
            },
        forall|k: NodeId|
            k < i && !#[trigger] touched(drawn, k) ==> fallback_edges(drawn, picks, i).contains(
                (skip_self(picks[k as int], k), k),
            ),
        forall|e: int, f: int|
            0 <= e < f < fallback_edges(drawn, picks, i).len() ==> (#[trigger] fallback_edges(drawn, picks, i)[e]).1
                < (#[trigger] fallback_edges(drawn, picks, i)[f]).1,
    decreases i,
{
    if i > 0 {
        let j = (i - 1) as nat;
        lemma_fallback_law(drawn, picks, j);
        let rest = fallback_edges(drawn, picks, j);
        let out = fallback_edges(drawn, picks, i);
        assert forall|e: int| 0 <= e < out.len() implies {
            let x = #[trigger] out[e];
            x.1 < i && !touched(drawn, x.1) && x.0 == skip_self(picks[x.1 as int], x.1)
        } by {
            if e < rest.len() {
                assert(out[e] == rest[e]);
            }
        }
        assert forall|k: NodeId| k < i && !#[trigger] touched(drawn, k) implies out.contains((skip_self(picks[k as int], k), k)) by {
            if k < j {
                let e = choose|e: int| 0 <= e < rest.len() && rest[e] == (skip_self(picks[k as int], k), k);
                assert(out[e] == rest[e]);
            } else {
                assert(out[rest.len() as int] == (skip_self(picks[k as int], k), k));
            }
        }
        assert forall|e: int, f: int| 0 <= e < f < out.len() implies (#[trigger] out[e]).1 < (#[trigger] out[f]).1 by {
            if f < rest.len() {
                assert(out[e] == rest[e] && out[f] == rest[f]);
            } else {
                assert(out[e] == rest[e]);
            }
        }
    }
}

/// Position of the pair `(i, j)`, `i < j`, in `all_pairs(n)`: the coin that
/// decides whether it is an edge.
pub open spec fn pair_index(n: nat, i: nat, j: nat) -> int {
    pairs_upto(n, i).len() + (j - i - 1)
}

/// Pair `a` comes before pair `b` in row-by-row order.
pub open spec fn pair_before(a: (NodeId, NodeId), b: (NodeId, NodeId)) -> bool {
    a.0 < b.0 || (a.0 == b.0 && a.1 < b.1)
}

/// The first `i` rows are in row-by-row order, each pair in a row below `i`.
proof fn lemma_pairs_ordered(n: nat, i: nat)
    requires
        n <= usize::MAX,
        i <= n,
    ensures
        forall|t: int| 0 <= t < pairs_upto(n, i).len() ==> (#[trigger] pairs_upto(n, i)[t]).0 < i,
        forall|t: int, u: int|
            0 <= t < u < pairs_upto(n, i).len() ==> pair_before(#[trigger] pairs_upto(n, i)[t], #[trigger] pairs_upto(n, i)[u]),
    decreases i,
{
    if i > 0 {
        lemma_pairs_ordered(n, (i - 1) as nat);
        let a = pairs_upto(n, (i - 1) as nat);
        let r = pair_row(n, (i - 1) as nat);
        let p = pairs_upto(n, i);
        assert(p == a + r);
        assert forall|t: int| 0 <= t < p.len() implies (#[trigger] p[t]).0 < i by {
            if t < a.len() {
                assert(p[t] == a[t]);
            } else {
                assert(p[t] == r[t - a.len()]);
            }
        }
        assert forall|t: int, u: int| 0 <= t < u < p.len() implies pair_before(#[trigger] p[t], #[trigger] p[u]) by {
            if u < a.len() {
                assert(p[t] == a[t] && p[u] == a[u]);
            } else if t < a.len() {
                assert(p[t] == a[t] && p[u] == r[u - a.len()]);
            } else {
                assert(p[t] == r[t - a.len()] && p[u] == r[u - a.len()]);
            }
        }
    }
}

/// A pair is selected exactly when some position holds it with its coin up.
proof fn lemma_select_contains(pairs: Seq<(NodeId, NodeId)>, coins: Seq<bool>, x: (NodeId, NodeId))
    requires
        coins.len() == pairs.len(),
    ensures
        select(pairs, coins).contains(x) <==> exists|t: int| 0 <= t < pairs.len() && #[trigger] pairs[t] == x && coins[t],
    decreases pairs.len(),
{
    if pairs.len() > 0 {
        let pi = pairs.drop_last();
        let ci = coins.drop_last();
        lemma_select_contains(pi, ci, x);
        let rest = select(pi, ci);
        let out = select(pairs, coins);
        if out.contains(x) {
            let k = choose|k: int| 0 <= k < out.len() && out[k] == x;
            if k < rest.len() {
                assert(out[k] == rest[k]);
                assert(rest.contains(x));
                let t = choose|t: int| 0 <= t < pi.len() && #[trigger] pi[t] == x && ci[t];
                assert(pairs[t] == pi[t] && coins[t] == ci[t]);
            } else {
                assert(pairs[pairs.len() - 1] == x && coins[coins.len() - 1]);
            }
        }
        if exists|t: int| 0 <= t < pairs.len() && #[trigger] pairs[t] == x && coins[t] {
            let t = choose|t: int| 0 <= t < pairs.len() && #[trigger] pairs[t] == x && coins[t];
            if t < pairs.len() - 1 {
                assert(pi[t] == pairs[t] && ci[t] == coins[t]);
                assert(rest.contains(x));
                let k = choose|k: int| 0 <= k < rest.len() && rest[k] == x;
                if coins.last() {
                    assert(out[k] == rest[k]);
                }
            } else {
                assert(out[rest.len() as int] == x);
            }
        }
    }
}

/// Of the random graph drawn with `coins`, the pair `(i, j)`, `i < j < n`, is
/// a drawn edge exactly when its coin is up.
pub proof fn lemma_drawn_edge(n: nat, coins: Seq<bool>, i: nat, j: nat)
    requires
        n <= usize::MAX,
        coins.len() == n * (n - 1) / 2,
        i < j < n,
    ensures
        0 <= pair_index(n, i, j) < coins.len(),
        all_pairs(n)[pair_index(n, i, j)] == (i as NodeId, j as NodeId),
        select(all_pairs(n), coins).contains((i as NodeId, j as NodeId)) <==> coins[pair_index(n, i, j)],
{
    let pairs = all_pairs(n);
    let c = pair_index(n, i, j);
    lemma_all_pairs(n);
    lemma_pairs_prefix(n, i + 1, n);
    lemma_pairs_prefix(n, i, i + 1);
    lemma_pairs_ordered(n, n);
    assert(pairs_upto(n, i + 1) == pairs_upto(n, i) + pair_row(n, i));
    assert(pairs[c] == pairs_upto(n, i + 1)[c]);
    assert(pairs[c] == pair_row(n, i)[c - pairs_upto(n, i).len()]);
    lemma_select_contains(pairs, coins, (i as NodeId, j as NodeId));
    if exists|t: int| 0 <= t < pairs.len() && #[trigger] pairs[t] == (i as NodeId, j as NodeId) && coins[t] {
        let t = choose|t: int| 0 <= t < pairs.len() && #[trigger] pairs[t] == (i as NodeId, j as NodeId) && coins[t];
        if t < c {
            assert(pair_before(pairs[t], pairs[c]));
        } else if c < t {
            assert(pair_before(pairs[c], pairs[t]));
        }
    }
}

/// `data` (parent and level of each node) is a breadth-first tree rooted at
/// node 0: the root has level 0 and no parent; every other node's parent has
/// it as neighbour and a level one less; and no edge skips a level downwards.
pub open spec fn is_bfs_tree_spec<T: Message>(nodes: Seq<NodeModel<T>>, data: Seq<(NodeId, usize)>) -> bool {
    &&& data.len() == nodes.len()
    &&& nodes.len() > 0 ==> data[0] == (NO_PARENT, 0usize)
    &&& forall|i: int| 1 <= i < nodes.len() ==> {
        let (p, l) = #[trigger] data[i];
        &&& p < nodes.len()
        &&& data[p as int].1 + 1 == l
        &&& nodes[p as int].neighbors.contains(i as NodeId)
    }
    &&& forall|i: int, k: int|
        0 <= i < nodes.len() && 0 <= k < nodes[i].neighbors.len() ==> {
            let j = #[trigger] nodes[i].neighbors[k];
            &&& j < nodes.len()
            &&& data[j as int].1 <= data[i].1 + 1
        }
}

impl<T: Message> GraphModel<T> {
    pub open spec fn wf(self) -> bool {
        forall|i: int| 0 <= i < self.nodes.len() ==> node_wf(#[trigger] self.nodes[i], i, self.nodes.len() as int)
    }

    /// Every edge goes both ways.
    pub open spec fn symmetric(self) -> bool {
        forall|a: int, b: int|
            0 <= a < self.nodes.len() && 0 <= b < self.nodes.len() ==> (
            #[trigger] self.nodes[a].neighbors.contains(b as NodeId) <==> #[trigger] self.nodes[b].neighbors.contains(a as NodeId))
    }

    /// Each edge goes both ways as often: `b` appears in the list of `a` as many
    /// times as `a` in the list of `b`.
    pub open spec fn balanced(self) -> bool {
        forall|a: int, b: int|
            0 <= a < self.nodes.len() && 0 <= b < self.nodes.len() ==> #[trigger] occurrences(self.nodes[a].neighbors, b as NodeId)
                == #[trigger] occurrences(self.nodes[b].neighbors, a as NodeId)
    }

    /// Node `i` is the neighbour of some node.
    pub open spec fn has_edge_into(self, i: int) -> bool {
        exists|j: int| 0 <= j < self.nodes.len() && #[trigger] self.nodes[j].neighbors.contains(i as NodeId)
    }

    /// Every node is the neighbour of some node.
    pub open spec fn covered(self) -> bool {
        forall|i: int| 0 <= i < self.nodes.len() ==> #[trigger] self.has_edge_into(i)
    }

    /// Every node can handle its next message, and the message counter has room
    /// for every message a round may send.
    pub open spec fn round_ready(self, delays: Seq<T::Time>) -> bool {
        &&& forall|i: int| 0 <= i < self.nodes.len() ==> #[trigger] self.nodes[i].ready(delays)
        &&& self.messages_sent + send_bound(self.nodes) <= usize::MAX
    }

    /// Node `r` handles `msg` right after it arrives: the graph afterwards and
    /// what the node sends.
    pub open spec fn handle(self, msg: T, delays: Seq<T::Time>) -> (GraphModel<T>, Seq<T>) {
        let r = msg.receiver_of() as int;
        let (nd, out) = self.nodes[r].receive(msg).step(delays);
        (
            GraphModel {
                nodes: self.nodes.update(r, nd),
                messages_sent: (self.messages_sent + out.len()) as usize,
            },
            out,
        )
    }

    /// `msg` can be handled on arrival.
    pub open spec fn handle_ready(self, msg: T, delays: Seq<T::Time>) -> bool {
        let r = msg.receiver_of() as int;
        &&& msg_ok(msg, self.nodes.len() as int)
        &&& self.nodes[r].receive(msg).ready(delays)
        &&& self.messages_sent + self.nodes[r].neighbors.len() + 1 <= usize::MAX
    }

    /// One round: every node handles its next message, then all the messages sent
    /// are delivered.
    pub open spec fn round(self, delays: Seq<T::Time>) -> GraphModel<T> {
        let outs = round_outputs(self.nodes, delays);
        GraphModel {
            nodes: deliver(stepped(self.nodes, delays), outs),
            messages_sent: (self.messages_sent + outs.len()) as usize,
        }
    }
}

/// How many messages the nodes send in one round, node by node.
pub open spec fn sent_in<T: Message>(nodes: Seq<NodeModel<T>>, delays: Seq<T::Time>) -> nat
    decreases nodes.len(),
{
    if nodes.len() == 0 {
        0
    } else {
        sent_in(nodes.drop_last(), delays) + nodes.last().step(delays).1.len()
    }
}

/// How many messages wait in the nodes' inboxes.
pub open spec fn inbox_total<T: Message>(nodes: Seq<NodeModel<T>>) -> nat
    decreases nodes.len(),
{
    if nodes.len() == 0 {
        0
    } else {
        inbox_total(nodes.drop_last()) + nodes.last().inbox.len()
    }
}

proof fn lemma_outputs_len<T: Message>(nodes: Seq<NodeModel<T>>, delays: Seq<T::Time>)
    ensures
        round_outputs(nodes, delays).len() == sent_in(nodes, delays),
    decreases nodes.len(),
{
    if nodes.len() > 0 {
        lemma_outputs_len(nodes.drop_last(), delays);
    }
}

proof fn lemma_inbox_total_update<T: Message>(s: Seq<NodeModel<T>>, i: int, x: NodeModel<T>)
    requires
        0 <= i < s.len(),
    ensures
        inbox_total(s.update(i, x)) + s[i].inbox.len() == inbox_total(s) + x.inbox.len(),
    decreases s.len(),
{
    let t = s.update(i, x);
    if i == s.len() - 1 {
        assert(t.drop_last() =~= s.drop_last());
    } else {
        assert(t.drop_last() =~= s.drop_last().update(i, x));
        lemma_inbox_total_update(s.drop_last(), i, x);
    }
}

/// How many of `msgs` go to node `i`.
pub open spec fn addressed_to<T: Message>(msgs: Seq<T>, i: int) -> nat
    decreases msgs.len(),
{
    if msgs.len() == 0 {
        0
    } else {
        addressed_to(msgs.drop_last(), i) + if msgs.last().receiver_of() == i { 1nat } else { 0nat }
    }
}

/// Delivering gives each node exactly the messages addressed to it.
proof fn lemma_deliver_each<T: Message>(nodes: Seq<NodeModel<T>>, msgs: Seq<T>)
    requires
        forall|k: int| 0 <= k < msgs.len() ==> (#[trigger] msgs[k]).receiver_of() < nodes.len(),
    ensures
        forall|i: int| 0 <= i < nodes.len() ==> #[trigger] deliver(nodes, msgs)[i].inbox.len() == nodes[i].inbox.len()
            + addressed_to(msgs, i),
    decreases msgs.len(),
{
    if msgs.len() > 0 {
        let m = msgs.last();
        let r = m.receiver_of() as int;
        assert(msgs[msgs.len() - 1] == m);
        let n2 = nodes.update(r, nodes[r].receive(m));
        assert forall|k: int| 0 <= k < msgs.drop_last().len() implies (#[trigger] msgs.drop_last()[k]).receiver_of() < n2.len() by {
            assert(msgs.drop_last()[k] == msgs[k]);
        }
        lemma_deliver_each(n2, msgs.drop_last());
        lemma_addressed_last(msgs);
    }
}

/// Counting the messages to a node, the last one first.
proof fn lemma_addressed_last<T: Message>(msgs: Seq<T>)
    requires
        msgs.len() > 0,
    ensures
        forall|i: int| #[trigger] addressed_to(msgs, i) == addressed_to(msgs.drop_last(), i) + if msgs.last().receiver_of() == i { 1nat } else { 0nat },
{
}

/// Delivering messages to nodes of the graph puts each into one inbox.
proof fn lemma_deliver_total<T: Message>(nodes: Seq<NodeModel<T>>, msgs: Seq<T>)
    requires
        forall|k: int| 0 <= k < msgs.len() ==> (#[trigger] msgs[k]).receiver_of() < nodes.len(),
    ensures
        inbox_total(deliver(nodes, msgs)) == inbox_total(nodes) + msgs.len(),
        deliver(nodes, msgs).len() == nodes.len(),
    decreases msgs.len(),
{
    if msgs.len() > 0 {
        let m = msgs.last();
        let r = m.receiver_of() as int;
        assert(msgs[msgs.len() - 1] == m);
        let n2 = nodes.update(r, nodes[r].receive(m));
        lemma_inbox_total_update(nodes, r, nodes[r].receive(m));
        assert forall|k: int| 0 <= k < msgs.drop_last().len() implies (#[trigger] msgs.drop_last()[k]).receiver_of() < n2.len() by {
            assert(msgs.drop_last()[k] == msgs[k]);
        }
        lemma_deliver_total(n2, msgs.drop_last());
    }
}

/// A round counts exactly the messages the nodes send in it, and each of them
/// lands in an inbox: the counter grows by the number sent, node by node, and
/// the inboxes, after every node took its message, grow by as many.
pub proof fn lemma_round_counts<T: Message>(g: GraphModel<T>, delays: Seq<T::Time>)
    requires
        g.wf(),
        g.round_ready(delays),
    ensures
        g.round(delays).messages_sent == g.messages_sent + sent_in(g.nodes, delays),
        inbox_total(g.round(delays).nodes) == inbox_total(stepped(g.nodes, delays)) + sent_in(g.nodes, delays),
        g.round(delays).nodes.len() == g.nodes.len(),
        forall|i: int|
            0 <= i < g.nodes.len() ==> #[trigger] g.round(delays).nodes[i].inbox.len() == g.nodes[i].step(delays).0.inbox.len()
                + addressed_to(round_outputs(g.nodes, delays), i),
{
    let n = g.nodes.len() as int;
    lemma_round_outputs_bounded(g.nodes, delays, n);
    lemma_outputs_len(g.nodes, delays);
    let outs = round_outputs(g.nodes, delays);
    assert forall|k: int| 0 <= k < outs.len() implies (#[trigger] outs[k]).receiver_of() < stepped(g.nodes, delays).len() by {
        assert(msg_ok(outs[k], n));
    }
    lemma_deliver_total(stepped(g.nodes, delays), outs);
    lemma_deliver_each(stepped(g.nodes, delays), outs);
}

/// Handling one message counts exactly the messages it sends.
pub proof fn lemma_handle_counts<T: Message>(g: GraphModel<T>, msg: T, delays: Seq<T::Time>)
    requires
        g.wf(),
        g.handle_ready(msg, delays),
    ensures
        g.handle(msg, delays).0.messages_sent == g.messages_sent + g.handle(msg, delays).1.len(),
{
    let n = g.nodes.len() as int;
    let r = msg.receiver_of() as int;
    let nd = g.nodes[r].receive(msg);
    assert(node_wf(g.nodes[r], r, n));
    assert forall|k: int| 0 <= k < nd.inbox.len() implies msg_to(#[trigger] nd.inbox[k], r, n) by {
        if k < g.nodes[r].inbox.len() {
            assert(nd.inbox[k] == g.nodes[r].inbox[k]);
        }
    }
    lemma_step_wf(nd, r, n, delays);
}

pub proof fn lemma_forward_chain<T: Message>(
    msg: T,
    nbrs: Seq<NodeId>,
    skip: NodeId,
    delays: Seq<T::Time>,
    k: int,
    n: int,
)
    requires
        forall|j: int| 0 <= j < nbrs.len() ==> #[trigger] nbrs[j] < n,
    ensures
        forward_chain(msg, nbrs, skip, delays, k).len() <= nbrs.len(),
        forall|j: int|
            0 <= j < forward_chain(msg, nbrs, skip, delays, k).len() ==> {
                let m = #[trigger] forward_chain(msg, nbrs, skip, delays, k)[j];
                &&& m.receiver_of() < n
                &&& m.sender_of() == msg.sender_of()
            },
    decreases nbrs.len(),
{
    if nbrs.len() > 0 {
        assert(nbrs[0] < n);
        let rest = nbrs.drop_first();
        assert forall|j: int| 0 <= j < rest.len() implies #[trigger] rest[j] < n by {
            assert(rest[j] == nbrs[j + 1]);
        }
        if nbrs[0] == skip {
            lemma_forward_chain(msg, rest, skip, delays, k, n);
        } else {
            let next = msg.spec_next_in_level(nbrs[0], delays[k]);
            T::lemma_constructors(msg, T::zero(), nbrs[0], delays[k]);
            lemma_forward_chain(next, rest, skip, delays, k + 1, n);
            let tail = forward_chain(next, rest, skip, delays, k + 1);
            assert(forward_chain(msg, nbrs, skip, delays, k) == seq![next] + tail);
            assert forall|j: int|
                0 <= j < forward_chain(msg, nbrs, skip, delays, k).len() implies {
                let m = #[trigger] forward_chain(msg, nbrs, skip, delays, k)[j];
                &&& m.receiver_of() < n
                &&& m.sender_of() == msg.sender_of()
            } by {
                if j > 0 {
                    assert(forward_chain(msg, nbrs, skip, delays, k)[j] == tail[j - 1]);
                }
            }
        }
    }
}

/// One step keeps a node well formed; what it sends comes from it and goes to a node.
pub proof fn lemma_step_wf<T: Message>(nd: NodeModel<T>, i: int, n: int, delays: Seq<T::Time>)
    requires
        0 <= i < n,
        node_wf(nd, i, n),
        nd.ready(delays),
    ensures
        node_wf(nd.step(delays).0, i, n),
        nd.step(delays).0.neighbors == nd.neighbors,
        nd.step(delays).1.len() <= nd.neighbors.len() + 1,
        forall|k: int|
            0 <= k < nd.step(delays).1.len() ==> {
                let m = #[trigger] nd.step(delays).1[k];
                &&& m.receiver_of() < n
                &&& m.sender_of() == Some(i as NodeId)
            },
{
    if nd.inbox.len() > 0 {
        lemma_top_index(nd.inbox);
        let t = top_index(nd.inbox);
        let m = nd.inbox[t];
        assert(msg_to(m, i, n));
        let rest = nd.inbox.remove(t);
        assert forall|k: int| 0 <= k < rest.len() implies msg_to(#[trigger] rest[k], i, n) by {
            if k < t {
                assert(rest[k] == nd.inbox[k]);
            } else {
                assert(rest[k] == nd.inbox[k + 1]);
            }
        }
        let p = match nd.state.parent {
            Some(p) => p,
            None => 0,
        };
        let s = match m.sender_of() {
            Some(s) => s,
            None => 0,
        };
        T::lemma_constructors(m, m.time_of(), p, delays[0]);
        T::lemma_constructors(m, nd.last_sent, s, delays[0]);
        if !m.ack_of() && !nd.state.visited && !(nd.neighbors.len() == 1 && m.sender_of() is Some) {
            let skip = match m.sender_of() {
                Some(p) => p,
                None => usize::MAX,
            };
            let first = m.spec_to_next_level(nd.last_sent);
            lemma_forward_chain(first, nd.neighbors, skip, delays, 0, n);
        }
    }
}

pub proof fn lemma_round_outputs_bounded<T: Message>(nodes: Seq<NodeModel<T>>, delays: Seq<T::Time>, n: int)
    requires
        nodes.len() <= n,
        forall|i: int| 0 <= i < nodes.len() ==> node_wf(#[trigger] nodes[i], i, n),
        forall|i: int| 0 <= i < nodes.len() ==> #[trigger] nodes[i].ready(delays),
    ensures
        round_outputs(nodes, delays).len() <= send_bound(nodes),
        forall|k: int|
            0 <= k < round_outputs(nodes, delays).len() ==> msg_ok(#[trigger] round_outputs(nodes, delays)[k], n),
    decreases nodes.len(),
{
    if nodes.len() > 0 {
        let init = nodes.drop_last();
        assert forall|i: int| 0 <= i < init.len() implies node_wf(#[trigger] init[i], i, n) by {
            assert(init[i] == nodes[i]);
        }
        assert forall|i: int| 0 <= i < init.len() implies #[trigger] init[i].ready(delays) by {
            assert(init[i] == nodes[i]);
        }
        lemma_round_outputs_bounded(init, delays, n);
        lemma_step_wf(nodes.last(), nodes.len() - 1, n, delays);
        let a = round_outputs(init, delays);
        let b = nodes.last().step(delays).1;
        assert forall|k: int|
            0 <= k < round_outputs(nodes, delays).len() implies msg_ok(
            #[trigger] round_outputs(nodes, delays)[k],
            n,
        ) by {
            if k < a.len() {
                assert(round_outputs(nodes, delays)[k] == a[k]);
            } else {
                assert(round_outputs(nodes, delays)[k] == b[k - a.len()]);
            }
        }
    }
}

proof fn lemma_send_bound_prefix<T: Message>(nodes: Seq<NodeModel<T>>, k: int)
    requires
        0 <= k <= nodes.len(),
    ensures
        send_bound(nodes.take(k)) <= send_bound(nodes),
    decreases nodes.len(),
{
    if k < nodes.len() {
        assert(nodes.drop_last().take(k) =~= nodes.take(k));
        lemma_send_bound_prefix(nodes.drop_last(), k);
    } else {
        assert(nodes.take(k) =~= nodes);
    }
}

pub proof fn lemma_deliver_wf<T: Message>(nodes: Seq<NodeModel<T>>, msgs: Seq<T>)
    requires
        forall|i: int| 0 <= i < nodes.len() ==> node_wf(#[trigger] nodes[i], i, nodes.len() as int),
        forall|k: int| 0 <= k < msgs.len() ==> msg_ok(#[trigger] msgs[k], nodes.len() as int),
    ensures
        deliver(nodes, msgs).len() == nodes.len(),
        forall|i: int|
            0 <= i < nodes.len() ==> node_wf(#[trigger] deliver(nodes, msgs)[i], i, nodes.len() as int),
        forall|i: int|
            0 <= i < nodes.len() ==> (#[trigger] deliver(nodes, msgs)[i]).with_inbox(nodes[i].inbox)
                == nodes[i],
    decreases msgs.len(),
{
    if msgs.len() > 0 {
        let n = nodes.len() as int;
        let m = msgs.last();
        assert(msg_ok(m, n));
        let r = m.receiver_of() as int;
        let nodes2 = nodes.update(r, nodes[r].receive(m));
        assert forall|i: int| 0 <= i < n implies node_wf(#[trigger] nodes2[i], i, n) by {
            if i == r {
                let ib = nodes[r].inbox.push(m);
                assert forall|k: int| 0 <= k < ib.len() implies msg_to(#[trigger] ib[k], i, n) by {
                    if k < nodes[r].inbox.len() {
                        assert(ib[k] == nodes[r].inbox[k]);
                    }
                }
            }
        }
        let rest = msgs.drop_last();
        assert forall|k: int| 0 <= k < rest.len() implies msg_ok(#[trigger] rest[k], n) by {
            assert(rest[k] == msgs[k]);
        }
        lemma_deliver_wf(nodes2, rest);
        assert forall|i: int| 0 <= i < n implies (#[trigger] deliver(nodes, msgs)[i]).with_inbox(nodes[i].inbox)
            == nodes[i] by {
            assert(deliver(nodes, msgs)[i].with_inbox(nodes2[i].inbox) == nodes2[i]);
        }
    }
}

/// Handling a message leaves a visited node's state (visited, parent, level)
/// as it was, and removes exactly one message from a non-empty inbox.
pub proof fn lemma_step_keeps_visited_state<T: Message>(nd: NodeModel<T>, delays: Seq<T::Time>)
    ensures
        nd.state.visited ==> nd.step(delays).0.state == nd.state,
        nd.step(delays).0.state.visited || !nd.state.visited,
        nd.inbox.len() > 0 ==> nd.step(delays).0.inbox.len() == nd.inbox.len() - 1,
        nd.step(delays).0.neighbors == nd.neighbors,
        nd.step(delays).0.id == nd.id,
{
    if nd.inbox.len() > 0 {
        lemma_top_index(nd.inbox);
    }
}

/// A round never undoes a visit: a node visited before the round is visited
/// after it, with the same parent and level.
pub proof fn lemma_round_keeps_visited<T: Message>(g: GraphModel<T>, delays: Seq<T::Time>)
    requires
        g.wf(),
        g.round_ready(delays),
    ensures
        g.round(delays).nodes.len() == g.nodes.len(),
        forall|i: int|
            0 <= i < g.nodes.len() && (#[trigger] g.nodes[i]).state.visited ==> g.round(delays).nodes[i].state
                == g.nodes[i].state,
        count_visited(g.nodes) <= count_visited(g.round(delays).nodes),
{
    let n = g.nodes.len() as int;
    let st = stepped(g.nodes, delays);
    assert forall|k: int| 0 <= k < n implies node_wf(#[trigger] st[k], k, n) by {
        lemma_step_wf(g.nodes[k], k, n, delays);
    }
    lemma_round_outputs_bounded(g.nodes, delays, n);
    lemma_deliver_wf(st, round_outputs(g.nodes, delays));
    let after = g.round(delays).nodes;
    assert forall|i: int| 0 <= i < n implies after[i].state == st[i].state by {
        assert(after[i].with_inbox(st[i].inbox) == st[i]);
    }
    assert forall|i: int| 0 <= i < n implies (st[i].state.visited || !g.nodes[i].state.visited) && (g.nodes[i].state.visited ==> st[i].state == g.nodes[i].state) by {
        lemma_step_keeps_visited_state(g.nodes[i], delays);
    }
    lemma_count_visited_mono(g.nodes, after);
}

pub(crate) proof fn lemma_count_visited_mono<T: Message>(a: Seq<NodeModel<T>>, b: Seq<NodeModel<T>>)
    requires
        a.len() == b.len(),
        forall|i: int| 0 <= i < a.len() && (#[trigger] a[i]).state.visited ==> b[i].state.visited,
    ensures
        count_visited(a) <= count_visited(b),
    decreases a.len(),
{
    if a.len() > 0 {
        assert forall|i: int| 0 <= i < a.len() - 1 && (#[trigger] a.drop_last()[i]).state.visited implies b.drop_last()[i].state.visited by {
            assert(a.drop_last()[i] == a[i] && b.drop_last()[i] == b[i]);
        }
        lemma_count_visited_mono(a.drop_last(), b.drop_last());
        assert(a.last() == a[a.len() - 1]);
    }
}

/// The simulated network: nodes with adjacency lists and inboxes.
#[derive(Clone)]
pub struct Graph<T: Message> {
    nodes: Vec<Node<T>>,
    pub messages_sent: usize,
}

impl<T: Message> View for Graph<T> {
    type V = GraphModel<T>;

    closed spec fn view(&self) -> GraphModel<T> {
        GraphModel {
            nodes: self.nodes@.map_values(|nd: Node<T>| nd@),
            messages_sent: self.messages_sent,
        }
    }
}

impl<T: Message> Graph<T> {
    proof fn lemma_view(&self)
        ensures
            self@.nodes.len() == self.nodes@.len(),
            forall|i: int| 0 <= i < self.nodes@.len() ==> #[trigger] self@.nodes[i] == self.nodes@[i]@,
            self@.messages_sent == self.messages_sent,
    {
    }

    pub fn size(&self) -> (r: usize)
        ensures
            r == self@.nodes.len(),
    {
        proof {
            self.lemma_view();
        }
        self.nodes.len()
    }

    pub fn messages_sent(&self) -> (r: usize)
        ensures
            r == self@.messages_sent,
    {
        self.messages_sent
    }

    /// Node `id`.
    pub fn node(&self, id: NodeId) -> (r: &Node<T>)
        requires
            id < self@.nodes.len(),
        ensures
            r@ == self@.nodes[id as int],
    {
        proof {
            self.lemma_view();
        }
        &self.nodes[id]
    }

    /// The node that the simulations start from.
    pub fn root(&self) -> (r: &Node<T>)
        requires
            self@.nodes.len() > 0,
        ensures
            r@ == self@.nodes[0],
    {
        self.node(0)
    }

    /// Puts the first message of a run into the inbox of `init_node_id`.
    pub fn init_algorithm(&mut self, init_node_id: NodeId, msg_type: MessageType)
        requires
            old(self)@.wf(),
            init_node_id < old(self)@.nodes.len(),
        ensures
            final(self)@ == (GraphModel {
                nodes: old(self)@.nodes.update(
                    init_node_id as int,
                    old(self)@.nodes[init_node_id as int].receive(
                        T::spec_new(T::zero(), None, 0, init_node_id, msg_type),
                    ),
                ),
                ..old(self)@
            }),
            final(self)@.wf(),
    {
        proof {
            self.lemma_view();
        }
        let ghost pre = self@;
        let msg = T::new(T::time_zero(), None, 0, init_node_id, msg_type);
        self.nodes[init_node_id].receive_message(msg);
        proof {
            self.lemma_view();
            let expected = pre.nodes.update(init_node_id as int, pre.nodes[init_node_id as int].receive(msg));
            assert(self@.nodes =~= expected);
            let n = pre.nodes.len() as int;
            assert forall|i: int| 0 <= i < n implies node_wf(#[trigger] self@.nodes[i], i, n) by {
                if i == init_node_id {
                    let ib = pre.nodes[i].inbox.push(msg);
                    assert forall|k: int| 0 <= k < ib.len() implies msg_to(#[trigger] ib[k], i, n) by {
                        if k < pre.nodes[i].inbox.len() {
                            assert(ib[k] == pre.nodes[i].inbox[k]);
                        }
                    }
                }
            }
        }
    }

    /// Every node handles its next message; then all the messages sent are delivered.
    pub fn process_round(&mut self, delays: &Vec<T::Time>)
        requires
            old(self)@.wf(),
            old(self)@.round_ready(delays@),
        ensures
            final(self)@ == old(self)@.round(delays@),
            final(self)@.wf(),
            final(self)@.nodes.len() == old(self)@.nodes.len(),
    {
        proof {
            self.lemma_view();
        }
        let ghost pre = self@;
        let n = self.nodes.len();
        let mut all: Vec<T> = Vec::new();
        let mut i: usize = 0;
        while i < n
            invariant
                n == self.nodes@.len(),
                n == pre.nodes.len(),
                0 <= i <= n,
                self.messages_sent == pre.messages_sent,
                pre.round_ready(delays@),
                forall|k: int| 0 <= k < i ==> #[trigger] self.nodes@[k]@ == pre.nodes[k].step(delays@).0,
                forall|k: int| i <= k < n ==> #[trigger] self.nodes@[k]@ == pre.nodes[k],
                all@ == round_outputs(pre.nodes.take(i as int), delays@),
            decreases n - i,
        {
            assert(self.nodes@[i as int]@.ready(delays@));
            let mut out = self.nodes[i].process_messages_round(delays);
            all.append(&mut out);
            proof {
                assert(pre.nodes.take(i + 1).drop_last() =~= pre.nodes.take(i as int));
            }
            i = i + 1;
        }
        proof {
            assert(pre.nodes.take(n as int) =~= pre.nodes);
            lemma_round_outputs_bounded(pre.nodes, delays@, n as int);
        }
        self.messages_sent = self.messages_sent + all.len();
        let ghost outs = all@;
        let ghost st = stepped(pre.nodes, delays@);
        proof {
            self.lemma_view();
            assert(self@.nodes =~= st);
            assert forall|k: int| 0 <= k < n implies node_wf(#[trigger] st[k], k, n as int) by {
                lemma_step_wf(pre.nodes[k], k, n as int, delays@);
            }
            assert(deliver(self@.nodes, all@) == deliver(st, outs));
        }
        while all.len() > 0
            invariant
                n == self.nodes@.len(),
                self@.nodes.len() == n,
                deliver(self@.nodes, all@) == deliver(st, outs),
                forall|k: int| 0 <= k < all@.len() ==> msg_ok(#[trigger] all@[k], n as int),
                self.messages_sent == pre.messages_sent + outs.len(),
            decreases all@.len(),
        {
            proof {
                self.lemma_view();
            }
            let ghost prev_nodes = self@.nodes;
            let ghost prev_all = all@;
            match all.pop() {
                Some(msg) => {
                    assert(msg == prev_all.last());
                    assert(all@ =~= prev_all.drop_last());
                    assert(msg_ok(prev_all[prev_all.len() - 1], n as int));
                    let r = msg.get_receiver();
                    self.nodes[r].receive_message(msg);
                    proof {
                        self.lemma_view();
                        assert(self@.nodes =~= prev_nodes.update(r as int, prev_nodes[r as int].receive(msg)));
                    }
                },
                None => {},
            }
        }
        proof {
            self.lemma_view();
            lemma_deliver_wf(st, outs);
        }
    }

    /// The receiver of `msg` gets it and handles its next message; returns what
    /// it sends.
    pub fn process_message_async(&mut self, msg: T, delays: &Vec<T::Time>) -> (messages: Vec<T>)
        requires
            old(self)@.wf(),
            old(self)@.handle_ready(msg, delays@),
        ensures
            (final(self)@, messages@) == old(self)@.handle(msg, delays@),
            final(self)@.wf(),
            forall|k: int| 0 <= k < messages@.len() ==> msg_ok(#[trigger] messages@[k], final(self)@.nodes.len() as int),
    {
        proof {
            self.lemma_view();
        }
        let ghost pre = self@;
        let n = self.nodes.len();
        let r = msg.get_receiver();
        self.nodes[r].receive_message(msg);
        let ghost nd = pre.nodes[r as int].receive(msg);
        proof {
            let ib = nd.inbox;
            assert forall|k: int| 0 <= k < ib.len() implies msg_to(#[trigger] ib[k], r as int, n as int) by {
                if k < pre.nodes[r as int].inbox.len() {
                    assert(ib[k] == pre.nodes[r as int].inbox[k]);
                }
            }
            lemma_step_wf(nd, r as int, n as int, delays@);
        }
        let messages = self.nodes[r].process_messages_round(delays);
        self.messages_sent = self.messages_sent + messages.len();
        proof {
            self.lemma_view();
            assert(self@.nodes =~= pre.nodes.update(r as int, nd.step(delays@).0));
            assert forall|i: int| 0 <= i < n implies node_wf(#[trigger] self@.nodes[i], i, n as int) by {
            }
            assert forall|k: int| 0 <= k < messages@.len() implies msg_ok(#[trigger] messages@[k], n as int) by {
                assert(messages@[k] == nd.step(delays@).1[k]);
            }
        }
        messages
    }

    /// Whether `process_round` can go ahead with these delays.
    pub fn round_ready(&self, delays: &Vec<T::Time>) -> (b: bool)
        requires
            self@.wf(),
        ensures
            b == self@.round_ready(delays@),
    {
        proof {
            self.lemma_view();
        }
        let n = self.nodes.len();
        let mut i: usize = 0;
        let mut budget: usize = usize::MAX - self.messages_sent;
        while i < n
            invariant
                n == self.nodes@.len(),
                0 <= i <= n,
                forall|k: int| 0 <= k < i ==> #[trigger] self@.nodes[k].ready(delays@),
                budget + send_bound(self@.nodes.take(i as int)) + self.messages_sent == usize::MAX,
            decreases n - i,
        {
            proof {
                self.lemma_view();
                assert(self@.nodes.take(i + 1).drop_last() =~= self@.nodes.take(i as int));
            }
            if !self.nodes[i].is_ready(delays) {
                proof {
                    assert(!self@.nodes[i as int].ready(delays@));
                }
                return false;
            }
            let cost = self.nodes[i].num_neighbors();
            if budget < cost || budget - cost < 1 {
                proof {
                    assert(self@.nodes.take(i + 1).drop_last() =~= self@.nodes.take(i as int));
                    lemma_send_bound_prefix(self@.nodes, i + 1);
                }
                return false;
            }
            budget = budget - cost - 1;
            i = i + 1;
        }
        proof {
            self.lemma_view();
            assert(self@.nodes.take(n as int) =~= self@.nodes);
            lemma_round_outputs_bounded(self@.nodes, delays@, n as int);
        }
        true
    }

    /// Whether `process_message_async` can go ahead with `msg` and these delays.
    pub fn handle_ready(&self, msg: &T, delays: &Vec<T::Time>) -> (b: bool)
        requires
            self@.wf(),
        ensures
            b == self@.handle_ready(*msg, delays@),
    {
        proof {
            self.lemma_view();
        }
        let r = msg.get_receiver();
        if r >= self.nodes.len() {
            return false;
        }
        match msg.get_sender() {
            Some(s) => {
                if s >= self.nodes.len() {
                    return false;
                }
            },
            None => {},
        }
        let mut nd = self.nodes[r].clone_node();
        nd.receive_message(*msg);
        if !nd.is_ready(delays) {
            return false;
        }
        proof {
            let n = self@.nodes.len() as int;
            let ib = nd@.inbox;
            assert forall|k: int| 0 <= k < ib.len() implies msg_to(#[trigger] ib[k], r as int, n) by {
                if k < self@.nodes[r as int].inbox.len() {
                    assert(ib[k] == self@.nodes[r as int].inbox[k]);
                }
            }
            lemma_step_wf(nd@, r as int, n, delays@);
        }
        let cost = self.nodes[r].num_neighbors();
        cost < usize::MAX && self.messages_sent <= usize::MAX - (cost + 1)
    }

    /// Adds the edge between `a` and `b` in both directions.
    fn add_edge(&mut self, a: NodeId, b: NodeId)
        requires
            a < old(self)@.nodes.len(),
            b < old(self)@.nodes.len(),
            a != b,
            old(self)@.symmetric(),
            old(self)@.balanced(),
            forall|k: int| 0 <= k < old(self)@.nodes.len() ==> fresh(#[trigger] old(self)@.nodes[k], k, old(self)@.nodes.len() as int),
        ensures
            final(self)@.balanced(),
            final(self)@.nodes[a as int].neighbors == old(self)@.nodes[a as int].neighbors.push(b),
            final(self)@.nodes[b as int].neighbors == old(self)@.nodes[b as int].neighbors.push(a),
            forall|k: int| 0 <= k < old(self)@.nodes.len() && k != a && k != b ==> #[trigger] final(self)@.nodes[k] == old(self)@.nodes[k],
            final(self)@.nodes.len() == old(self)@.nodes.len(),
            final(self)@.messages_sent == old(self)@.messages_sent,
            final(self)@.symmetric(),
            forall|k: int| 0 <= k < final(self)@.nodes.len() ==> fresh(#[trigger] final(self)@.nodes[k], k, final(self)@.nodes.len() as int),
            forall|k: int| 0 <= k < final(self)@.nodes.len() ==> #[trigger] final(self)@.nodes[k].neighbors.len() >= old(self)@.nodes[k].neighbors.len(),
            final(self)@.nodes[a as int].neighbors.len() > 0,
            final(self)@.nodes[b as int].neighbors.len() > 0,
    {
        proof {
            self.lemma_view();
        }
        let ghost pre = self@;
        let n = self.nodes.len();
        self.nodes[a].add_neighbor(b);
        self.nodes[b].add_neighbor(a);
        proof {
            self.lemma_view();
            let na = pre.nodes[a as int].neighbors.push(b);
            let nb = pre.nodes[b as int].neighbors.push(a);
            assert(self@.nodes[a as int].neighbors == na);
            assert(self@.nodes[b as int].neighbors == nb);
            lemma_push_contains(pre.nodes[a as int].neighbors, b);
            lemma_push_contains(pre.nodes[b as int].neighbors, a);
            lemma_occurrences_push(pre.nodes[a as int].neighbors, b);
            lemma_occurrences_push(pre.nodes[b as int].neighbors, a);
            assert forall|x: int, y: int| 0 <= x < n && 0 <= y < n implies #[trigger] occurrences(self@.nodes[x].neighbors, y as NodeId)
                == #[trigger] occurrences(self@.nodes[y].neighbors, x as NodeId) by {
                assert(occurrences(pre.nodes[x].neighbors, y as NodeId) == occurrences(pre.nodes[y].neighbors, x as NodeId));
            }
            assert forall|x: int, y: int| 0 <= x < n && 0 <= y < n implies (
                #[trigger] self@.nodes[x].neighbors.contains(y as NodeId) <==> #[trigger] self@.nodes[y].neighbors.contains(x as NodeId)) by {
                assert(pre.nodes[x].neighbors.contains(y as NodeId) <==> pre.nodes[y].neighbors.contains(x as NodeId));
            }
            assert forall|k: int| 0 <= k < n implies fresh(#[trigger] self@.nodes[k], k, n as int) by {
                assert(fresh(pre.nodes[k], k, n as int));
                if k == a {
                    assert forall|j: int| 0 <= j < na.len() implies #[trigger] na[j] < n && na[j] != k by {
                        if j < pre.nodes[k].neighbors.len() {
                            assert(na[j] == pre.nodes[k].neighbors[j]);
                        }
                    }
                } else if k == b {
                    assert forall|j: int| 0 <= j < nb.len() implies #[trigger] nb[j] < n && nb[j] != k by {
                        if j < pre.nodes[k].neighbors.len() {
                            assert(nb[j] == pre.nodes[k].neighbors[j]);
                        }
                    }
                }
            }
        }
    }

    /// A random graph on `n` nodes: each pair of nodes gets an edge with chance
    /// `EDGE_NUMERATOR / EDGE_DENOMINATOR`; then each node left without an edge
    /// gets one to a node drawn uniformly from the others.
    ///
    /// A single node can get no edge at all, so `n` is not 1. The edges are
    /// those that `from_draws` builds from the coins and picks drawn here.
    pub fn new(n: usize) -> (g: Self)
        requires
            n != 1,
        ensures
            g@.nodes.len() == n,
            g@.messages_sent == 0,
            forall|k: int| 0 <= k < n ==> fresh(#[trigger] g@.nodes[k], k, n as int),
            forall|k: int| 0 <= k < n ==> #[trigger] g@.nodes[k].neighbors.len() > 0,
            g@.symmetric(),
            g@.balanced(),
            g@.wf(),
            g@.covered(),
            exists|coins: Seq<bool>, picks: Seq<usize>|
                coins.len() == n * (n - 1) / 2 && picks.len() == n && (forall|k: int|
                    0 <= k < n ==> #[trigger] picks[k] < n - 1) && (forall|k: int|
                    0 <= k < n ==> #[trigger] g@.nodes[k].neighbors == edge_lists(n as nat, random_edges(n as nat, coins, picks))[k]),
    {
        let mut coins: Vec<bool> = Vec::new();
        let mut i: usize = 0;
        while i < n
            invariant
                0 <= i <= n,
                coins@.len() == pairs_upto(n as nat, i as nat).len(),
            decreases n - i,
        {
            let mut j: usize = i + 1;
            while j < n
                invariant
                    0 <= i < n,
                    i < j <= n,
                    coins@.len() == pairs_upto(n as nat, i as nat).len() + (j - i - 1),
                decreases n - j,
            {
                coins.push(random_ratio(EDGE_NUMERATOR, EDGE_DENOMINATOR));
                j = j + 1;
            }
            i = i + 1;
        }
        proof {
            lemma_all_pairs(n as nat);
        }
        let mut picks: Vec<usize> = Vec::new();
        i = 0;
        while i < n
            invariant
                0 <= i <= n,
                n != 1,
                picks@.len() == i,
                forall|k: int| 0 <= k < i ==> #[trigger] picks@[k] < n - 1,
            decreases n - i,
        {
            picks.push(random_below(n - 1));
            i = i + 1;
        }
        let g = Self::from_draws(n, &coins, &picks);
        assert(forall|k: int| 0 <= k < n ==> #[trigger] g@.nodes[k].neighbors == edge_lists(n as nat, random_edges(n as nat, coins@, picks@))[k]);
        g
    }

    /// The random graph on `n` nodes that these draws give: one coin per pair
    /// of nodes, in the order of `all_pairs`, and one pick per node from
    /// `0..n - 1`. Each pair whose coin is true gets an edge, in order; then
    /// each node left without one gets an edge to the node that its pick names
    /// among the others.
    pub fn from_draws(n: usize, coins: &Vec<bool>, picks: &Vec<usize>) -> (g: Self)
        requires
            n != 1,
            coins@.len() == n * (n - 1) / 2,
            picks@.len() == n,
            forall|k: int| 0 <= k < n ==> #[trigger] picks@[k] < n - 1,
        ensures
            g@.nodes.len() == n,
            g@.messages_sent == 0,
            forall|k: int| 0 <= k < n ==> fresh(#[trigger] g@.nodes[k], k, n as int),
            forall|k: int| 0 <= k < n ==> #[trigger] g@.nodes[k].neighbors == edge_lists(n as nat, random_edges(n as nat, coins@, picks@))[k],
            forall|k: int| 0 <= k < n ==> #[trigger] g@.nodes[k].neighbors.len() > 0,
            g@.symmetric(),
            g@.balanced(),
            g@.wf(),
            g@.covered(),
    {
        proof {
            lemma_all_pairs(n as nat);
        }
        let ghost pairs = all_pairs(n as nat);
        let mut nodes: Vec<Node<T>> = Vec::new();
        let mut i: usize = 0;
        while i < n
            invariant
                0 <= i <= n,
                nodes@.len() == i,
                forall|k: int| 0 <= k < i ==> #[trigger] nodes@[k]@ == Node::<T>::new_model(k as NodeId),
            decreases n - i,
        {
            nodes.push(Node::new(i));
            i = i + 1;
        }
        let mut g = Graph { nodes, messages_sent: 0 };
        proof {
            g.lemma_view();
            assert forall|k: int| 0 <= k < n implies fresh(#[trigger] g@.nodes[k], k, n as int) by {
                assert(g@.nodes[k] == g.nodes@[k]@);
            }
            assert forall|x: int, y: int| 0 <= x < n && 0 <= y < n implies #[trigger] occurrences(g@.nodes[x].neighbors, y as NodeId)
                == #[trigger] occurrences(g@.nodes[y].neighbors, x as NodeId) by {
                assert(g@.nodes[x] == g.nodes@[x]@ && g@.nodes[y] == g.nodes@[y]@);
            }
            assert forall|k: int| 0 <= k < n implies #[trigger] g@.nodes[k].neighbors == edge_lists(n as nat, seq![])[k] by {
                assert(fresh(g@.nodes[k], k, n as int));
                assert(g@.nodes[k].neighbors =~= Seq::<NodeId>::empty());
            }
        }
        let mut are_connected: Vec<bool> = Vec::new();
        i = 0;
        while i < n
            invariant
                0 <= i <= n,
                are_connected@.len() == i,
                forall|k: int| 0 <= k < i ==> !#[trigger] are_connected@[k],
            decreases n - i,
        {
            are_connected.push(false);
            i = i + 1;
        }
        let ghost mut edges: Seq<(NodeId, NodeId)> = seq![];
        let total = coins.len();
        let mut c: usize = 0;
        i = 0;
        while i < n
            invariant
                0 <= i <= n,
                n <= usize::MAX,
                pairs == all_pairs(n as nat),
                coins@.len() == pairs.len(),
                total == coins@.len(),
                c == pairs_upto(n as nat, i as nat).len(),
                edges == select(pairs.take(c as int), coins@.take(c as int)),
                forall|k: int| 0 <= k < edges.len() ==> (#[trigger] edges[k]).0 < n && edges[k].1 < n,
                g@.nodes.len() == n,
                g@.messages_sent == 0,
                are_connected@.len() == n,
                g@.symmetric(),
                g@.balanced(),
                forall|k: int| 0 <= k < n ==> fresh(#[trigger] g@.nodes[k], k, n as int),
                forall|k: int| 0 <= k < n ==> #[trigger] g@.nodes[k].neighbors == edge_lists(n as nat, edges)[k],
                forall|k: int| 0 <= k < n ==> #[trigger] are_connected@[k] == touched(edges, k as NodeId),
                forall|k: int| 0 <= k < n && #[trigger] are_connected@[k] ==> g@.nodes[k].neighbors.len() > 0,
            decreases n - i,
        {
            proof {
                lemma_pairs_prefix(n as nat, (i + 1) as nat, n as nat);
                lemma_pairs_prefix(n as nat, i as nat, (i + 1) as nat);
                assert(pairs_upto(n as nat, (i + 1) as nat) == pairs_upto(n as nat, i as nat) + pair_row(n as nat, i as nat));
            }
            let mut j: usize = i + 1;
            while j < n
                invariant
                    0 <= i < n,
                    i < j <= n,
                    pairs == all_pairs(n as nat),
                    coins@.len() == pairs.len(),
                    c == pairs_upto(n as nat, i as nat).len() + (j - i - 1),
                    total == coins@.len(),
                    pair_row(n as nat, i as nat).len() == n - 1 - i,
                    pairs_upto(n as nat, (i + 1) as nat) == pairs_upto(n as nat, i as nat) + pair_row(n as nat, i as nat),
                    pairs.take(pairs_upto(n as nat, (i + 1) as nat).len() as int) == pairs_upto(n as nat, (i + 1) as nat),
                    pairs_upto(n as nat, (i + 1) as nat).len() <= pairs.len(),
                    edges == select(pairs.take(c as int), coins@.take(c as int)),
                    forall|k: int| 0 <= k < edges.len() ==> (#[trigger] edges[k]).0 < n && edges[k].1 < n,
                    g@.nodes.len() == n,
                    g@.messages_sent == 0,
                    are_connected@.len() == n,
                    g@.symmetric(),
                    g@.balanced(),
                    forall|k: int| 0 <= k < n ==> fresh(#[trigger] g@.nodes[k], k, n as int),
                    forall|k: int| 0 <= k < n ==> #[trigger] g@.nodes[k].neighbors == edge_lists(n as nat, edges)[k],
                    forall|k: int| 0 <= k < n ==> #[trigger] are_connected@[k] == touched(edges, k as NodeId),
                    forall|k: int| 0 <= k < n && #[trigger] are_connected@[k] ==> g@.nodes[k].neighbors.len() > 0,
                decreases n - j,
            {
                let ghost before = edges;
                let ghost pre = g@;
                assert(c < total);
                proof {
                    let base = pairs_upto(n as nat, i as nat).len() as int;
                    assert(pairs[c as int] == pairs_upto(n as nat, (i + 1) as nat)[c as int]);
                    assert(pairs[c as int] == pair_row(n as nat, i as nat)[c - base]);
                    assert(pairs[c as int] == (i, j));
                    assert(pairs.take(c + 1).drop_last() =~= pairs.take(c as int));
                    assert(coins@.take(c + 1).drop_last() =~= coins@.take(c as int));
                }
                if coins[c] {
                    g.add_edge(i, j);
                    are_connected.set(i, true);
                    are_connected.set(j, true);
                    proof {
                        edges = before.push((i, j));
                        assert(edges.drop_last() =~= before);
                        lemma_edge_lists_len(n as nat, before);
                        assert forall|k: int| 0 <= k < n implies #[trigger] g@.nodes[k].neighbors == edge_lists(n as nat, edges)[k] by {
                            if k != i && k != j {
                                assert(g@.nodes[k] == pre.nodes[k]);
                            }
                        }
                    }
                }
                c = c + 1;
                j = j + 1;
            }
            i = i + 1;
        }
        proof {
            assert(pairs.take(c as int) =~= pairs);
            assert(coins@.take(c as int) =~= coins@);
        }
        let ghost drawn = edges;
        assert(drawn == select(pairs, coins@));
        i = 0;
        while i < n
            invariant
                0 <= i <= n,
                n != 1,
                picks@.len() == n,
                forall|k: int| 0 <= k < n ==> #[trigger] picks@[k] < n - 1,
                edges == drawn + fallback_edges(drawn, picks@, i as nat),
                forall|k: int| 0 <= k < edges.len() ==> (#[trigger] edges[k]).0 < n && edges[k].1 < n,
                g@.nodes.len() == n,
                g@.messages_sent == 0,
                are_connected@.len() == n,
                g@.symmetric(),
                g@.balanced(),
                forall|k: int| 0 <= k < n ==> fresh(#[trigger] g@.nodes[k], k, n as int),
                forall|k: int| 0 <= k < n ==> #[trigger] g@.nodes[k].neighbors == edge_lists(n as nat, edges)[k],
                forall|k: int| 0 <= k < n ==> #[trigger] are_connected@[k] == touched(drawn, k as NodeId),
                forall|k: int| 0 <= k < n && #[trigger] are_connected@[k] ==> g@.nodes[k].neighbors.len() > 0,
                forall|k: int| 0 <= k < i ==> #[trigger] g@.nodes[k].neighbors.len() > 0,
            decreases n - i,
        {
            let ghost before = edges;
            let ghost pre = g@;
            let ghost f0 = fallback_edges(drawn, picks@, i as nat);
            assert(are_connected@[i as int] == touched(drawn, i as NodeId));
            if !are_connected[i] {
                let mut target = picks[i];
                if target >= i {
                    target = target + 1;
                }
                assert(target == skip_self(picks@[i as int], i as NodeId));
                g.add_edge(target, i);
                proof {
                    edges = before.push((target, i));
                    assert(edges.drop_last() =~= before);
                    assert(edges =~= drawn + f0.push((target, i)));
                    lemma_edge_lists_len(n as nat, before);
                    assert forall|k: int| 0 <= k < n implies #[trigger] g@.nodes[k].neighbors == edge_lists(n as nat, edges)[k] by {
                        if k != i && k != target {
                            assert(g@.nodes[k] == pre.nodes[k]);
                        }
                    }
                }
            }
            i = i + 1;
        }
        proof {
            assert forall|k: int| 0 <= k < n implies node_wf(#[trigger] g@.nodes[k], k, n as int) by {
                assert(fresh(g@.nodes[k], k, n as int));
            }
            assert forall|k: int| 0 <= k < n implies #[trigger] g@.has_edge_into(k) by {
                let nb = g@.nodes[k].neighbors;
                let j = nb[0] as int;
                assert(fresh(g@.nodes[k], k, n as int));
                assert(nb[0] < n);
                assert(nb.contains(j as NodeId));
                assert(g@.nodes[k].neighbors.contains(j as NodeId) <==> g@.nodes[j].neighbors.contains(k as NodeId));
            }
        }
        g
    }

    /// The graph on nodes `0..n` with the given edges, each added in both
    /// directions, in order.
    pub fn from_edges(n: usize, edges: &Vec<(NodeId, NodeId)>) -> (g: Self)
        requires
            forall|k: int| 0 <= k < edges@.len() ==> (#[trigger] edges@[k]).0 < n && edges@[k].1 < n && edges@[k].0 != edges@[k].1,
        ensures
            g@.nodes.len() == n,
            g@.messages_sent == 0,
            forall|k: int| 0 <= k < n ==> fresh(#[trigger] g@.nodes[k], k, n as int),
            forall|k: int| 0 <= k < n ==> #[trigger] g@.nodes[k].neighbors == edge_lists(n as nat, edges@)[k],
            g@.symmetric(),
            g@.balanced(),
            g@.wf(),
    {
        let mut nodes: Vec<Node<T>> = Vec::new();
        let mut i: usize = 0;
        while i < n
            invariant
                0 <= i <= n,
                nodes@.len() == i,
                forall|k: int| 0 <= k < i ==> #[trigger] nodes@[k]@ == Node::<T>::new_model(k as NodeId),
            decreases n - i,
        {
            nodes.push(Node::new(i));
            i = i + 1;
        }
        let mut g = Graph { nodes, messages_sent: 0 };
        proof {
            g.lemma_view();
            assert forall|k: int| 0 <= k < n implies fresh(#[trigger] g@.nodes[k], k, n as int) by {
                assert(g@.nodes[k] == g.nodes@[k]@);
            }
            assert forall|x: int, y: int| 0 <= x < n && 0 <= y < n implies #[trigger] occurrences(g@.nodes[x].neighbors, y as NodeId)
                == #[trigger] occurrences(g@.nodes[y].neighbors, x as NodeId) by {
                assert(g@.nodes[x] == g.nodes@[x]@ && g@.nodes[y] == g.nodes@[y]@);
            }
        }
        proof {
            assert forall|k: int| 0 <= k < n implies #[trigger] g@.nodes[k].neighbors == edge_lists(n as nat, edges@.take(0))[k] by {
                assert(edges@.take(0) =~= Seq::<(NodeId, NodeId)>::empty());
                assert(fresh(g@.nodes[k], k, n as int));
                assert(g@.nodes[k].neighbors =~= Seq::<NodeId>::empty());
            }
        }
        let mut e: usize = 0;
        while e < edges.len()
            invariant
                0 <= e <= edges@.len(),
                forall|k: int| 0 <= k < edges@.len() ==> (#[trigger] edges@[k]).0 < n && edges@[k].1 < n && edges@[k].0 != edges@[k].1,
                g@.nodes.len() == n,
                g@.messages_sent == 0,
                g@.symmetric(),
                g@.balanced(),
                forall|k: int| 0 <= k < n ==> fresh(#[trigger] g@.nodes[k], k, n as int),
                forall|k: int| 0 <= k < n ==> #[trigger] g@.nodes[k].neighbors == edge_lists(n as nat, edges@.take(e as int))[k],
            decreases edges@.len() - e,
        {
            let (a, b) = edges[e];
            assert(edges@[e as int].0 < n);
            let ghost pre = g@;
            g.add_edge(a, b);
            proof {
                let es = edges@.take(e + 1);
                assert(es.drop_last() =~= edges@.take(e as int));
                assert(es.last() == edges@[e as int]);
                assert forall|k: int| 0 <= k < edges@.take(e as int).len() implies (#[trigger] edges@.take(e as int)[k]).0 < n
                    && edges@.take(e as int)[k].1 < n by {
                    assert(edges@.take(e as int)[k] == edges@[k]);
                }
                lemma_edge_lists_len(n as nat, edges@.take(e as int));
                assert forall|k: int| 0 <= k < n implies #[trigger] g@.nodes[k].neighbors == edge_lists(n as nat, es)[k] by {
                    if k != a && k != b {
                        assert(g@.nodes[k] == pre.nodes[k]);
                    }
                }
            }
            e = e + 1;
        }
        proof {
            assert(edges@.take(edges@.len() as int) =~= edges@);
        }
        proof {
            assert forall|k: int| 0 <= k < n implies node_wf(#[trigger] g@.nodes[k], k, n as int) by {
                assert(fresh(g@.nodes[k], k, n as int));
            }
        }
        g
    }

    /// Whether every node is the neighbour of some node.
    pub fn is_connected(&self) -> (b: bool)
        requires
            self@.wf(),
        ensures
            b == self@.covered(),
    {
        proof {
            self.lemma_view();
        }
        let n = self.nodes.len();
        let mut seen: Vec<bool> = Vec::new();
        let mut i: usize = 0;
        while i < n
            invariant
                0 <= i <= n,
                seen@.len() == i,
                forall|k: int| 0 <= k < i ==> !#[trigger] seen@[k],
            decreases n - i,
        {
            seen.push(false);
            i = i + 1;
        }
        let mut a: usize = 0;
        while a < n
            invariant
                n == self@.nodes.len(),
                n == self.nodes@.len(),
                self@.wf(),
                0 <= a <= n,
                seen@.len() == n,
                forall|x: int| 0 <= x < n && #[trigger] seen@[x] ==> self@.has_edge_into(x),
                forall|j: int, kk: int|
                    0 <= j < a && 0 <= kk < self@.nodes[j].neighbors.len() ==> seen@[#[trigger] self@.nodes[j].neighbors[kk] as int],
            decreases n - a,
        {
            let node = &self.nodes[a];
            let deg = node.num_neighbors();
            let mut k: usize = 0;
            proof {
                self.lemma_view();
                assert(node@ == self@.nodes[a as int]);
                assert(node_wf(self@.nodes[a as int], a as int, n as int));
            }
            while k < deg
                invariant
                    n == self@.nodes.len(),
                    self@.wf(),
                    0 <= a < n,
                    node@ == self@.nodes[a as int],
                    deg == node@.neighbors.len(),
                    node_wf(node@, a as int, n as int),
                    0 <= k <= deg,
                    seen@.len() == n,
                    forall|x: int| 0 <= x < n && #[trigger] seen@[x] ==> self@.has_edge_into(x),
                    forall|j: int, kk: int|
                        0 <= j < a && 0 <= kk < self@.nodes[j].neighbors.len() ==> seen@[#[trigger] self@.nodes[j].neighbors[kk] as int],
                    forall|kk: int| 0 <= kk < k ==> seen@[#[trigger] node@.neighbors[kk] as int],
                decreases deg - k,
            {
                let nb = node.neighbor(k);
                proof {
                    assert(node@.neighbors[k as int] < n);
                    assert(node@.neighbors.contains(nb));
                    assert(self@.nodes[a as int].neighbors.contains((nb as int) as NodeId));
                    assert(self@.has_edge_into(nb as int));
                }
                seen.set(nb, true);
                k = k + 1;
            }
            a = a + 1;
        }
        let mut x: usize = 0;
        while x < n
            invariant
                n == self@.nodes.len(),
                self@.wf(),
                0 <= x <= n,
                seen@.len() == n,
                forall|y: int| 0 <= y < x ==> #[trigger] seen@[y],
                forall|y: int| 0 <= y < n && #[trigger] seen@[y] ==> self@.has_edge_into(y),
                forall|j: int, kk: int|
                    0 <= j < n && 0 <= kk < self@.nodes[j].neighbors.len() ==> seen@[#[trigger] self@.nodes[j].neighbors[kk] as int],
            decreases n - x,
        {
            if !seen[x] {
                proof {
                    if self@.has_edge_into(x as int) {
                        let j = choose|j: int| 0 <= j < self@.nodes.len() && #[trigger] self@.nodes[j].neighbors.contains(x as NodeId);
                        let kk = choose|kk: int| 0 <= kk < self@.nodes[j].neighbors.len() && self@.nodes[j].neighbors[kk] == x as NodeId;
                        assert(seen@[self@.nodes[j].neighbors[kk] as int]);
                        assert(false);
                    }
                }
                return false;
            }
            x = x + 1;
        }
        proof {
            assert forall|y: int| 0 <= y < n implies #[trigger] self@.has_edge_into(y) by {
                assert(seen@[y]);
            }
        }
        true
    }

    /// Number of visited nodes.
    pub fn visited(&self) -> (r: usize)
        ensures
            r == count_visited(self@.nodes),
    {
        proof {
            self.lemma_view();
        }
        let n = self.nodes.len();
        let mut count: usize = 0;
        let mut i: usize = 0;
        while i < n
            invariant
                n == self.nodes@.len(),
                0 <= i <= n,
                count == count_visited(self@.nodes.take(i as int)),
                count <= i,
            decreases n - i,
        {
            proof {
                self.lemma_view();
                assert(self@.nodes.take(i + 1).drop_last() =~= self@.nodes.take(i as int));
            }
            if self.nodes[i].get_state().visited {
                count = count + 1;
            }
            i = i + 1;
        }
        proof {
            assert(self@.nodes.take(n as int) =~= self@.nodes);
        }
        count
    }

    /// Whether every node has a level.
    pub fn all_levels_known(&self) -> (b: bool)
        ensures
            b == forall|i: int| 0 <= i < self@.nodes.len() ==> (#[trigger] self@.nodes[i]).state.level is Some,
    {
        proof {
            self.lemma_view();
        }
        let n = self.nodes.len();
        let mut i: usize = 0;
        while i < n
            invariant
                n == self@.nodes.len(),
                0 <= i <= n,
                forall|k: int| 0 <= k < i ==> (#[trigger] self@.nodes[k]).state.level is Some,
            decreases n - i,
        {
            if self.nodes[i].get_state().level.is_none() {
                proof {
                    self.lemma_view();
                    assert(!(self@.nodes[i as int].state.level is Some));
                }
                return false;
            }
            proof {
                self.lemma_view();
            }
            i = i + 1;
        }
        true
    }

    /// Whether `data` is a breadth-first tree of this graph rooted at node 0.
    pub fn is_bfs_tree(&self, data: &Vec<(NodeId, usize)>) -> (b: bool)
        requires
            self@.wf(),
        ensures
            b == is_bfs_tree_spec(self@.nodes, data@),
    {
        proof {
            self.lemma_view();
        }
        let n = self.nodes.len();
        if data.len() != n {
            return false;
        }
        if n == 0 {
            return true;
        }
        if data[0].0 != NO_PARENT || data[0].1 != 0 {
            return false;
        }
        let mut i: usize = 1;
        while i < n
            invariant
                n == self@.nodes.len(),
                n == data@.len(),
                self@.wf(),
                1 <= i <= n,
                forall|m: int| 1 <= m < i ==> {
                    let (p, l) = #[trigger] data@[m];
                    &&& p < n
                    &&& data@[p as int].1 + 1 == l
                    &&& self@.nodes[p as int].neighbors.contains(m as NodeId)
                },
            decreases n - i,
        {
            let (p, l) = data[i];
            if p >= n {
                return false;
            }
            if data[p].1 >= l || data[p].1 + 1 != l {
                return false;
            }
            let node = self.node(p);
            let deg = node.num_neighbors();
            let mut k: usize = 0;
            let mut found = false;
            while k < deg
                invariant
                    p < self@.nodes.len(),
                    node@ == self@.nodes[p as int],
                    deg == node@.neighbors.len(),
                    0 <= k <= deg,
                    found == node@.neighbors.take(k as int).contains(i),
                decreases deg - k,
            {
                proof {
                    assert(node@.neighbors.take(k + 1) =~= node@.neighbors.take(k as int).push(node@.neighbors[k as int]));
                    lemma_push_contains(node@.neighbors.take(k as int), node@.neighbors[k as int]);
                }
                if node.neighbor(k) == i {
                    found = true;
                }
                k = k + 1;
            }
            proof {
                assert(node@.neighbors.take(deg as int) =~= node@.neighbors);
            }
            if !found {
                return false;
            }
            i = i + 1;
        }
        let mut a: usize = 0;
        while a < n
            invariant
                n == self@.nodes.len(),
                n == data@.len(),
                self@.wf(),
                0 <= a <= n,
                forall|m: int, k: int|
                    0 <= m < a && 0 <= k < self@.nodes[m].neighbors.len() ==> {
                        let j = #[trigger] self@.nodes[m].neighbors[k];
                        &&& j < n
                        &&& data@[j as int].1 <= data@[m].1 + 1
                    },
            decreases n - a,
        {
            let node = self.node(a);
            let deg = node.num_neighbors();
            let la = data[a].1;
            proof {
                assert(node_wf(self@.nodes[a as int], a as int, n as int));
            }
            let mut k: usize = 0;
            while k < deg
                invariant
                    n == self@.nodes.len(),
                    n == data@.len(),
                    0 <= a < n,
                    node@ == self@.nodes[a as int],
                    node_wf(node@, a as int, n as int),
                    deg == node@.neighbors.len(),
                    la == data@[a as int].1,
                    0 <= k <= deg,
                    forall|kk: int| 0 <= kk < k ==> data@[(#[trigger] node@.neighbors[kk]) as int].1 <= la + 1,
                decreases deg - k,
            {
                let j = node.neighbor(k);
                assert(node@.neighbors[k as int] < n);
                if data[j].1 > la && data[j].1 - la > 1 {
                    proof {
                        let jj = self@.nodes[a as int].neighbors[k as int];
                        assert(jj == j);
                        assert(!(data@[jj as int].1 <= data@[a as int].1 + 1));
                    }
                    return false;
                }
                k = k + 1;
            }
            a = a + 1;
        }
        true
    }

    /// Parent and level of every node, in node order.
    pub fn get_bfs_data(&self) -> (r: Vec<(NodeId, usize)>)
        requires
            forall|i: int| 0 <= i < self@.nodes.len() ==> (#[trigger] self@.nodes[i]).state.level is Some,
        ensures
            r@ == self@.nodes.map_values(|nd: NodeModel<T>| bfs_entry(nd)),
    {
        proof {
            self.lemma_view();
        }
        let n = self.nodes.len();
        let mut r: Vec<(NodeId, usize)> = Vec::new();
        let mut i: usize = 0;
        while i < n
            invariant
                n == self.nodes@.len(),
                0 <= i <= n,
                forall|k: int| 0 <= k < n ==> (#[trigger] self@.nodes[k]).state.level is Some,
                r@ == self@.nodes.take(i as int).map_values(|nd: NodeModel<T>| bfs_entry(nd)),
            decreases n - i,
        {
            proof {
                self.lemma_view();
                assert(self@.nodes[i as int].state.level is Some);
            }
            let entry = self.nodes[i].get_bfs_data();
            r.push(entry);
            proof {
                assert(r@ =~= self@.nodes.take(i + 1).map_values(|nd: NodeModel<T>| bfs_entry(nd)));
            }
            i = i + 1;
        }
        proof {
            assert(self@.nodes.take(n as int) =~= self@.nodes);
        }
        r
    }
}

} // verus!
