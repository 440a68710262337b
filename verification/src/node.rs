use vstd::prelude::*;

use crate::message::{Message, MessageAsync, MessageSync, MessageType, NodeId};

verus! {

/// What a node has learned from the algorithm so far.
#[derive(Clone, Copy, Debug, PartialEq, Eq, Structural)]
pub struct NodeState {
    pub visited: bool,
    pub parent: Option<NodeId>,
    pub level: Option<usize>,
}

impl Default for NodeState {
    fn default() -> (s: NodeState)
        ensures
            s == (NodeState { visited: false, parent: None, level: None }),
    {
        NodeState { visited: false, parent: None, level: None }
    }
}

/// Parent reported for a node that has none (the root, or a node never reached).
pub const NO_PARENT: NodeId = 404;

/// `a` is handled strictly before `b`.
pub open spec fn rank_lt(a: (u64, u64), b: (u64, u64)) -> bool {
    a.0 < b.0 || (a.0 == b.0 && a.1 < b.1)
}

/// Position `i` holds the first of the messages that are handled first.
pub open spec fn is_first_min<T: Message>(s: Seq<T>, i: int) -> bool {
    &&& 0 <= i < s.len()
    &&& forall|j: int| 0 <= j < s.len() ==> !rank_lt(#[trigger] s[j].rank(), s[i].rank())
    &&& forall|j: int| 0 <= j < i ==> rank_lt(s[i].rank(), #[trigger] s[j].rank())
}

/// Position of the message that a node handles next.
pub open spec fn top_index<T: Message>(s: Seq<T>) -> int {
    choose|i: int| is_first_min(s, i)
}

pub proof fn lemma_first_min_unique<T: Message>(s: Seq<T>, i: int, j: int)
    requires
        is_first_min(s, i),
        is_first_min(s, j),
    ensures
        i == j,
{
    if i < j {
        assert(rank_lt(s[j].rank(), s[i].rank()));
    } else if j < i {
        assert(rank_lt(s[i].rank(), s[j].rank()));
    }
}

/// The first minimum of the first `k` messages, found by a left-to-right scan.
pub open spec fn scan_min<T: Message>(s: Seq<T>, k: int) -> int
    decreases k,
{
    if k <= 1 {
        0
    } else {
        let b = scan_min(s, k - 1);
        if rank_lt(s[k - 1].rank(), s[b].rank()) {
            k - 1
        } else {
            b
        }
    }
}

proof fn lemma_scan_min<T: Message>(s: Seq<T>, k: int)
    requires
        1 <= k <= s.len(),
    ensures
        0 <= scan_min(s, k) < k,
        forall|j: int| 0 <= j < k ==> !rank_lt(#[trigger] s[j].rank(), s[scan_min(s, k)].rank()),
        forall|j: int| 0 <= j < scan_min(s, k) ==> rank_lt(s[scan_min(s, k)].rank(), #[trigger] s[j].rank()),
    decreases k,
{
    if k > 1 {
        lemma_scan_min(s, k - 1);
    }
}

/// A non-empty inbox has a message to handle next.
pub proof fn lemma_top_index<T: Message>(s: Seq<T>)
    requires
        s.len() > 0,
    ensures
        is_first_min(s, top_index(s)),
        0 <= top_index(s) < s.len(),
{
    lemma_scan_min(s, s.len() as int);
    assert(is_first_min(s, scan_min(s, s.len() as int)));
}

/// The messages sent to the neighbours, other than `skip`, one after the other:
/// each one is the previous one, addressed anew and delayed by the next delay.
pub open spec fn forward_chain<T: Message>(
    msg: T,
    neighbors: Seq<NodeId>,
    skip: NodeId,
    delays: Seq<T::Time>,
    k: int,
) -> Seq<T>
    decreases neighbors.len(),
{
    if neighbors.len() == 0 {
        seq![]
    } else if neighbors[0] == skip {
        forward_chain(msg, neighbors.drop_first(), skip, delays, k)
    } else {
        let next = msg.spec_next_in_level(neighbors[0], delays[k]);
        seq![next] + forward_chain(next, neighbors.drop_first(), skip, delays, k + 1)
    }
}

/// Position of the message handled next.
pub(crate) fn top_position<T: Message>(v: &Vec<T>) -> (i: usize)
    requires
        v@.len() > 0,
    ensures
        i == top_index(v@),
        is_first_min(v@, i as int),
{
    let mut best: usize = 0;
    let mut best_key = v[0].rank_key();
    let mut k: usize = 1;
    while k < v.len()
        invariant
            0 <= best < k <= v@.len(),
            best_key == v@[best as int].rank(),
            forall|j: int| 0 <= j < k ==> !rank_lt(#[trigger] v@[j].rank(), best_key),
            forall|j: int| 0 <= j < best ==> rank_lt(best_key, #[trigger] v@[j].rank()),
        decreases v@.len() - k,
    {
        let key = v[k].rank_key();
        if key.0 < best_key.0 || (key.0 == best_key.0 && key.1 < best_key.1) {
            best = k;
            best_key = key;
        }
        k = k + 1;
    }
    proof {
        assert(is_first_min(v@, best as int));
        let c = top_index(v@);
        lemma_first_min_unique(v@, c, best as int);
    }
    best
}

/// The abstract value of a node.
pub struct NodeModel<T: Message> {
    pub id: NodeId,
    pub neighbors: Seq<NodeId>,
    pub state: NodeState,
    /// Messages not handled yet.
    pub inbox: Seq<T>,
    /// Time of the last message this node sent.
    pub last_sent: T::Time,
    /// Acknowledgements received.
    pub acks: usize,
}

impl<T: Message> NodeModel<T> {
    /// Every neighbour, except the parent, has acknowledged.
    pub open spec fn all_acks(self) -> bool {
        match self.state.parent {
            Some(_) => self.acks + 1 == self.neighbors.len(),
            None => self.acks == self.neighbors.len(),
        }
    }

    pub open spec fn with_inbox(self, inbox: Seq<T>) -> Self {
        NodeModel { inbox, ..self }
    }

    /// The node after a message arrived.
    pub open spec fn receive(self, msg: T) -> Self {
        self.with_inbox(self.inbox.push(msg))
    }

    /// The next message to handle.
    pub open spec fn top(self) -> T {
        self.inbox[top_index(self.inbox)]
    }

    /// Handling the next message needs no counter past its limit, finds a sender
    /// to answer where one is answered, and has a delay for every send.
    pub open spec fn ready(self, delays: Seq<T::Time>) -> bool {
        &&& delays.len() > self.neighbors.len()
        &&& self.inbox.len() > 0 ==> {
            let m = self.top();
            &&& m.can_advance()
            &&& m.ack_of() ==> self.acks < usize::MAX
            &&& (!m.ack_of() && self.state.visited) ==> m.sender_of() is Some
        }
    }

    /// One round of the node: the node afterwards and the messages it sends.
    ///
    /// The `k`-th message sent in the round leaves after `delays[k]`.
    pub open spec fn step(self, delays: Seq<T::Time>) -> (NodeModel<T>, Seq<T>) {
        if self.inbox.len() == 0 {
            (self, seq![])
        } else {
            let m = self.top();
            let rest = self.with_inbox(self.inbox.remove(top_index(self.inbox)));
            if m.ack_of() {
                let counted = NodeModel { acks: (self.acks + 1) as usize, ..rest };
                if counted.all_acks() {
                    let t = m.time_of();
                    match self.state.parent {
                        Some(p) => {
                            let a = m.spec_create_ack(t, p, delays[0]);
                            (NodeModel { last_sent: a.time_of(), ..counted }, seq![a])
                        },
                        None => (NodeModel { last_sent: t, ..counted }, seq![]),
                    }
                } else {
                    (counted, seq![])
                }
            } else if self.state.visited {
                let a = m.spec_create_ack(self.last_sent, m.sender_of().unwrap(), delays[0]);
                (NodeModel { last_sent: a.time_of(), ..rest }, seq![a])
            } else {
                let reached = NodeModel {
                    state: NodeState {
                        visited: true,
                        parent: m.sender_of(),
                        level: Some(m.level_of()),
                    },
                    ..rest
                };
                if self.neighbors.len() == 1 && m.sender_of() is Some {
                    let a = m.spec_create_ack(self.last_sent, m.sender_of().unwrap(), delays[0]);
                    (reached, seq![a])
                } else {
                    let skip = match m.sender_of() {
                        Some(p) => p,
                        None => usize::MAX,
                    };
                    let out = forward_chain(
                        m.spec_to_next_level(self.last_sent),
                        self.neighbors,
                        skip,
                        delays,
                        0,
                    );
                    if out.len() > 0 {
                        (NodeModel { last_sent: out.last().time_of(), ..reached }, out)
                    } else {
                        (reached, out)
                    }
                }
            }
        }
    }
}

/// A process of the simulated network.
#[derive(Clone)]
pub struct Node<T: Message> {
    pub id: NodeId,
    pub neighbors: Vec<NodeId>,
    pub state: NodeState,
    incoming_messages: Vec<T>,
    time_of_last_sent_msg: T::Time,
    acks_gotten: usize,
}

impl<T: Message> View for Node<T> {
    type V = NodeModel<T>;

    closed spec fn view(&self) -> NodeModel<T> {
        NodeModel {
            id: self.id,
            neighbors: self.neighbors@,
            state: self.state,
            inbox: self.incoming_messages@,
            last_sent: self.time_of_last_sent_msg,
            acks: self.acks_gotten,
        }
    }
}

impl<T: Message> Node<T> {
    pub fn clone_node(&self) -> (r: Self)
        ensures
            r@ == self@,
    {
        let neighbors = self.neighbors.clone();
        assert(neighbors@ =~= self.neighbors@);
        let mut inbox: Vec<T> = Vec::new();
        let mut k: usize = 0;
        while k < self.incoming_messages.len()
            invariant
                0 <= k <= self.incoming_messages@.len(),
                inbox@ =~= self.incoming_messages@.take(k as int),
            decreases self.incoming_messages@.len() - k,
        {
            inbox.push(self.incoming_messages[k]);
            k = k + 1;
            assert(inbox@ =~= self.incoming_messages@.take(k as int));
        }
        assert(inbox@ =~= self.incoming_messages@);
        Node {
            id: self.id,
            neighbors,
            state: self.state,
            incoming_messages: inbox,
            time_of_last_sent_msg: self.time_of_last_sent_msg,
            acks_gotten: self.acks_gotten,
        }
    }

    pub fn num_neighbors(&self) -> (r: usize)
        ensures
            r == self@.neighbors.len(),
    {
        self.neighbors.len()
    }

    pub fn neighbor(&self, k: usize) -> (r: NodeId)
        requires
            k < self@.neighbors.len(),
        ensures
            r == self@.neighbors[k as int],
    {
        self.neighbors[k]
    }

    pub fn get_state(&self) -> (r: NodeState)
        ensures
            r == self@.state,
    {
        self.state
    }

    pub fn get_id(&self) -> (r: NodeId)
        ensures
            r == self@.id,
    {
        self.id
    }

    /// Whether handling the next message can go ahead with these delays.
    pub fn is_ready(&self, delays: &Vec<T::Time>) -> (r: bool)
        ensures
            r == self@.ready(delays@),
    {
        if delays.len() <= self.neighbors.len() {
            return false;
        }
        if self.incoming_messages.len() == 0 {
            return true;
        }
        let idx = top_position(&self.incoming_messages);
        let m = &self.incoming_messages[idx];
        let ack = m.is_ack();
        m.check_advance() && (!ack || self.acks_gotten < usize::MAX) && (ack || !self.state.visited
            || m.get_sender().is_some())
    }

    /// A node with no edges and no messages.
    pub open spec fn new_model(id: NodeId) -> NodeModel<T> {
        NodeModel::<T> {
            id,
            neighbors: Seq::empty(),
            state: NodeState { visited: false, parent: None, level: None },
            inbox: Seq::empty(),
            last_sent: T::zero(),
            acks: 0,
        }
    }

    pub fn new(id: NodeId) -> (n: Self)
        ensures
            n@ == Self::new_model(id),
    {
        Node {
            id,
            neighbors: Vec::new(),
            state: NodeState::default(),
            incoming_messages: Vec::new(),
            time_of_last_sent_msg: T::time_zero(),
            acks_gotten: 0,
        }
    }

    /// Every neighbour, except the parent, has acknowledged.
    pub fn got_all_acks(&self) -> (b: bool)
        ensures
            b == self@.all_acks(),
    {
        match self.state.parent {
            Some(_) => self.neighbors.len() > 0 && self.acks_gotten == self.neighbors.len() - 1,
            None => self.acks_gotten == self.neighbors.len(),
        }
    }

    /// The parent (or `NO_PARENT`) and the level of a reached node.
    pub fn get_bfs_data(&self) -> (r: (NodeId, usize))
        requires
            self@.state.level is Some,
        ensures
            r.0 == (match self@.state.parent {
                Some(p) => p,
                None => NO_PARENT,
            }),
            r.1 == self@.state.level.unwrap(),
    {
        let parent = match self.state.parent {
            Some(p) => p,
            None => NO_PARENT,
        };
        match self.state.level {
            Some(level) => (parent, level),
            None => (parent, 0),
        }
    }

    pub fn add_neighbor(&mut self, neighbor: NodeId)
        ensures
            final(self)@ == (NodeModel { neighbors: old(self)@.neighbors.push(neighbor), ..old(self)@ }),
    {
        self.neighbors.push(neighbor);
    }

    pub fn add_neighbors(&mut self, neighbors: Vec<NodeId>)
        ensures
            final(self)@ == (NodeModel { neighbors: old(self)@.neighbors + neighbors@, ..old(self)@ }),
    {
        let mut more = neighbors;
        self.neighbors.append(&mut more);
    }

    pub fn get_neighbors(&self) -> (r: Vec<NodeId>)
        ensures
            r@ == self@.neighbors,
    {
        self.neighbors.clone()
    }

    pub fn receive_message(&mut self, msg: T)
        ensures
            final(self)@ == old(self)@.receive(msg),
    {
        self.incoming_messages.push(msg);
    }

    /// Handles the next incoming message and returns the messages sent in answer.
    ///
    /// The `k`-th message sent leaves after `delays[k]`.
    pub fn process_messages_round(&mut self, delays: &Vec<T::Time>) -> (outgoing: Vec<T>)
        requires
            old(self)@.ready(delays@),
        ensures
            (final(self)@, outgoing@) == old(self)@.step(delays@),
    {
        let ghost pre = self@;
        let mut outgoing: Vec<T> = Vec::new();
        if self.incoming_messages.len() == 0 {
            return outgoing;
        }
        let idx = top_position(&self.incoming_messages);
        let msg = self.incoming_messages.remove(idx);
        assert(msg == pre.top());
        if msg.is_ack() {
            self.acks_gotten = self.acks_gotten + 1;
            if self.got_all_acks() {
                self.time_of_last_sent_msg = msg.get_time();
                match self.state.parent {
                    Some(parent) => {
                        let ack = msg.create_ack(self.time_of_last_sent_msg, parent, delays[0]);
                        self.time_of_last_sent_msg = ack.get_time();
                        outgoing.push(ack);
                    },
                    None => {},
                }
            }
            assert(outgoing@ == pre.step(delays@).1);
            return outgoing;
        } else if self.state.visited {
            let sender = match msg.get_sender() {
                Some(s) => s,
                None => 0,
            };
            let ack = msg.create_ack(self.time_of_last_sent_msg, sender, delays[0]);
            self.time_of_last_sent_msg = ack.get_time();
            outgoing.push(ack);
            assert(outgoing@ == pre.step(delays@).1);
            return outgoing;
        }
        self.state.visited = true;
        self.state.parent = msg.get_sender();
        self.state.level = Some(msg.get_level());

        if self.neighbors.len() == 1 && msg.get_sender().is_some() {
            let sender = match msg.get_sender() {
                Some(s) => s,
                None => 0,
            };
            outgoing.push(msg.create_ack(self.time_of_last_sent_msg, sender, delays[0]));
            assert(outgoing@ == pre.step(delays@).1);
            return outgoing;
        }

        let first = msg.to_next_level(self.time_of_last_sent_msg);
        let mut cur = first;
        let skip = match self.state.parent {
            Some(p) => p,
            None => usize::MAX,
        };
        let ghost nbrs = self.neighbors@;
        let mut j: usize = 0;
        assert(nbrs.skip(0) =~= nbrs);
        assert(outgoing@ + forward_chain(first, nbrs, skip, delays@, 0) =~= forward_chain(first, nbrs, skip, delays@, 0));
        while j < self.neighbors.len()
            invariant
                nbrs == self.neighbors@,
                0 <= j <= nbrs.len(),
                outgoing@.len() <= j,
                delays@.len() > nbrs.len(),
                outgoing@.len() == 0 ==> cur == first,
                outgoing@.len() > 0 ==> cur == outgoing@.last(),
                outgoing@ + forward_chain(cur, nbrs.skip(j as int), skip, delays@, outgoing@.len() as int)
                    == forward_chain(first, nbrs, skip, delays@, 0),
            decreases nbrs.len() - j,
        {
            let neighbor = self.neighbors[j];
            let ghost tail = nbrs.skip(j as int);
            assert(tail[0] == neighbor);
            assert(tail.drop_first() =~= nbrs.skip(j + 1));
            if neighbor != skip {
                let ghost before = outgoing@;
                let ghost prev = cur;
                cur = cur.next_in_level(neighbor, delays[outgoing.len()]);
                outgoing.push(cur);
                assert(forward_chain(prev, tail, skip, delays@, before.len() as int)
                    == seq![cur] + forward_chain(cur, tail.drop_first(), skip, delays@, before.len() + 1 as int));
                assert(outgoing@ + forward_chain(cur, nbrs.skip(j + 1), skip, delays@, outgoing@.len() as int)
                    =~= before + forward_chain(prev, tail, skip, delays@, before.len() as int));
            }
            j = j + 1;
        }
        assert(nbrs.skip(nbrs.len() as int) =~= Seq::<NodeId>::empty());
        if outgoing.len() > 0 {
            self.time_of_last_sent_msg = outgoing[outgoing.len() - 1].get_time();
        }
        outgoing
    }
}

/// A chain of event-driven sends leaves no earlier than the message it starts
/// from.
proof fn lemma_chain_not_earlier(msg: MessageAsync, nbrs: Seq<NodeId>, skip: NodeId, d: Seq<u64>, k: int, idx: int)
    requires
        0 <= idx < forward_chain(msg, nbrs, skip, d, k).len(),
    ensures
        forward_chain(msg, nbrs, skip, d, k)[idx].time >= msg.time,
    decreases nbrs.len(),
{
    let rest = nbrs.drop_first();
    if nbrs[0] == skip {
        lemma_chain_not_earlier(msg, rest, skip, d, k, idx);
    } else {
        let next = msg.spec_next_in_level(nbrs[0], d[k]);
        if idx > 0 {
            lemma_chain_not_earlier(next, rest, skip, d, k + 1, idx - 1);
            assert(forward_chain(msg, nbrs, skip, d, k)[idx] == forward_chain(next, rest, skip, d, k + 1)[idx - 1]);
        }
    }
}

/// In an event-driven run, whatever a node sends while handling a message
/// leaves no earlier than that message arrived: forwarded messages and
/// acknowledgements never precede their cause. A search message it forwards
/// also leaves no earlier than its previous send, and its clock of last sends
/// never goes back.
pub proof fn lemma_async_step_causal(nd: NodeModel<MessageAsync>, d: Seq<u64>)
    requires
        nd.inbox.len() > 0,
    ensures
        forall|q: int| 0 <= q < nd.step(d).1.len() ==> (#[trigger] nd.step(d).1[q]).time >= nd.top().time,
        !nd.top().ack ==> forall|q: int| 0 <= q < nd.step(d).1.len() ==> (#[trigger] nd.step(d).1[q]).time >= nd.last_sent,
        !nd.top().ack ==> nd.step(d).0.last_sent >= nd.last_sent,
{
    let m = nd.top();
    let out = nd.step(d).1;
    if !m.ack && !nd.state.visited && !(nd.neighbors.len() == 1 && m.sender is Some) {
        let skip = match m.sender {
            Some(p) => p,
            None => usize::MAX,
        };
        let first = m.spec_to_next_level(nd.last_sent);
        assert(out == forward_chain(first, nd.neighbors, skip, d, 0));
        assert forall|q: int| 0 <= q < out.len() implies (#[trigger] out[q]).time >= m.time && out[q].time >= nd.last_sent by {
            lemma_chain_not_earlier(first, nd.neighbors, skip, d, 0, q);
        }
        if out.len() > 0 {
            assert(out.last() == out[out.len() - 1]);
        }
    }
}

/// Which message a node of an event-driven run handles next: one with the
/// earliest time, among those the one closest to the root, and among equals
/// the one that arrived first.
pub proof fn lemma_async_handling_order(s: Seq<MessageAsync>)
    requires
        s.len() > 0,
    ensures
        ({
            let t = top_index(s);
            &&& 0 <= t < s.len()
            &&& forall|j: int| 0 <= j < s.len() ==> s[t].time <= (#[trigger] s[j]).time
            &&& forall|j: int| 0 <= j < s.len() && s[j].time == s[t].time ==> s[t].level <= (#[trigger] s[j]).level
            &&& forall|j: int| 0 <= j < t ==> s[t].time < (#[trigger] s[j]).time || (s[t].time == s[j].time && s[t].level
                < s[j].level)
        }),
{
    lemma_top_index(s);
    let t = top_index(s);
    assert forall|j: int| 0 <= j < s.len() implies s[t].time <= (#[trigger] s[j]).time && (s[j].time == s[t].time
        ==> s[t].level <= s[j].level) by {
        assert(!rank_lt(s[j].rank(), s[t].rank()));
    }
    assert forall|j: int| 0 <= j < t implies s[t].time < (#[trigger] s[j]).time || (s[t].time == s[j].time && s[t].level
        < s[j].level) by {
        assert(rank_lt(s[t].rank(), s[j].rank()));
    }
}

/// Which message a node of a round-based run handles next: among flooding
/// messages the one that left earliest, among breadth-first ones the one
/// closest to the root; among equals the one that arrived first.
pub proof fn lemma_sync_handling_order(s: Seq<MessageSync>)
    requires
        s.len() > 0,
    ensures
        ({
            let t = top_index(s);
            &&& 0 <= t < s.len()
            &&& (forall|j: int| 0 <= j < s.len() ==> (#[trigger] s[j]).message_type == MessageType::Flood) ==> (forall|j: int|
                0 <= j < s.len() ==> s[t].time <= (#[trigger] s[j]).time) && (forall|j: int|
                0 <= j < t ==> s[t].time < (#[trigger] s[j]).time)
            &&& (forall|j: int| 0 <= j < s.len() ==> (#[trigger] s[j]).message_type == MessageType::Bfs) ==> (forall|j: int|
                0 <= j < s.len() ==> s[t].level <= (#[trigger] s[j]).level) && (forall|j: int|
                0 <= j < t ==> s[t].level < (#[trigger] s[j]).level)
        }),
{
    lemma_top_index(s);
    let t = top_index(s);
    if forall|j: int| 0 <= j < s.len() ==> (#[trigger] s[j]).message_type == MessageType::Flood {
        assert forall|j: int| 0 <= j < s.len() implies s[t].time <= (#[trigger] s[j]).time by {
            assert(s[j].message_type == MessageType::Flood && s[t].message_type == MessageType::Flood);
            assert(!rank_lt(s[j].rank(), s[t].rank()));
        }
        assert forall|j: int| 0 <= j < t implies s[t].time < (#[trigger] s[j]).time by {
            assert(s[j].message_type == MessageType::Flood && s[t].message_type == MessageType::Flood);
            assert(rank_lt(s[t].rank(), s[j].rank()));
        }
    }
    if forall|j: int| 0 <= j < s.len() ==> (#[trigger] s[j]).message_type == MessageType::Bfs {
        assert forall|j: int| 0 <= j < s.len() implies s[t].level <= (#[trigger] s[j]).level by {
            assert(s[j].message_type == MessageType::Bfs && s[t].message_type == MessageType::Bfs);
            assert(!rank_lt(s[j].rank(), s[t].rank()));
        }
        assert forall|j: int| 0 <= j < t implies s[t].level < (#[trigger] s[j]).level by {
            assert(s[j].message_type == MessageType::Bfs && s[t].message_type == MessageType::Bfs);
            assert(rank_lt(s[t].rank(), s[j].rank()));
        }
    }
}

} // verus!
