use vstd::prelude::*;

verus! {

/// Index of a node in a graph.
pub type NodeId = usize;

/// What a simulation run spreads through the graph.
#[derive(Clone, Copy, Debug, PartialEq, Eq, Structural)]
pub enum MessageType {
    /// Plain flooding: a message is ordered by the time it was sent.
    Flood,
    /// Breadth-first search: a message is ordered by its distance from the root.
    Bfs,
}

/// Behaviour shared by the round-based and the event-based messages.
///
/// A node keeps its incoming messages in a priority order: the message with the
/// smallest `rank` (compared lexicographically) is handled first.
pub trait Message: Sized + Copy {
    /// The clock used by this kind of message.
    type Time: Copy;

    spec fn time_of(&self) -> Self::Time;

    spec fn sender_of(&self) -> Option<NodeId>;

    spec fn level_of(&self) -> usize;

    spec fn receiver_of(&self) -> NodeId;

    spec fn type_of(&self) -> MessageType;

    spec fn ack_of(&self) -> bool;

    /// Priority key: the smaller key is handled first.
    spec fn rank(&self) -> (u64, u64);

    /// No counter of this message is at its upper limit.
    spec fn can_advance(&self) -> bool;

    spec fn zero() -> Self::Time;

    /// A fresh message, not an acknowledgement.
    spec fn spec_new(
        time: Self::Time,
        sender: Option<NodeId>,
        level: usize,
        receiver: NodeId,
        message_type: MessageType,
    ) -> Self;

    /// The message that the receiver forwards one level further.
    spec fn spec_to_next_level(&self, last_sent: Self::Time) -> Self;

    /// This message, addressed to `receiver` and sent `delay` later.
    spec fn spec_next_in_level(&self, receiver: NodeId, delay: Self::Time) -> Self;

    /// The acknowledgement that the receiver of this message sends to `receiver`.
    spec fn spec_create_ack(&self, last_sent: Self::Time, receiver: NodeId, delay: Self::Time) -> Self;

    /// What the three constructors keep and change.
    proof fn lemma_constructors(m: Self, last_sent: Self::Time, receiver: NodeId, delay: Self::Time)
        ensures
            m.can_advance() ==> ({
                let f = m.spec_to_next_level(last_sent);
                &&& f.sender_of() == Some(m.receiver_of())
                &&& f.level_of() == m.level_of() + 1
                &&& f.receiver_of() == m.receiver_of()
                &&& f.type_of() == m.type_of()
                &&& !f.ack_of()
            }),
            ({
                let n = m.spec_next_in_level(receiver, delay);
                &&& n.sender_of() == m.sender_of()
                &&& n.level_of() == m.level_of()
                &&& n.receiver_of() == receiver
                &&& n.type_of() == m.type_of()
                &&& n.ack_of() == m.ack_of()
            }),
            ({
                let a = m.spec_create_ack(last_sent, receiver, delay);
                &&& a.sender_of() == Some(m.receiver_of())
                &&& a.level_of() == m.level_of()
                &&& a.receiver_of() == receiver
                &&& a.type_of() == m.type_of()
                &&& a.ack_of()
            }),
    ;

    fn time_zero() -> (t: Self::Time)
        ensures
            t == Self::zero(),
    ;

    fn new(
        time: Self::Time,
        sender: Option<NodeId>,
        level: usize,
        receiver: NodeId,
        message_type: MessageType,
    ) -> (m: Self)
        ensures
            m == Self::spec_new(time, sender, level, receiver, message_type),
            m.time_of() == time,
            m.sender_of() == sender,
            m.level_of() == level,
            m.receiver_of() == receiver,
            m.type_of() == message_type,
            !m.ack_of(),
    ;

    /// The message that the receiver forwards to the next level.
    fn to_next_level(&self, last_sent: Self::Time) -> (m: Self)
        requires
            self.can_advance(),
        ensures
            m == self.spec_to_next_level(last_sent),
    ;

    /// The same message, addressed to `receiver` and sent after `delay`.
    fn next_in_level(&self, receiver: NodeId, delay: Self::Time) -> (m: Self)
        ensures
            m == self.spec_next_in_level(receiver, delay),
    ;

    /// An acknowledgement from the receiver of this message to `receiver`.
    fn create_ack(&self, last_sent: Self::Time, receiver: NodeId, delay: Self::Time) -> (m: Self)
        requires
            self.can_advance(),
        ensures
            m == self.spec_create_ack(last_sent, receiver, delay),
    ;

    fn get_time(&self) -> (t: Self::Time)
        ensures
            t == self.time_of(),
    ;

    fn get_sender(&self) -> (s: Option<NodeId>)
        ensures
            s == self.sender_of(),
    ;

    fn get_receiver(&self) -> (r: NodeId)
        ensures
            r == self.receiver_of(),
    ;

    fn get_level(&self) -> (l: usize)
        ensures
            l == self.level_of(),
    ;

    fn is_ack(&self) -> (b: bool)
        ensures
            b == self.ack_of(),
    ;

    fn check_advance(&self) -> (b: bool)
        ensures
            b == self.can_advance(),
    ;

    fn rank_key(&self) -> (k: (u64, u64))
        ensures
            k == self.rank(),
    ;
}

/// A message of the round-based simulation: its time counts rounds.
#[derive(Clone, Copy, Debug, PartialEq, Eq, Structural)]
pub struct MessageSync {
    pub time: usize,
    pub sender: Option<NodeId>,
    pub level: usize,
    pub receiver: NodeId,
    pub message_type: MessageType,
    pub ack: bool,
}

/// A message of the event-based simulation.
///
/// Its time is the sum of Poisson-distributed transmission delays. Such delays
/// are whole numbers, so the time is kept as an integer.
#[derive(Clone, Copy, Debug, PartialEq, Eq, Structural)]
pub struct MessageAsync {
    pub time: u64,
    pub sender: Option<NodeId>,
    pub level: usize,
    pub receiver: NodeId,
    pub message_type: MessageType,
    pub ack: bool,
}

/// The larger of two clock readings.
pub open spec fn later(a: u64, b: u64) -> u64 {
    if a < b { b } else { a }
}

/// `a + b`, held at `u64::MAX`.
pub open spec fn add_capped(a: u64, b: u64) -> u64 {
    if a + b > u64::MAX { u64::MAX } else { (a + b) as u64 }
}

/// Event-driven messages never travel back in time: a forwarded message
/// leaves no earlier than the message that caused it arrived and than the
/// node's last send; a further send of a level leaves `delay` after the
/// previous one; and an acknowledgement leaves `delay` after the later of the
/// arrival of the message it answers and the node's last send. Each holds
/// unless the clock is at its limit, where the time stays at `u64::MAX`.
pub proof fn lemma_async_times(m: MessageAsync, last_sent: u64, receiver: NodeId, delay: u64)
    ensures
        ({
            let f = m.spec_to_next_level(last_sent);
            &&& f.time >= m.time && f.time >= last_sent
            &&& f.time == m.time || f.time == last_sent
        }),
        ({
            let x = m.spec_next_in_level(receiver, delay);
            &&& x.time >= m.time
            &&& x.time == u64::MAX || x.time == m.time + delay
            &&& m.time + delay <= u64::MAX ==> x.time == m.time + delay
        }),
        ({
            let a = m.spec_create_ack(last_sent, receiver, delay);
            &&& a.time >= m.time && a.time >= last_sent
            &&& a.time == u64::MAX || (a.time >= delay && a.time - delay >= m.time && a.time - delay >= last_sent && (
            a.time - delay == m.time || a.time - delay == last_sent))
            &&& m.time + delay < u64::MAX && last_sent + delay < u64::MAX ==> a.time < u64::MAX
        }),
{
}

/// A round-based message moves one round on: a forwarded message and an
/// acknowledgement leave in the round after the message arrived, and a
/// further send of a level leaves in the same round.
pub proof fn lemma_sync_times(m: MessageSync, last_sent: usize, receiver: NodeId, delay: usize)
    requires
        m.time < usize::MAX,
    ensures
        m.spec_to_next_level(last_sent).time == m.time + 1,
        m.spec_next_in_level(receiver, delay).time == m.time,
        m.spec_create_ack(last_sent, receiver, delay).time == m.time + 1,
{
}

impl Message for MessageSync {
    type Time = usize;

    open spec fn time_of(&self) -> usize { self.time }

    open spec fn sender_of(&self) -> Option<NodeId> { self.sender }

    open spec fn level_of(&self) -> usize { self.level }

    open spec fn receiver_of(&self) -> NodeId { self.receiver }

    open spec fn type_of(&self) -> MessageType { self.message_type }

    open spec fn ack_of(&self) -> bool { self.ack }

    /// Flooding handles the earliest message first, BFS the one closest to the root.
    open spec fn rank(&self) -> (u64, u64) {
        match self.message_type {
            MessageType::Flood => (self.time as u64, 0),
            MessageType::Bfs => (self.level as u64, 0),
        }
    }

    open spec fn can_advance(&self) -> bool {
        self.time < usize::MAX && self.level < usize::MAX
    }

    open spec fn zero() -> usize { 0 }

    open spec fn spec_new(
        time: usize,
        sender: Option<NodeId>,
        level: usize,
        receiver: NodeId,
        message_type: MessageType,
    ) -> Self {
        MessageSync { time, sender, level, receiver, message_type, ack: false }
    }

    /// Forwarding happens one round after the message arrived.
    open spec fn spec_to_next_level(&self, last_sent: usize) -> Self {
        MessageSync {
            time: (self.time + 1) as usize,
            sender: Some(self.receiver),
            level: (self.level + 1) as usize,
            receiver: self.receiver,
            message_type: self.message_type,
            ack: false,
        }
    }

    /// All messages of one level leave in the same round.
    open spec fn spec_next_in_level(&self, receiver: NodeId, delay: usize) -> Self {
        MessageSync { receiver, ..*self }
    }

    /// An acknowledgement leaves one round after the message arrived.
    open spec fn spec_create_ack(&self, last_sent: usize, receiver: NodeId, delay: usize) -> Self {
        MessageSync {
            time: (self.time + 1) as usize,
            sender: Some(self.receiver),
            level: self.level,
            receiver,
            message_type: self.message_type,
            ack: true,
        }
    }

    proof fn lemma_constructors(m: Self, last_sent: usize, receiver: NodeId, delay: usize) {
    }

    fn time_zero() -> (t: usize) {
        0
    }

    fn new(
        time: usize,
        sender: Option<NodeId>,
        level: usize,
        receiver: NodeId,
        message_type: MessageType,
    ) -> (m: Self) {
        MessageSync { time, sender, level, receiver, message_type, ack: false }
    }

    fn to_next_level(&self, last_sent: usize) -> (m: Self) {
        MessageSync {
            time: self.time + 1,
            sender: Some(self.receiver),
            level: self.level + 1,
            receiver: self.receiver,
            message_type: self.message_type,
            ack: false,
        }
    }

    fn next_in_level(&self, receiver: NodeId, delay: usize) -> (m: Self) {
        MessageSync {
            time: self.time,
            sender: self.sender,
            level: self.level,
            receiver,
            message_type: self.message_type,
            ack: self.ack,
        }
    }

    fn create_ack(&self, last_sent: usize, receiver: NodeId, delay: usize) -> (m: Self) {
        MessageSync {
            time: self.time + 1,
            sender: Some(self.receiver),
            level: self.level,
            receiver,
            message_type: self.message_type,
            ack: true,
        }
    }

    fn get_time(&self) -> (t: usize) {
        self.time
    }

    fn get_sender(&self) -> (s: Option<NodeId>) {
        self.sender
    }

    fn get_receiver(&self) -> (r: NodeId) {
        self.receiver
    }

    fn get_level(&self) -> (l: usize) {
        self.level
    }

    fn is_ack(&self) -> (b: bool) {
        self.ack
    }

    fn check_advance(&self) -> (b: bool) {
        self.time < usize::MAX && self.level < usize::MAX
    }

    fn rank_key(&self) -> (k: (u64, u64)) {
        match self.message_type {
            MessageType::Flood => (self.time as u64, 0),
            MessageType::Bfs => (self.level as u64, 0),
        }
    }
}

impl Message for MessageAsync {
    type Time = u64;

    open spec fn time_of(&self) -> u64 { self.time }

    open spec fn sender_of(&self) -> Option<NodeId> { self.sender }

    open spec fn level_of(&self) -> usize { self.level }

    open spec fn receiver_of(&self) -> NodeId { self.receiver }

    open spec fn type_of(&self) -> MessageType { self.message_type }

    open spec fn ack_of(&self) -> bool { self.ack }

    /// The earliest message first; among equal times, the one closest to the root.
    open spec fn rank(&self) -> (u64, u64) {
        (self.time, self.level as u64)
    }

    open spec fn can_advance(&self) -> bool {
        self.level < usize::MAX
    }

    open spec fn zero() -> u64 { 0 }

    open spec fn spec_new(
        time: u64,
        sender: Option<NodeId>,
        level: usize,
        receiver: NodeId,
        message_type: MessageType,
    ) -> Self {
        MessageAsync { time, sender, level, receiver, message_type, ack: false }
    }

    /// Forwarding starts once the message has arrived and the node's last send is out.
    open spec fn spec_to_next_level(&self, last_sent: u64) -> Self {
        MessageAsync {
            time: later(self.time, last_sent),
            sender: Some(self.receiver),
            level: (self.level + 1) as usize,
            receiver: self.receiver,
            message_type: self.message_type,
            ack: false,
        }
    }

    /// Each further send of a level leaves one transmission delay later.
    open spec fn spec_next_in_level(&self, receiver: NodeId, delay: u64) -> Self {
        MessageAsync { time: add_capped(self.time, delay), receiver, ..*self }
    }

    /// An acknowledgement leaves one transmission delay after the later of the
    /// arrival and the node's last send.
    open spec fn spec_create_ack(&self, last_sent: u64, receiver: NodeId, delay: u64) -> Self {
        MessageAsync {
            time: add_capped(later(self.time, last_sent), delay),
            sender: Some(self.receiver),
            level: self.level,
            receiver,
            message_type: self.message_type,
            ack: true,
        }
    }

    proof fn lemma_constructors(m: Self, last_sent: u64, receiver: NodeId, delay: u64) {
    }

    fn time_zero() -> (t: u64) {
        0
    }

    fn new(
        time: u64,
        sender: Option<NodeId>,
        level: usize,
        receiver: NodeId,
        message_type: MessageType,
    ) -> (m: Self) {
        MessageAsync { time, sender, level, receiver, message_type, ack: false }
    }

    fn to_next_level(&self, last_sent: u64) -> (m: Self) {
        let time = if self.time < last_sent { last_sent } else { self.time };
        MessageAsync {
            time,
            sender: Some(self.receiver),
            level: self.level + 1,
            receiver: self.receiver,
            message_type: self.message_type,
            ack: false,
        }
    }

    fn next_in_level(&self, receiver: NodeId, delay: u64) -> (m: Self) {
        MessageAsync {
            time: self.time.saturating_add(delay),
            sender: self.sender,
            level: self.level,
            receiver,
            message_type: self.message_type,
            ack: self.ack,
        }
    }

    fn create_ack(&self, last_sent: u64, receiver: NodeId, delay: u64) -> (m: Self) {
        let start = if self.time < last_sent { last_sent } else { self.time };
        MessageAsync {
            time: start.saturating_add(delay),
            sender: Some(self.receiver),
            level: self.level,
            receiver,
            message_type: self.message_type,
            ack: true,
        }
    }

    fn get_time(&self) -> (t: u64) {
        self.time
    }

    fn get_sender(&self) -> (s: Option<NodeId>) {
        self.sender
    }

    fn get_receiver(&self) -> (r: NodeId) {
        self.receiver
    }

    fn get_level(&self) -> (l: usize) {
        self.level
    }

    fn is_ack(&self) -> (b: bool) {
        self.ack
    }

    fn check_advance(&self) -> (b: bool) {
        self.level < usize::MAX
    }

    fn rank_key(&self) -> (k: (u64, u64)) {
        (self.time, self.level as u64)
    }
}

} // verus!
