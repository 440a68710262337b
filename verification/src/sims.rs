use vstd::prelude::*;

use crate::graph::{count_visited, bfs_entry, msg_ok, Graph, GraphModel};
use crate::message::{Message, MessageAsync, MessageSync, MessageType, NodeId};
use crate::node::{is_first_min, lemma_top_index, top_index, top_position, NodeModel};

verus! {

/// Rounds after which a round-based run gives up.
pub const MAX_ROUNDS: usize = 1000;

/// When a run is over.
#[derive(Clone, Copy, Debug, PartialEq, Eq, Structural)]
pub enum StopRule {
    /// Every node has been visited.
    AllVisited,
    /// The root has heard back from all its neighbours.
    RootAcknowledged,
}

pub open spec fn finished<T: Message>(g: GraphModel<T>, rule: StopRule) -> bool {
    match rule {
        StopRule::AllVisited => count_visited(g.nodes) == g.nodes.len(),
        StopRule::RootAcknowledged => g.nodes[0].all_acks(),
    }
}

/// Largest number of neighbours of a node.
pub open spec fn max_degree<T: Message>(nodes: Seq<NodeModel<T>>) -> nat
    decreases nodes.len(),
{
    if nodes.len() == 0 {
        0
    } else {
        let m = max_degree(nodes.drop_last());
        if nodes.last().neighbors.len() > m {
            nodes.last().neighbors.len()
        } else {
            m
        }
    }
}

/// The delays handed to every round of a round-based run: zeros, one for each
/// message a node may send.
pub open spec fn round_delays(nodes: Seq<NodeModel<MessageSync>>) -> Seq<usize> {
    Seq::new(max_degree(nodes) + 1, |i: int| 0usize)
}

/// A round-based run from round `time` on: the graph and the round count when
/// it stops, or `None` where a round cannot go ahead (a counter would overflow,
/// or a message to be answered has no sender).
pub open spec fn sync_run(
    g: GraphModel<MessageSync>,
    delays: Seq<usize>,
    rule: StopRule,
    time: nat,
) -> Option<(GraphModel<MessageSync>, nat)>
    decreases MAX_ROUNDS + 1 - time,
{
    if finished(g, rule) {
        Some((g, time))
    } else if !g.round_ready(delays) {
        None
    } else if time + 1 > MAX_ROUNDS {
        Some((g.round(delays), time + 1))
    } else {
        sync_run(g.round(delays), delays, rule, time + 1)
    }
}

/// The graph after the first message of a run reaches node 0.
pub open spec fn initialized<T: Message>(g: GraphModel<T>, msg_type: MessageType) -> GraphModel<T> {
    GraphModel {
        nodes: g.nodes.update(0, g.nodes[0].receive(T::spec_new(T::zero(), None, 0, 0, msg_type))),
        ..g
    }
}

pub proof fn lemma_max_degree<T: Message>(nodes: Seq<NodeModel<T>>)
    ensures
        forall|i: int| 0 <= i < nodes.len() ==> #[trigger] nodes[i].neighbors.len() <= max_degree(nodes),
    decreases nodes.len(),
{
    if nodes.len() > 0 {
        lemma_max_degree(nodes.drop_last());
        assert forall|i: int| 0 <= i < nodes.len() implies #[trigger] nodes[i].neighbors.len() <= max_degree(nodes) by {
            if i < nodes.len() - 1 {
                assert(nodes[i] == nodes.drop_last()[i]);
            }
        }
    }
}

/// Zero delays, one more than the largest number of neighbours.
fn quiet_delays(graph: &Graph<MessageSync>) -> (d: Vec<usize>)
    ensures
        d@ == round_delays(graph@.nodes),
{
    let n = graph.size();
    let mut most: usize = 0;
    let mut i: usize = 0;
    while i < n
        invariant
            n == graph@.nodes.len(),
            0 <= i <= n,
            most == max_degree(graph@.nodes.take(i as int)),
        decreases n - i,
    {
        proof {
            assert(graph@.nodes.take(i + 1).drop_last() =~= graph@.nodes.take(i as int));
        }
        let deg = graph.node(i).num_neighbors();
        if deg > most {
            most = deg;
        }
        i = i + 1;
    }
    proof {
        assert(graph@.nodes.take(n as int) =~= graph@.nodes);
        lemma_max_degree(graph@.nodes);
        if n > 0 {
            assert(graph@.nodes[0].neighbors.len() <= max_degree(graph@.nodes));
        }
    }
    let mut d: Vec<usize> = Vec::new();
    let mut k: usize = 0;
    while k < most
        invariant
            0 <= k <= most,
            d@.len() == k,
            forall|j: int| 0 <= j < k ==> #[trigger] d@[j] == 0,
        decreases most - k,
    {
        d.push(0);
        k = k + 1;
    }
    d.push(0);
    assert(d@ =~= round_delays(graph@.nodes));
    d
}

/// Whether the run is over.
fn is_finished<T: Message>(graph: &Graph<T>, rule: StopRule) -> (b: bool)
    requires
        graph@.nodes.len() > 0,
    ensures
        b == finished(graph@, rule),
{
    match rule {
        StopRule::AllVisited => graph.visited() == graph.size(),
        StopRule::RootAcknowledged => graph.root().got_all_acks(),
    }
}

/// Runs rounds until `rule` says the run is over or `MAX_ROUNDS` rounds are done.
/// Returns the number of rounds, or `None` where a round cannot go ahead.
fn run_rounds(graph: &mut Graph<MessageSync>, rule: StopRule) -> (r: Option<usize>)
    requires
        old(graph)@.wf(),
        old(graph)@.nodes.len() > 0,
    ensures
        final(graph)@.wf(),
        final(graph)@.nodes.len() == old(graph)@.nodes.len(),
        match sync_run(old(graph)@, round_delays(old(graph)@.nodes), rule, 0) {
            Some((g, t)) => r == Some(t as usize) && final(graph)@ == g,
            None => r is None,
        },
{
    let ghost start = old(graph)@;
    let delays = quiet_delays(graph);
    let mut time: usize = 0;
    let mut result: Option<usize> = None;
    let mut running = true;
    while running
        invariant
            graph@.wf(),
            graph@.nodes.len() == start.nodes.len(),
            graph@.nodes.len() > 0,
            time <= MAX_ROUNDS + 1,
            delays@ == round_delays(start.nodes),
            running ==> time <= MAX_ROUNDS,
            running ==> sync_run(graph@, delays@, rule, time as nat) == sync_run(start, delays@, rule, 0),
            !running ==> match sync_run(start, delays@, rule, 0) {
                Some((g, t)) => result == Some(t as usize) && graph@ == g,
                None => result is None,
            },
        decreases MAX_ROUNDS + 1 - time, if running { 1int } else { 0int },
    {
        if is_finished(graph, rule) {
            result = Some(time);
            running = false;
        } else if !graph.round_ready(&delays) {
            result = None;
            running = false;
        } else {
            graph.process_round(&delays);
            time = time + 1;
            if time > MAX_ROUNDS {
                result = Some(time);
                running = false;
            }
        }
    }
    result
}

/// A flooding run from node 0: the number of rounds and of messages sent.
///
/// The run stops once every node is visited, or after `MAX_ROUNDS + 1` rounds;
/// `None` where a round cannot go ahead.
pub fn sync_flood_sim(graph: Graph<MessageSync>) -> (r: Option<(usize, usize)>)
    requires
        graph@.wf(),
        graph@.nodes.len() > 0,
    ensures
        match sync_run(initialized(graph@, MessageType::Flood), round_delays(graph@.nodes), StopRule::AllVisited, 0) {
            Some((g, t)) => r == Some((t as usize, g.messages_sent)),
            None => r is None,
        },
{
    let mut graph = graph;
    let ghost start = graph@;
    graph.init_algorithm(0, MessageType::Flood);
    proof {
        assert(graph@ == initialized(start, MessageType::Flood));
        assert forall|i: int| 0 <= i < graph@.nodes.len() implies #[trigger] graph@.nodes[i].neighbors.len()
            == start.nodes[i].neighbors.len() by {
        }
        lemma_round_delays_neighbors(graph@.nodes, start.nodes);
    }
    match run_rounds(&mut graph, StopRule::AllVisited) {
        Some(time) => Some((time, graph.messages_sent())),
        None => None,
    }
}

/// A breadth-first-search run from node 0: the parent and level of every node.
///
/// `None` where a round cannot go ahead, or where a node ends the run without a
/// level.
pub fn sync_bfs_sim(graph: Graph<MessageSync>) -> (r: Option<Vec<(NodeId, usize)>>)
    requires
        graph@.wf(),
        graph@.nodes.len() > 0,
    ensures
        match sync_run(initialized(graph@, MessageType::Bfs), round_delays(graph@.nodes), StopRule::AllVisited, 0) {
            Some((g, t)) => if forall|i: int| 0 <= i < g.nodes.len() ==> (#[trigger] g.nodes[i]).state.level is Some {
                r matches Some(v) && v@ == g.nodes.map_values(|nd: NodeModel<MessageSync>| bfs_entry(nd))
            } else {
                r is None
            },
            None => r is None,
        },
{
    let mut graph = graph;
    let ghost start = graph@;
    graph.init_algorithm(0, MessageType::Bfs);
    proof {
        assert forall|i: int| 0 <= i < graph@.nodes.len() implies #[trigger] graph@.nodes[i].neighbors.len()
            == start.nodes[i].neighbors.len() by {
        }
        lemma_round_delays_neighbors(graph@.nodes, start.nodes);
    }
    match run_rounds(&mut graph, StopRule::AllVisited) {
        Some(_) => {
            if graph.all_levels_known() {
                Some(graph.get_bfs_data())
            } else {
                None
            }
        },
        None => None,
    }
}

/// A flooding run from node 0 that stops once the root has heard back from all
/// its neighbours: the number of rounds and of messages sent.
pub fn sync_flood_sim_with_root_end_detection(graph: Graph<MessageSync>) -> (r: Option<(usize, usize)>)
    requires
        graph@.wf(),
        graph@.nodes.len() > 0,
    ensures
        match sync_run(initialized(graph@, MessageType::Flood), round_delays(graph@.nodes), StopRule::RootAcknowledged, 0) {
            Some((g, t)) => r == Some((t as usize, g.messages_sent)),
            None => r is None,
        },
{
    let mut graph = graph;
    let ghost start = graph@;
    graph.init_algorithm(0, MessageType::Flood);
    proof {
        assert forall|i: int| 0 <= i < graph@.nodes.len() implies #[trigger] graph@.nodes[i].neighbors.len()
            == start.nodes[i].neighbors.len() by {
        }
        lemma_round_delays_neighbors(graph@.nodes, start.nodes);
    }
    match run_rounds(&mut graph, StopRule::RootAcknowledged) {
        Some(time) => Some((time, graph.messages_sent())),
        None => None,
    }
}

proof fn lemma_round_delays_neighbors<T: Message>(a: Seq<NodeModel<T>>, b: Seq<NodeModel<T>>)
    requires
        a.len() == b.len(),
        forall|i: int| 0 <= i < a.len() ==> #[trigger] a[i].neighbors.len() == b[i].neighbors.len(),
    ensures
        max_degree(a) == max_degree(b),
    decreases a.len(),
{
    if a.len() > 0 {
        let a1 = a.drop_last();
        let b1 = b.drop_last();
        assert forall|i: int| 0 <= i < a1.len() implies #[trigger] a1[i].neighbors.len() == b1[i].neighbors.len() by {
            assert(a1[i] == a[i] && b1[i] == b[i]);
        }
        lemma_round_delays_neighbors(a1, b1);
        assert(a.last().neighbors.len() == b.last().neighbors.len());
    }
}

/// What an event-driven run does next.
#[derive(Clone, Copy, Debug, PartialEq, Eq, Structural)]
pub enum Next {
    /// Deliver the earliest message in transit.
    Deliver,
    /// The run is over.
    Done,
    /// The run is not over, yet nothing is in transit.
    Stuck,
}

/// The next move of an event-driven run under `rule`: a run until every node
/// is visited also ends when nothing is left in transit; a run until the root
/// has heard back needs a message in transit until then.
pub open spec fn next_spec(s: AsyncSimModel, rule: StopRule) -> Next {
    if finished(s.graph, rule) {
        Next::Done
    } else if s.queue.len() == 0 {
        match rule {
            StopRule::AllVisited => Next::Done,
            StopRule::RootAcknowledged => Next::Stuck,
        }
    } else {
        Next::Deliver
    }
}

/// A round-based run stops as soon as its rule is met: once every node is
/// visited (or the root has heard back, under that rule) no further round runs
/// and the run's time is the current one.
pub proof fn lemma_sync_run_stops(g: GraphModel<MessageSync>, d: Seq<usize>, time: nat)
    ensures
        count_visited(g.nodes) == g.nodes.len() ==> sync_run(g, d, StopRule::AllVisited, time) == Some((g, time)),
        g.nodes[0].all_acks() ==> sync_run(g, d, StopRule::RootAcknowledged, time) == Some((g, time)),
{
}

/// When an event-driven run stops: until every node is visited, the run is
/// over exactly when every node is visited or nothing is in transit, and it
/// delivers otherwise; until the root has heard back, it is over exactly when
/// the root has heard back from all its neighbours, delivers while something
/// is in transit, and is stuck otherwise.
pub proof fn lemma_next_law(s: AsyncSimModel)
    ensures
        count_visited(s.graph.nodes) == s.graph.nodes.len() ==> next_spec(s, StopRule::AllVisited) == Next::Done,
        (next_spec(s, StopRule::AllVisited) == Next::Done) <==> (count_visited(s.graph.nodes) == s.graph.nodes.len()
            || s.queue.len() == 0),
        (next_spec(s, StopRule::AllVisited) == Next::Deliver) <==> (count_visited(s.graph.nodes) != s.graph.nodes.len()
            && s.queue.len() > 0),
        (next_spec(s, StopRule::RootAcknowledged) == Next::Done) <==> s.graph.nodes[0].all_acks(),
        (next_spec(s, StopRule::RootAcknowledged) == Next::Deliver) <==> (!s.graph.nodes[0].all_acks() && s.queue.len()
            > 0),
        (next_spec(s, StopRule::RootAcknowledged) == Next::Stuck) <==> (!s.graph.nodes[0].all_acks() && s.queue.len()
            == 0),
{
}

/// The abstract value of an event-driven run.
pub struct AsyncSimModel {
    pub graph: GraphModel<MessageAsync>,
    /// Messages in transit.
    pub queue: Seq<MessageAsync>,
    /// Time of the last message delivered.
    pub time: u64,
}

impl AsyncSimModel {
    pub open spec fn wf(self) -> bool {
        &&& self.graph.wf()
        &&& self.graph.nodes.len() > 0
        &&& forall|k: int| 0 <= k < self.queue.len() ==> msg_ok(#[trigger] self.queue[k], self.graph.nodes.len() as int)
    }

    /// The next message in transit is there and can be delivered.
    pub open spec fn can_step(self, delays: Seq<u64>) -> bool {
        &&& self.queue.len() > 0
        &&& self.graph.handle_ready(self.queue[top_index(self.queue)], delays)
    }

    /// Delivers the earliest message in transit; what its receiver sends joins
    /// the messages in transit.
    pub open spec fn step(self, delays: Seq<u64>) -> AsyncSimModel {
        let i = top_index(self.queue);
        let m = self.queue[i];
        let (g, out) = self.graph.handle(m, delays);
        AsyncSimModel { graph: g, queue: self.queue.remove(i) + out, time: m.time }
    }
}

/// One step of an event-driven run delivers a message in transit that is not
/// later than any other; the run's time becomes that message's time; the
/// messages in transit lose that one and gain exactly those that the message
/// counter adds. With no message waiting in an inbox and nothing in transit
/// earlier than the run's time, the time never goes back and nothing comes to
/// be in transit earlier than it.
pub proof fn lemma_async_step_law(s: AsyncSimModel, d: Seq<u64>)
    requires
        s.wf(),
        s.can_step(d),
    ensures
        forall|k: int| 0 <= k < s.queue.len() ==> s.step(d).time <= (#[trigger] s.queue[k]).time,
        exists|k: int| 0 <= k < s.queue.len() && s.step(d).time == (#[trigger] s.queue[k]).time,
        s.step(d).queue.len() + 1 == s.queue.len() + (s.step(d).graph.messages_sent - s.graph.messages_sent),
        s.step(d).graph.messages_sent >= s.graph.messages_sent,
        ((forall|i: int| 0 <= i < s.graph.nodes.len() ==> (#[trigger] s.graph.nodes[i]).inbox.len() == 0) && (forall|k: int|
            0 <= k < s.queue.len() ==> (#[trigger] s.queue[k]).time >= s.time)) ==> (s.step(d).time >= s.time && forall|k: int|
            0 <= k < s.step(d).queue.len() ==> (#[trigger] s.step(d).queue[k]).time >= s.step(d).time),
{
    let i = top_index(s.queue);
    let m = s.queue[i];
    crate::node::lemma_async_handling_order(s.queue);
    crate::graph::lemma_handle_counts(s.graph, m, d);
    let r = m.receiver as int;
    let nd = s.graph.nodes[r].receive(m);
    let (g2, out) = s.graph.handle(m, d);
    let q2 = s.queue.remove(i) + out;
    assert(s.step(d).queue == q2);
    if (forall|i: int| 0 <= i < s.graph.nodes.len() ==> (#[trigger] s.graph.nodes[i]).inbox.len() == 0) && (forall|k: int|
        0 <= k < s.queue.len() ==> (#[trigger] s.queue[k]).time >= s.time) {
        assert(s.graph.nodes[r].inbox.len() == 0);
        assert(nd.inbox =~= seq![m]);
        lemma_top_index(nd.inbox);
        assert(nd.top() == m);
        crate::node::lemma_async_step_causal(nd, d);
        assert forall|k: int| 0 <= k < q2.len() implies (#[trigger] q2[k]).time >= m.time by {
            if k < s.queue.len() - 1 {
                if k < i {
                    assert(q2[k] == s.queue[k]);
                } else {
                    assert(q2[k] == s.queue[k + 1]);
                }
            } else {
                assert(q2[k] == out[k - (s.queue.len() - 1)]);
            }
        }
    }
}

/// An event-driven run: messages are delivered one at a time, earliest first.
///
/// Each step needs the transmission delays of the messages the receiver may
/// send; they are drawn outside the library.
pub struct AsyncSim {
    graph: Graph<MessageAsync>,
    queue: Vec<MessageAsync>,
    time: u64,
}

impl View for AsyncSim {
    type V = AsyncSimModel;

    closed spec fn view(&self) -> AsyncSimModel {
        AsyncSimModel { graph: self.graph@, queue: self.queue@, time: self.time }
    }
}

impl AsyncSim {
    /// A run whose first message goes to node 0 at time 0.
    pub fn new(graph: Graph<MessageAsync>, msg_type: MessageType) -> (s: Self)
        requires
            graph@.wf(),
            graph@.nodes.len() > 0,
        ensures
            s@ == (AsyncSimModel {
                graph: graph@,
                queue: seq![MessageAsync::spec_new(0, None, 0, 0, msg_type)],
                time: 0,
            }),
            s@.wf(),
    {
        let mut queue: Vec<MessageAsync> = Vec::new();
        queue.push(MessageAsync::new(0, None, 0, 0, msg_type));
        let s = AsyncSim { graph, queue, time: 0 };
        assert(s@.queue =~= seq![MessageAsync::spec_new(0, None, 0, 0, msg_type)]);
        s
    }

    pub fn time(&self) -> (t: u64)
        ensures
            t == self@.time,
    {
        self.time
    }

    pub fn graph(&self) -> (g: &Graph<MessageAsync>)
        ensures
            g@ == self@.graph,
    {
        &self.graph
    }

    pub fn into_graph(self) -> (g: Graph<MessageAsync>)
        ensures
            g@ == self@.graph,
    {
        self.graph
    }

    pub fn queue_empty(&self) -> (b: bool)
        ensures
            b == (self@.queue.len() == 0),
    {
        self.queue.len() == 0
    }

    /// Every node has been visited.
    pub fn all_visited(&self) -> (b: bool)
        ensures
            b == (count_visited(self@.graph.nodes) == self@.graph.nodes.len()),
    {
        self.graph.visited() == self.graph.size()
    }

    /// The root has heard back from all its neighbours.
    pub fn root_acknowledged(&self) -> (b: bool)
        requires
            self@.wf(),
        ensures
            b == self@.graph.nodes[0].all_acks(),
    {
        self.graph.root().got_all_acks()
    }

    /// Whether the run goes on under `rule`.
    pub fn next(&self, rule: StopRule) -> (r: Next)
        requires
            self@.wf(),
        ensures
            r == next_spec(self@, rule),
    {
        let done = match rule {
            StopRule::AllVisited => self.all_visited(),
            StopRule::RootAcknowledged => self.root_acknowledged(),
        };
        if done {
            Next::Done
        } else if self.queue_empty() {
            match rule {
                StopRule::AllVisited => Next::Done,
                StopRule::RootAcknowledged => Next::Stuck,
            }
        } else {
            Next::Deliver
        }
    }

    /// How many delays the next step needs: one more than the number of
    /// neighbours of the next receiver (none when nothing is in transit).
    pub fn delays_needed(&self) -> (k: usize)
        requires
            self@.wf(),
        ensures
            self@.queue.len() == 0 ==> k == 0,
            self@.queue.len() > 0 ==> k == if self@.graph.nodes[self@.queue[top_index(self@.queue)].receiver as int].neighbors.len() < usize::MAX {
                self@.graph.nodes[self@.queue[top_index(self@.queue)].receiver as int].neighbors.len() + 1
            } else {
                usize::MAX as nat
            },
    {
        if self.queue.len() == 0 {
            return 0;
        }
        let idx = top_position(&self.queue);
        let r = self.queue[idx].receiver;
        proof {
            assert(msg_ok(self@.queue[idx as int], self@.graph.nodes.len() as int));
        }
        let deg = self.graph.node(r).num_neighbors();
        if deg < usize::MAX {
            deg + 1
        } else {
            deg
        }
    }

    /// Delivers the earliest message in transit, if it can be delivered with
    /// these delays; says whether it was.
    pub fn step(&mut self, delays: &Vec<u64>) -> (b: bool)
        requires
            old(self)@.wf(),
        ensures
            b == old(self)@.can_step(delays@),
            b ==> final(self)@ == old(self)@.step(delays@),
            !b ==> final(self)@ == old(self)@,
            final(self)@.wf(),
    {
        if self.queue.len() == 0 {
            return false;
        }
        let ghost pre = self@;
        let idx = top_position(&self.queue);
        let msg = self.queue[idx];
        if !self.graph.handle_ready(&msg, delays) {
            return false;
        }
        self.queue.remove(idx);
        let mut out = self.graph.process_message_async(msg, delays);
        self.queue.append(&mut out);
        self.time = msg.time;
        proof {
            let n = pre.graph.nodes.len() as int;
            let rest = pre.queue.remove(idx as int);
            assert forall|k: int| 0 <= k < self@.queue.len() implies msg_ok(#[trigger] self@.queue[k], n) by {
                if k < rest.len() {
                    if k < idx {
                        assert(self@.queue[k] == pre.queue[k]);
                    } else {
                        assert(self@.queue[k] == pre.queue[k + 1]);
                    }
                } else {
                    assert(self@.queue[k] == pre.graph.handle(msg, delays@).1[k - rest.len()]);
                }
            }
            assert(self@.queue =~= pre.step(delays@).queue);
        }
        true
    }
}

} // verus!
