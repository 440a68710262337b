use vstd::prelude::*;

use crate::message::{MessageType, NodeId};
use crate::random::random_ratio;

verus! {

/// Numerator of the chance that a node gets a given other node as neighbour.
pub const LINK_NUMERATOR: u32 = 1;

/// Denominator of the chance that a node gets a given other node as neighbour.
pub const LINK_DENOMINATOR: u32 = 10;

/// What a flooding node has learned.
#[derive(Clone, Copy, Debug, PartialEq, Eq, Structural)]
pub struct NodeState {
    pub visited: bool,
    pub parent: Option<NodeId>,
    pub level: Option<u32>,
}

impl Default for NodeState {
    fn default() -> (s: NodeState)
        ensures
            s == (NodeState { visited: false, parent: None, level: None }),
    {
        NodeState { visited: false, parent: None, level: None }
    }
}

/// The abstract value of a flooding node.
pub struct NodeModel {
    pub id: NodeId,
    pub neighbors: Seq<NodeId>,
    pub state: NodeState,
    /// Messages received this round, with their senders.
    pub inbox: Seq<(NodeId, MessageType)>,
}

/// A flood message to every neighbour other than `parent`, in neighbour order.
pub open spec fn flood_targets(neighbors: Seq<NodeId>, parent: NodeId) -> Seq<(NodeId, MessageType)>
    decreases neighbors.len(),
{
    if neighbors.len() == 0 {
        seq![]
    } else {
        let rest = flood_targets(neighbors.drop_last(), parent);
        if neighbors.last() != parent {
            rest.push((neighbors.last(), MessageType::Flood))
        } else {
            rest
        }
    }
}

pub proof fn lemma_flood_targets_len(neighbors: Seq<NodeId>, parent: NodeId)
    ensures
        flood_targets(neighbors, parent).len() <= neighbors.len(),
    decreases neighbors.len(),
{
    if neighbors.len() > 0 {
        lemma_flood_targets_len(neighbors.drop_last(), parent);
    }
}

impl NodeModel {
    /// Handles the round's messages: an unvisited node that got one is visited,
    /// takes the first sender as parent and floods the other neighbours; the
    /// inbox is emptied either way.
    pub open spec fn process(self) -> (NodeModel, Seq<(NodeId, MessageType)>) {
        if !self.state.visited && self.inbox.len() > 0 {
            let sender = self.inbox[0].0;
            (
                NodeModel {
                    state: NodeState { visited: true, parent: Some(sender), level: self.state.level },
                    inbox: seq![],
                    ..self
                },
                flood_targets(self.neighbors, sender),
            )
        } else {
            (NodeModel { inbox: seq![], ..self }, seq![])
        }
    }
}

/// A node of the flooding network.
pub struct Node {
    pub id: NodeId,
    pub neighbors: Vec<NodeId>,
    pub state: NodeState,
    incoming_messages: Vec<(NodeId, MessageType)>,
}

impl View for Node {
    type V = NodeModel;

    closed spec fn view(&self) -> NodeModel {
        NodeModel {
            id: self.id,
            neighbors: self.neighbors@,
            state: self.state,
            inbox: self.incoming_messages@,
        }
    }
}

impl Node {
    pub fn new(id: NodeId) -> (n: Node)
        ensures
            n@ == (NodeModel {
                id,
                neighbors: seq![],
                state: NodeState { visited: false, parent: None, level: None },
                inbox: seq![],
            }),
    {
        Node { id, neighbors: Vec::new(), state: NodeState::default(), incoming_messages: Vec::new() }
    }

    pub fn get_id(&self) -> (r: NodeId)
        ensures
            r == self@.id,
    {
        self.id
    }

    pub fn get_state(&self) -> (r: NodeState)
        ensures
            r == self@.state,
    {
        self.state
    }

    pub fn get_neighbors(&self) -> (r: Vec<NodeId>)
        ensures
            r@ == self@.neighbors,
    {
        let r = self.neighbors.clone();
        assert(r@ =~= self.neighbors@);
        r
    }

    pub fn num_neighbors(&self) -> (r: usize)
        ensures
            r == self@.neighbors.len(),
    {
        self.neighbors.len()
    }

    pub fn neighbor(&self, k: usize) -> (r: NodeId)
        requires
            k < self@.neighbors.len(),
        ensures
            r == self@.neighbors[k as int],
    {
        self.neighbors[k]
    }

    pub fn set_state(&mut self, state: NodeState)
        ensures
            final(self)@ == (NodeModel { state, ..old(self)@ }),
    {
        self.state = state;
    }

    pub fn add_neighbor(&mut self, neighbor: NodeId)
        ensures
            final(self)@ == (NodeModel { neighbors: old(self)@.neighbors.push(neighbor), ..old(self)@ }),
    {
        self.neighbors.push(neighbor);
    }

    pub fn add_neighbors(&mut self, neighbors: Vec<NodeId>)
        ensures
            final(self)@ == (NodeModel { neighbors: old(self)@.neighbors + neighbors@, ..old(self)@ }),
    {
        let mut more = neighbors;
        self.neighbors.append(&mut more);
    }

    /// Queues a message from `sender`.
    pub fn receive_message(&mut self, sender: NodeId, msg: MessageType)
        ensures
            final(self)@ == (NodeModel { inbox: old(self)@.inbox.push((sender, msg)), ..old(self)@ }),
    {
        self.incoming_messages.push((sender, msg));
    }

    /// Handles the round's messages; returns the messages to send, each with its
    /// receiver.
    pub fn process_messages(&mut self) -> (outgoing: Vec<(NodeId, MessageType)>)
        ensures
            (final(self)@, outgoing@) == old(self)@.process(),
    {
        let mut outgoing: Vec<(NodeId, MessageType)> = Vec::new();
        if !self.state.visited && self.incoming_messages.len() > 0 {
            let sender = self.incoming_messages[0].0;
            self.state.visited = true;
            self.state.parent = Some(sender);
            let n = self.neighbors.len();
            let mut j: usize = 0;
            while j < n
                invariant
                    n == self.neighbors@.len(),
                    0 <= j <= n,
                    outgoing@ == flood_targets(self.neighbors@.take(j as int), sender),
                decreases n - j,
            {
                proof {
                    assert(self.neighbors@.take(j + 1).drop_last() =~= self.neighbors@.take(j as int));
                }
                let neighbor = self.neighbors[j];
                if neighbor != sender {
                    outgoing.push((neighbor, MessageType::Flood));
                }
                j = j + 1;
            }
            proof {
                assert(self.neighbors@.take(n as int) =~= self.neighbors@);
            }
        }
        self.incoming_messages.clear();
        outgoing
    }
}

/// Position of the first node with id `id`, if any.
pub open spec fn find_node(nodes: Seq<NodeModel>, id: NodeId) -> Option<int>
    decreases nodes.len(),
{
    if nodes.len() == 0 {
        None
    } else {
        match find_node(nodes.drop_last(), id) {
            Some(i) => Some(i),
            None => if nodes.last().id == id {
                Some(nodes.len() - 1)
            } else {
                None
            },
        }
    }
}

pub proof fn lemma_find_node(nodes: Seq<NodeModel>, id: NodeId)
    ensures
        find_node(nodes, id) matches Some(i) ==> 0 <= i < nodes.len() && nodes[i].id == id
            && forall|j: int| 0 <= j < i ==> (#[trigger] nodes[j]).id != id,
        find_node(nodes, id) is None ==> forall|j: int| 0 <= j < nodes.len() ==> (#[trigger] nodes[j]).id != id,
    decreases nodes.len(),
{
    if nodes.len() > 0 {
        lemma_find_node(nodes.drop_last(), id);
        assert forall|j: int| 0 <= j < nodes.len() - 1 implies nodes[j] == nodes.drop_last()[j] by {}
    }
}

/// Lookup depends only on the ids, in order.
pub proof fn lemma_find_node_ids(a: Seq<NodeModel>, b: Seq<NodeModel>, id: NodeId)
    requires
        a.len() == b.len(),
        forall|j: int| 0 <= j < a.len() ==> (#[trigger] a[j]).id == b[j].id,
    ensures
        find_node(a, id) == find_node(b, id),
    decreases a.len(),
{
    if a.len() > 0 {
        assert forall|j: int| 0 <= j < a.len() - 1 implies (#[trigger] a.drop_last()[j]).id == b.drop_last()[j].id by {
            assert(a.drop_last()[j] == a[j] && b.drop_last()[j] == b[j]);
        }
        lemma_find_node_ids(a.drop_last(), b.drop_last(), id);
    }
}

/// The nodes `j != i` with `row[j]`, in increasing order.
pub open spec fn linked(row: Seq<bool>, i: NodeId) -> Seq<NodeId>
    decreases row.len(),
{
    if row.len() == 0 {
        seq![]
    } else {
        let rest = linked(row.drop_last(), i);
        let j = (row.len() - 1) as NodeId;
        if j != i && row.last() {
            rest.push(j)
        } else {
            rest
        }
    }
}

/// The linked nodes are the nodes `j != i` with `row[j]`, each once, smaller
/// first.
pub proof fn lemma_linked(row: Seq<bool>, i: NodeId)
    requires
        row.len() <= usize::MAX,
    ensures
        forall|k: int| 0 <= k < linked(row, i).len() ==> #[trigger] linked(row, i)[k] < row.len() && linked(row, i)[k] != i
            && row[linked(row, i)[k] as int],
        forall|k: int, m: int| 0 <= k < m < linked(row, i).len() ==> #[trigger] linked(row, i)[k] < #[trigger] linked(row, i)[m],
        forall|j: int| 0 <= j < row.len() && j != i && #[trigger] row[j] ==> linked(row, i).contains(j as NodeId),
    decreases row.len(),
{
    if row.len() > 0 {
        let init = row.drop_last();
        lemma_linked(init, i);
        let rest = linked(init, i);
        let out = linked(row, i);
        assert forall|k: int| 0 <= k < out.len() implies #[trigger] out[k] < row.len() && out[k] != i && row[out[k] as int] by {
            if k < rest.len() {
                assert(out[k] == rest[k]);
                assert(init[rest[k] as int] == row[rest[k] as int]);
            }
        }
        assert forall|j: int| 0 <= j < row.len() && j != i && #[trigger] row[j] implies out.contains(j as NodeId) by {
            if j < row.len() - 1 {
                assert(init[j] == row[j]);
                let k = choose|k: int| 0 <= k < rest.len() && rest[k] == j as NodeId;
                assert(out[k] == rest[k]);
            } else {
                assert(out[rest.len() as int] == j as NodeId);
            }
        }
    }
}

/// The flooding network: nodes looked up by id.
pub struct Graph {
    nodes: Vec<Node>,
}

impl View for Graph {
    type V = Seq<NodeModel>;

    closed spec fn view(&self) -> Seq<NodeModel> {
        self.nodes@.map_values(|nd: Node| nd@)
    }
}

pub open spec fn all_visited(nodes: Seq<NodeModel>) -> bool {
    forall|i: int| 0 <= i < nodes.len() ==> (#[trigger] nodes[i]).state.visited
}

impl Graph {
    proof fn lemma_view(&self)
        ensures
            self@.len() == self.nodes@.len(),
            forall|i: int| 0 <= i < self.nodes@.len() ==> #[trigger] self@[i] == self.nodes@[i]@,
    {
    }

    /// An empty network.
    pub fn empty() -> (g: Graph)
        ensures
            g@ == Seq::<NodeModel>::empty(),
    {
        let g = Graph { nodes: Vec::new() };
        assert(g@ =~= Seq::<NodeModel>::empty());
        g
    }

    /// A random network on nodes `0..n`: each node gets each other node as
    /// neighbour with chance `LINK_NUMERATOR / LINK_DENOMINATOR`, independently.
    /// The neighbour lists are those that `from_links` builds from the links
    /// drawn here.
    pub fn new(n: usize) -> (g: Graph)
        ensures
            g@.len() == n,
            forall|i: int| 0 <= i < n ==> (#[trigger] g@[i]).id == i,
            forall|i: int| 0 <= i < n ==> (#[trigger] g@[i]).state == (NodeState { visited: false, parent: None, level: None }),
            forall|i: int| 0 <= i < n ==> (#[trigger] g@[i]).inbox.len() == 0,
            forall|i: int, k: int|
                0 <= i < n && 0 <= k < g@[i].neighbors.len() ==> #[trigger] g@[i].neighbors[k] < n && g@[i].neighbors[k] != i,
            exists|links: Seq<Seq<bool>>|
                links.len() == n && (forall|i: int| 0 <= i < n ==> (#[trigger] links[i]).len() == n) && (forall|i: int|
                    0 <= i < n ==> (#[trigger] g@[i]).neighbors == linked(links[i], i as NodeId)),
    {
        let mut links: Vec<Vec<bool>> = Vec::new();
        let mut i: usize = 0;
        while i < n
            invariant
                0 <= i <= n,
                links@.len() == i,
                forall|m: int| 0 <= m < i ==> (#[trigger] links@[m])@.len() == n,
            decreases n - i,
        {
            let mut row: Vec<bool> = Vec::new();
            let mut j: usize = 0;
            while j < n
                invariant
                    0 <= j <= n,
                    row@.len() == j,
                decreases n - j,
            {
                if j != i {
                    row.push(random_ratio(LINK_NUMERATOR, LINK_DENOMINATOR));
                } else {
                    row.push(false);
                }
                j = j + 1;
            }
            links.push(row);
            i = i + 1;
        }
        let g = Self::from_links(n, &links);
        proof {
            let ls = links@.map_values(|r: Vec<bool>| r@);
            assert forall|i: int| 0 <= i < n implies (#[trigger] ls[i]).len() == n by {
                assert(ls[i] == links@[i]@);
            }
            assert forall|i: int| 0 <= i < n implies (#[trigger] g@[i]).neighbors == linked(ls[i], i as NodeId) by {
                assert(ls[i] == links@[i]@);
            }
            assert(ls.len() == n);
            assert forall|i: int, k: int|
                0 <= i < n && 0 <= k < g@[i].neighbors.len() implies #[trigger] g@[i].neighbors[k] < n && g@[i].neighbors[k] != i by {
                lemma_linked(links@[i]@, i as NodeId);
            }
        }
        g
    }

    /// The network on nodes `0..n` in which node `i` has as neighbours the
    /// nodes `j != i` with `links[i][j]`, in increasing order.
    pub fn from_links(n: usize, links: &Vec<Vec<bool>>) -> (g: Graph)
        requires
            links@.len() == n,
            forall|i: int| 0 <= i < n ==> (#[trigger] links@[i])@.len() == n,
        ensures
            g@.len() == n,
            forall|i: int| 0 <= i < n ==> (#[trigger] g@[i]).id == i,
            forall|i: int| 0 <= i < n ==> (#[trigger] g@[i]).state == (NodeState { visited: false, parent: None, level: None }),
            forall|i: int| 0 <= i < n ==> (#[trigger] g@[i]).inbox.len() == 0,
            forall|i: int| 0 <= i < n ==> (#[trigger] g@[i]).neighbors == linked(links@[i]@, i as NodeId),
    {
        let mut nodes: Vec<Node> = Vec::new();
        let mut i: usize = 0;
        while i < n
            invariant
                0 <= i <= n,
                links@.len() == n,
                forall|m: int| 0 <= m < n ==> (#[trigger] links@[m])@.len() == n,
                nodes@.len() == i,
                forall|m: int| 0 <= m < i ==> (#[trigger] nodes@[m]@).id == m,
                forall|m: int| 0 <= m < i ==> (#[trigger] nodes@[m]@).state == (NodeState { visited: false, parent: None, level: None }),
                forall|m: int| 0 <= m < i ==> (#[trigger] nodes@[m]@).inbox.len() == 0,
                forall|m: int| 0 <= m < i ==> (#[trigger] nodes@[m]@).neighbors == linked(links@[m]@, m as NodeId),
            decreases n - i,
        {
            let row = &links[i];
            let mut chosen: Vec<NodeId> = Vec::new();
            let mut j: usize = 0;
            while j < n
                invariant
                    0 <= i < n,
                    0 <= j <= n,
                    row@.len() == n,
                    chosen@ == linked(row@.take(j as int), i),
                decreases n - j,
            {
                proof {
                    assert(row@.take(j + 1).drop_last() =~= row@.take(j as int));
                }
                if j != i && row[j] {
                    chosen.push(j);
                }
                j = j + 1;
            }
            proof {
                assert(row@.take(n as int) =~= row@);
            }
            let mut node = Node::new(i);
            node.add_neighbors(chosen);
            nodes.push(node);
            i = i + 1;
        }
        let g = Graph { nodes };
        proof {
            g.lemma_view();
        }
        g
    }

    /// Adds node `id` with these neighbours, replacing a node with the same id.
    pub fn add_node(&mut self, id: NodeId, neighbors: Vec<NodeId>)
        ensures
            ({
                let fresh = NodeModel {
                    id,
                    neighbors: neighbors@,
                    state: NodeState { visited: false, parent: None, level: None },
                    inbox: seq![],
                };
                match find_node(old(self)@, id) {
                    Some(i) => final(self)@ == old(self)@.update(i, fresh),
                    None => final(self)@ == old(self)@.push(fresh),
                }
            }),
    {
        proof {
            self.lemma_view();
            lemma_find_node(self@, id);
        }
        let mut node = Node::new(id);
        node.add_neighbors(neighbors);
        match self.position(id) {
            Some(i) => {
                assert(i < self.nodes@.len());
                self.nodes.set(i, node);
            },
            None => {
                self.nodes.push(node);
            },
        }
        proof {
            self.lemma_view();
            match find_node(old(self)@, id) {
                Some(i) => assert(self@ =~= old(self)@.update(i, node@)),
                None => assert(self@ =~= old(self)@.push(node@)),
            }
        }
    }

    /// Position of node `id`.
    fn position(&self, id: NodeId) -> (r: Option<usize>)
        ensures
            r is Some <==> find_node(self@, id) is Some,
            r matches Some(p) ==> p as int == find_node(self@, id).unwrap() && p < self@.len(),
    {
        proof {
            self.lemma_view();
            lemma_find_node(self@, id);
        }
        let n = self.nodes.len();
        let mut i: usize = 0;
        while i < n
            invariant
                n == self@.len(),
                0 <= i <= n,
                forall|j: int| 0 <= j < i ==> (#[trigger] self@[j]).id != id,
                find_node(self@, id) matches Some(k) ==> 0 <= k < n && self@[k].id == id && forall|j: int| 0 <= j < k ==> (#[trigger] self@[j]).id != id,
                find_node(self@, id) is None ==> forall|j: int| 0 <= j < n ==> (#[trigger] self@[j]).id != id,
            decreases n - i,
        {
            proof {
                self.lemma_view();
            }
            if self.nodes[i].id == id {
                assert(self@[i as int].id == id);
                return Some(i);
            }
            i = i + 1;
        }
        None
    }

    /// Node `id`, if the network has it.
    pub fn node(&self, id: NodeId) -> (r: Option<&Node>)
        ensures
            r is Some <==> find_node(self@, id) is Some,
            r matches Some(nd) ==> nd@ == self@[find_node(self@, id).unwrap()],
    {
        proof {
            self.lemma_view();
            lemma_find_node(self@, id);
        }
        match self.position(id) {
            Some(i) => {
                let nd = &self.nodes[i];
                assert(nd@ == self@[i as int]);
                assert(find_node(self@, id).unwrap() == i as int);
                Some(nd)
            },
            None => None,
        }
    }

    /// The node at position `i`, in insertion order.
    pub fn node_at(&self, i: usize) -> (r: &Node)
        requires
            i < self@.len(),
        ensures
            r@ == self@[i as int],
    {
        proof {
            self.lemma_view();
        }
        &self.nodes[i]
    }

    pub fn len(&self) -> (r: usize)
        ensures
            r == self@.len(),
    {
        proof {
            self.lemma_view();
        }
        self.nodes.len()
    }

    /// Whether every node has been visited.
    pub fn all_visited(&self) -> (b: bool)
        ensures
            b == all_visited(self@),
    {
        proof {
            self.lemma_view();
        }
        let n = self.nodes.len();
        let mut i: usize = 0;
        while i < n
            invariant
                n == self@.len(),
                0 <= i <= n,
                forall|j: int| 0 <= j < i ==> (#[trigger] self@[j]).state.visited,
            decreases n - i,
        {
            proof {
                self.lemma_view();
            }
            if !self.nodes[i].state.visited {
                assert(!self@[i as int].state.visited);
                return false;
            }
            i = i + 1;
        }
        true
    }
}

/// Neighbours still to be flooded: the degrees of the unvisited nodes, summed.
pub open spec fn unvisited_degree(nodes: Seq<NodeModel>) -> nat
    decreases nodes.len(),
{
    if nodes.len() == 0 {
        0
    } else {
        unvisited_degree(nodes.drop_last()) + if nodes.last().state.visited {
            0nat
        } else {
            nodes.last().neighbors.len()
        }
    }
}

/// Number of unvisited nodes.
pub open spec fn unvisited_count(nodes: Seq<NodeModel>) -> nat
    decreases nodes.len(),
{
    if nodes.len() == 0 {
        0
    } else {
        unvisited_count(nodes.drop_last()) + if nodes.last().state.visited {
            0nat
        } else {
            1nat
        }
    }
}

/// All the degrees, summed.
pub open spec fn degree_sum(nodes: Seq<NodeModel>) -> nat
    decreases nodes.len(),
{
    if nodes.len() == 0 {
        0
    } else {
        degree_sum(nodes.drop_last()) + nodes.last().neighbors.len()
    }
}

pub(crate) proof fn lemma_counts_bounded(nodes: Seq<NodeModel>)
    ensures
        unvisited_count(nodes) <= nodes.len(),
        unvisited_degree(nodes) <= degree_sum(nodes),
    decreases nodes.len(),
{
    if nodes.len() > 0 {
        lemma_counts_bounded(nodes.drop_last());
    }
}

/// Counts depend only on which nodes are visited and on the degrees.
pub(crate) proof fn lemma_counts_same(a: Seq<NodeModel>, b: Seq<NodeModel>)
    requires
        a.len() == b.len(),
        forall|i: int| 0 <= i < a.len() ==> (#[trigger] a[i]).state.visited == b[i].state.visited
            && a[i].neighbors.len() == b[i].neighbors.len(),
    ensures
        unvisited_count(a) == unvisited_count(b),
        unvisited_degree(a) == unvisited_degree(b),
        degree_sum(a) == degree_sum(b),
    decreases a.len(),
{
    if a.len() > 0 {
        assert forall|i: int| 0 <= i < a.len() - 1 implies (#[trigger] a.drop_last()[i]).state.visited
            == b.drop_last()[i].state.visited && a.drop_last()[i].neighbors.len() == b.drop_last()[i].neighbors.len() by {
            assert(a.drop_last()[i] == a[i] && b.drop_last()[i] == b[i]);
        }
        lemma_counts_same(a.drop_last(), b.drop_last());
        assert(a.last() == a[a.len() - 1]);
    }
}

/// Replacing one node changes the counts by that node's share only.
pub(crate) proof fn lemma_counts_update(s: Seq<NodeModel>, i: int, x: NodeModel)
    requires
        0 <= i < s.len(),
    ensures
        unvisited_count(s.update(i, x)) + (if s[i].state.visited { 0nat } else { 1nat })
            == unvisited_count(s) + (if x.state.visited { 0nat } else { 1nat }),
        unvisited_degree(s.update(i, x)) + (if s[i].state.visited { 0nat } else { s[i].neighbors.len() })
            == unvisited_degree(s) + (if x.state.visited { 0nat } else { x.neighbors.len() }),
    decreases s.len(),
{
    let t = s.update(i, x);
    if i == s.len() - 1 {
        assert(t.drop_last() =~= s.drop_last());
    } else {
        assert(t.drop_last() =~= s.drop_last().update(i, x));
        lemma_counts_update(s.drop_last(), i, x);
    }
}

proof fn lemma_unvisited_degree_prefix(s: Seq<NodeModel>, k: int)
    requires
        0 <= k <= s.len(),
    ensures
        unvisited_degree(s.take(k)) <= unvisited_degree(s),
    decreases s.len(),
{
    if k < s.len() {
        assert(s.drop_last().take(k) =~= s.take(k));
        lemma_unvisited_degree_prefix(s.drop_last(), k);
    } else {
        assert(s.take(k) =~= s);
    }
}

/// Marks the start node visited, at level 0.
pub open spec fn mark_start(nodes: Seq<NodeModel>, start: NodeId) -> Seq<NodeModel> {
    match find_node(nodes, start) {
        Some(i) => nodes.update(
            i,
            NodeModel { state: NodeState { visited: true, level: Some(0), ..nodes[i].state }, ..nodes[i] },
        ),
        None => nodes,
    }
}

pub(crate) proof fn lemma_mark_start(nodes: Seq<NodeModel>, start: NodeId)
    ensures
        mark_start(nodes, start).len() == nodes.len(),
        unvisited_count(mark_start(nodes, start)) <= unvisited_count(nodes),
        unvisited_degree(mark_start(nodes, start)) <= unvisited_degree(nodes),
        degree_sum(mark_start(nodes, start)) == degree_sum(nodes),
        forall|i: int| 0 <= i < nodes.len() ==> (#[trigger] mark_start(nodes, start)[i]).id == nodes[i].id
            && mark_start(nodes, start)[i].neighbors == nodes[i].neighbors,
{
    lemma_find_node(nodes, start);
    match find_node(nodes, start) {
        Some(i) => {
            let x = NodeModel { state: NodeState { visited: true, level: Some(0), ..nodes[i].state }, ..nodes[i] };
            lemma_counts_update(nodes, i, x);
            let m = mark_start(nodes, start);
            assert forall|j: int| 0 <= j < m.len() implies (#[trigger] m[j]).state.visited == x.state.visited || m[j] == nodes[j] by {}
            lemma_degree_sum_update(nodes, i, x);
        },
        None => {},
    }
}

proof fn lemma_degree_sum_update(s: Seq<NodeModel>, i: int, x: NodeModel)
    requires
        0 <= i < s.len(),
        x.neighbors.len() == s[i].neighbors.len(),
    ensures
        degree_sum(s.update(i, x)) == degree_sum(s),
    decreases s.len(),
{
    let t = s.update(i, x);
    if i == s.len() - 1 {
        assert(t.drop_last() =~= s.drop_last());
    } else {
        assert(t.drop_last() =~= s.drop_last().update(i, x));
        lemma_degree_sum_update(s.drop_last(), i, x);
    }
}

/// Delivers `msgs`, first to last, into the inboxes of their receivers; a
/// message to an unknown node is dropped.
pub open spec fn deliver_flood(nodes: Seq<NodeModel>, msgs: Seq<(NodeId, NodeId, MessageType)>) -> Seq<NodeModel>
    decreases msgs.len(),
{
    if msgs.len() == 0 {
        nodes
    } else {
        let before = deliver_flood(nodes, msgs.drop_last());
        let (s, r, m) = msgs.last();
        match find_node(before, r) {
            Some(i) => before.update(i, NodeModel { inbox: before[i].inbox.push((s, m)), ..before[i] }),
            None => before,
        }
    }
}

pub(crate) proof fn lemma_deliver_flood(nodes: Seq<NodeModel>, msgs: Seq<(NodeId, NodeId, MessageType)>)
    ensures
        deliver_flood(nodes, msgs).len() == nodes.len(),
        forall|i: int| 0 <= i < nodes.len() ==> (#[trigger] deliver_flood(nodes, msgs)[i]).id == nodes[i].id
            && deliver_flood(nodes, msgs)[i].neighbors == nodes[i].neighbors
            && deliver_flood(nodes, msgs)[i].state == nodes[i].state,
    decreases msgs.len(),
{
    if msgs.len() > 0 {
        lemma_deliver_flood(nodes, msgs.drop_last());
        let before = deliver_flood(nodes, msgs.drop_last());
        lemma_find_node(before, msgs.last().1);
    }
}

/// The messages of one node, each tagged with the node as sender.
pub open spec fn tag(id: NodeId, out: Seq<(NodeId, MessageType)>) -> Seq<(NodeId, NodeId, MessageType)> {
    out.map_values(|p: (NodeId, MessageType)| (id, p.0, p.1))
}

/// Every node handles its round, in order: the nodes afterwards and the
/// messages sent, node by node.
pub open spec fn process_all(nodes: Seq<NodeModel>) -> (Seq<NodeModel>, Seq<(NodeId, NodeId, MessageType)>)
    decreases nodes.len(),
{
    if nodes.len() == 0 {
        (seq![], seq![])
    } else {
        let (ns, out) = process_all(nodes.drop_last());
        let (nd, o) = nodes.last().process();
        (ns.push(nd), out + tag(nodes.last().id, o))
    }
}

pub(crate) proof fn lemma_process_all(nodes: Seq<NodeModel>)
    ensures
        process_all(nodes).0.len() == nodes.len(),
        forall|i: int| 0 <= i < nodes.len() ==> #[trigger] process_all(nodes).0[i] == nodes[i].process().0,
        process_all(nodes).1.len() + unvisited_degree(process_all(nodes).0) <= unvisited_degree(nodes),
        unvisited_count(process_all(nodes).0) + (if process_all(nodes).1.len() > 0 { 1nat } else { 0nat })
            <= unvisited_count(nodes),
    decreases nodes.len(),
{
    if nodes.len() > 0 {
        let init = nodes.drop_last();
        lemma_process_all(init);
        let (ns, out) = process_all(init);
        let last = nodes.last();
        let (nd, o) = last.process();
        lemma_flood_targets_len(last.neighbors, if last.inbox.len() > 0 { last.inbox[0].0 } else { 0 });
        assert(ns.push(nd).drop_last() =~= ns);
        assert forall|i: int| 0 <= i < nodes.len() implies #[trigger] process_all(nodes).0[i] == nodes[i].process().0 by {
            if i < nodes.len() - 1 {
                assert(init[i] == nodes[i]);
            }
        }
    }
}

/// The first messages of a round-based run: from `start` to each of its
/// neighbours.
pub open spec fn first_wave(nodes: Seq<NodeModel>, start: NodeId) -> Seq<(NodeId, NodeId, MessageType)> {
    match find_node(nodes, start) {
        Some(i) => nodes[i].neighbors.map_values(|nb: NodeId| (start, nb, MessageType::Flood)),
        None => seq![],
    }
}

/// The abstract value of a round-based flooding run.
pub struct SyncModel {
    pub nodes: Seq<NodeModel>,
    pub rounds: u64,
    pub message_count: u64,
}

/// Rounds of flooding while messages are in transit and some node is unvisited,
/// for at most `fuel` rounds: the nodes, round count and message count after.
pub open spec fn sync_flood(
    nodes: Seq<NodeModel>,
    current: Seq<(NodeId, NodeId, MessageType)>,
    rounds: nat,
    count: nat,
    fuel: nat,
) -> (Seq<NodeModel>, nat, nat)
    decreases fuel,
{
    if fuel == 0 || current.len() == 0 || all_visited(nodes) {
        (nodes, rounds, count)
    } else {
        let (ns, next) = process_all(deliver_flood(nodes, current));
        sync_flood(ns, next, rounds + 1, count + next.len(), (fuel - 1) as nat)
    }
}

/// Round-based flooding over a network.
pub struct SyncSimulator {
    graph: Graph,
    rounds: u64,
    message_count: u64,
}

impl View for SyncSimulator {
    type V = SyncModel;

    closed spec fn view(&self) -> SyncModel {
        SyncModel { nodes: self.graph@, rounds: self.rounds, message_count: self.message_count }
    }
}

impl SyncSimulator {
    pub fn new(graph: Graph) -> (s: SyncSimulator)
        ensures
            s@ == (SyncModel { nodes: graph@, rounds: 0, message_count: 0 }),
    {
        SyncSimulator { graph, rounds: 0, message_count: 0 }
    }

    pub fn rounds(&self) -> (r: u64)
        ensures
            r == self@.rounds,
    {
        self.rounds
    }

    pub fn message_count(&self) -> (r: u64)
        ensures
            r == self@.message_count,
    {
        self.message_count
    }

    pub fn graph(&self) -> (g: &Graph)
        ensures
            g@ == self@.nodes,
    {
        &self.graph
    }

    /// Floods from `start`: the start node is visited at level 0 and sends a
    /// flood message to each of its neighbours; then rounds run while messages
    /// are in transit and some node is unvisited. Each round delivers the
    /// messages, then every node handles its inbox. Every flood message sent,
    /// the start's included, is counted. On a fresh network with distinct ids,
    /// a node ends visited exactly when it can be reached from `start`
    /// (`teemp_rounds::lemma_sync_flood_visits_reachable`).
    pub fn run(&mut self, start: NodeId)
        requires
            old(self)@.rounds + old(self)@.nodes.len() + 1 <= u64::MAX,
            old(self)@.message_count + degree_sum(old(self)@.nodes) <= u64::MAX,
        ensures
            ({
                let marked = mark_start(old(self)@.nodes, start);
                let first = first_wave(marked, start);
                let (ns, r, c) = sync_flood(
                    marked,
                    first,
                    old(self)@.rounds as nat,
                    (old(self)@.message_count + first.len()) as nat,
                    (old(self)@.nodes.len() + 1) as nat,
                );
                final(self)@ == (SyncModel { nodes: ns, rounds: r as u64, message_count: c as u64 })
            }),
    {
        let ghost pre = self@;
        let n = self.graph.len();
        match self.graph.position(start) {
            Some(i) => {
                proof {
                    self.graph.lemma_view();
                }
                let mut st = self.graph.nodes[i].get_state();
                st.visited = true;
                st.level = Some(0);
                self.graph.nodes[i].set_state(st);
                proof {
                    self.graph.lemma_view();
                    assert(self.graph@ =~= mark_start(pre.nodes, start));
                }
            },
            None => {},
        }
        let ghost marked = self.graph@;
        proof {
            lemma_mark_start(pre.nodes, start);
            lemma_counts_bounded(marked);
            lemma_counts_bounded(pre.nodes);
            lemma_find_node_ids(marked, pre.nodes, start);
            lemma_find_node(marked, start);
        }
        let mut current: Vec<(NodeId, NodeId, MessageType)> = Vec::new();
        match self.graph.position(start) {
            Some(i) => {
                proof {
                    self.graph.lemma_view();
                    lemma_visited_degree(marked, i as int);
                }
                let deg = self.graph.nodes[i].num_neighbors();
                let mut j: usize = 0;
                while j < deg
                    invariant
                        0 <= i < marked.len(),
                        self.graph@ == marked,
                        deg == marked[i as int].neighbors.len(),
                        0 <= j <= deg,
                        current@ == first_wave(marked, start).take(j as int),
                        first_wave(marked, start) == marked[i as int].neighbors.map_values(
                            |nb: NodeId| (start, nb, MessageType::Flood),
                        ),
                        self.message_count == pre.message_count + j,
                        pre.message_count + deg + unvisited_degree(marked) <= u64::MAX,
                        self.rounds == pre.rounds,
                    decreases deg - j,
                {
                    proof {
                        self.graph.lemma_view();
                    }
                    let nb = self.graph.nodes[i].neighbor(j);
                    current.push((start, nb, MessageType::Flood));
                    self.message_count = self.message_count + 1;
                    j = j + 1;
                    assert(current@ =~= first_wave(marked, start).take(j as int));
                }
                assert(current@ =~= first_wave(marked, start));
            },
            None => {
                assert(current@ =~= first_wave(marked, start));
            },
        }
        let ghost fuel0 = (pre.nodes.len() + 1) as nat;
        let ghost target = sync_flood(self.graph@, current@, pre.rounds as nat, self.message_count as nat, fuel0);
        let ghost mut fuel: nat = fuel0;
        while current.len() > 0 && !self.graph.all_visited()
            invariant
                self.graph@.len() == n,
                n == pre.nodes.len(),
                fuel >= unvisited_count(self.graph@) + (if current@.len() > 0 { 1nat } else { 0nat }),
                self.rounds + fuel <= pre.rounds + n + 1,
                pre.rounds + n + 1 <= u64::MAX,
                self.message_count + unvisited_degree(self.graph@) <= u64::MAX,
                sync_flood(self.graph@, current@, self.rounds as nat, self.message_count as nat, fuel) == target,
            decreases fuel,
        {
            let ghost nodes0 = self.graph@;
            self.rounds = self.rounds + 1;
            let ghost rounds1 = self.rounds;
            let ghost count0 = self.message_count;
            let mut k: usize = 0;
            while k < current.len()
                invariant
                    0 <= k <= current@.len(),
                    self.graph@ == deliver_flood(nodes0, current@.take(k as int)),
                    self.rounds == rounds1,
                    self.message_count == count0,
                decreases current@.len() - k,
            {
                let (s, r, m) = current[k];
                let ghost before = self.graph@;
                proof {
                    assert(current@.take(k + 1).drop_last() =~= current@.take(k as int));
                    self.graph.lemma_view();
                }
                match self.graph.position(r) {
                    Some(i) => {
                        self.graph.nodes[i].receive_message(s, m);
                        proof {
                            self.graph.lemma_view();
                            assert(self.graph@ =~= before.update(
                                i as int,
                                NodeModel { inbox: before[i as int].inbox.push((s, m)), ..before[i as int] },
                            ));
                        }
                    },
                    None => {},
                }
                k = k + 1;
            }
            proof {
                assert(current@.take(current@.len() as int) =~= current@);
                lemma_deliver_flood(nodes0, current@);
                lemma_counts_same(self.graph@, nodes0);
            }
            let ghost delivered = self.graph@;
            proof {
                lemma_process_all(delivered);
            }
            let mut next: Vec<(NodeId, NodeId, MessageType)> = Vec::new();
            let mut i: usize = 0;
            while i < n
                invariant
                    0 <= i <= n,
                    n == delivered.len(),
                    self.graph@.len() == n,
                    self.rounds == rounds1,
                    self.message_count == count0 + next@.len(),
                    forall|j: int| 0 <= j < i ==> #[trigger] self.graph@[j] == delivered[j].process().0,
                    forall|j: int| i <= j < n ==> #[trigger] self.graph@[j] == delivered[j],
                    next@ == process_all(delivered.take(i as int)).1,
                    count0 + unvisited_degree(delivered) <= u64::MAX,
                decreases n - i,
            {
                proof {
                    self.graph.lemma_view();
                    assert(delivered.take(i + 1).drop_last() =~= delivered.take(i as int));
                    lemma_process_all(delivered.take(i + 1));
                    lemma_unvisited_degree_prefix(delivered, i + 1);
                }
                let ghost before = self.graph@;
                assert(before[i as int] == delivered[i as int]);
                let id = self.graph.nodes[i].get_id();
                let out = self.graph.nodes[i].process_messages();
                proof {
                    self.graph.lemma_view();
                    assert(self.graph@ =~= before.update(i as int, delivered[i as int].process().0));
                    let t = delivered.take(i + 1);
                    assert(t.last() == delivered[i as int]);
                    assert(out@ == delivered[i as int].process().1);
                    assert(process_all(t).1 == next@ + tag(id, out@));
                }
                let ghost next0 = next@;
                let ghost after = self.graph@;
                let mut j: usize = 0;
                while j < out.len()
                    invariant
                        0 <= j <= out@.len(),
                        next@ == next0 + tag(id, out@.take(j as int)),
                        next0.len() + out@.len() <= unvisited_degree(delivered),
                        self.message_count == count0 + next@.len(),
                        count0 + unvisited_degree(delivered) <= u64::MAX,
                        self.rounds == rounds1,
                        self.graph@ == after,
                    decreases out@.len() - j,
                {
                    let (r, m) = out[j];
                    next.push((id, r, m));
                    self.message_count = self.message_count + 1;
                    j = j + 1;
                    assert(next@ =~= next0 + tag(id, out@.take(j as int)));
                }
                assert(out@.take(out@.len() as int) =~= out@);
                i = i + 1;
            }
            proof {
                assert(delivered.take(n as int) =~= delivered);
                assert(self.graph@ =~= process_all(delivered).0);
                fuel = (fuel - 1) as nat;
            }
            current = next;
        }
        proof {
            assert(self@ == (SyncModel { nodes: target.0, rounds: target.1 as u64, message_count: target.2 as u64 }));
        }
    }
}

/// A message in transit in the event-driven run.
#[derive(Clone, Copy, Debug, PartialEq, Eq, Structural)]
pub struct Event {
    pub time: u64,
    pub sender: NodeId,
    pub receiver: NodeId,
    pub message: MessageType,
}

/// Position `i` holds the first of the earliest events.
pub open spec fn is_earliest(q: Seq<Event>, i: int) -> bool {
    &&& 0 <= i < q.len()
    &&& forall|j: int| 0 <= j < q.len() ==> q[i].time <= (#[trigger] q[j]).time
    &&& forall|j: int| 0 <= j < i ==> q[i].time < (#[trigger] q[j]).time
}

/// Position of the event delivered next.
pub open spec fn earliest(q: Seq<Event>) -> int {
    choose|i: int| is_earliest(q, i)
}

fn earliest_position(v: &Vec<Event>) -> (i: usize)
    requires
        v@.len() > 0,
    ensures
        i == earliest(v@),
        is_earliest(v@, i as int),
{
    let mut best: usize = 0;
    let mut k: usize = 1;
    while k < v.len()
        invariant
            0 <= best < k <= v@.len(),
            forall|j: int| 0 <= j < k ==> v@[best as int].time <= (#[trigger] v@[j]).time,
            forall|j: int| 0 <= j < best ==> v@[best as int].time < (#[trigger] v@[j]).time,
        decreases v@.len() - k,
    {
        if v[k].time < v[best].time {
            best = k;
        }
        k = k + 1;
    }
    proof {
        let c = earliest(v@);
        assert(is_earliest(v@, best as int));
        if c < best {
            assert(v@[best as int].time < v@[c].time);
        } else if best < c {
            assert(v@[c].time < v@[best as int].time);
        }
    }
    best
}

/// Flood events from `from` at `time` to every neighbour other than `parent`.
pub open spec fn async_sends(neighbors: Seq<NodeId>, parent: NodeId, time: u64, from: NodeId) -> Seq<Event>
    decreases neighbors.len(),
{
    if neighbors.len() == 0 {
        seq![]
    } else {
        let rest = async_sends(neighbors.drop_last(), parent, time, from);
        if neighbors.last() != parent {
            rest.push(Event { time, sender: from, receiver: neighbors.last(), message: MessageType::Flood })
        } else {
            rest
        }
    }
}

proof fn lemma_async_sends(neighbors: Seq<NodeId>, parent: NodeId, time: u64, from: NodeId)
    ensures
        async_sends(neighbors, parent, time, from).len() <= neighbors.len(),
        forall|j: int| 0 <= j < async_sends(neighbors, parent, time, from).len() ==> (#[trigger] async_sends(neighbors, parent, time, from)[j]).time == time,
    decreases neighbors.len(),
{
    if neighbors.len() > 0 {
        lemma_async_sends(neighbors.drop_last(), parent, time, from);
    }
}

/// The first events of a run: from `start`, at time 1, to each of its neighbours.
pub open spec fn start_sends(neighbors: Seq<NodeId>, start: NodeId) -> Seq<Event> {
    neighbors.map_values(|nb: NodeId| Event { time: 1, sender: start, receiver: nb, message: MessageType::Flood })
}

/// The abstract value of an event-driven flooding run.
pub struct AsyncModel {
    pub nodes: Seq<NodeModel>,
    pub queue: Seq<Event>,
    pub message_count: u64,
    pub max_time: u64,
}

/// Delivers the earliest event: an unvisited receiver is visited, takes the
/// sender as parent and floods its other neighbours one time unit later.
pub open spec fn async_pop(st: AsyncModel) -> AsyncModel {
    let i = earliest(st.queue);
    let e = st.queue[i];
    let rest = st.queue.remove(i);
    let mt = if st.max_time < e.time { e.time } else { st.max_time };
    match find_node(st.nodes, e.receiver) {
        Some(k) => if !st.nodes[k].state.visited {
            let nd = st.nodes[k];
            let out = async_sends(nd.neighbors, e.sender, (e.time + 1) as u64, e.receiver);
            AsyncModel {
                nodes: st.nodes.update(
                    k,
                    NodeModel { state: NodeState { visited: true, parent: Some(e.sender), ..nd.state }, ..nd },
                ),
                queue: rest + out,
                message_count: (st.message_count + out.len()) as u64,
                max_time: mt,
            }
        } else {
            AsyncModel { queue: rest, max_time: mt, ..st }
        },
        None => AsyncModel { queue: rest, max_time: mt, ..st },
    }
}

/// Delivers events until none is left, at most `fuel` of them.
pub open spec fn async_flood(st: AsyncModel, fuel: nat) -> AsyncModel
    decreases fuel,
{
    if fuel == 0 || st.queue.len() == 0 {
        st
    } else {
        async_flood(async_pop(st), (fuel - 1) as nat)
    }
}

/// Event-driven flooding over a network.
pub struct AsyncSimulator {
    graph: Graph,
    event_queue: Vec<Event>,
    message_count: u64,
    max_time: u64,
}

impl View for AsyncSimulator {
    type V = AsyncModel;

    closed spec fn view(&self) -> AsyncModel {
        AsyncModel {
            nodes: self.graph@,
            queue: self.event_queue@,
            message_count: self.message_count,
            max_time: self.max_time,
        }
    }
}

impl AsyncSimulator {
    pub fn new(graph: Graph) -> (s: AsyncSimulator)
        ensures
            s@ == (AsyncModel { nodes: graph@, queue: seq![], message_count: 0, max_time: 0 }),
    {
        let s = AsyncSimulator { graph, event_queue: Vec::new(), message_count: 0, max_time: 0 };
        assert(s@.queue =~= seq![]);
        s
    }

    pub fn message_count(&self) -> (r: u64)
        ensures
            r == self@.message_count,
    {
        self.message_count
    }

    pub fn max_time(&self) -> (r: u64)
        ensures
            r == self@.max_time,
    {
        self.max_time
    }

    pub fn graph(&self) -> (g: &Graph)
        ensures
            g@ == self@.nodes,
    {
        &self.graph
    }

    /// Floods from `start`: the start node is visited at level 0 and sends to
    /// all its neighbours at time 1; then events are delivered, earliest first,
    /// until none is left. Every flood message sent, the start's included, is
    /// counted. On a fresh network with distinct ids, a node ends visited
    /// exactly when it can be reached from `start`
    /// (`teemp_reach::lemma_async_flood_visits_reachable`).
    pub fn run(&mut self, start: NodeId)
        requires
            old(self)@.queue.len() == 0,
            old(self)@.message_count + degree_sum(old(self)@.nodes) <= u64::MAX,
            2 * degree_sum(old(self)@.nodes) + 1 <= u64::MAX,
        ensures
            ({
                let marked = mark_start(old(self)@.nodes, start);
                let first = match find_node(marked, start) {
                    Some(i) => start_sends(marked[i].neighbors, start),
                    None => seq![],
                };
                let st = AsyncModel {
                    nodes: marked,
                    queue: first,
                    message_count: (old(self)@.message_count + first.len()) as u64,
                    ..old(self)@
                };
                final(self)@ == async_flood(st, first.len() + unvisited_degree(marked))
            }),
            final(self)@.queue.len() == 0,
    {
        let ghost pre = self@;
        match self.graph.position(start) {
            Some(i) => {
                proof {
                    self.graph.lemma_view();
                }
                let mut st = self.graph.nodes[i].get_state();
                st.visited = true;
                st.level = Some(0);
                self.graph.nodes[i].set_state(st);
                proof {
                    self.graph.lemma_view();
                    assert(self.graph@ =~= mark_start(pre.nodes, start));
                }
            },
            None => {},
        }
        let ghost marked = self.graph@;
        proof {
            lemma_mark_start(pre.nodes, start);
            lemma_counts_bounded(marked);
            lemma_find_node_ids(marked, pre.nodes, start);
            lemma_find_node(marked, start);
        }
        match self.graph.position(start) {
            Some(i) => {
                proof {
                    self.graph.lemma_view();
                    lemma_visited_degree(marked, i as int);
                    lemma_degree_at_most_sum(marked, i as int);
                }
                let deg = self.graph.nodes[i].num_neighbors();
                let mut j: usize = 0;
                while j < deg
                    invariant
                        0 <= i < marked.len(),
                        self.graph@ == marked,
                        deg == marked[i as int].neighbors.len(),
                        0 <= j <= deg,
                        self.event_queue@ == start_sends(marked[i as int].neighbors, start).take(j as int),
                        self.message_count == pre.message_count + j,
                        pre.message_count + deg <= u64::MAX,
                        self.max_time == pre.max_time,
                    decreases deg - j,
                {
                    proof {
                        self.graph.lemma_view();
                    }
                    let nb = self.graph.nodes[i].neighbor(j);
                    self.event_queue.push(Event { time: 1, sender: start, receiver: nb, message: MessageType::Flood });
                    self.message_count = self.message_count + 1;
                    j = j + 1;
                    assert(self.event_queue@ =~= start_sends(marked[i as int].neighbors, start).take(j as int));
                }
                assert(self.event_queue@ =~= start_sends(marked[i as int].neighbors, start));
            },
            None => {
                assert(self.event_queue@ =~= seq![]);
            },
        }
        let ghost first = self.event_queue@;
        let ghost fuel0: nat = first.len() + unvisited_degree(marked);
        proof {
            assert(first.len() <= degree_sum(marked)) by {
                if find_node(marked, start) is Some {
                    let i = find_node(marked, start).unwrap();
                    lemma_degree_at_most_sum(marked, i);
                }
            }
        }
        let ghost target = async_flood(self@, fuel0);
        let ghost mut fuel: nat = fuel0;
        while self.event_queue.len() > 0
            invariant
                fuel >= self.event_queue@.len() + unvisited_degree(self.graph@),
                fuel0 <= 2 * degree_sum(pre.nodes),
                2 * degree_sum(pre.nodes) + 1 <= u64::MAX,
                forall|k: int| 0 <= k < self.event_queue@.len() ==> (#[trigger] self.event_queue@[k]).time + fuel <= fuel0 + 1,
                self.message_count + unvisited_degree(self.graph@) <= u64::MAX,
                async_flood(self@, fuel) == target,
            decreases fuel,
        {
            let ghost st = self@;
            let idx = earliest_position(&self.event_queue);
            let e = self.event_queue.remove(idx);
            assert(e.time + fuel <= fuel0 + 1);
            if self.max_time < e.time {
                self.max_time = e.time;
            }
            proof {
                self.graph.lemma_view();
                lemma_find_node(st.nodes, e.receiver);
                let rest = st.queue.remove(idx as int);
                assert forall|k: int| 0 <= k < rest.len() implies (#[trigger] rest[k]).time + fuel <= fuel0 + 1 by {
                    if k < idx {
                        assert(rest[k] == st.queue[k]);
                    } else {
                        assert(rest[k] == st.queue[k + 1]);
                    }
                }
            }
            match self.graph.position(e.receiver) {
                Some(k) => {
                    proof {
                        self.graph.lemma_view();
                    }
                    let mut state = self.graph.nodes[k].get_state();
                    if !state.visited {
                        state.visited = true;
                        state.parent = Some(e.sender);
                        self.graph.nodes[k].set_state(state);
                        let ghost nd = st.nodes[k as int];
                        proof {
                            self.graph.lemma_view();
                            let x = NodeModel { state: NodeState { visited: true, parent: Some(e.sender), ..nd.state }, ..nd };
                            assert(self.graph@ =~= st.nodes.update(k as int, x));
                            lemma_counts_update(st.nodes, k as int, x);
                            lemma_async_sends(nd.neighbors, e.sender, (e.time + 1) as u64, e.receiver);
                        }
                        let deg = self.graph.nodes[k].num_neighbors();
                        let ghost q0 = self.event_queue@;
                        let ghost g1 = self.graph@;
                        let ghost mt = self.max_time;
                        let mut j: usize = 0;
                        while j < deg
                            invariant
                                0 <= k < g1.len(),
                                self.graph@ == g1,
                                g1[k as int].neighbors == nd.neighbors,
                                deg == nd.neighbors.len(),
                                0 <= j <= deg,
                                e.time + 1 <= u64::MAX,
                                self.event_queue@ == q0 + async_sends(nd.neighbors.take(j as int), e.sender, (e.time + 1) as u64, e.receiver),
                                self.message_count == st.message_count + async_sends(nd.neighbors.take(j as int), e.sender, (e.time + 1) as u64, e.receiver).len(),
                                st.message_count + nd.neighbors.len() <= u64::MAX,
                                self.max_time == mt,
                            decreases deg - j,
                        {
                            proof {
                                self.graph.lemma_view();
                                assert(nd.neighbors.take(j + 1).drop_last() =~= nd.neighbors.take(j as int));
                                lemma_async_sends(nd.neighbors.take(j as int), e.sender, (e.time + 1) as u64, e.receiver);
                            }
                            let nb = self.graph.nodes[k].neighbor(j);
                            if nb != e.sender {
                                self.event_queue.push(Event { time: e.time + 1, sender: e.receiver, receiver: nb, message: MessageType::Flood });
                                self.message_count = self.message_count + 1;
                            }
                            j = j + 1;
                            assert(self.event_queue@ =~= q0 + async_sends(nd.neighbors.take(j as int), e.sender, (e.time + 1) as u64, e.receiver));
                        }
                        proof {
                            assert(nd.neighbors.take(deg as int) =~= nd.neighbors);
                            let out = async_sends(nd.neighbors, e.sender, (e.time + 1) as u64, e.receiver);
                            assert forall|m: int| 0 <= m < self.event_queue@.len() implies (#[trigger] self.event_queue@[m]).time + (fuel - 1) <= fuel0 + 1 by {
                                if m >= q0.len() {
                                    assert(self.event_queue@[m] == out[m - q0.len()]);
                                }
                            }
                        }
                    } else {
                        proof {
                            assert(self@ == async_pop(st));
                        }
                    }
                },
                None => {},
            }
            proof {
                assert(self@ == async_pop(st));
                fuel = (fuel - 1) as nat;
            }
        }
    }
}

/// A visited node's degree is left out of the unvisited degrees.
proof fn lemma_visited_degree(s: Seq<NodeModel>, i: int)
    requires
        0 <= i < s.len(),
        s[i].state.visited,
    ensures
        unvisited_degree(s) + s[i].neighbors.len() <= degree_sum(s),
    decreases s.len(),
{
    lemma_counts_bounded(s.drop_last());
    if i < s.len() - 1 {
        assert(s.drop_last()[i] == s[i]);
        lemma_visited_degree(s.drop_last(), i);
    }
}

proof fn lemma_degree_at_most_sum(s: Seq<NodeModel>, i: int)
    requires
        0 <= i < s.len(),
    ensures
        s[i].neighbors.len() <= degree_sum(s),
    decreases s.len(),
{
    if i < s.len() - 1 {
        assert(s.drop_last()[i] == s[i]);
        lemma_degree_at_most_sum(s.drop_last(), i);
    }
}

} // verus!
