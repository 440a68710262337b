use micro_service_sim::teemp::{AsyncSimulator, Graph, Node, NodeState, SyncSimulator};
use micro_service_sim::message::MessageType;

fn small_graph() -> Graph {
    let mut g = Graph::empty();
    g.add_node(0, vec![1, 2]);
    g.add_node(1, vec![2]);
    g.add_node(2, vec![0]);
    g
}

#[test]
fn add_node_replaces_same_id() {
    let mut g = small_graph();
    g.add_node(1, vec![0]);
    assert_eq!(g.len(), 3);
    assert_eq!(g.node(1).unwrap().get_neighbors(), vec![0]);
    assert!(g.node(7).is_none());
}

#[test]
fn node_processes_first_message_only() {
    let mut n = Node::new(3);
    n.add_neighbors(vec![1, 2, 4]);
    n.receive_message(2, MessageType::Flood);
    n.receive_message(1, MessageType::Flood);
    let out = n.process_messages();
    assert_eq!(out, vec![(1, MessageType::Flood), (4, MessageType::Flood)]);
    assert_eq!(n.state, NodeState { visited: true, parent: Some(2), level: None });
    n.receive_message(4, MessageType::Flood);
    assert!(n.process_messages().is_empty());
}

#[test]
fn random_graph_has_no_self_loops() {
    let g = Graph::new(20);
    assert_eq!(g.len(), 20);
    for i in 0..20 {
        let n = g.node(i).unwrap();
        assert!(!n.get_neighbors().contains(&i));
        assert!(n.get_neighbors().iter().all(|j| *j < 20));
    }
}

#[test]
fn sync_run_floods_everyone() {
    let mut sim = SyncSimulator::new(small_graph());
    sim.run(0);
    // Round one delivers the start's two messages; node 1 then floods node 2.
    assert_eq!(sim.rounds(), 1);
    assert_eq!(sim.message_count(), 3);
    assert!(sim.graph().all_visited());
    assert_eq!(sim.graph().node(0).unwrap().state.level, Some(0));
    assert_eq!(sim.graph().node(1).unwrap().state.parent, Some(0));
    assert_eq!(sim.graph().node(2).unwrap().state.parent, Some(0));
}

#[test]
fn sync_run_visits_exactly_the_reachable_nodes() {
    let mut g = Graph::empty();
    g.add_node(0, vec![1]);
    g.add_node(1, vec![3]);
    g.add_node(2, vec![0]);
    g.add_node(3, vec![1, 9]);
    g.add_node(4, vec![]);
    let mut sim = SyncSimulator::new(g);
    sim.run(0);
    let visited: Vec<bool> = (0..5).map(|i| sim.graph().node(i).unwrap().state.visited).collect();
    assert_eq!(visited, vec![true, true, false, true, false]);
    assert_eq!(sim.graph().node(3).unwrap().state.parent, Some(1));
    // 0 -> 1, 1 -> 3, 3 -> 9 (no such node).
    assert_eq!(sim.message_count(), 3);
    assert_eq!(sim.rounds(), 3);
}

#[test]
fn sync_run_from_unknown_node_does_nothing() {
    let mut sim = SyncSimulator::new(small_graph());
    sim.run(9);
    assert_eq!(sim.rounds(), 0);
    assert_eq!(sim.message_count(), 0);
    assert!(!sim.graph().node(0).unwrap().state.visited);
}

#[test]
fn async_run_floods_everyone() {
    let mut sim = AsyncSimulator::new(small_graph());
    sim.run(0);
    // Two from the start, one from node 1.
    assert_eq!(sim.message_count(), 3);
    assert_eq!(sim.max_time(), 2);
    assert!(sim.graph().all_visited());
    assert_eq!(sim.graph().node(1).unwrap().state.parent, Some(0));
    assert_eq!(sim.graph().node(2).unwrap().state.parent, Some(0));
}

#[test]
fn async_run_from_unknown_node_does_nothing() {
    let mut sim = AsyncSimulator::new(small_graph());
    sim.run(9);
    assert_eq!(sim.message_count(), 0);
    assert_eq!(sim.max_time(), 0);
    assert!(!sim.graph().node(0).unwrap().state.visited);
}

#[test]
fn async_run_visits_exactly_the_reachable_nodes() {
    let mut g = Graph::empty();
    g.add_node(0, vec![1]);
    g.add_node(1, vec![3]);
    g.add_node(2, vec![0]);
    g.add_node(3, vec![1, 9]);
    g.add_node(4, vec![]);
    let mut sim = AsyncSimulator::new(g);
    sim.run(0);
    let visited: Vec<bool> = (0..5).map(|i| sim.graph().node(i).unwrap().state.visited).collect();
    assert_eq!(visited, vec![true, true, false, true, false]);
}

#[test]
fn from_links_keeps_linked_other_nodes_in_order() {
    let links = vec![vec![true, true, false], vec![false, false, false], vec![true, true, true]];
    let g = Graph::from_links(3, &links);
    assert_eq!(g.len(), 3);
    assert_eq!(g.node(0).unwrap().get_neighbors(), vec![1]);
    assert!(g.node(1).unwrap().get_neighbors().is_empty());
    assert_eq!(g.node(2).unwrap().get_neighbors(), vec![0, 1]);
    assert!(!g.all_visited());
}
