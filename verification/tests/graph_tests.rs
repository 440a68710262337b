use micro_service_sim::graph::Graph;
use micro_service_sim::message::{MessageAsync, MessageSync, MessageType};
use micro_service_sim::sims::{
    sync_bfs_sim, sync_flood_sim, sync_flood_sim_with_root_end_detection, AsyncSim, Next, StopRule,
};

fn path_graph() -> Graph<MessageSync> {
    Graph::<MessageSync>::from_edges(3, &vec![(0, 1), (1, 2)])
}

#[test]
fn test_all_connected() {
    for n in (5..=100).step_by(5) {
        let g = Graph::<MessageSync>::new(n);
        assert!(g.is_connected());
    }
}

#[test]
fn new_graph_has_symmetric_edges_and_no_loops() {
    let g = Graph::<MessageSync>::new(30);
    assert_eq!(g.size(), 30);
    for i in 0..30 {
        let node = g.node(i);
        assert!(node.num_neighbors() > 0);
        for k in 0..node.num_neighbors() {
            let j = node.neighbor(k);
            assert_ne!(j, i);
            assert!(g.node(j).get_neighbors().contains(&i));
        }
    }
}

#[test]
fn empty_graph_is_connected() {
    let g = Graph::<MessageSync>::new(0);
    assert_eq!(g.size(), 0);
    assert!(g.is_connected());
}

#[test]
fn graph_with_isolated_node_is_not_connected() {
    let g = Graph::<MessageSync>::from_edges(3, &vec![(0, 1)]);
    assert!(!g.is_connected());
    let g = path_graph();
    assert!(g.is_connected());
}

#[test]
fn init_puts_first_message_in_root_inbox() {
    let mut g = path_graph();
    g.init_algorithm(0, MessageType::Flood);
    assert_eq!(g.visited(), 0);
    let delays = vec![0usize; 3];
    assert!(g.round_ready(&delays));
    g.process_round(&delays);
    assert_eq!(g.visited(), 1);
    assert_eq!(g.messages_sent, 1);
    assert_eq!(g.messages_sent(), 1);
}

#[test]
fn round_ready_needs_enough_delays() {
    let mut g = path_graph();
    g.init_algorithm(0, MessageType::Flood);
    assert!(!g.round_ready(&vec![0usize; 2]));
    assert!(g.round_ready(&vec![0usize; 3]));
}

#[test]
fn flood_on_path_takes_three_rounds() {
    assert_eq!(sync_flood_sim(path_graph()), Some((3, 3)));
}

#[test]
fn bfs_on_path_gives_parents_and_levels() {
    assert_eq!(sync_bfs_sim(path_graph()), Some(vec![(404, 0), (0, 1), (1, 2)]));
}

#[test]
fn root_end_detection_on_path() {
    assert_eq!(sync_flood_sim_with_root_end_detection(path_graph()), Some((5, 4)));
}

#[test]
fn bfs_on_disconnected_graph_has_no_result() {
    let g = Graph::<MessageSync>::from_edges(3, &vec![(0, 1)]);
    assert_eq!(sync_bfs_sim(g), None);
}

#[test]
fn flood_on_disconnected_graph_gives_up_after_max_rounds() {
    let g = Graph::<MessageSync>::from_edges(3, &vec![(0, 1)]);
    let (time, _) = sync_flood_sim(g).unwrap();
    assert_eq!(time, 1001);
}

#[test]
fn bfs_on_ring_gives_shortest_levels() {
    let edges = vec![(0, 1), (1, 2), (2, 3), (3, 4), (4, 5), (5, 0)];
    let g = Graph::<MessageSync>::from_edges(6, &edges);
    let data = sync_bfs_sim(g).unwrap();
    let levels: Vec<usize> = data.iter().map(|d| d.1).collect();
    assert_eq!(levels, vec![0, 1, 2, 3, 2, 1]);
    assert_eq!(data[0].0, 404);
    assert_eq!(data[1].0, 0);
    assert_eq!(data[5].0, 0);
    assert_eq!(data[2].0, 1);
    assert_eq!(data[4].0, 5);
    assert!(data[3].0 == 2 || data[3].0 == 4);
}

#[test]
fn async_run_on_path() {
    let g = Graph::<MessageAsync>::from_edges(3, &vec![(0, 1), (1, 2)]);
    let mut sim = AsyncSim::new(g, MessageType::Flood);
    while !sim.all_visited() && !sim.queue_empty() {
        let k = sim.delays_needed();
        let delays = vec![2u64; k];
        assert!(sim.step(&delays));
    }
    assert_eq!(sim.time(), 4);
    assert_eq!(sim.graph().messages_sent, 3);
    let g = sim.into_graph();
    assert_eq!(g.visited(), 3);
}

#[test]
fn async_step_refuses_too_few_delays() {
    let g = Graph::<MessageAsync>::from_edges(3, &vec![(0, 1), (1, 2)]);
    let mut sim = AsyncSim::new(g, MessageType::Bfs);
    assert_eq!(sim.delays_needed(), 2);
    assert!(!sim.step(&vec![1u64]));
    assert_eq!(sim.graph().visited(), 0);
    assert!(sim.step(&vec![1u64, 1]));
    assert_eq!(sim.graph().visited(), 1);
}

#[test]
fn process_message_async_returns_sent_messages() {
    let mut g = Graph::<MessageAsync>::from_edges(3, &vec![(0, 1), (0, 2)]);
    let first = <MessageAsync as micro_service_sim::message::Message>::new(0, None, 0, 0, MessageType::Bfs);
    let delays = vec![5u64, 7, 9];
    assert!(g.handle_ready(&first, &delays));
    let out = g.process_message_async(first, &delays);
    assert_eq!(out.len(), 2);
    assert_eq!(out[0].receiver, 1);
    assert_eq!(out[0].time, 5);
    assert_eq!(out[1].receiver, 2);
    assert_eq!(out[1].time, 12);
    assert_eq!(out[1].level, 1);
    assert_eq!(out[1].sender, Some(0));
    assert_eq!(g.messages_sent, 2);
}

#[test]
fn get_bfs_data_after_bfs_rounds() {
    let mut g = path_graph();
    g.init_algorithm(0, MessageType::Bfs);
    let delays = vec![0usize; 3];
    for _ in 0..3 {
        g.process_round(&delays);
    }
    assert!(g.all_levels_known());
    assert_eq!(g.get_bfs_data(), vec![(404, 0), (0, 1), (1, 2)]);
    assert_eq!(g.root().get_state().level, Some(0));
}

#[test]
fn sync_bfs_result_is_a_bfs_tree() {
    let edges = vec![(0, 1), (0, 2), (1, 3), (2, 3), (3, 4), (4, 5), (1, 5), (6, 2)];
    let g = Graph::<MessageSync>::from_edges(7, &edges);
    let copy = Graph::<MessageSync>::from_edges(7, &edges);
    let data = sync_bfs_sim(g).unwrap();
    assert!(copy.is_bfs_tree(&data));
    let levels: Vec<usize> = data.iter().map(|d| d.1).collect();
    assert_eq!(levels, vec![0, 1, 1, 2, 3, 2, 2]);
}

#[test]
fn sync_bfs_on_random_graphs_gives_bfs_trees() {
    for n in [5usize, 10, 20, 40] {
        let g = Graph::<MessageSync>::new(n);
        let copy = g.clone();
        if let Some(data) = sync_bfs_sim(g) {
            assert!(copy.is_bfs_tree(&data));
        }
    }
}

#[test]
fn is_bfs_tree_refuses_a_level_skip() {
    let g = Graph::<MessageSync>::from_edges(3, &vec![(0, 1), (1, 2), (0, 2)]);
    assert!(g.is_bfs_tree(&vec![(404, 0), (0, 1), (0, 1)]));
    assert!(!g.is_bfs_tree(&vec![(404, 0), (0, 1), (1, 2)]));
    assert!(!g.is_bfs_tree(&vec![(404, 0), (0, 1)]));
    assert!(!g.is_bfs_tree(&vec![(0, 0), (0, 1), (0, 1)]));
}

#[test]
fn sync_runs_on_a_long_path_visit_every_node() {
    let n = 200;
    let edges: Vec<(usize, usize)> = (0..n - 1).map(|i| (i, i + 1)).collect();
    let data = sync_bfs_sim(Graph::<MessageSync>::from_edges(n, &edges)).unwrap();
    for (i, entry) in data.iter().enumerate() {
        assert_eq!(entry.1, i);
    }
    let (rounds, _) = sync_flood_sim(Graph::<MessageSync>::from_edges(n, &edges)).unwrap();
    assert!(rounds <= n);
    assert_eq!(rounds, n);
}

#[test]
fn async_search_runs_dry_only_after_visiting_every_node() {
    let edges = vec![(0, 1), (1, 2), (2, 3), (3, 0), (2, 4), (4, 5), (5, 6), (1, 6)];
    for ty in [MessageType::Flood, MessageType::Bfs] {
        let g = Graph::<MessageAsync>::from_edges(7, &edges);
        let mut sim = AsyncSim::new(g, ty);
        let mut turn: u64 = 0;
        while !sim.queue_empty() {
            let k = sim.delays_needed();
            let delays: Vec<u64> = (0..k as u64).map(|j| 1 + (turn * 7 + j * 3) % 5).collect();
            assert!(sim.step(&delays));
            turn += 1;
        }
        assert!(sim.all_visited());
    }
}

#[test]
fn root_end_detection_comes_after_every_visit() {
    let edges = vec![(0, 1), (0, 2), (1, 3), (2, 3), (3, 4), (4, 5), (1, 5), (6, 2), (6, 7)];
    let (flood_rounds, _) = sync_flood_sim(Graph::<MessageSync>::from_edges(8, &edges)).unwrap();
    let (detected, _) = sync_flood_sim_with_root_end_detection(Graph::<MessageSync>::from_edges(8, &edges)).unwrap();
    assert!(detected <= 1000);
    assert!(flood_rounds <= detected);
    let ring: Vec<(usize, usize)> = (0..12).map(|i| (i, (i + 1) % 12)).collect();
    let (flood_rounds, _) = sync_flood_sim(Graph::<MessageSync>::from_edges(12, &ring)).unwrap();
    let (detected, sent) = sync_flood_sim_with_root_end_detection(Graph::<MessageSync>::from_edges(12, &ring)).unwrap();
    // One search and one answer along each edge end but a parent's.
    assert_eq!(sent, 26);
    assert_eq!(flood_rounds, 7);
    assert!(flood_rounds <= detected && detected <= 1000);
    // Two rounds per edge end and one per node bound the wait.
    assert!(detected <= 2 * 24 + 12);
}

#[test]
fn async_run_decisions_follow_the_stop_rules() {
    let g = Graph::<MessageAsync>::from_edges(2, &vec![(0, 1)]);
    let mut sim = AsyncSim::new(g, MessageType::Flood);
    assert_eq!(sim.next(StopRule::AllVisited), Next::Deliver);
    assert_eq!(sim.next(StopRule::RootAcknowledged), Next::Deliver);
    while sim.next(StopRule::RootAcknowledged) == Next::Deliver {
        let k = sim.delays_needed();
        assert!(sim.step(&vec![1u64; k]));
    }
    assert_eq!(sim.next(StopRule::RootAcknowledged), Next::Done);
    assert_eq!(sim.next(StopRule::AllVisited), Next::Done);
    let lone = Graph::<MessageAsync>::from_edges(2, &vec![]);
    let mut sim = AsyncSim::new(lone, MessageType::Flood);
    assert!(sim.step(&vec![1u64]));
    assert_eq!(sim.next(StopRule::AllVisited), Next::Done);
    let lone = Graph::<MessageAsync>::from_edges(3, &vec![(1, 2)]);
    let mut sim = AsyncSim::new(lone, MessageType::Flood);
    assert!(sim.step(&vec![1u64]));
    assert_eq!(sim.next(StopRule::RootAcknowledged), Next::Done);
}

#[test]
fn from_edges_lists_neighbours_in_order() {
    let g = Graph::<MessageSync>::from_edges(3, &vec![(0, 1), (1, 2), (0, 2), (0, 1)]);
    assert_eq!(g.node(0).get_neighbors(), vec![1, 2, 1]);
    assert_eq!(g.node(1).get_neighbors(), vec![0, 2, 0]);
    assert_eq!(g.node(2).get_neighbors(), vec![1, 0]);
}

#[test]
fn new_graph_lists_each_edge_equally_often_both_ways() {
    for n in [2usize, 5, 30] {
        let g = Graph::<MessageSync>::new(n);
        for i in 0..n {
            for j in 0..n {
                let a = g.node(i).get_neighbors().iter().filter(|x| **x == j).count();
                let b = g.node(j).get_neighbors().iter().filter(|x| **x == i).count();
                assert_eq!(a, b);
            }
        }
    }
}

#[test]
fn from_draws_adds_drawn_edges_then_fallbacks() {
    // Pairs in coin order: (0, 1), (0, 2), (1, 2). Only the first comes up;
    // node 2 is left alone and its pick 1 names node 1.
    let g = Graph::<MessageSync>::from_draws(3, &vec![true, false, false], &vec![0, 0, 1]);
    assert_eq!(g.node(0).get_neighbors(), vec![1]);
    assert_eq!(g.node(1).get_neighbors(), vec![0, 2]);
    assert_eq!(g.node(2).get_neighbors(), vec![1]);
    assert!(g.is_connected());
}

#[test]
fn from_draws_picks_skip_the_node_itself() {
    // No coin comes up, so every node gets a fallback edge: a pick at or
    // above the node's own id names the next node up.
    let g = Graph::<MessageSync>::from_draws(4, &vec![false; 6], &vec![0, 0, 0, 2]);
    assert_eq!(g.node(0).get_neighbors(), vec![1, 1, 2]);
    assert_eq!(g.node(1).get_neighbors(), vec![0, 0]);
    assert_eq!(g.node(2).get_neighbors(), vec![0, 3]);
    assert_eq!(g.node(3).get_neighbors(), vec![2]);
}

#[test]
fn from_draws_with_every_coin_up_is_complete() {
    let g = Graph::<MessageSync>::from_draws(4, &vec![true; 6], &vec![2, 2, 2, 2]);
    assert_eq!(g.node(0).get_neighbors(), vec![1, 2, 3]);
    assert_eq!(g.node(1).get_neighbors(), vec![0, 2, 3]);
    assert_eq!(g.node(2).get_neighbors(), vec![0, 1, 3]);
    assert_eq!(g.node(3).get_neighbors(), vec![0, 1, 2]);
}
