use micro_service_sim::message::{Message, MessageAsync, MessageSync, MessageType};
use micro_service_sim::node::{Node, NodeState, NO_PARENT};

fn sync_msg(time: usize, sender: Option<usize>, level: usize, receiver: usize, t: MessageType) -> MessageSync {
    <MessageSync as Message>::new(time, sender, level, receiver, t)
}

#[test]
fn sync_message_constructors() {
    let m = sync_msg(4, Some(2), 3, 7, MessageType::Bfs);
    assert!(!m.is_ack());
    let f = m.to_next_level(100);
    assert_eq!((f.time, f.sender, f.level, f.receiver), (5, Some(7), 4, 7));
    let n = f.next_in_level(9, 100);
    assert_eq!((n.time, n.sender, n.level, n.receiver), (5, Some(7), 4, 9));
    let a = m.create_ack(100, 2, 100);
    assert!(a.is_ack());
    assert_eq!((a.time, a.sender, a.level, a.receiver), (5, Some(7), 3, 2));
    assert_eq!(m.rank_key(), (3, 0));
    assert_eq!(sync_msg(4, None, 3, 7, MessageType::Flood).rank_key(), (4, 0));
}

#[test]
fn async_message_constructors() {
    let m = <MessageAsync as Message>::new(10, Some(1), 2, 3, MessageType::Flood);
    let f = m.to_next_level(15);
    assert_eq!((f.time, f.sender, f.level, f.receiver), (15, Some(3), 3, 3));
    let f = m.to_next_level(4);
    assert_eq!(f.time, 10);
    let n = m.next_in_level(8, 6);
    assert_eq!((n.time, n.receiver, n.sender), (16, 8, Some(1)));
    let a = m.create_ack(12, 1, 3);
    assert_eq!((a.time, a.receiver, a.sender, a.ack), (15, 1, Some(3), true));
    let far = <MessageAsync as Message>::new(u64::MAX - 1, None, 0, 0, MessageType::Flood);
    assert_eq!(far.next_in_level(1, 10).time, u64::MAX);
    assert_eq!(m.rank_key(), (10, 2));
}

#[test]
fn node_state_default_is_unvisited() {
    let s = NodeState::default();
    assert_eq!(s, NodeState { visited: false, parent: None, level: None });
}

#[test]
fn root_floods_all_neighbours() {
    let mut node = Node::<MessageSync>::new(0);
    node.add_neighbors(vec![1, 2]);
    node.receive_message(sync_msg(0, None, 0, 0, MessageType::Flood));
    let out = node.process_messages_round(&vec![0; 3]);
    assert_eq!(out.len(), 2);
    assert_eq!(out[0].receiver, 1);
    assert_eq!(out[1].receiver, 2);
    assert_eq!(out[0].sender, Some(0));
    assert_eq!(out[0].time, 1);
    assert_eq!(out[0].level, 1);
    assert_eq!(node.state, NodeState { visited: true, parent: None, level: Some(0) });
    assert_eq!(node.get_bfs_data(), (NO_PARENT, 0));
}

#[test]
fn forwarding_skips_the_parent() {
    let mut node = Node::<MessageSync>::new(1);
    node.add_neighbor(0);
    node.add_neighbor(2);
    node.add_neighbor(3);
    node.receive_message(sync_msg(1, Some(0), 1, 1, MessageType::Bfs));
    let out = node.process_messages_round(&vec![0; 4]);
    let receivers: Vec<usize> = out.iter().map(|m| m.receiver).collect();
    assert_eq!(receivers, vec![2, 3]);
    assert_eq!(node.get_bfs_data(), (0, 1));
    assert_eq!(node.get_neighbors(), vec![0, 2, 3]);
}

#[test]
fn visited_node_acknowledges() {
    let mut node = Node::<MessageSync>::new(1);
    node.add_neighbors(vec![0, 2]);
    node.receive_message(sync_msg(1, Some(0), 1, 1, MessageType::Flood));
    node.process_messages_round(&vec![0; 3]);
    node.receive_message(sync_msg(2, Some(2), 2, 1, MessageType::Flood));
    let out = node.process_messages_round(&vec![0; 3]);
    assert_eq!(out.len(), 1);
    assert!(out[0].is_ack());
    assert_eq!(out[0].receiver, 2);
    assert_eq!(out[0].sender, Some(1));
    assert_eq!(out[0].time, 3);
}

#[test]
fn leaf_acknowledges_at_once() {
    let mut node = Node::<MessageSync>::new(2);
    node.add_neighbor(1);
    node.receive_message(sync_msg(2, Some(1), 2, 2, MessageType::Flood));
    let out = node.process_messages_round(&vec![0; 2]);
    assert_eq!(out.len(), 1);
    assert!(out[0].is_ack());
    assert_eq!(out[0].receiver, 1);
    assert!(node.state.visited);
}

#[test]
fn acknowledgements_are_passed_up() {
    let mut node = Node::<MessageSync>::new(1);
    node.add_neighbors(vec![0, 2, 3]);
    node.receive_message(sync_msg(1, Some(0), 1, 1, MessageType::Flood));
    node.process_messages_round(&vec![0; 4]);
    assert!(!node.got_all_acks());
    let ack2 = sync_msg(2, Some(1), 2, 2, MessageType::Flood).create_ack(0, 1, 0);
    node.receive_message(ack2);
    let out = node.process_messages_round(&vec![0; 4]);
    assert!(out.is_empty());
    assert!(!node.got_all_acks());
    let ack3 = sync_msg(2, Some(1), 2, 3, MessageType::Flood).create_ack(0, 1, 0);
    node.receive_message(ack3);
    let out = node.process_messages_round(&vec![0; 4]);
    assert!(node.got_all_acks());
    assert_eq!(out.len(), 1);
    assert!(out[0].is_ack());
    assert_eq!(out[0].receiver, 0);
    assert_eq!(out[0].time, 4);
}

#[test]
fn smallest_level_is_handled_first() {
    let mut node = Node::<MessageSync>::new(5);
    node.add_neighbors(vec![1, 2]);
    node.receive_message(sync_msg(0, Some(1), 3, 5, MessageType::Bfs));
    node.receive_message(sync_msg(0, Some(2), 1, 5, MessageType::Bfs));
    assert!(node.is_ready(&vec![0; 3]));
    node.process_messages_round(&vec![0; 3]);
    assert_eq!(node.state.parent, Some(2));
    assert_eq!(node.state.level, Some(1));
}

#[test]
fn earliest_time_is_handled_first_when_flooding() {
    let mut node = Node::<MessageSync>::new(5);
    node.add_neighbors(vec![1, 2]);
    node.receive_message(sync_msg(7, Some(1), 1, 5, MessageType::Flood));
    node.receive_message(sync_msg(3, Some(2), 4, 5, MessageType::Flood));
    node.process_messages_round(&vec![0; 3]);
    assert_eq!(node.state.parent, Some(2));
}

#[test]
fn empty_inbox_changes_nothing() {
    let mut node = Node::<MessageSync>::new(0);
    node.add_neighbor(1);
    let out = node.process_messages_round(&vec![0; 2]);
    assert!(out.is_empty());
    assert!(!node.state.visited);
}

#[test]
fn too_few_delays_is_not_ready() {
    let mut node = Node::<MessageSync>::new(0);
    node.add_neighbors(vec![1, 2]);
    assert!(!node.is_ready(&vec![0; 2]));
    assert!(node.is_ready(&vec![0; 3]));
}
