// Clusters that fall apart and come together again.

use dfs::raft::command::{Command, LogEntry, MasterCommand};
use dfs::raft::config::{ClusterConfiguration, Role};
use dfs::raft::drive::SavedState;
use dfs::strmap::Dup;
use dfs::raft::node::{
    Action, AppendEntriesArgs, AppendEntriesReply, RaftNode, RequestVoteArgs, RequestVoteReply,
};
use std::collections::{HashMap, HashSet};
use std::sync::{Arc, Mutex};

// Mock network layer for simulating partitions
#[derive(Clone)]
struct MockNetwork {
    partitions: Arc<Mutex<HashMap<usize, HashSet<usize>>>>,
}

impl MockNetwork {
    fn new() -> Self {
        Self { partitions: Arc::new(Mutex::new(HashMap::new())) }
    }

    /// Partition the network: nodes in set1 cannot communicate with nodes in set2
    fn create_partition(&self, set1: Vec<usize>, set2: Vec<usize>) {
        let mut partitions = self.partitions.lock().unwrap();
        let set1_hash: HashSet<usize> = set1.into_iter().collect();
        let set2_hash: HashSet<usize> = set2.into_iter().collect();

        for &node in &set1_hash {
            partitions.insert(node, set2_hash.clone());
        }
        for &node in &set2_hash {
            partitions.insert(node, set1_hash.clone());
        }
    }

    /// Heal the partition: all nodes can communicate with each other
    fn heal_partition(&self) {
        let mut partitions = self.partitions.lock().unwrap();
        partitions.clear();
    }

    /// Check if two nodes can communicate
    fn can_communicate(&self, from: usize, to: usize) -> bool {
        let partitions = self.partitions.lock().unwrap();
        if let Some(blocked_nodes) = partitions.get(&from) {
            !blocked_nodes.contains(&to)
        } else {
            true
        }
    }

    /// Isolate a single node from all others
    fn isolate_node(&self, node: usize, all_nodes: Vec<usize>) {
        let mut partitions = self.partitions.lock().unwrap();
        let others: HashSet<usize> = all_nodes.into_iter().filter(|&n| n != node).collect();

        partitions.insert(node, others.clone());
        for &other in &others {
            partitions.entry(other).or_insert_with(HashSet::new).insert(node);
        }
    }

    /// The nodes that `node` can reach, itself included.
    fn side_of(&self, node: usize, size: usize) -> HashSet<usize> {
        (0..size).filter(|&n| n == node || self.can_communicate(node, n)).collect()
    }
}

fn cluster(size: usize) -> ClusterConfiguration {
    let mut members = HashMap::new();
    for i in 0..size {
        members.insert(i, format!("node{}", i));
    }
    ClusterConfiguration::Simple { members, version: 1 }
}

/// The smallest number of nodes that decide in a cluster.
fn quorum(size: usize) -> usize {
    let config = cluster(size);
    (0..=size).find(|&n| config.has_joint_majority(&(0..n).collect())).unwrap()
}

fn nothing_saved() -> SavedState {
    SavedState {
        term: None,
        vote: None,
        snapshot: None,
        entries: vec![],
        config: Some(cluster(5)),
        change: None,
    }
}

fn node(id: usize) -> RaftNode {
    let peers: Vec<String> = (0..5).filter(|&i| i != id).map(|i| format!("node{}", i)).collect();
    let mut n = RaftNode::new_with(id, peers, format!("node{}", id), nothing_saved(), 1500);
    n.start();
    n
}

/// Lets a node stand for election, and its side of the network vote.
fn elect(network: &MockNetwork, nodes: &mut Vec<RaftNode>, who: usize) {
    let mut out: Vec<Action> = Vec::new();
    nodes[who].start_election_with(2000, &mut out);
    let side = network.side_of(who, nodes.len());
    let args = RequestVoteArgs {
        term: nodes[who].current_term,
        candidate_id: who,
        last_log_index: nodes[who].last_included_index + nodes[who].log.len() - 1,
        last_log_term: nodes[who].log[nodes[who].log.len() - 1].term,
    };
    for other in side {
        if other != who {
            let reply = nodes[other].handle_request_vote(args, &mut out);
            nodes[who].handle_vote_response(reply, &mut out);
        }
    }
}

/// Lets a leader bring the log of its side of the network up to date.
fn replicate(network: &MockNetwork, nodes: &mut Vec<RaftNode>, who: usize) {
    let mut out: Vec<Action> = Vec::new();
    for _ in 0..2 {
        for other in network.side_of(who, nodes.len()) {
            if other == who {
                continue;
            }
            let leader = &nodes[who];
            let args = AppendEntriesArgs {
                term: leader.current_term,
                leader_id: who,
                prev_log_index: 0,
                prev_log_term: leader.log[0].term,
                entries: leader.log[1..].iter().map(|e| e.dup()).collect(),
                leader_commit: leader.commit_index,
                leader_address: leader.client_address.clone(),
            };
            let reply: AppendEntriesReply = nodes[other].handle_append_entries(args, &mut out);
            nodes[who].handle_append_response(reply, &mut out);
        }
    }
}

fn terms(n: &RaftNode) -> Vec<u64> {
    n.log.iter().map(|e: &LogEntry| e.term).collect()
}

#[test]
fn test_partition_prevents_split_brain() {
    let network = MockNetwork::new();

    // Partition: {0, 1} vs {2, 3, 4}
    network.create_partition(vec![0, 1], vec![2, 3, 4]);

    let minority_votes = network.side_of(0, 5).len();
    assert_eq!(minority_votes, 2);
    let majority_needed = quorum(5);
    assert_eq!(majority_needed, 3);
    assert!(minority_votes < majority_needed, "Minority partition cannot form majority");

    let majority_votes = network.side_of(2, 5).len();
    assert_eq!(majority_votes, 3);
    assert!(majority_votes >= majority_needed, "Majority partition can elect leader");

    assert!(!network.can_communicate(0, 2), "Nodes in different partitions cannot communicate");
    assert!(network.can_communicate(2, 3), "Nodes in same partition can communicate");

    let mut nodes: Vec<RaftNode> = (0..5).map(node).collect();
    elect(&network, &mut nodes, 0);
    elect(&network, &mut nodes, 2);
    assert_eq!(nodes[0].role, Role::Candidate);
    assert_eq!(nodes[2].role, Role::Leader);
}

#[test]
fn test_leader_election_after_partition() {
    let network = MockNetwork::new();
    let nodes = vec![0, 1, 2, 3, 4];
    let old_leader = 0;
    network.isolate_node(old_leader, nodes.clone());

    let isolated_votes = network.side_of(0, 5).len();
    assert_eq!(isolated_votes, 1);
    let majority_needed = quorum(5);
    assert!(isolated_votes < majority_needed, "Isolated leader loses quorum and steps down");

    let remaining_nodes: Vec<usize> = vec![1, 2, 3, 4];
    let majority_votes = remaining_nodes.len();
    assert!(majority_votes >= majority_needed, "Remaining nodes can elect new leader");

    let mut raft: Vec<RaftNode> = (0..5).map(node).collect();
    elect(&network, &mut raft, 1);
    let new_leader = raft.iter().position(|n| n.role == Role::Leader).unwrap();
    assert_eq!(new_leader, 1);
    assert!(remaining_nodes.contains(&1), "New leader should be from majority partition");
}

#[test]
fn test_partition_healing() {
    let network = MockNetwork::new();
    network.create_partition(vec![0, 1], vec![2, 3, 4]);
    assert!(!network.can_communicate(0, 2), "Partition prevents communication");
    network.heal_partition();
    assert!(network.can_communicate(0, 2), "After healing, all nodes can communicate");
    assert!(network.can_communicate(1, 4), "After healing, all nodes can communicate");

    let leader_in_majority_term = 5;
    let old_leader_term = 3;
    assert!(
        leader_in_majority_term > old_leader_term,
        "Higher term leader wins after partition heals"
    );

    let mut stale = node(0);
    let mut out: Vec<Action> = Vec::new();
    stale.current_term = old_leader_term;
    stale.become_leader(&mut out);
    assert_eq!(stale.role, Role::Leader);
    let reply = AppendEntriesReply {
        term: leader_in_majority_term,
        success: false,
        match_index: 0,
        peer_id: 2,
    };
    stale.handle_append_response(reply, &mut out);
    assert_eq!(stale.role, Role::Follower);
    assert_eq!(stale.current_term, leader_in_majority_term);
}

#[test]
fn test_write_availability_during_partition() {
    let network = MockNetwork::new();
    network.create_partition(vec![0, 1], vec![2, 3, 4]);
    let majority_needed = quorum(5);
    let minority_size = network.side_of(0, 5).len();
    assert_eq!(minority_size, 2);
    assert!(minority_size < majority_needed, "Minority partition rejects writes");
    let majority_size = network.side_of(2, 5).len();
    assert_eq!(majority_size, 3);
    assert!(majority_size >= majority_needed, "Majority partition accepts writes");
}

#[test]
fn test_symmetric_partition() {
    let network = MockNetwork::new();
    network.create_partition(vec![0, 1], vec![2, 3]);
    let majority_needed = quorum(4);
    assert_eq!(majority_needed, 3);
    let side1_size = network.side_of(0, 4).len();
    assert_eq!(side1_size, 2);
    assert!(side1_size < majority_needed, "Side 1 cannot form majority");
    let side2_size = network.side_of(2, 4).len();
    assert_eq!(side2_size, 2);
    assert!(side2_size < majority_needed, "Side 2 cannot form majority");
    assert!(
        side1_size < majority_needed && side2_size < majority_needed,
        "Symmetric partition makes cluster unavailable"
    );
}

#[test]
fn test_cascading_partitions() {
    let network = MockNetwork::new();
    let nodes = vec![0, 1, 2, 3, 4];
    network.isolate_node(0, nodes.clone());
    assert!(!network.can_communicate(0, 1), "Node 0 is isolated");
    network.heal_partition();
    assert!(network.can_communicate(0, 1), "First partition healed");
    network.create_partition(vec![0, 1, 2], vec![3, 4]);

    let majority_size = network.side_of(0, 5).len();
    let minority_size = network.side_of(3, 5).len();
    assert_eq!(majority_size, 3);
    assert_eq!(minority_size, 2);
    let majority_needed = quorum(5);
    assert!(majority_size >= majority_needed, "Majority partition {{0,1,2}} can elect leader");
    assert!(minority_size < majority_needed, "Minority partition {{3,4}} cannot elect leader");
}

#[test]
fn test_term_increases_across_partitions() {
    let network = MockNetwork::new();
    let mut nodes: Vec<RaftNode> = (0..5).map(node).collect();

    // Node 0 is leader at term 1
    elect(&network, &mut nodes, 0);
    assert_eq!(nodes[0].role, Role::Leader);
    let old_leader_term = nodes[0].current_term;
    assert_eq!(old_leader_term, 1);

    // The others elect a new one
    network.isolate_node(0, vec![0, 1, 2, 3, 4]);
    elect(&network, &mut nodes, 1);
    let new_leader_term = nodes[1].current_term;
    assert_eq!(new_leader_term, 2, "Term increases during election");
    assert_eq!(nodes[1].role, Role::Leader);

    network.heal_partition();
    assert!(
        new_leader_term > old_leader_term,
        "Old leader steps down when seeing higher term"
    );
    replicate(&network, &mut nodes, 1);
    assert_eq!(nodes[0].role, Role::Follower);
    assert_eq!(nodes[0].current_term, 2, "Cluster converges to highest term");
}

#[test]
fn test_log_consistency_after_partition() {
    let network = MockNetwork::new();
    let mut nodes: Vec<RaftNode> = (0..5).map(node).collect();
    let mut out: Vec<Action> = Vec::new();

    // Before partition: all nodes have three entries
    elect(&network, &mut nodes, 0);
    for i in 0..2 {
        let command = Command::Master(MasterCommand::DeleteFile { path: format!("/{}", i) });
        nodes[0].propose(command, &mut out);
    }
    replicate(&network, &mut nodes, 0);
    let initial_log = vec![1, 2, 3];
    for n in &nodes {
        assert_eq!(n.log.len() - 1, initial_log.len());
        assert_eq!(n.commit_index, 3);
    }

    // Partition: {0, 1} vs {2, 3, 4}
    network.create_partition(vec![0, 1], vec![2, 3, 4]);

    // The minority cannot commit
    nodes[0].propose(Command::NoOp, &mut out);
    replicate(&network, &mut nodes, 0);
    assert_eq!(nodes[0].commit_index, 3);

    // The majority commits two more entries
    elect(&network, &mut nodes, 2);
    nodes[2].propose(Command::NoOp, &mut out);
    replicate(&network, &mut nodes, 2);
    assert_eq!(nodes[2].commit_index, 5);

    network.heal_partition();
    replicate(&network, &mut nodes, 2);
    let final_log = terms(&nodes[2]);
    for n in &nodes {
        assert_eq!(terms(n), final_log);
    }
    assert_eq!(final_log.len() - 1, 5, "All nodes converge to the same log");
    assert!(final_log.len() - 1 > initial_log.len(), "Log has grown during partition");
    for n in &nodes {
        assert_eq!(n.commit_index, 5, "Commit index converges across all nodes");
    }
}

#[test]
fn test_client_behavior_during_partition() {
    let network = MockNetwork::new();
    let leader = 0;
    network.isolate_node(leader, vec![0, 1, 2, 3, 4]);
    let majority_needed = quorum(5);
    let leader_partition_size = network.side_of(leader, 5).len();
    assert_eq!(leader_partition_size, 1);
    assert!(leader_partition_size < majority_needed, "Isolated leader cannot commit writes");
    let new_leader_partition_size = network.side_of(1, 5).len();
    assert_eq!(new_leader_partition_size, 4);
    assert!(new_leader_partition_size >= majority_needed, "New leader can commit writes");
}

#[test]
fn test_read_consistency_during_partition() {
    let network = MockNetwork::new();
    let mut nodes: Vec<RaftNode> = (0..5).map(node).collect();
    let mut out: Vec<Action> = Vec::new();

    // Before partition: five entries are committed
    elect(&network, &mut nodes, 0);
    for _ in 0..4 {
        nodes[0].propose(Command::NoOp, &mut out);
    }
    replicate(&network, &mut nodes, 0);
    assert_eq!(nodes[0].commit_index, 5);

    network.create_partition(vec![0, 1], vec![2, 3, 4]);
    elect(&network, &mut nodes, 2);
    replicate(&network, &mut nodes, 2);
    assert_eq!(nodes[1].commit_index, 5, "Minority reads from old commit index");
    assert_eq!(nodes[2].commit_index, 6, "Majority reads from new commit index");

    network.heal_partition();
    replicate(&network, &mut nodes, 2);
    for n in &nodes {
        assert_eq!(n.commit_index, 6, "All nodes converge to latest commit");
    }
}

#[test]
fn test_three_way_partition() {
    let network = MockNetwork::new();
    network.create_partition(vec![0, 1], vec![2, 3, 4, 5]);
    let majority_needed = quorum(6);
    assert_eq!(majority_needed, 4);
    let partition_size = network.side_of(0, 6).len();
    assert_eq!(partition_size, 2);
    assert!(
        partition_size < majority_needed,
        "No partition can form majority in three-way split"
    );
    let config = cluster(6);
    for side in [vec![0, 1], vec![2, 3], vec![4, 5]] {
        assert!(
            !config.has_joint_majority(&side.into_iter().collect()),
            "Three-way partition makes cluster unavailable"
        );
    }
}

#[test]
fn a_vote_is_given_once_per_term() {
    let mut n = node(0);
    let mut out: Vec<Action> = Vec::new();
    let ask = |candidate_id: usize, term: u64| RequestVoteArgs {
        term,
        candidate_id,
        last_log_index: 0,
        last_log_term: 0,
    };
    let first: RequestVoteReply = n.handle_request_vote(ask(1, 4), &mut out);
    assert!(first.vote_granted);
    assert!(!n.handle_request_vote(ask(2, 4), &mut out).vote_granted);
    assert!(n.handle_request_vote(ask(1, 4), &mut out).vote_granted);
    assert!(!n.handle_request_vote(ask(2, 3), &mut out).vote_granted);
    assert!(n.handle_request_vote(ask(2, 5), &mut out).vote_granted);
    assert_eq!(n.voted_for, Some(2));
    assert_eq!(n.current_term, 5);
}
