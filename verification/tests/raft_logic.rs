// Elections, replication, commits, reads and compaction.

use dfs::raft::command::{Command, LogEntry};
use dfs::raft::config::{ClusterConfiguration, ConfigChangeState, Role};
use dfs::raft::drive::{Event, EventReply, SavedState};
use dfs::raft::election::election_timeout;
use dfs::raft::membership::{RemoveStep, TransferStep};
use dfs::raft::network::{retry_delay, Call};
use dfs::raft::node::{
    Action, AppendEntriesArgs, AppendEntriesReply, InstallSnapshotArgs, RaftNode, RequestVoteArgs,
    RequestVoteReply, RpcMessage, TimeoutNowArgs,
};
use std::collections::{HashMap, HashSet};

fn config(size: usize) -> ClusterConfiguration {
    let members: HashMap<usize, String> = (0..size).map(|i| (i, format!("node{}", i))).collect();
    ClusterConfiguration::Simple { members, version: 1 }
}

fn entry(term: u64) -> LogEntry {
    LogEntry { term, command: Command::NoOp }
}

fn node_with(id: usize, size: usize, entries: Vec<LogEntry>) -> RaftNode {
    let peers: Vec<String> = (0..size).filter(|&i| i != id).map(|i| format!("node{}", i)).collect();
    let saved = SavedState {
        term: None,
        vote: None,
        snapshot: None,
        entries,
        config: Some(config(size)),
        change: None,
    };
    let mut n = RaftNode::new_with(id, peers, format!("node{}", id), saved, 1500);
    n.start();
    n
}

fn node(id: usize, size: usize) -> RaftNode {
    node_with(id, size, vec![])
}

fn leader(size: usize, entries: Vec<LogEntry>) -> RaftNode {
    let mut n = node_with(0, size, entries);
    let mut out: Vec<Action> = Vec::new();
    n.start_election_with(2000, &mut out);
    for peer_id in 1..size {
        let term = n.current_term;
        n.handle_vote_response(
            RequestVoteReply { term, vote_granted: true, peer_id },
            &mut out,
        );
    }
    assert_eq!(n.role, Role::Leader);
    n
}

/// The smallest number of nodes that decide in a cluster.
fn majority_of(size: usize) -> usize {
    let c = config(size);
    (0..=size).find(|&n| c.has_joint_majority(&(0..n).collect())).unwrap()
}

fn append(term: u64, prev: (usize, u64), entries: Vec<LogEntry>, commit: usize) -> AppendEntriesArgs {
    AppendEntriesArgs {
        term,
        leader_id: 1,
        prev_log_index: prev.0,
        prev_log_term: prev.1,
        entries,
        leader_commit: commit,
        leader_address: "node1".to_string(),
    }
}

fn ack(term: u64, peer_id: usize, match_index: usize) -> AppendEntriesReply {
    AppendEntriesReply { term, success: true, match_index, peer_id }
}

fn terms(n: &RaftNode) -> Vec<u64> {
    n.log.iter().map(|e| e.term).collect()
}

#[test]
fn test_log_entry_ordering() {
    let entry1 = LogEntry { term: 1, command: Command::NoOp };
    let entry2 = LogEntry { term: 2, command: Command::NoOp };
    assert!(entry1.term < entry2.term, "Log entries should be ordered by term");
}

#[test]
fn test_role_transitions() {
    let follower = Role::Follower;
    let candidate = Role::Candidate;
    let leader = Role::Leader;

    assert_ne!(follower, candidate);
    assert_ne!(candidate, leader);
    assert_ne!(candidate, follower);
    assert_ne!(leader, follower);
}

#[test]
fn test_majority_calculation() {
    let cluster_size = 1;
    let majority = majority_of(cluster_size);
    assert_eq!(majority, 1, "Majority of 1 node cluster is 1");

    let cluster_size = 3;
    let majority = majority_of(cluster_size);
    assert_eq!(majority, 2, "Majority of 3 node cluster is 2");

    let cluster_size = 5;
    let majority = majority_of(cluster_size);
    assert_eq!(majority, 3, "Majority of 5 node cluster is 3");

    let cluster_size = 7;
    let majority = majority_of(cluster_size);
    assert_eq!(majority, 4, "Majority of 7 node cluster is 4");
}

#[test]
fn test_vote_counting() {
    let mut votes_received = HashSet::new();
    votes_received.insert(0);
    assert_eq!(votes_received.len(), 1);
    votes_received.insert(1);
    assert_eq!(votes_received.len(), 2);
    votes_received.insert(1);
    assert_eq!(votes_received.len(), 2, "Duplicate votes should not be counted");
    let cluster_size = 3;
    let majority = majority_of(cluster_size);
    assert!(votes_received.len() >= majority, "Should have majority with 2/3 votes");

    let mut n = node(0, 5);
    let mut out: Vec<Action> = Vec::new();
    n.start_election_with(2000, &mut out);
    assert_eq!(n.voters.len(), 1);
    let reply = RequestVoteReply { term: n.current_term, vote_granted: true, peer_id: 1 };
    n.handle_vote_response(reply, &mut out);
    n.handle_vote_response(reply, &mut out);
    assert_eq!(n.voters.len(), 2, "Duplicate votes should not be counted");
    assert_eq!(n.votes_received, 2, "Duplicate votes should not be counted");
    assert_eq!(n.role, Role::Candidate);
    n.handle_vote_response(RequestVoteReply { peer_id: 2, ..reply }, &mut out);
    assert_eq!(n.role, Role::Leader);
}

#[test]
fn test_log_matching_property() {
    let mut log1 = Vec::new();
    let mut log2 = Vec::new();
    for term in 1..=3 {
        log1.push(LogEntry { term, command: Command::NoOp });
        log2.push(LogEntry { term, command: Command::NoOp });
    }
    for i in 0..log1.len() {
        assert_eq!(
            log1[i].term, log2[i].term,
            "Entries at index {} should have the same term",
            i
        );
    }

    let mut a = node(0, 3);
    let mut b = node_with(0, 3, vec![entry(1), entry(1)]);
    let mut out: Vec<Action> = Vec::new();
    assert!(a.handle_append_entries(append(3, (0, 0), log1, 0), &mut out).success);
    assert!(b.handle_append_entries(append(3, (0, 0), log2, 0), &mut out).success);
    assert_eq!(terms(&a), terms(&b));
}

#[test]
fn test_log_consistency_check() {
    let mut leader_log = Vec::new();
    let mut follower_log = Vec::new();
    for term in 1..=3 {
        leader_log.push(LogEntry { term, command: Command::NoOp });
    }
    for term in 1..=2 {
        follower_log.push(LogEntry { term, command: Command::NoOp });
    }
    assert!(follower_log.len() < leader_log.len());
    for i in 0..follower_log.len() {
        assert_eq!(follower_log[i].term, leader_log[i].term);
    }

    let mut n = node_with(0, 3, follower_log);
    let mut out: Vec<Action> = Vec::new();
    let reply = n.handle_append_entries(append(3, (2, 2), vec![entry(3)], 0), &mut out);
    assert!(reply.success);
    assert_eq!(reply.match_index, 3);
    assert_eq!(terms(&n), vec![0, 1, 2, 3]);
}

#[test]
fn test_term_comparison() {
    let old_term = 1;
    let new_term = 2;
    assert!(new_term > old_term, "New term should be greater than old term");

    let current_term = 5;
    let received_term = 6;
    assert!(
        received_term > current_term,
        "Node should step down when it sees a higher term"
    );
    let mut n = leader(3, vec![]);
    let mut out: Vec<Action> = Vec::new();
    n.current_term = current_term;
    n.handle_append_response(
        AppendEntriesReply { term: received_term, success: false, match_index: 0, peer_id: 1 },
        &mut out,
    );
    assert_eq!(n.role, Role::Follower);
    assert_eq!(n.current_term, received_term);
    assert_eq!(n.voted_for, None);
}

#[test]
fn test_commit_index_monotonicity() {
    let mut n = node_with(0, 3, (0..10).map(|_| entry(1)).collect());
    let mut out: Vec<Action> = Vec::new();

    n.handle_append_entries(append(1, (10, 1), vec![], 5), &mut out);
    assert_eq!(n.commit_index, 5);

    n.handle_append_entries(append(1, (10, 1), vec![], 3), &mut out);
    assert_eq!(n.commit_index, 5, "Commit index should not decrease");

    n.handle_append_entries(append(1, (10, 1), vec![], 10), &mut out);
    assert_eq!(n.commit_index, 10);

    // Neither a message that vouches for less nor an older snapshot takes
    // anything back.
    n.handle_append_entries(append(1, (2, 1), vec![], 10), &mut out);
    assert_eq!(n.commit_index, 10, "Commit index should not decrease");
    let before = out.len();
    n.handle_install_snapshot(snapshot(1, 7, 1), &mut out);
    assert_eq!(n.commit_index, 10, "Commit index should not decrease");
    assert_eq!(n.last_applied, 10);
    assert_eq!(n.last_included_index, 0);
    assert!(out[before..].iter().all(|a| matches!(a, Action::ResetElectionTimer)));
}

fn snapshot(term: u64, index: usize, last_term: u64) -> InstallSnapshotArgs {
    InstallSnapshotArgs {
        term,
        leader_id: 1,
        last_included_index: index,
        last_included_term: last_term,
        data: vec![1],
    }
}

#[test]
fn snapshots_leave_what_follows_them() {
    // The log holds the last entry of the snapshot: the rest stays.
    let mut n = node_with(0, 3, vec![entry(1), entry(1), entry(2), entry(2)]);
    let mut out: Vec<Action> = Vec::new();
    let r = n.handle_install_snapshot(snapshot(3, 2, 1), &mut out);
    assert_eq!(r.last_included_index, 2);
    assert_eq!(terms(&n), vec![1, 2, 2]);
    assert_eq!((n.commit_index, n.last_applied), (2, 2));
    assert!(!out.iter().any(|a| matches!(a, Action::EraseFrom { .. })));

    // It holds another one there: nothing stays, in the log or on disk.
    let mut n = node_with(0, 3, vec![entry(1), entry(1), entry(1), entry(1)]);
    out.clear();
    n.handle_install_snapshot(snapshot(3, 2, 2), &mut out);
    assert_eq!(terms(&n), vec![2]);
    assert!(out.iter().any(|a| matches!(a, Action::EraseFrom { index: 3 })));
}

#[test]
fn followers_commit_what_a_message_vouches_for() {
    let mut n = node_with(1, 3, vec![entry(1), entry(1), entry(2), entry(2)]);
    let mut out: Vec<Action> = Vec::new();
    let r = n.handle_append_entries(append(3, (2, 1), vec![], 4), &mut out);
    assert!(r.success);
    assert_eq!(r.match_index, 2);
    assert_eq!(n.commit_index, 2);
    assert_eq!(n.last_applied, 2);
}

#[test]
fn answers_are_credited_to_those_who_give_them() {
    let members: HashMap<usize, String> = [(0, "a:8010"), (1, "b:8012"), (12, "c:8001")]
        .into_iter()
        .map(|(k, a)| (k, a.to_string()))
        .collect();
    let saved = SavedState {
        term: None,
        vote: None,
        snapshot: None,
        entries: vec![entry(1)],
        config: Some(ClusterConfiguration::Simple { members, version: 1 }),
        change: None,
    };
    let peers = vec!["c:8001".to_string(), "b:8012".to_string()];
    let mut n = RaftNode::new_with(0, peers, "a:8010".to_string(), saved, 1500);
    n.start();
    let mut out: Vec<Action> = Vec::new();
    n.start_election_with(2000, &mut out);
    let term = n.current_term;
    n.handle_vote_response(
        RequestVoteReply { term, vote_granted: true, peer_id: 12 },
        &mut out,
    );
    assert_eq!(n.role, Role::Leader);
    n.handle_append_response(ack(term, 1, 1), &mut out);
    assert_eq!(n.match_index, vec![0, 1]);
    n.handle_append_response(ack(term, 12, 2), &mut out);
    assert_eq!(n.match_index, vec![2, 1]);
    assert_eq!(n.commit_index, 2);
    n.handle_append_response(ack(term, 7, 2), &mut out);
    assert_eq!(n.match_index, vec![2, 1]);
}

#[test]
fn all_peers_are_members_at_first() {
    let nothing = || SavedState {
        term: None,
        vote: None,
        snapshot: None,
        entries: vec![],
        config: None,
        change: None,
    };
    let peers = vec!["x".to_string(), "y".to_string()];
    for id in [0, 1, 2, 5] {
        let n = RaftNode::new_with(id, peers.clone(), "own".to_string(), nothing(), 1500);
        let all = n.cluster_config.all_members();
        assert_eq!(all.len(), 3);
        assert_eq!(all[&id], "own");
        let first = if id == 0 { 1 } else { 0 };
        assert_eq!(all[&first], "x");
    }
}

#[test]
fn calls_are_tried_again() {
    let delays = |c: Call| (0..4).map(|n| retry_delay(c, n)).collect::<Vec<_>>();
    assert_eq!(delays(Call::Vote), vec![Some(0), Some(50), Some(100), None]);
    assert_eq!(delays(Call::Snapshot), vec![Some(0), Some(50), Some(100), None]);
    assert_eq!(delays(Call::Append), vec![Some(0), Some(20), None, None]);
    assert_eq!(delays(Call::TimeoutNow), vec![Some(0), None, None, None]);
}

#[test]
fn test_last_log_index_and_term() {
    let n = node(0, 3);
    assert_eq!(n.log.len() - 1, 0);
    assert_eq!(n.log.last().map(|e: &LogEntry| e.term).unwrap_or(0), 0);

    let n = node_with(0, 3, vec![entry(1), entry(2), entry(2)]);
    let last_index = n.log.len() - 1;
    let last_term = n.log.last().map(|e: &LogEntry| e.term).unwrap_or(0);
    assert_eq!(last_index, 3);
    assert_eq!(last_term, 2);
    assert_eq!(n.cluster_info().log_len, 4);
}

#[test]
fn test_request_vote_decision() {
    let mut out: Vec<Action> = Vec::new();
    let log = || -> Vec<LogEntry> { (0..10).map(|_| entry(3)).collect() };

    // Case 1: Candidate's term is less than current term -> reject
    let current_term = 5;
    let candidate_term = 4;
    assert!(candidate_term < current_term, "Should reject vote if candidate term is old");
    let mut n = node_with(0, 5, log());
    n.current_term = current_term;
    let args = RequestVoteArgs {
        term: candidate_term,
        candidate_id: 2,
        last_log_index: 11,
        last_log_term: 3,
    };
    assert!(!n.handle_request_vote(args, &mut out).vote_granted);

    // Case 2: Already voted for different candidate in this term -> reject
    let voted_for = Some(1);
    let candidate_id = 2;
    assert!(
        voted_for.is_some() && voted_for != Some(candidate_id),
        "Should reject vote if already voted for different candidate"
    );
    n.voted_for = voted_for;
    let same_term = RequestVoteArgs { term: current_term, ..args };
    assert!(!n.handle_request_vote(same_term, &mut out).vote_granted);

    // Case 3: Candidate's log is not at least as up-to-date -> reject
    let my_last_term = 3;
    let candidate_last_term = 2;
    assert!(
        candidate_last_term < my_last_term,
        "Should reject vote if candidate log has older last term"
    );
    n.voted_for = None;
    let old_log = RequestVoteArgs {
        term: current_term,
        candidate_id,
        last_log_index: 15,
        last_log_term: candidate_last_term,
    };
    assert!(!n.handle_request_vote(old_log, &mut out).vote_granted);

    // Case 4: Valid case - grant vote
    let valid = RequestVoteArgs { term: 6, candidate_id, last_log_index: 11, last_log_term: 3 };
    let reply = n.handle_request_vote(valid, &mut out);
    assert!(reply.vote_granted, "Should grant vote in valid case");
    assert_eq!(reply.term, 6);
    assert_eq!(n.voted_for, Some(2));
}

#[test]
fn test_append_entries_consistency_check() {
    let mut out: Vec<Action> = Vec::new();
    let mut n = node_with(0, 3, vec![entry(1), entry(2), entry(3)]);

    // Case 1: prev_log_index is beyond our log -> reject
    let prev_log_index = 5;
    assert!(prev_log_index > n.log.len(), "Should reject if prev_log_index is beyond our log");
    assert!(!n.handle_append_entries(append(3, (5, 3), vec![], 0), &mut out).success);

    // Case 2: Term mismatch at prev_log_index -> reject
    let prev_log_index = 2;
    let prev_log_term = 1;
    let actual_term = n.log[prev_log_index].term;
    assert!(
        prev_log_term != actual_term,
        "Should reject if term at prev_log_index doesn't match"
    );
    assert!(!n.handle_append_entries(append(3, (2, 1), vec![], 0), &mut out).success);

    // Case 3: Consistency check passes
    let prev_log_term = 2;
    let actual_term = n.log[prev_log_index].term;
    assert_eq!(
        prev_log_term, actual_term,
        "Consistency check should pass when terms match"
    );
    assert!(n.handle_append_entries(append(3, (2, 2), vec![], 0), &mut out).success);
}

#[test]
fn test_leader_commit_advancement() {
    let leader_log_len = 10;
    let mut match_index = vec![0, 7, 8, 5, 9];
    match_index[0] = leader_log_len;

    // Nine entries and the one that the leader appends
    let mut n = leader(5, (0..9).map(|_| entry(1)).collect());
    assert_eq!(n.log.len() - 1, leader_log_len);
    n.log[8].term = n.current_term;
    let mut out: Vec<Action> = Vec::new();
    for peer_id in 1..5 {
        let term = n.current_term;
        n.handle_append_response(ack(term, peer_id, match_index[peer_id]), &mut out);
    }
    let new_commit_index = n.commit_index;
    assert_eq!(
        new_commit_index, 8,
        "Commit index should advance to entry replicated by majority"
    );

    let count = match_index.iter().filter(|&&idx| idx >= new_commit_index).count();
    let majority = majority_of(match_index.len());
    assert!(count >= majority, "New commit index should be replicated by majority");
}

#[test]
fn test_log_truncation_on_conflict() {
    let mut n = node_with(0, 3, vec![entry(1), entry(2), entry(2), entry(3)]);
    let mut out: Vec<Action> = Vec::new();
    let prev_log_index = 3;
    let new_entries = vec![entry(4)];
    let reply = n.handle_append_entries(append(4, (prev_log_index, 2), new_entries, 0), &mut out);
    assert!(reply.success);
    assert_eq!(n.log.len() - 1, 4, "Log should have correct length after truncation");
    assert_eq!(n.log[4].term, 4, "New entry should replace conflicting entry");
}

#[test]
fn test_read_index_safety() {
    let mut n = leader(5, (0..9).map(|_| entry(1)).collect());
    let mut out: Vec<Action> = Vec::new();
    for peer_id in 1..3 {
        let term = n.current_term;
        n.handle_append_response(ack(term, peer_id, 10), &mut out);
    }
    let commit_index = n.commit_index;
    assert_eq!(commit_index, 10);
    out.clear();

    n.read_index(77, &mut out);
    let read_index = n.pending_read_indices[0].read_index;
    assert_eq!(
        read_index, commit_index,
        "ReadIndex should be set to current commit index"
    );
    assert!(!out.iter().any(|a| matches!(a, Action::ReadReady { .. })));

    let majority = majority_of(5);
    let mut acks = HashSet::new();
    acks.insert(0);
    acks.insert(1);
    acks.insert(2);
    assert!(acks.len() >= majority, "Must have majority acks before serving read");
    let term = n.current_term;
    n.handle_append_response(ack(term, 1, 10), &mut out);
    assert!(!n.pending_read_indices.iter().any(|r| r.majority_confirmed));
    n.handle_append_response(ack(term, 2, 10), &mut out);
    let last_applied = n.last_applied;
    assert!(
        last_applied >= read_index,
        "Can only serve read when state machine is up-to-date"
    );
    assert!(out
        .iter()
        .any(|a| matches!(a, Action::ReadReady { request: 77, read_index: 10 })));
}

#[test]
fn test_snapshot_log_compaction() {
    let entries: Vec<LogEntry> = (1..=100u64).map(|i| entry((i / 30) + 1)).collect();
    let mut n = node_with(0, 3, entries);
    let mut out: Vec<Action> = Vec::new();
    assert_eq!(n.log.len() - 1, 100, "Log should have 100 entries");

    let snapshot_index = 50;
    n.commit_index = snapshot_index;
    n.last_applied = snapshot_index;
    let snapshot_term = n.log[snapshot_index].term;
    n.create_snapshot(&mut out);

    assert_eq!(n.log.len() - 1, 50, "Log should have 50 entries after snapshot compaction");
    let first_remaining_index = n.last_included_index + 1;
    assert_eq!(first_remaining_index, 51, "First remaining entry should be at index 51");
    assert_eq!(n.last_included_term, snapshot_term);
    assert_eq!(n.log[1].term, (51 / 30) + 1);
}

#[test]
fn test_election_timeout_randomization() {
    let mut timeouts = Vec::new();
    for _ in 0..10 {
        let timeout_ms = election_timeout();
        timeouts.push(timeout_ms);
    }
    let min_timeout = *timeouts.iter().min().unwrap();
    let max_timeout = *timeouts.iter().max().unwrap();
    assert!(max_timeout > min_timeout, "Election timeouts should be randomized");
    assert!(min_timeout >= 1500, "Min timeout should be at least 1500ms");
    assert!(max_timeout < 3000, "Max timeout should be less than 3000ms");
}

#[test]
fn a_minority_commits_nothing() {
    let mut n = leader(5, vec![]);
    let mut out: Vec<Action> = Vec::new();
    let term = n.current_term;
    n.handle_append_response(ack(term, 1, 1), &mut out);
    assert_eq!(n.commit_index, 0);
    n.handle_append_response(ack(term, 2, 1), &mut out);
    assert_eq!(n.commit_index, 1);
}

#[test]
fn entries_of_older_terms_wait_for_one_of_the_own_term() {
    let mut n = leader(3, vec![entry(1), entry(1)]);
    n.current_term = 4;
    n.log[3].term = 4;
    let mut out: Vec<Action> = Vec::new();
    n.handle_append_response(ack(4, 1, 2), &mut out);
    assert_eq!(n.commit_index, 0);
    n.handle_append_response(ack(4, 1, 3), &mut out);
    assert_eq!(n.commit_index, 3);
}

#[test]
fn a_new_leader_appends_an_entry_and_sends_it() {
    let mut n = node(0, 3);
    let mut out: Vec<Action> = Vec::new();
    n.start_election_with(2000, &mut out);
    assert_eq!(n.election_timeout_ms, 2000);
    assert!(out.iter().any(|a| matches!(a, Action::SaveTerm { term: 1 })));
    assert!(out.iter().any(|a| matches!(a, Action::SaveVote { vote: Some(0) })));
    let asked = out.iter().filter(|a| matches!(a, Action::SendVote { .. })).count();
    assert_eq!(asked, 2);
    out.clear();
    n.handle_vote_response(
        RequestVoteReply { term: 1, vote_granted: true, peer_id: 2 },
        &mut out,
    );
    assert_eq!(n.role, Role::Leader);
    assert_eq!(terms(&n), vec![0, 1]);
    assert!(out.iter().any(|a| matches!(a, Action::SaveEntry { index: 1, .. })));
    out.clear();
    n.send_heartbeats(&mut out);
    let sent = out.iter().filter(|a| matches!(a, Action::SendAppend { .. })).count();
    assert_eq!(sent, 2);
}

#[test]
fn a_single_node_elects_itself_and_commits() {
    let mut n = node(0, 1);
    let mut out: Vec<Action> = Vec::new();
    n.start_election(&mut out);
    assert_eq!(n.role, Role::Leader);
    assert!(n.election_timeout_ms >= 1500 && n.election_timeout_ms < 3000);
}

#[test]
fn requests_go_to_the_leader() {
    let mut n = node(0, 3);
    let mut out: Vec<Action> = Vec::new();
    n.handle_append_entries(append(2, (0, 0), vec![], 0), &mut out);
    let reply = n.handle_event(Event::ClientRequest { command: Command::NoOp }, &mut out);
    match reply {
        EventReply::NotLeader { leader_address } => assert_eq!(leader_address, Some("node1".to_string())),
        other => panic!("Expected a hint, got {:?}", other),
    }
    let reply = n.handle_event(Event::GetLeaderInfo, &mut out);
    match reply {
        EventReply::LeaderInfo { leader_address } => assert_eq!(leader_address, Some("node1".to_string())),
        other => panic!("Expected the leader, got {:?}", other),
    }
    let info = n.cluster_info();
    assert_eq!(info.role, Role::Follower);
    assert_eq!(info.leader_id, Some(1));
    assert_eq!(info.current_term, 2);
}

#[test]
fn a_snapshot_replaces_the_log_that_it_covers() {
    let mut n = node_with(0, 3, vec![entry(1), entry(1)]);
    let mut out: Vec<Action> = Vec::new();
    let args = InstallSnapshotArgs {
        term: 3,
        leader_id: 1,
        last_included_index: 7,
        last_included_term: 2,
        data: vec![1, 2, 3],
    };
    let reply = n.handle_install_snapshot(args, &mut out);
    assert_eq!(reply.last_included_index, 7);
    assert_eq!(n.last_included_index, 7);
    assert_eq!(n.last_included_term, 2);
    assert_eq!(n.commit_index, 7);
    assert_eq!(n.last_applied, 7);
    assert_eq!(terms(&n), vec![2]);
}

#[test]
fn being_told_starts_an_election() {
    let mut n = node(0, 3);
    let mut out: Vec<Action> = Vec::new();
    n.current_term = 3;
    let reply = n.handle_rpc(
        RpcMessage::TimeoutNow(TimeoutNowArgs { term: 3, sender_id: 1 }),
        &mut out,
    );
    match reply {
        RpcMessage::TimeoutNowResponse(r) => assert!(r.success),
        other => panic!("Expected an answer, got {:?}", other),
    }
    let reply = n.handle_rpc(
        RpcMessage::TimeoutNow(TimeoutNowArgs { term: 2, sender_id: 1 }),
        &mut out,
    );
    match reply {
        RpcMessage::TimeoutNowResponse(r) => assert!(!r.success),
        other => panic!("Expected an answer, got {:?}", other),
    }
}

#[test]
fn servers_are_added_by_joint_consensus() {
    let mut n = leader(3, vec![]);
    let mut out: Vec<Action> = Vec::new();
    let mut servers = HashMap::new();
    servers.insert(3, "node3".to_string());
    assert!(n.handle_add_servers_request(servers.clone()).is_ok());
    assert!(matches!(n.config_change_state, ConfigChangeState::AddingServers { .. }));
    assert!(n.handle_add_servers_request(servers).is_err());
    assert!(n.promote_non_voting_members(&mut out).is_ok());
    assert!(matches!(n.config_change_state, ConfigChangeState::InJointConsensus { .. }));
}

#[test]
fn time_passes_for_a_follower() {
    let mut n = node(0, 3);
    let mut out: Vec<Action> = Vec::new();
    assert!(n.tick_with(100, 2000, &mut out).is_ok());
    assert_eq!(n.role, Role::Follower);
    assert!(n.tick_with(1500, 2000, &mut out).is_ok());
    assert_eq!(n.role, Role::Follower);
    assert!(n.tick_with(1501, 2000, &mut out).is_ok());
    assert_eq!(n.role, Role::Candidate);
    assert_eq!(n.current_term, 1);
}

#[test]
fn saved_state_is_found_again() {
    let peers = vec!["node1".to_string(), "node2".to_string()];
    let saved = SavedState {
        term: Some(vec![0, 0, 0, 0, 0, 0, 1, 2]),
        vote: Some(vec![0, 0, 0, 0, 0, 0, 0, 1]),
        snapshot: Some((10, 3)),
        entries: vec![entry(3), entry(4)],
        config: None,
        change: None,
    };
    let n = RaftNode::new(0, peers, "node0".to_string(), saved);
    assert_eq!(n.current_term, 258);
    assert_eq!(n.voted_for, Some(1));
    assert_eq!(n.last_included_index, 10);
    assert_eq!(n.commit_index, 10);
    assert_eq!(terms(&n), vec![3, 3, 4]);
}

#[test]
fn servers_are_removed_by_joint_consensus() {
    let mut n = leader(3, vec![]);
    let mut out: Vec<Action> = Vec::new();
    assert_eq!(
        n.handle_remove_servers_request(vec![], &mut out).unwrap_err(),
        "No servers to remove"
    );
    assert_eq!(
        n.handle_remove_servers_request(vec![0, 1, 2], &mut out).unwrap_err(),
        "Cannot remove all servers"
    );
    assert_eq!(
        n.handle_remove_servers_request(vec![0, 1, 2, 3, 4], &mut out).unwrap_err(),
        "Cannot remove all servers"
    );
    assert_eq!(
        n.handle_remove_servers_request(vec![2], &mut out).unwrap(),
        RemoveStep::Joint
    );
    assert!(matches!(n.config_change_state, ConfigChangeState::InJointConsensus { .. }));
    let mut n = leader(3, vec![]);
    match n.handle_remove_servers_request(vec![0], &mut out).unwrap() {
        RemoveStep::Transfer { target } => assert!(target == 1 || target == 2),
        other => panic!("Expected a transfer, got {:?}", other),
    }
    out.clear();
    assert_eq!(
        n.initiate_leader_transfer(9, 0, &mut out).unwrap_err(),
        "Target server 9 not found in cluster"
    );
    assert_eq!(n.initiate_leader_transfer(1, 0, &mut out).unwrap(), TransferStep::Wait);
    let term = n.current_term;
    n.handle_append_response(ack(term, 1, 1), &mut out);
    assert_eq!(n.initiate_leader_transfer(1, 1, &mut out).unwrap(), TransferStep::Done);
    assert_eq!(n.role, Role::Follower);
    assert!(out.iter().any(|a| matches!(a, Action::SendTimeoutNow { .. })));
}

/// Delivers what a node sends, and the answers to it, while both are up.
fn deliver(nodes: &mut Vec<RaftNode>, down: &[usize], from: usize, sent: Vec<Action>) {
    for action in sent {
        let (peer, msg) = match action {
            Action::SendVote { peer, args } => (peer, RpcMessage::RequestVote(args)),
            Action::SendAppend { peer, args } => (peer, RpcMessage::AppendEntries(args)),
            _ => continue,
        };
        let to = (0..nodes.len()).find(|&i| format!("node{}", i) == peer).unwrap();
        if down.contains(&to) || down.contains(&from) {
            continue;
        }
        let mut out: Vec<Action> = Vec::new();
        let reply = nodes[to].handle_rpc(msg, &mut out);
        let mut more: Vec<Action> = Vec::new();
        nodes[from].handle_rpc(reply, &mut more);
        deliver(nodes, down, from, more);
    }
}

fn turn(nodes: &mut Vec<RaftNode>, down: &[usize], who: usize, elapsed_ms: u64) {
    let mut out: Vec<Action> = Vec::new();
    nodes[who].tick_with(elapsed_ms, 2000, &mut out).unwrap();
    deliver(nodes, down, who, out);
}

#[test]
fn committed_entries_survive_crashes_and_elections() {
    let mut nodes: Vec<RaftNode> = (0..3).map(|i| node(i, 3)).collect();
    turn(&mut nodes, &[], 0, 2500);
    assert_eq!(nodes[0].role, Role::Leader);
    let mut out: Vec<Action> = Vec::new();
    nodes[0].propose(Command::NoOp, &mut out);
    turn(&mut nodes, &[2], 0, 0);
    assert_eq!(nodes[0].commit_index, 2);
    // An entry that reaches no one else is not committed.
    nodes[0].propose(Command::NoOp, &mut out);
    turn(&mut nodes, &[1, 2], 0, 0);
    assert_eq!(nodes[0].commit_index, 2);

    // Node 1 comes back with what it saved.
    let mut entries: Vec<LogEntry> = Vec::new();
    for e in nodes[1].log.iter().skip(1) {
        entries.push(entry(e.term));
    }
    let saved = SavedState {
        term: Some(nodes[1].current_term.to_be_bytes().to_vec()),
        vote: nodes[1].voted_for.map(|v| (v as u64).to_be_bytes().to_vec()),
        snapshot: None,
        entries,
        config: Some(config(3)),
        change: None,
    };
    let peers = vec!["node0".to_string(), "node2".to_string()];
    let mut back = RaftNode::new_with(1, peers, "node1".to_string(), saved, 1500);
    back.start();
    assert_eq!(terms(&back), terms(&nodes[1]));
    assert_eq!(back.current_term, nodes[1].current_term);
    assert_eq!(back.voted_for, Some(0));
    assert_eq!(back.commit_index, 0);
    nodes[1] = back;

    // Without node 0, node 2 cannot win: it lacks what is committed.
    turn(&mut nodes, &[0], 2, 2500);
    assert_eq!(nodes[2].role, Role::Candidate);
    turn(&mut nodes, &[0], 1, 2500);
    turn(&mut nodes, &[0], 1, 2500);
    assert_eq!(nodes[1].role, Role::Leader);
    let new_term = nodes[1].current_term;
    for _ in 0..6 {
        turn(&mut nodes, &[0], 1, 0);
    }
    assert_eq!(terms(&nodes[1]), vec![0, 1, 1, new_term]);
    assert_eq!(terms(&nodes[2]), terms(&nodes[1]));
    assert_eq!(nodes[1].commit_index, 3);

    // Node 0 gives up what was never committed.
    for _ in 0..6 {
        turn(&mut nodes, &[], 1, 0);
    }
    assert_eq!(nodes[0].role, Role::Follower);
    assert_eq!(terms(&nodes[0]), terms(&nodes[1]));
    assert_eq!(nodes[0].commit_index, 3);
    assert_eq!(nodes[2].commit_index, 3);
}

#[test]
fn a_leader_alone_commits_at_once() {
    let mut n = node(0, 1);
    let mut out: Vec<Action> = Vec::new();
    n.tick_with(2500, 2000, &mut out).unwrap();
    assert_eq!(n.role, Role::Leader);
    assert_eq!(n.commit_index, 1);
    n.propose(Command::NoOp, &mut out);
    assert_eq!(n.commit_index, 2);
    assert_eq!(n.last_applied, 2);
    let applied = out.iter().filter(|a| matches!(a, Action::Apply { .. })).count();
    assert_eq!(applied, 2);
}
