//! The state of a Raft node, the messages it exchanges and the work it asks
//! its surroundings to do.

use crate::raft::command::{Command, CommandView, EntryView, LogEntry};
use crate::raft::config::{
    CatchUpProgress, ChangeView, ClusterConfiguration, ConfigChangeState, ConfigView, Role,
    ServerRole,
};
use std::collections::{HashMap, HashSet};
use vstd::prelude::*;

verus! {

broadcast use vstd::std_specs::hash::group_hash_axioms;

/// A serialized state machine and the log position it covers.
#[derive(Debug, Clone)]
pub struct Snapshot {
    pub last_included_index: usize,
    pub last_included_term: u64,
    pub data: Vec<u8>,
}

/// RPC to trigger immediate leader transfer
#[derive(Debug, Clone, Copy, PartialEq, Eq, Structural)]
pub struct TimeoutNowArgs {
    pub term: u64,
    pub sender_id: usize,
}

#[derive(Debug, Clone, Copy, PartialEq, Eq, Structural)]
pub struct TimeoutNowReply {
    pub term: u64,
    pub success: bool,
}

#[derive(Debug, Clone, Copy, PartialEq, Eq, Structural)]
pub struct RequestVoteArgs {
    pub term: u64,
    pub candidate_id: usize,
    pub last_log_index: usize,
    pub last_log_term: u64,
}

#[derive(Debug, Clone, Copy, PartialEq, Eq, Structural)]
pub struct RequestVoteReply {
    pub term: u64,
    pub vote_granted: bool,
    pub peer_id: usize,
}

#[derive(Debug)]
pub struct AppendEntriesArgs {
    pub term: u64,
    pub leader_id: usize,
    pub prev_log_index: usize,
    pub prev_log_term: u64,
    pub entries: Vec<LogEntry>,
    pub leader_commit: usize,
    pub leader_address: String,
}

#[derive(Debug, Clone, Copy, PartialEq, Eq, Structural)]
pub struct AppendEntriesReply {
    pub term: u64,
    pub success: bool,
    pub match_index: usize,
    pub peer_id: usize,
}

#[derive(Debug, Clone)]
pub struct InstallSnapshotArgs {
    pub term: u64,
    pub leader_id: usize,
    pub last_included_index: usize,
    pub last_included_term: u64,
    pub data: Vec<u8>,
}

#[derive(Debug, Clone, Copy, PartialEq, Eq, Structural)]
pub struct InstallSnapshotReply {
    pub term: u64,
    pub last_included_index: usize,
    pub peer_id: usize,
}

/// A Raft message.
#[derive(Debug)]
pub enum RpcMessage {
    RequestVote(RequestVoteArgs),
    RequestVoteResponse(RequestVoteReply),
    AppendEntries(AppendEntriesArgs),
    AppendEntriesResponse(AppendEntriesReply),
    InstallSnapshot(InstallSnapshotArgs),
    InstallSnapshotResponse(InstallSnapshotReply),
    TimeoutNow(TimeoutNowArgs),
    TimeoutNowResponse(TimeoutNowReply),
}

/// What a request to append entries stands for.
#[verifier::ext_equal]
pub struct AppendView {
    pub term: u64,
    pub leader_id: usize,
    pub prev_log_index: usize,
    pub prev_log_term: u64,
    pub entries: Seq<EntryView>,
    pub leader_commit: usize,
    pub leader_address: Seq<char>,
}

impl View for AppendEntriesArgs {
    type V = AppendView;

    open spec fn view(&self) -> AppendView {
        AppendView {
            term: self.term,
            leader_id: self.leader_id,
            prev_log_index: self.prev_log_index,
            prev_log_term: self.prev_log_term,
            entries: self.entries.deep_view(),
            leader_commit: self.leader_commit,
            leader_address: self.leader_address@,
        }
    }
}

/// A linearizable read that waits for a majority and for the state machine.
/// `request` tells the surroundings whom to answer.
#[derive(Debug)]
pub struct ReadIndexRequest {
    pub read_index: usize,
    pub term: u64,
    pub acks: HashSet<usize>,
    pub majority_confirmed: bool,
    pub request: u64,
}

/// What a waiting read stands for.
pub struct ReadView {
    pub read_index: usize,
    pub term: u64,
    pub acks: Set<usize>,
    pub majority_confirmed: bool,
    pub request: u64,
}

impl View for ReadIndexRequest {
    type V = ReadView;

    open spec fn view(&self) -> ReadView {
        ReadView {
            read_index: self.read_index,
            term: self.term,
            acks: self.acks@,
            majority_confirmed: self.majority_confirmed,
            request: self.request,
        }
    }
}

impl DeepView for ReadIndexRequest {
    type V = ReadView;

    open spec fn deep_view(&self) -> ReadView {
        self.view()
    }
}

/// Work that a node asks its surroundings to do, in order: durable writes,
/// messages, and commands for the state machine.
#[allow(inconsistent_fields)]
#[derive(Debug)]
pub enum Action {
    /// Persist the current term
    SaveTerm { term: u64 },
    /// Persist the vote of the current term, or that there is none
    SaveVote { vote: Option<usize> },
    /// Persist an entry at its position in the log
    SaveEntry { index: usize, entry: LogEntry },
    /// Erase the persisted entries at and after a position
    EraseFrom { index: usize },
    /// Persist the cluster configuration and the change in progress
    SaveConfig,
    /// Persist the serialized state machine as a snapshot up to `index`, then
    /// erase the persisted entries from `erase_from` to `index`
    SaveSnapshot { index: usize, term: u64, erase_from: usize },
    /// Persist and restore a received snapshot, then erase the persisted
    /// entries from `erase_from` to its position
    RestoreSnapshot { snapshot: Snapshot, erase_from: usize },
    /// Start the election timer anew
    ResetElectionTimer,
    /// Send a vote request to a peer
    SendVote { peer: String, args: RequestVoteArgs },
    /// Send entries (or a heartbeat) to a peer
    SendAppend { peer: String, args: AppendEntriesArgs },
    /// Send the serialized state machine to a peer as a snapshot
    SendSnapshot {
        peer: String,
        term: u64,
        leader_id: usize,
        last_included_index: usize,
        last_included_term: u64,
    },
    /// Ask a peer to start an election
    SendTimeoutNow { peer: String, args: TimeoutNowArgs },
    /// Apply a committed command to the state machine
    Apply { command: Command },
    /// Answer a linearizable read
    ReadReady { request: u64, read_index: usize },
}

/// What an action stands for.
#[allow(inconsistent_fields)]
pub enum ActionView {
    SaveTerm { term: u64 },
    SaveVote { vote: Option<usize> },
    SaveEntry { index: usize, entry: EntryView },
    EraseFrom { index: usize },
    SaveConfig,
    SaveSnapshot { index: usize, term: u64, erase_from: usize },
    RestoreSnapshot { index: usize, term: u64, data: Seq<u8>, erase_from: usize },
    ResetElectionTimer,
    SendVote { peer: Seq<char>, args: RequestVoteArgs },
    SendAppend { peer: Seq<char>, args: AppendView },
    SendSnapshot {
        peer: Seq<char>,
        term: u64,
        leader_id: usize,
        last_included_index: usize,
        last_included_term: u64,
    },
    SendTimeoutNow { peer: Seq<char>, args: TimeoutNowArgs },
    Apply { command: CommandView },
    ReadReady { request: u64, read_index: usize },
}

impl View for Action {
    type V = ActionView;

    open spec fn view(&self) -> ActionView {
        match self {
            Action::SaveTerm { term } => ActionView::SaveTerm { term: *term },
            Action::SaveVote { vote } => ActionView::SaveVote { vote: *vote },
            Action::SaveEntry { index, entry } => ActionView::SaveEntry {
                index: *index,
                entry: entry@,
            },
            Action::EraseFrom { index } => ActionView::EraseFrom { index: *index },
            Action::SaveConfig => ActionView::SaveConfig,
            Action::SaveSnapshot { index, term, erase_from } => ActionView::SaveSnapshot {
                index: *index,
                term: *term,
                erase_from: *erase_from,
            },
            Action::RestoreSnapshot { snapshot, erase_from } => ActionView::RestoreSnapshot {
                index: snapshot.last_included_index,
                term: snapshot.last_included_term,
                data: snapshot.data@,
                erase_from: *erase_from,
            },
            Action::ResetElectionTimer => ActionView::ResetElectionTimer,
            Action::SendVote { peer, args } => ActionView::SendVote { peer: peer@, args: *args },
            Action::SendAppend { peer, args } => ActionView::SendAppend {
                peer: peer@,
                args: args@,
            },
            Action::SendSnapshot {
                peer,
                term,
                leader_id,
                last_included_index,
                last_included_term,
            } => ActionView::SendSnapshot {
                peer: peer@,
                term: *term,
                leader_id: *leader_id,
                last_included_index: *last_included_index,
                last_included_term: *last_included_term,
            },
            Action::SendTimeoutNow { peer, args } => ActionView::SendTimeoutNow {
                peer: peer@,
                args: *args,
            },
            Action::Apply { command } => ActionView::Apply { command: command@ },
            Action::ReadReady { request, read_index } => ActionView::ReadReady {
                request: *request,
                read_index: *read_index,
            },
        }
    }
}

impl DeepView for Action {
    type V = ActionView;

    open spec fn deep_view(&self) -> ActionView {
        self.view()
    }
}

/// A single Raft consensus node.
#[derive(Debug)]
pub struct RaftNode {
    /// Unique identifier for this node in the cluster (0-indexed).
    pub id: usize,
    /// HTTP addresses of peer nodes for RPC communication.
    pub peers: Vec<String>,
    /// Address advertised to clients for redirection hints.
    pub client_address: String,
    /// Current role in the Raft cluster.
    pub role: Role,
    /// Latest term this server has seen (persisted to disk).
    pub current_term: u64,
    /// Candidate ID that received our vote in current term (persisted).
    pub voted_for: Option<usize>,
    /// Log entries; first entry is dummy (index 0 = last_included_index).
    pub log: Vec<LogEntry>,
    /// Index of highest log entry known to be committed.
    pub commit_index: usize,
    /// Index of highest log entry applied to state machine.
    pub last_applied: usize,
    /// For each peer: index of next log entry to send (leader only).
    pub next_index: Vec<usize>,
    /// For each peer: index of highest log entry known to be replicated (leader only).
    pub match_index: Vec<usize>,
    /// ID of the current leader (if known).
    pub current_leader: Option<usize>,
    /// Address of the current leader (for client redirection).
    pub current_leader_address: Option<String>,
    /// Index of the last log entry included in the most recent snapshot.
    pub last_included_index: usize,
    /// Term of the last log entry included in the most recent snapshot.
    pub last_included_term: u64,
    /// Randomized election timeout, in milliseconds.
    pub election_timeout_ms: u64,
    /// Number of votes received in the current election (candidate only).
    pub votes_received: usize,
    /// IDs of servers that voted for us in current election (for joint consensus).
    pub voters: HashSet<usize>,
    /// Pending ReadIndex requests awaiting majority confirmation.
    pub pending_read_indices: Vec<ReadIndexRequest>,
    /// Current cluster configuration (Simple or Joint consensus).
    pub cluster_config: ClusterConfiguration,
    /// Server roles (voting vs non-voting).
    pub server_roles: HashMap<usize, ServerRole>,
    /// Current configuration change state.
    pub config_change_state: ConfigChangeState,
    /// Non-voting members being added (for catch-up).
    pub non_voting_members: HashMap<usize, String>,
    /// Catch-up progress tracking for non-voting members.
    pub catch_up_progress: HashMap<usize, CatchUpProgress>,
    /// Last committed configuration index (to prevent concurrent changes).
    pub last_committed_config_index: usize,
    /// Monotonic time counter (for tracking timeouts and progress).
    pub monotonic_time: u64,
}

/// What a node stands for.
#[verifier::ext_equal]
pub struct NodeView {
    pub id: usize,
    pub peers: Seq<Seq<char>>,
    pub client_address: Seq<char>,
    pub role: Role,
    pub current_term: u64,
    pub voted_for: Option<usize>,
    pub log: Seq<EntryView>,
    pub commit_index: usize,
    pub last_applied: usize,
    pub next_index: Seq<usize>,
    pub match_index: Seq<usize>,
    pub current_leader: Option<usize>,
    pub current_leader_address: Option<Seq<char>>,
    pub last_included_index: usize,
    pub last_included_term: u64,
    pub election_timeout_ms: u64,
    pub votes_received: usize,
    pub voters: Set<usize>,
    pub reads: Seq<ReadView>,
    pub config: ConfigView,
    pub server_roles: Map<usize, ServerRole>,
    pub change: ChangeView,
    pub non_voting: Map<usize, String>,
    pub catch_up: Map<usize, CatchUpProgress>,
    pub last_committed_config_index: usize,
    pub monotonic_time: u64,
}

impl View for RaftNode {
    type V = NodeView;

    open spec fn view(&self) -> NodeView {
        NodeView {
            id: self.id,
            peers: self.peers.deep_view(),
            client_address: self.client_address@,
            role: self.role,
            current_term: self.current_term,
            voted_for: self.voted_for,
            log: self.log.deep_view(),
            commit_index: self.commit_index,
            last_applied: self.last_applied,
            next_index: self.next_index@,
            match_index: self.match_index@,
            current_leader: self.current_leader,
            current_leader_address: self.current_leader_address.deep_view(),
            last_included_index: self.last_included_index,
            last_included_term: self.last_included_term,
            election_timeout_ms: self.election_timeout_ms,
            votes_received: self.votes_received,
            voters: self.voters@,
            reads: self.pending_read_indices.deep_view(),
            config: self.cluster_config@,
            server_roles: self.server_roles@,
            change: self.config_change_state@,
            non_voting: self.non_voting_members@,
            catch_up: self.catch_up_progress@,
            last_committed_config_index: self.last_committed_config_index,
            monotonic_time: self.monotonic_time,
        }
    }
}

impl NodeView {
    /// What holds of every node, whatever messages reach it.
    pub open spec fn wf(self) -> bool {
        &&& self.log.len() >= 1
        &&& self.last_included_index + self.log.len() <= usize::MAX
        &&& self.log[0].term == self.last_included_term
        &&& self.last_included_index <= self.last_applied
        &&& self.last_included_index <= self.commit_index
        &&& self.next_index.len() == self.match_index.len()
        &&& self.next_index.len() >= self.peers.len()
        &&& 1500 <= self.election_timeout_ms < 3000
        &&& forall|k: usize| #[trigger] self.catch_up.contains_key(k) ==> self.catch_up[k].wf()
    }

    /// Everything applied is committed, and everything committed is in the log.
    pub open spec fn sane(self) -> bool {
        self.last_applied <= self.commit_index <= self.last_index()
    }

    /// A leader tracks no peer beyond the end of its log.
    pub open spec fn followed(self) -> bool {
        self.role == Role::Leader ==> forall|i: int|
            0 <= i < self.next_index.len() ==> (#[trigger] self.next_index[i])
                <= self.last_included_index + self.log.len()
    }

    /// Room for `n` more entries below the largest index.
    pub open spec fn room(self, n: int) -> bool {
        self.last_included_index + self.log.len() + n <= usize::MAX
    }

    /// Index of the last entry.
    pub open spec fn last_index(self) -> int {
        self.last_included_index + self.log.len() - 1
    }

    /// Term of the last entry.
    pub open spec fn last_term(self) -> u64 {
        self.log.last().term
    }

    /// The log holds an entry (or the snapshot point) at `index`.
    pub open spec fn holds(self, index: int) -> bool {
        self.last_included_index <= index <= self.last_index()
    }

    /// The entry at `index`.
    pub open spec fn entry(self, index: int) -> EntryView {
        self.log[index - self.last_included_index]
    }
}

} // verus!
