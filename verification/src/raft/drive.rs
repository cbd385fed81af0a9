//! The life of a node: starting from what was persisted, the passing of time,
//! messages and requests.

use crate::bytes::{be_value, from_be};
use crate::raft::apply::read_answers;
use crate::raft::command::{text_option_dup, Command, CommandView, LogEntry};
use crate::raft::config::{
    ChangeView, ClusterConfiguration, ConfigChangeState, ConfigView, Role, ServerRole,
};
use crate::raft::election::election_timeout;
use crate::raft::membership::map_ids;
use crate::raft::node::{
    Action, ActionView, AppendEntriesReply, AppendView, InstallSnapshotReply, NodeView, RaftNode,
    ReadIndexRequest, ReadView, RequestVoteArgs, RequestVoteReply, RpcMessage, TimeoutNowArgs,
    TimeoutNowReply,
};
use crate::raft::snapshot::{snapshot_entry, InstallView};
use crate::strmap::Dup;
use crate::text::{concat, decimal, decimal_text};
use std::collections::{HashMap, HashSet};
use vstd::prelude::*;

verus! {

broadcast use vstd::std_specs::hash::group_hash_axioms;

/// What a node finds on disk when it starts.
#[derive(Debug)]
pub struct SavedState {
    /// The bytes of the term
    pub term: Option<Vec<u8>>,
    /// The bytes of the vote
    pub vote: Option<Vec<u8>>,
    /// Index and term of the snapshot
    pub snapshot: Option<(usize, u64)>,
    /// The entries that follow the snapshot without a gap
    pub entries: Vec<LogEntry>,
    /// The cluster configuration
    pub config: Option<ClusterConfiguration>,
    /// The configuration change in progress
    pub change: Option<ConfigChangeState>,
}

/// The key under which the entry at `index` is persisted.
pub fn log_key(index: usize) -> (r: String)
    ensures
        r@ == "log:"@ + decimal(index as nat),
{
    let n = decimal_text(index as u64);
    concat("log:", n.as_str())
}

/// The term that persisted bytes stand for; 0 where they are missing or
/// damaged.
pub open spec fn saved_term(bytes: Option<Seq<u8>>) -> u64 {
    match bytes {
        Some(b) => if b.len() == 8 {
            be_value(b) as u64
        } else {
            0
        },
        None => 0,
    }
}

/// The vote that persisted bytes stand for; none where they are missing or
/// damaged.
pub open spec fn saved_vote(bytes: Option<Seq<u8>>) -> Option<usize> {
    match bytes {
        Some(b) => if b.len() == 8 && be_value(b) <= usize::MAX {
            Some(be_value(b) as usize)
        } else {
            None
        },
        None => None,
    }
}

/// The bytes that are there, if any.
pub open spec fn bytes_view(o: Option<Vec<u8>>) -> Option<Seq<u8>> {
    match o {
        Some(v) => Some(v@),
        None => None,
    }
}

/// The id of the peer at position `k`: peers are numbered in order, and the
/// node's own id is left out.
pub open spec fn peer_id(id: usize, k: int) -> int {
    if k < id {
        k
    } else {
        k + 1
    }
}

/// The members that a node knows of when it starts for the first time: itself
/// under its id, and all of its peers.
pub open spec fn initial_members(id: usize, peers: Seq<String>, own: String) -> Map<usize, String> {
    Map::new(
        |k: usize| if k < id {
            k < peers.len()
        } else {
            k <= peers.len()
        },
        |k: usize| if k < id {
            peers[k as int]
        } else {
            peers[k - 1]
        },
    ).insert(id, own)
}

/// A node that starts for the first time knows every peer.
pub proof fn law_peers_are_members(id: usize, peers: Seq<String>, own: String, k: int)
    requires
        0 <= k < peers.len() < usize::MAX,
    ensures
        initial_members(id, peers, own).contains_key(peer_id(id, k) as usize),
        initial_members(id, peers, own)[peer_id(id, k) as usize] == peers[k],
        initial_members(id, peers, own)[id] == own,
{
}

/// The configuration with which a node starts: the saved one, unless it is
/// missing or has no members.
pub open spec fn initial_config(
    saved: Option<ConfigView>,
    id: usize,
    peers: Seq<String>,
    own: String,
) -> ConfigView {
    let fresh = ConfigView::Simple { members: initial_members(id, peers, own), version: 0 };
    match saved {
        None => fresh,
        Some(ConfigView::Simple { members, version }) => if members =~= Map::empty() {
            fresh
        } else {
            ConfigView::Simple { members, version }
        },
        Some(c) => c,
    }
}

/// What the saved configuration stands for.
pub open spec fn config_view(o: Option<ClusterConfiguration>) -> Option<ConfigView> {
    match o {
        Some(c) => Some(c@),
        None => None,
    }
}

/// What the saved configuration change stands for.
pub open spec fn change_view(o: Option<ConfigChangeState>) -> ChangeView {
    match o {
        Some(c) => c@,
        None => ChangeView::Idle,
    }
}

/// A node as it starts.
pub open spec fn initial_node(
    id: usize,
    peers: Seq<String>,
    own: String,
    saved: SavedState,
    timeout_ms: u64,
) -> NodeView {
    let (index, term) = match saved.snapshot {
        Some(m) => m,
        None => (0usize, 0u64),
    };
    let config = initial_config(config_view(saved.config), id, peers, own);
    NodeView {
        id,
        peers: peers.map_values(|p: String| p@),
        client_address: own@,
        role: Role::Follower,
        current_term: saved_term(bytes_view(saved.term)),
        voted_for: saved_vote(bytes_view(saved.vote)),
        log: seq![snapshot_entry(term)] + saved.entries.deep_view(),
        commit_index: index,
        last_applied: index,
        next_index: Seq::empty(),
        match_index: Seq::empty(),
        current_leader: None,
        current_leader_address: None,
        last_included_index: index,
        last_included_term: term,
        election_timeout_ms: timeout_ms,
        votes_received: 0,
        voters: Set::empty(),
        reads: Seq::empty(),
        config,
        server_roles: config.everyone().map_values(|a: String| ServerRole::Voting),
        change: change_view(saved.change),
        non_voting: Map::empty(),
        catch_up: Map::empty(),
        last_committed_config_index: 0,
        monotonic_time: 0,
    }
}

/// Log length above which the log is compacted.
pub const SNAPSHOT_THRESHOLD: usize = 100;

/// A request for the Raft node. `request` tells the surroundings whom to
/// answer a linearizable read.
#[derive(Debug)]
pub enum Event {
    Rpc { msg: RpcMessage },
    ClientRequest { command: Command },
    GetLeaderInfo,
    GetClusterInfo,
    GetReadIndex { request: u64 },
}

/// Information about the Raft cluster state
#[derive(Debug)]
pub struct ClusterInfo {
    pub node_id: usize,
    pub role: Role,
    pub current_term: u64,
    pub leader_id: Option<usize>,
    pub leader_address: Option<String>,
    pub peers: Vec<String>,
    pub commit_index: usize,
    pub last_applied: usize,
    pub log_len: usize,
    pub votes_received: usize,
    pub cluster_config: ClusterConfiguration,
    pub config_change_state: ConfigChangeState,
}

/// The answer to a request. A node that does not lead answers with the
/// address of the leader, if it knows one.
#[derive(Debug)]
pub enum EventReply {
    Rpc { msg: RpcMessage },
    Accepted,
    NotLeader { leader_address: Option<String> },
    LeaderInfo { leader_address: Option<String> },
    ClusterInfo { info: ClusterInfo },
    /// The read is answered later
    Pending,
}

/// What a message stands for.
pub enum RpcView {
    RequestVote(RequestVoteArgs),
    RequestVoteResponse(RequestVoteReply),
    AppendEntries(AppendView),
    AppendEntriesResponse(AppendEntriesReply),
    InstallSnapshot(InstallView),
    InstallSnapshotResponse(InstallSnapshotReply),
    TimeoutNow(TimeoutNowArgs),
    TimeoutNowResponse(TimeoutNowReply),
}

impl View for RpcMessage {
    type V = RpcView;

    open spec fn view(&self) -> RpcView {
        match self {
            RpcMessage::RequestVote(a) => RpcView::RequestVote(*a),
            RpcMessage::RequestVoteResponse(r) => RpcView::RequestVoteResponse(*r),
            RpcMessage::AppendEntries(a) => RpcView::AppendEntries(a@),
            RpcMessage::AppendEntriesResponse(r) => RpcView::AppendEntriesResponse(*r),
            RpcMessage::InstallSnapshot(a) => RpcView::InstallSnapshot(a@),
            RpcMessage::InstallSnapshotResponse(r) => RpcView::InstallSnapshotResponse(*r),
            RpcMessage::TimeoutNow(a) => RpcView::TimeoutNow(*a),
            RpcMessage::TimeoutNowResponse(r) => RpcView::TimeoutNowResponse(*r),
        }
    }
}

impl NodeView {
    /// Indexes and counters of the message stay within the machine's limits.
    pub open spec fn fits(self, msg: RpcView) -> bool {
        match msg {
            RpcView::RequestVote(a) => true,
            RpcView::RequestVoteResponse(r) => self.room(1) && (self.counts(r)
                && !self.voters.contains(r.peer_id) ==> self.votes_received < usize::MAX),
            RpcView::AppendEntries(a) => self.room(a.entries.len() as int),
            RpcView::AppendEntriesResponse(r) => r.match_index < usize::MAX,
            RpcView::InstallSnapshot(a) => a.last_included_index < usize::MAX,
            RpcView::InstallSnapshotResponse(r) => r.last_included_index < usize::MAX,
            RpcView::TimeoutNow(a) => a.term < u64::MAX || a.term < self.current_term,
            RpcView::TimeoutNowResponse(r) => true,
        }
    }

    /// A message that an honest member could have sent: it replaces nothing
    /// committed, and acknowledges nothing that is not in the log.
    pub open spec fn honest(self, msg: RpcView) -> bool {
        match msg {
            RpcView::AppendEntries(a) => !self.overwrites_committed(a),
            RpcView::AppendEntriesResponse(r) => r.success ==> r.match_index <= self.last_index(),
            RpcView::InstallSnapshotResponse(r) => r.last_included_index <= self.last_index(),
            _ => true,
        }
    }

    /// The node after a message.
    pub open spec fn heard(self, msg: RpcView) -> NodeView {
        match msg {
            RpcView::RequestVote(a) => self.voted(a),
            RpcView::RequestVoteResponse(r) => self.vote_counted(r),
            RpcView::AppendEntries(a) => self.appended(a),
            RpcView::AppendEntriesResponse(r) => self.append_answered(r),
            RpcView::InstallSnapshot(a) => self.installed(a),
            RpcView::InstallSnapshotResponse(r) => self.snapshot_answered(r),
            RpcView::TimeoutNow(a) => self.timed_out_now(a),
            RpcView::TimeoutNowResponse(r) => self,
        }
    }

    /// What a message asks for.
    pub open spec fn heard_actions(self, msg: RpcView) -> Seq<ActionView> {
        match msg {
            RpcView::RequestVote(a) => self.vote_actions(a),
            RpcView::RequestVoteResponse(r) => self.vote_count_actions(r),
            RpcView::AppendEntries(a) => self.append_actions(a),
            RpcView::AppendEntriesResponse(r) => self.append_answer_actions(r),
            RpcView::InstallSnapshot(a) => self.install_actions(a),
            RpcView::InstallSnapshotResponse(r) => self.snapshot_answer_actions(r),
            RpcView::TimeoutNow(a) => self.timeout_now_actions(a),
            RpcView::TimeoutNowResponse(r) => Seq::empty(),
        }
    }

    /// The answer to a message; an answer is handed back as it came.
    pub open spec fn reply_to(self, msg: RpcView) -> RpcView {
        match msg {
            RpcView::RequestVote(a) => RpcView::RequestVoteResponse(
                RequestVoteReply {
                    term: self.voted(a).current_term,
                    vote_granted: self.grants(a),
                    peer_id: self.id,
                },
            ),
            RpcView::AppendEntries(a) => RpcView::AppendEntriesResponse(
                AppendEntriesReply {
                    term: self.appended(a).current_term,
                    success: self.accepts(a),
                    match_index: self.append_match(a) as usize,
                    peer_id: self.id,
                },
            ),
            RpcView::InstallSnapshot(a) => RpcView::InstallSnapshotResponse(
                InstallSnapshotReply {
                    term: self.installed(a).current_term,
                    last_included_index: self.installed(a).last_included_index,
                    peer_id: self.id,
                },
            ),
            RpcView::TimeoutNow(a) => RpcView::TimeoutNowResponse(
                TimeoutNowReply {
                    term: self.timed_out_now(a).current_term,
                    success: a.term >= self.current_term,
                },
            ),
            other => other,
        }
    }

    /// The leader after it took a command: without peers it commits at once.
    pub open spec fn proposed(self, command: CommandView) -> NodeView {
        let n = self.with_command(command);
        if n.peers.len() == 0 && n.last_index() > n.commit_index {
            NodeView { commit_index: n.last_index() as usize, ..n }.applied()
        } else {
            n
        }
    }

    /// What taking a command asks for.
    pub open spec fn proposed_actions(self, command: CommandView) -> Seq<ActionView> {
        let n = self.with_command(command);
        if n.peers.len() == 0 && n.last_index() > n.commit_index {
            seq![n.save_last()] + NodeView {
                commit_index: n.last_index() as usize,
                ..n
            }.applied_actions()
        } else {
            seq![n.save_last()]
        }
    }

    /// A read that arrives now: it may see everything committed so far.
    pub open spec fn new_read(self, request: u64) -> ReadView {
        let acks = Set::empty().insert(self.id);
        ReadView {
            read_index: self.commit_index,
            term: self.current_term,
            acks,
            majority_confirmed: self.config.decides(acks),
            request,
        }
    }

    /// The leader after a read arrived.
    pub open spec fn with_read(self, request: u64) -> NodeView {
        let n = NodeView { reads: self.reads.push(self.new_read(request)), ..self };
        if self.new_read(request).majority_confirmed {
            n.reads_checked()
        } else {
            n
        }
    }

    /// What a read asks for: an answer if it is ready, and heartbeats that
    /// confirm the leader.
    pub open spec fn read_actions(self, request: u64) -> Seq<ActionView> {
        let n = NodeView { reads: self.reads.push(self.new_read(request)), ..self };
        let now = if self.new_read(request).majority_confirmed {
            read_answers(n.reads, n.last_applied)
        } else {
            Seq::empty()
        };
        if self.peers.len() > 0 {
            now + self.with_read(request).heartbeats()
        } else {
            now
        }
    }

    /// The node a moment later.
    pub open spec fn later(self) -> NodeView {
        NodeView { monotonic_time: (self.monotonic_time + 1) as u64, ..self }
    }

    /// The members change while servers that caught up cannot be promoted.
    pub open spec fn stuck(self) -> bool {
        self.all_ready() && self.config is Joint
    }

    /// The leader after it looked at the membership change in progress.
    pub open spec fn tended(self) -> NodeView {
        let p = if self.all_ready() {
            self.promoted()
        } else {
            self
        };
        if p.finalizes() {
            p.finalizing()
        } else {
            p
        }
    }

    /// What looking at the membership change asks for.
    pub open spec fn tended_actions(self) -> Seq<ActionView> {
        let p = if self.all_ready() {
            self.promoted()
        } else {
            self
        };
        let first = if self.all_ready() {
            seq![p.save_last()]
        } else {
            Seq::empty()
        };
        if p.finalizes() {
            first.push(p.finalizing().save_last())
        } else {
            first
        }
    }

    /// The node after its role had its turn: a leader replicates and tends to
    /// membership, anyone else stands for election after `elapsed_ms` without
    /// word of a leader.
    pub open spec fn acted(self, elapsed_ms: u64, timeout_ms: u64) -> NodeView {
        if self.role == Role::Leader {
            self.tended()
        } else if elapsed_ms > self.election_timeout_ms {
            self.elected_with(timeout_ms)
        } else {
            self
        }
    }

    /// What the turn of the role asks for.
    pub open spec fn acted_actions(self, elapsed_ms: u64, timeout_ms: u64) -> Seq<ActionView> {
        if self.role == Role::Leader {
            self.heartbeats() + self.tended_actions()
        } else if elapsed_ms > self.election_timeout_ms {
            self.election_actions(timeout_ms)
        } else {
            Seq::empty()
        }
    }

    /// The log is long and a snapshot would shorten it.
    pub open spec fn overlong(self) -> bool {
        self.log.len() > SNAPSHOT_THRESHOLD && self.last_applied > self.last_included_index
    }

    /// The node after everything committed is applied and an overlong log is
    /// compacted.
    pub open spec fn settled(self) -> NodeView {
        if self.applied().overlong() {
            self.applied().compacted()
        } else {
            self.applied()
        }
    }

    /// What settling asks for.
    pub open spec fn settled_actions(self) -> Seq<ActionView> {
        if self.applied().overlong() {
            self.applied_actions().push(self.applied().compact_action())
        } else {
            self.applied_actions()
        }
    }

    /// The node can be compacted when its log grows overlong.
    pub open spec fn compactable(self) -> bool {
        self.sane() || self.log.len() + 2 <= SNAPSHOT_THRESHOLD
    }
}

fn decode_term(bytes: &Option<Vec<u8>>) -> (r: u64)
    ensures
        r == saved_term(bytes_view(*bytes)),
{
    match bytes {
        Some(b) => match from_be(b.as_slice()) {
            Some(v) => v,
            None => 0,
        },
        None => 0,
    }
}

fn decode_vote(bytes: &Option<Vec<u8>>) -> (r: Option<usize>)
    ensures
        r == saved_vote(bytes_view(*bytes)),
{
    match bytes {
        Some(b) => match from_be(b.as_slice()) {
            Some(v) => if v <= usize::MAX as u64 {
                Some(v as usize)
            } else {
                None
            },
            None => None,
        },
        None => None,
    }
}

fn first_config(
    saved: Option<ClusterConfiguration>,
    id: usize,
    peers: &Vec<String>,
    own: &String,
) -> (r: ClusterConfiguration)
    ensures
        r@ == initial_config(config_view(saved), id, peers@, *own),
{
    match saved {
        Some(c) => {
            let empty = match &c {
                ClusterConfiguration::Simple { members, .. } => {
                    proof {
                        if members@.len() == 0 {
                            assert(members@ =~= Map::<usize, String>::empty());
                        }
                    }
                    members.len() == 0
                },
                _ => false,
            };
            if !empty {
                return c;
            }
        },
        None => {},
    }
    let mut members: HashMap<usize, String> = HashMap::new();
    let mut i: usize = 0;
    while i < peers.len()
        invariant
            i <= peers@.len(),
            forall|k: usize| #[trigger]
                members@.contains_key(k) <==> if k < id {
                    k < i
                } else {
                    id < k <= i
                },
            forall|k: usize| #[trigger]
                members@.contains_key(k) ==> members@[k] == if k < id {
                    peers@[k as int]
                } else {
                    peers@[k - 1]
                },
        decreases peers@.len() - i,
    {
        if i < id {
            members.insert(i, peers[i].clone());
        } else {
            members.insert(i + 1, peers[i].clone());
        }
        i += 1;
    }
    members.insert(id, own.clone());
    assert(members@ =~= initial_members(id, peers@, *own));
    ClusterConfiguration::Simple { members, version: 0 }
}

fn voting_roles(members: &HashMap<usize, String>) -> (r: HashMap<usize, ServerRole>)
    ensures
        r@ == members@.map_values(|a: String| ServerRole::Voting),
{
    let ids = map_ids(members);
    let mut r: HashMap<usize, ServerRole> = HashMap::new();
    let mut i: usize = 0;
    while i < ids.len()
        invariant
            i <= ids@.len(),
            forall|k: usize| #[trigger] r@.contains_key(k) <==> ids@.take(i as int).contains(k),
            forall|k: usize| #[trigger] r@.contains_key(k) ==> r@[k] == ServerRole::Voting,
        decreases ids@.len() - i,
    {
        r.insert(ids[i], ServerRole::Voting);
        proof {
            crate::raft::membership::lemma_take_contains(ids@, i as int);
        }
        i += 1;
    }
    proof {
        assert(ids@.take(ids@.len() as int) =~= ids@);
        assert forall|k: usize| r@.contains_key(k) == members@.contains_key(k) by {
            assert(ids@.to_set().contains(k) == ids@.contains(k));
        }
        assert(r@ =~= members@.map_values(|a: String| ServerRole::Voting));
    }
    r
}

impl RaftNode {
    /// The node with a given election timeout, from what was persisted.
    pub fn new_with(
        id: usize,
        peers: Vec<String>,
        client_address: String,
        saved: SavedState,
        timeout_ms: u64,
    ) -> (r: Self)
        ensures
            r@ == initial_node(id, peers@, client_address, saved, timeout_ms),
    {
        let ghost s0 = saved;
        let current_term: u64 = decode_term(&saved.term);
        let voted_for = decode_vote(&saved.vote);
        let (index, term) = match saved.snapshot {
            Some(m) => m,
            None => (0, 0),
        };
        let mut log: Vec<LogEntry> = Vec::new();
        log.push(LogEntry { term, command: Command::NoOp });
        let mut entries = saved.entries;
        log.append(&mut entries);
        let cluster_config = first_config(saved.config, id, &peers, &client_address);
        let members = cluster_config.all_members();
        let server_roles = voting_roles(&members);
        let config_change_state = match saved.change {
            Some(c) => c,
            None => ConfigChangeState::Idle,
        };
        let r = RaftNode {
            id,
            peers,
            client_address,
            role: Role::Follower,
            current_term,
            voted_for,
            log,
            commit_index: index,
            last_applied: index,
            next_index: Vec::new(),
            match_index: Vec::new(),
            current_leader: None,
            current_leader_address: None,
            last_included_index: index,
            last_included_term: term,
            election_timeout_ms: timeout_ms,
            votes_received: 0,
            voters: HashSet::new(),
            pending_read_indices: Vec::new(),
            cluster_config,
            server_roles,
            config_change_state,
            non_voting_members: HashMap::new(),
            catch_up_progress: HashMap::new(),
            last_committed_config_index: 0,
            monotonic_time: 0,
        };
        proof {
            let want = initial_node(id, peers@, client_address, s0, timeout_ms);
            assert(r@.peers =~= want.peers);
            assert(r@.log =~= want.log);
            assert(r@.reads =~= want.reads);
            assert(r@ =~= want);
        }
        r
    }

    /// The node with an election timeout drawn at random, from what was
    /// persisted.
    pub fn new(id: usize, peers: Vec<String>, client_address: String, saved: SavedState) -> (r:
        Self)
        ensures
            r@ == initial_node(id, peers@, client_address, saved, r.election_timeout_ms),
            1500 <= r.election_timeout_ms < 3000,
    {
        let timeout_ms: u64 = election_timeout();
        Self::new_with(id, peers, client_address, saved, timeout_ms)
    }

    /// Prepares the tracking of peers before the first event.
    pub fn start(&mut self)
        requires
            old(self)@.log.len() >= 1,
            old(self)@.last_included_index + old(self)@.log.len() <= usize::MAX,
        ensures
            final(self)@ == (NodeView {
                next_index: Seq::new(
                    old(self)@.peers.len(),
                    |i: int| (old(self).last_included_index + old(self)@.log.len()) as usize,
                ),
                match_index: Seq::new(
                    old(self)@.peers.len(),
                    |i: int| old(self).last_included_index,
                ),
                ..old(self)@
            }),
    {
        let ghost n0 = self@;
        let next: usize = self.log.len() + self.last_included_index;
        self.next_index = vec![next; self.peers.len()];
        self.match_index = vec![self.last_included_index; self.peers.len()];
        proof {
            let next_seq = Seq::new(
                n0.peers.len(),
                |i: int| (n0.last_included_index + n0.log.len()) as usize,
            );
            assert(self@.next_index =~= next_seq);
            assert(self@.match_index =~= Seq::new(
                n0.peers.len(),
                |i: int| n0.last_included_index,
            ));
        }
    }

    /// Whether a message can be handled.
    pub fn can_hear(&self, msg: &RpcMessage) -> (r: bool)
        requires
            self@.wf(),
        ensures
            r == self@.fits(msg@),
    {
        let free: usize = usize::MAX - (self.last_included_index + self.log.len());
        match msg {
            RpcMessage::RequestVote(_) => true,
            RpcMessage::RequestVoteResponse(r) => free >= 1 && (!(self.role == Role::Candidate
                && self.current_term == r.term && r.vote_granted) || self.voters.contains(
                &r.peer_id,
            ) || self.votes_received < usize::MAX),
            RpcMessage::AppendEntries(a) => a.entries.len() <= free,
            RpcMessage::AppendEntriesResponse(r) => r.match_index < usize::MAX,
            RpcMessage::InstallSnapshot(a) => a.last_included_index < usize::MAX,
            RpcMessage::InstallSnapshotResponse(r) => r.last_included_index < usize::MAX,
            RpcMessage::TimeoutNow(a) => a.term < u64::MAX || a.term < self.current_term,
            RpcMessage::TimeoutNowResponse(_) => true,
        }
    }

    /// Handles a message and returns the answer to it.
    pub fn handle_rpc(&mut self, msg: RpcMessage, out: &mut Vec<Action>) -> (reply: RpcMessage)
        requires
            old(self)@.wf(),
            old(self)@.fits(msg@),
        ensures
            final(self)@ == old(self)@.heard(msg@),
            final(out).deep_view() == old(out).deep_view() + old(self)@.heard_actions(msg@),
            reply@ == old(self)@.reply_to(msg@),
            final(self)@.wf(),
            old(self)@.sane() && old(self)@.honest(msg@) ==> final(self)@.sane(),
            old(self)@.followed() && old(self)@.honest(msg@) ==> final(self)@.followed(),
    {
        let ghost said = out.deep_view();
        match msg {
            RpcMessage::RequestVote(args) => RpcMessage::RequestVoteResponse(
                self.handle_request_vote(args, out),
            ),
            RpcMessage::RequestVoteResponse(reply) => {
                self.handle_vote_response(reply, out);
                RpcMessage::RequestVoteResponse(reply)
            },
            RpcMessage::AppendEntries(args) => RpcMessage::AppendEntriesResponse(
                self.handle_append_entries(args, out),
            ),
            RpcMessage::AppendEntriesResponse(reply) => {
                self.handle_append_response(reply, out);
                RpcMessage::AppendEntriesResponse(reply)
            },
            RpcMessage::InstallSnapshot(args) => RpcMessage::InstallSnapshotResponse(
                self.handle_install_snapshot(args, out),
            ),
            RpcMessage::InstallSnapshotResponse(reply) => {
                self.handle_snapshot_response(reply, out);
                RpcMessage::InstallSnapshotResponse(reply)
            },
            RpcMessage::TimeoutNow(args) => RpcMessage::TimeoutNowResponse(
                self.handle_timeout_now(args, out),
            ),
            RpcMessage::TimeoutNowResponse(reply) => {
                assert(out.deep_view() =~= said + Seq::<ActionView>::empty());
                RpcMessage::TimeoutNowResponse(reply)
            },
        }
    }

    /// Takes a command of a client into the log.
    pub fn propose(&mut self, command: Command, out: &mut Vec<Action>)
        requires
            old(self)@.wf(),
            old(self)@.room(1),
        ensures
            final(self)@ == old(self)@.proposed(command@),
            final(out).deep_view() == old(out).deep_view() + old(self)@.proposed_actions(command@),
            final(self)@.wf(),
            old(self)@.sane() ==> final(self)@.sane(),
            old(self)@.followed() ==> final(self)@.followed(),
    {
        let ghost n0 = self@;
        let ghost said = out.deep_view();
        let index: usize = self.append_command(command, out);
        let ghost n1 = self@;
        if self.peers.is_empty() && index > self.commit_index {
            self.commit_index = index;
            assert(self@ =~= NodeView { commit_index: n1.last_index() as usize, ..n1 });
            self.apply_logs(out);
        }
        assert(out.deep_view() =~= said + n0.proposed_actions(command@));
    }

    /// Takes a linearizable read: it waits until a majority has confirmed the
    /// leader and the state machine has reached the commit index of now.
    pub fn read_index(&mut self, request: u64, out: &mut Vec<Action>)
        requires
            old(self)@.wf(),
            old(self)@.followed(),
            old(self).role == Role::Leader,
        ensures
            final(self)@ == old(self)@.with_read(request),
            final(out).deep_view() == old(out).deep_view() + old(self)@.read_actions(request),
            final(self)@.wf(),
            old(self)@.sane() ==> final(self)@.sane(),
            final(self)@.followed(),
    {
        let ghost n0 = self@;
        let ghost said = out.deep_view();
        let mut acks: HashSet<usize> = HashSet::new();
        acks.insert(self.id);
        let majority_confirmed = self.cluster_config.has_joint_majority(&acks);
        let req = ReadIndexRequest {
            read_index: self.commit_index,
            term: self.current_term,
            acks,
            majority_confirmed,
            request,
        };
        assert(req@ == n0.new_read(request));
        self.pending_read_indices.push(req);
        let ghost n1 = self@;
        proof {
            assert(n1.reads =~= n0.reads.push(n0.new_read(request)));
            assert(n1 =~= NodeView { reads: n0.reads.push(n0.new_read(request)), ..n0 });
        }
        if majority_confirmed {
            self.check_read_indices(out);
        }
        assert(self@ == n0.with_read(request));
        if !self.peers.is_empty() {
            self.send_heartbeats(out);
        }
        assert(out.deep_view() =~= said + n0.read_actions(request));
    }

    /// The state of the cluster as the node sees it.
    pub fn cluster_info(&self) -> (r: ClusterInfo)
        requires
            self@.wf(),
        ensures
            r.node_id == self.id,
            r.role == self.role,
            r.current_term == self.current_term,
            r.leader_id == self.current_leader,
            r.leader_address.deep_view() == self@.current_leader_address,
            r.peers.deep_view() == self@.peers,
            r.commit_index == self.commit_index,
            r.last_applied == self.last_applied,
            r.log_len == self.last_included_index + self@.log.len(),
            r.votes_received == self.votes_received,
            r.cluster_config@ == self@.config,
            r.config_change_state@ == self@.change,
    {
        ClusterInfo {
            node_id: self.id,
            role: self.role,
            current_term: self.current_term,
            leader_id: self.current_leader,
            leader_address: text_option_dup(&self.current_leader_address),
            peers: self.peers.dup(),
            commit_index: self.commit_index,
            last_applied: self.last_applied,
            log_len: self.log.len() + self.last_included_index,
            votes_received: self.votes_received,
            cluster_config: self.cluster_config.dup(),
            config_change_state: self.config_change_state.dup(),
        }
    }

    /// Handles a request and returns the answer to it.
    pub fn handle_event(&mut self, event: Event, out: &mut Vec<Action>) -> (reply: EventReply)
        requires
            old(self)@.wf(),
            match event {
                Event::Rpc { msg } => old(self)@.fits(msg@),
                Event::ClientRequest { command } => old(self)@.room(1),
                Event::GetReadIndex { request } => old(self)@.followed(),
                _ => true,
            },
        ensures
            final(self)@.wf(),
            match event {
                Event::Rpc { msg } => {
                    &&& final(self)@ == old(self)@.heard(msg@)
                    &&& final(out).deep_view() == old(out).deep_view() + old(self)@.heard_actions(
                        msg@,
                    )
                    &&& reply is Rpc
                    &&& reply->Rpc_msg@ == old(self)@.reply_to(msg@)
                },
                Event::ClientRequest { command } => if old(self).role == Role::Leader {
                    &&& final(self)@ == old(self)@.proposed(command@)
                    &&& final(out).deep_view() == old(out).deep_view() + old(
                        self)@.proposed_actions(command@)
                    &&& reply is Accepted
                } else {
                    &&& *final(self) == *old(self)
                    &&& final(out).deep_view() == old(out).deep_view()
                    &&& reply is NotLeader
                    &&& reply->NotLeader_leader_address.deep_view() == old(
                        self)@.current_leader_address
                },
                Event::GetLeaderInfo => {
                    &&& *final(self) == *old(self)
                    &&& final(out).deep_view() == old(out).deep_view()
                    &&& reply is LeaderInfo
                    &&& reply->LeaderInfo_leader_address.deep_view() == old(
                        self)@.current_leader_address
                },
                Event::GetClusterInfo => {
                    &&& *final(self) == *old(self)
                    &&& final(out).deep_view() == old(out).deep_view()
                    &&& reply is ClusterInfo
                    &&& reply->info.node_id == old(self).id
                    &&& reply->info.role == old(self).role
                    &&& reply->info.current_term == old(self).current_term
                    &&& reply->info.leader_id == old(self).current_leader
                    &&& reply->info.leader_address.deep_view() == old(self)@.current_leader_address
                    &&& reply->info.peers.deep_view() == old(self)@.peers
                    &&& reply->info.commit_index == old(self).commit_index
                    &&& reply->info.last_applied == old(self).last_applied
                    &&& reply->info.log_len == old(self).last_included_index + old(self)@.log.len()
                    &&& reply->info.votes_received == old(self).votes_received
                    &&& reply->info.cluster_config@ == old(self)@.config
                    &&& reply->info.config_change_state@ == old(self)@.change
                },
                Event::GetReadIndex { request } => if old(self).role == Role::Leader {
                    &&& final(self)@ == old(self)@.with_read(request)
                    &&& final(out).deep_view() == old(out).deep_view() + old(self)@.read_actions(
                        request,
                    )
                    &&& reply is Pending
                } else {
                    &&& *final(self) == *old(self)
                    &&& final(out).deep_view() == old(out).deep_view()
                    &&& reply is NotLeader
                    &&& reply->NotLeader_leader_address.deep_view() == old(
                        self)@.current_leader_address
                },
            },
    {
        match event {
            Event::Rpc { msg } => {
                let msg = self.handle_rpc(msg, out);
                EventReply::Rpc { msg }
            },
            Event::ClientRequest { command } => {
                if self.role != Role::Leader {
                    return EventReply::NotLeader {
                        leader_address: text_option_dup(&self.current_leader_address),
                    };
                }
                self.propose(command, out);
                EventReply::Accepted
            },
            Event::GetLeaderInfo => EventReply::LeaderInfo {
                leader_address: text_option_dup(&self.current_leader_address),
            },
            Event::GetClusterInfo => EventReply::ClusterInfo { info: self.cluster_info() },
            Event::GetReadIndex { request } => {
                if self.role != Role::Leader {
                    return EventReply::NotLeader {
                        leader_address: text_option_dup(&self.current_leader_address),
                    };
                }
                self.read_index(request, out);
                EventReply::Pending
            },
        }
    }

    /// Gives the role its turn.
    fn act(&mut self, elapsed_ms: u64, timeout_ms: u64, out: &mut Vec<Action>) -> (r: Result<
        (),
        String,
    >)
        requires
            old(self)@.wf(),
            old(self)@.followed(),
            old(self)@.room(2),
            old(self)@.config.number() < u64::MAX,
            old(self).current_term < u64::MAX,
            1500 <= timeout_ms < 3000,
        ensures
            match r {
                Ok(_) => {
                    &&& !(old(self).role == Role::Leader && old(self)@.stuck())
                    &&& final(self)@ == old(self)@.acted(elapsed_ms, timeout_ms)
                    &&& final(out).deep_view() == old(out).deep_view() + old(self)@.acted_actions(
                        elapsed_ms,
                        timeout_ms,
                    )
                },
                Err(e) => {
                    &&& old(self).role == Role::Leader && old(self)@.stuck()
                    &&& e@ == "Cannot promote: already in joint consensus"@
                    &&& *final(self) == *old(self)
                    &&& final(out).deep_view() == old(out).deep_view() + old(self)@.heartbeats()
                },
            },
            final(self)@.wf(),
            final(self)@.followed(),
            old(self)@.sane() ==> final(self)@.sane(),
            final(self)@.log.len() <= old(self)@.log.len() + 2,
    {
        let ghost n0 = self@;
        let ghost said = out.deep_view();
        if self.role != Role::Leader {
            if elapsed_ms > self.election_timeout_ms {
                self.start_election_with(timeout_ms, out);
                proof {
                    lemma_election_log(n0, timeout_ms);
                }
            } else {
                assert(out.deep_view() =~= said + n0.acted_actions(elapsed_ms, timeout_ms));
            }
            return Ok(());
        }
        self.send_heartbeats(out);
        match self.check_promote_non_voting_members(out) {
            Ok(_) => {},
            Err(e) => {
                return Err(e);
            },
        }
        self.check_finalize_joint_consensus(out);
        assert(out.deep_view() =~= said + n0.acted_actions(elapsed_ms, timeout_ms));
        Ok(())
    }

    /// Applies what is committed and compacts an overlong log.
    fn settle(&mut self, out: &mut Vec<Action>)
        requires
            old(self)@.wf(),
            old(self)@.sane() || old(self)@.log.len() <= SNAPSHOT_THRESHOLD,
        ensures
            final(self)@ == old(self)@.settled(),
            final(out).deep_view() == old(out).deep_view() + old(self)@.settled_actions(),
            final(self)@.wf(),
            old(self)@.sane() ==> final(self)@.sane(),
            old(self)@.followed() ==> final(self)@.followed(),
    {
        let ghost n0 = self@;
        let ghost said = out.deep_view();
        self.apply_logs(out);
        if self.log.len() > SNAPSHOT_THRESHOLD && self.last_applied > self.last_included_index {
            self.create_snapshot(out);
        }
        assert(out.deep_view() =~= said + n0.settled_actions());
    }

    /// The passing of a moment, `elapsed_ms` after the election timer was last
    /// started; a new election gets the timeout `timeout_ms`.
    pub fn tick_with(&mut self, elapsed_ms: u64, timeout_ms: u64, out: &mut Vec<Action>) -> (r:
        Result<(), String>)
        requires
            old(self)@.wf(),
            old(self)@.followed(),
            old(self)@.compactable(),
            old(self)@.room(2),
            old(self)@.config.number() < u64::MAX,
            old(self).current_term < u64::MAX,
            old(self).monotonic_time < u64::MAX,
            1500 <= timeout_ms < 3000,
        ensures
            match r {
                Ok(_) => {
                    let n = old(self)@.later();
                    &&& !(n.role == Role::Leader && n.stuck())
                    &&& final(self)@ == n.acted(elapsed_ms, timeout_ms).settled()
                    &&& final(out).deep_view() == old(out).deep_view() + n.acted_actions(
                        elapsed_ms,
                        timeout_ms,
                    ) + n.acted(elapsed_ms, timeout_ms).settled_actions()
                },
                Err(e) => {
                    let n = old(self)@.later();
                    &&& n.role == Role::Leader && n.stuck()
                    &&& e@ == "Cannot promote: already in joint consensus"@
                    &&& final(self)@ == n
                    &&& final(out).deep_view() == old(out).deep_view() + n.heartbeats()
                },
            },
            final(self)@.wf(),
            final(self)@.followed(),
            old(self)@.sane() ==> final(self)@.sane(),
    {
        let ghost n0 = self@;
        self.monotonic_time += 1;
        assert(self@ =~= n0.later());
        match self.act(elapsed_ms, timeout_ms, out) {
            Ok(_) => {},
            Err(e) => {
                return Err(e);
            },
        }
        self.settle(out);
        Ok(())
    }

    /// The passing of a moment, `elapsed_ms` after the election timer was last
    /// started; a new election gets a timeout drawn at random.
    pub fn tick(&mut self, elapsed_ms: u64, out: &mut Vec<Action>) -> (r: Result<(), String>)
        requires
            old(self)@.wf(),
            old(self)@.followed(),
            old(self)@.compactable(),
            old(self)@.room(2),
            old(self)@.config.number() < u64::MAX,
            old(self).current_term < u64::MAX,
            old(self).monotonic_time < u64::MAX,
        ensures
            match r {
                Ok(_) => {
                    let n = old(self)@.later();
                    &&& !(n.role == Role::Leader && n.stuck())
                    &&& exists|t: u64|
                        1500 <= t < 3000 && final(self)@ == (#[trigger] n.acted(
                            elapsed_ms,
                            t,
                        )).settled() && final(out).deep_view() == old(out).deep_view()
                            + n.acted_actions(elapsed_ms, t) + n.acted(
                            elapsed_ms,
                            t,
                        ).settled_actions()
                },
                Err(e) => {
                    let n = old(self)@.later();
                    &&& n.role == Role::Leader && n.stuck()
                    &&& e@ == "Cannot promote: already in joint consensus"@
                    &&& final(self)@ == n
                    &&& final(out).deep_view() == old(out).deep_view() + n.heartbeats()
                },
            },
            final(self)@.wf(),
            final(self)@.followed(),
            old(self)@.sane() ==> final(self)@.sane(),
    {
        let timeout_ms: u64 = election_timeout();
        self.tick_with(elapsed_ms, timeout_ms, out)
    }
}

proof fn lemma_election_log(n0: NodeView, timeout_ms: u64)
    requires
        n0.wf(),
        n0.room(1),
        1500 <= timeout_ms < 3000,
    ensures
        n0.elected_with(timeout_ms).log.len() <= n0.log.len() + 1,
{
    let n = NodeView { election_timeout_ms: timeout_ms, ..n0.standing() };
    if n.config.everyone().len() == 1 {
        assert(n.wf());
        assert(n.enthroned().log[0] == n.log[0]);
        let m = NodeView { commit_index: n.enthroned().last_index() as usize, ..n.enthroned() };
        assert(m.wf());
        crate::raft::apply::lemma_applied(m);
    }
}

} // verus!
