//! Changing the members of a cluster: servers catch up without a vote, then
//! the cluster moves through a joint configuration to the new one. A leader
//! that is to be removed hands over leadership first.

use crate::raft::apply::emit;
use crate::raft::command::{
    Command, CommandView, EntryView, LogEntry, MembershipCommand, MembershipView,
};
use crate::raft::config::{
    CatchUpProgress, ChangeView, ClusterConfiguration, ConfigChangeState, ConfigView, Role,
    ServerRole, ids_dup,
};
use crate::raft::heartbeat::first_index;
use crate::raft::node::{Action, ActionView, NodeView, RaftNode, TimeoutNowArgs};
use crate::raft::order::{ids_of, sorted_entries};
use crate::strmap::Dup;
use crate::text::{concat3, decimal, decimal_text, position_of};
use std::collections::HashMap;
use vstd::prelude::*;
use vstd::string::*;

verus! {

broadcast use vstd::std_specs::hash::group_hash_axioms;

/// The keys of a map, each once, in some order.
pub fn map_ids<V>(m: &HashMap<usize, V>) -> (r: Vec<usize>)
    ensures
        r@.no_duplicates(),
        r@.to_set() == m@.dom(),
{
    let mut r: Vec<usize> = Vec::new();
    for x in it: m.keys()
        invariant
            r@.len() == it.index(),
            it.seq() == vstd::std_specs::iter::IteratorSpec::remaining(
                &vstd::std_specs::hash::spec_keys_iter(m),
            ),
            forall|i: int| 0 <= i < r@.len() ==> (#[trigger] r@[i]) == *it.seq()[i],
    {
        r.push(*x);
    }
    proof {
        let s = vstd::std_specs::iter::IteratorSpec::remaining(
            &vstd::std_specs::hash::spec_keys_iter(m),
        );
        assert(r@ =~= s.unref());
    }
    r
}

/// The addresses of the servers that are being added.
pub open spec fn joining_addresses(servers: Map<usize, (String, CatchUpProgress)>) -> Map<
    usize,
    String,
> {
    servers.map_values(|v: (String, CatchUpProgress)| v.0)
}

/// Servers that start to catch up at time `now`.
pub open spec fn joining_servers(servers: Map<usize, String>, now: u64) -> Map<
    usize,
    (String, CatchUpProgress),
> {
    servers.map_values(
        |a: String|
            (a, CatchUpProgress { match_index: 0, rounds_caught_up: 0, added_at: now }),
    )
}

/// `id` is the smallest member that stays and is not the leader itself.
pub open spec fn is_successor(
    members: Map<usize, String>,
    leader: usize,
    removed: Seq<usize>,
    id: usize,
) -> bool {
    &&& members.contains_key(id)
    &&& !removed.contains(id)
    &&& id != leader
    &&& forall|k: usize| #[trigger]
        members.contains_key(k) && !removed.contains(k) && k != leader ==> id <= k
}

/// How a request to remove servers goes on.
#[derive(Debug, Clone, Copy, PartialEq, Eq, Structural)]
pub enum RemoveStep {
    /// The joint configuration is in the log
    Joint,
    /// Leadership goes to `target` first
    Transfer { target: usize },
}

/// How a transfer of leadership goes on.
#[derive(Debug, Clone, Copy, PartialEq, Eq, Structural)]
pub enum TransferStep {
    /// The target lacks entries: replicate and look again later
    Wait,
    /// The target was told to stand for election; the node leads no longer
    Done,
}

/// How often a transfer of leadership looks whether the target caught up.
pub const MAX_TRANSFER_ATTEMPTS: u32 = 50;

impl NodeView {
    /// The node with one more entry of its term.
    pub open spec fn with_command(self, command: CommandView) -> NodeView {
        NodeView {
            log: self.log.push(EntryView { term: self.current_term, command }),
            ..self
        }
    }

    /// The write that persists the last entry.
    pub open spec fn save_last(self) -> ActionView {
        ActionView::SaveEntry { index: self.last_index() as usize, entry: self.log.last() }
    }

    /// The command that opens the way to `new_members`.
    pub open spec fn joint_command(self, new_members: Map<usize, String>) -> CommandView {
        CommandView::Membership(
            MembershipView::BeginJointConsensus {
                old_members: self.config->Simple_members,
                new_members,
                version: (self.config.number() + 1) as u64,
            },
        )
    }

    /// The node on its way to `new_members`.
    pub open spec fn joint_begun(self, new_members: Map<usize, String>) -> NodeView {
        let n = self.with_command(self.joint_command(new_members));
        NodeView {
            change: ChangeView::InJointConsensus {
                joint_config_index: n.last_index() as usize,
                target_config: new_members,
            },
            ..n
        }
    }

    /// Servers are being added.
    pub open spec fn adding(self) -> bool {
        self.change is AddingServers
    }

    /// Servers are being added and every one of them has caught up.
    pub open spec fn all_ready(self) -> bool {
        self.adding() && forall|k: usize| #[trigger]
            self.change->servers.contains_key(k) ==> self.change->servers[k].1.ready(
                self.commit_index,
            )
    }

    /// The members once the servers that are being added belong to them.
    pub open spec fn enlarged(self) -> Map<usize, String> {
        (self.config->Simple_members).union_prefer_right(joining_addresses(self.change->servers))
    }

    /// The node after it promoted the servers that are being added.
    pub open spec fn promoted(self) -> NodeView {
        NodeView {
            non_voting: Map::empty(),
            catch_up: Map::empty(),
            ..self.joint_begun(self.enlarged())
        }
    }

    /// The joint configuration is committed and can be left.
    pub open spec fn finalizes(self) -> bool {
        self.change matches ChangeView::InJointConsensus { joint_config_index, .. }
            && self.commit_index >= joint_config_index
    }

    /// The node after it proposed to leave the joint configuration.
    pub open spec fn finalizing(self) -> NodeView {
        self.with_command(
            CommandView::Membership(
                MembershipView::FinalizeConfiguration {
                    new_members: self.change->target_config,
                    version: (self.config.number() + 1) as u64,
                },
            ),
        )
    }

    /// The node after it took in servers that have to catch up first.
    pub open spec fn with_joining(self, servers: Map<usize, String>) -> NodeView {
        let next = (self.last_included_index + self.log.len()) as usize;
        let fresh = CatchUpProgress {
            match_index: 0,
            rounds_caught_up: 0,
            added_at: self.monotonic_time,
        };
        NodeView {
            change: ChangeView::AddingServers {
                servers: joining_servers(servers, self.monotonic_time),
                started_at: self.monotonic_time,
            },
            non_voting: self.non_voting.union_prefer_right(servers),
            server_roles: self.server_roles.union_prefer_right(
                servers.map_values(|a: String| ServerRole::NonVoting),
            ),
            catch_up: self.catch_up.union_prefer_right(servers.map_values(|a: String| fresh)),
            next_index: self.next_index + Seq::new(servers.len(), |i: int| next),
            match_index: self.match_index + Seq::new(
                servers.len(),
                |i: int| self.last_included_index,
            ),
            ..self
        }
    }

    /// A server to be added is a member already.
    pub open spec fn clashes(self, servers: Map<usize, String>, k: usize) -> bool {
        servers.contains_key(k) && self.config.everyone().contains_key(k)
    }

    /// The smallest server to be added that is a member already.
    pub open spec fn first_clash(self, servers: Map<usize, String>) -> usize {
        choose|k: usize| #[trigger]
            self.clashes(servers, k) && forall|j: usize| #[trigger]
                self.clashes(servers, j) ==> k <= j
    }

    /// Why servers cannot be added, if they cannot.
    pub open spec fn add_error(self, servers: Map<usize, String>) -> Option<Seq<char>> {
        if self.role != Role::Leader {
            Some("Not the leader"@)
        } else if !(self.change is Idle) {
            Some("Configuration change already in progress"@)
        } else if servers.len() == 0 {
            Some("No servers to add"@)
        } else if exists|k: usize| #[trigger] self.clashes(servers, k) {
            Some(
                "Server "@ + decimal(self.first_clash(servers) as nat) + " already exists"@,
            )
        } else {
            None
        }
    }

    /// Why servers cannot be removed, if they cannot.
    pub open spec fn remove_error(self, ids: Seq<usize>) -> Option<Seq<char>> {
        if self.role != Role::Leader {
            Some("Not the leader"@)
        } else if !(self.change is Idle) {
            Some("Configuration change already in progress"@)
        } else if ids.len() == 0 {
            Some("No servers to remove"@)
        } else {
            match self.config {
                ConfigView::Joint { .. } => Some("Cannot remove servers during joint consensus"@),
                ConfigView::Simple { members, .. } => if members.len() <= ids.len() {
                    Some("Cannot remove all servers"@)
                } else if ids.contains(self.id) && !(exists|t: usize| #[trigger]
                    is_successor(members, self.id, ids, t)) {
                    Some("No suitable target for leader transfer"@)
                } else {
                    None
                },
            }
        }
    }

    /// Where leadership goes when the leader is among the removed.
    pub open spec fn successor(self, ids: Seq<usize>) -> usize {
        choose|t: usize| #[trigger] is_successor(self.config->Simple_members, self.id, ids, t)
    }

    /// The members that stay.
    pub open spec fn reduced(self, ids: Seq<usize>) -> Map<usize, String> {
        (self.config->Simple_members).remove_keys(ids.to_set())
    }

    /// The node after a request to remove servers that it does not refuse.
    pub open spec fn removing(self, ids: Seq<usize>) -> NodeView {
        if ids.contains(self.id) {
            NodeView {
                change: ChangeView::TransferringLeadership {
                    target_server: self.successor(ids),
                    servers_to_remove: ids,
                },
                ..self
            }
        } else {
            self.joint_begun(self.reduced(ids))
        }
    }

    /// The node after it gave up leadership.
    pub open spec fn abdicated(self) -> NodeView {
        NodeView {
            role: Role::Follower,
            current_leader: None,
            current_leader_address: None,
            ..self
        }
    }

    /// The peer at `i` lacks entries.
    pub open spec fn lags(self, i: int) -> bool {
        self.match_index[i] < self.last_index()
    }

    /// Why leadership cannot be transferred to `target` after `attempts`
    /// looks, if it cannot.
    pub open spec fn transfer_error(self, target: usize, attempts: u32) -> Option<Seq<char>> {
        let all = self.config.everyone();
        if !all.contains_key(target) {
            Some("Target server "@ + decimal(target as nat) + " not found in cluster"@)
        } else if !self.peers.contains(all[target]@) {
            Some("Target server "@ + decimal(target as nat) + " not in peers list"@)
        } else {
            let i = first_index(self.peers, all[target]@);
            if self.lags(i) && attempts >= MAX_TRANSFER_ATTEMPTS {
                Some(
                    "Timeout waiting for target server "@ + decimal(target as nat)
                        + " to catch up (match_index="@ + decimal(self.match_index[i] as nat)
                        + ", log_len="@ + decimal(self.last_index() as nat) + ")"@,
                )
            } else {
                None
            }
        }
    }
}

/// Whether a list of ids holds one.
pub fn ids_contain(v: &Vec<usize>, id: usize) -> (r: bool)
    ensures
        r == v@.contains(id),
{
    let mut i: usize = 0;
    while i < v.len()
        invariant
            i <= v@.len(),
            forall|j: int| 0 <= j < i ==> v@[j] != id,
        decreases v@.len() - i,
    {
        if v[i] == id {
            return true;
        }
        i += 1;
    }
    false
}

impl RaftNode {
    /// Adds an entry of the current term to the log and returns its index.
    pub fn append_command(&mut self, command: Command, out: &mut Vec<Action>) -> (index: usize)
        requires
            old(self)@.wf(),
            old(self)@.room(1),
        ensures
            final(self)@ == old(self)@.with_command(command@),
            final(out).deep_view() == old(out).deep_view().push(final(self)@.save_last()),
            index == final(self)@.last_index(),
            final(self)@.wf(),
            old(self)@.sane() ==> final(self)@.sane(),
            old(self)@.followed() ==> final(self)@.followed(),
    {
        let ghost n0 = self@;
        let entry = LogEntry { term: self.current_term, command };
        let copy = entry.dup();
        self.log.push(entry);
        let index: usize = self.log.len() - 1 + self.last_included_index;
        proof {
            assert(self@.log =~= n0.log.push(entry@));
            assert(self@ =~= n0.with_command(command@));
            assert(self@.log[0] == n0.log[0]);
        }
        emit(out, Action::SaveEntry { index, entry: copy });
        index
    }

    /// Opens the way from the members `old` to `new_members`.
    fn begin_joint(
        &mut self,
        old_members: HashMap<usize, String>,
        new_members: HashMap<usize, String>,
        out: &mut Vec<Action>,
    )
        requires
            old(self)@.wf(),
            old(self)@.room(1),
            old(self)@.config is Simple,
            old(self)@.config->Simple_members == old_members@,
            old(self)@.config.number() < u64::MAX,
        ensures
            final(self)@ == old(self)@.joint_begun(new_members@),
            final(out).deep_view() == old(out).deep_view().push(final(self)@.save_last()),
            final(self)@.wf(),
            old(self)@.sane() ==> final(self)@.sane(),
            old(self)@.followed() ==> final(self)@.followed(),
    {
        let ghost n0 = self@;
        let version: u64 = self.cluster_config.version() + 1;
        let target_config = new_members.clone();
        let index: usize = self.append_command(
            Command::Membership(
                MembershipCommand::BeginJointConsensus { old_members, new_members, version },
            ),
            out,
        );
        self.config_change_state =
        ConfigChangeState::InJointConsensus { joint_config_index: index, target_config };
        assert(self@ =~= n0.joint_begun(new_members@));
    }

    /// Promote non-voting members to voting by starting joint consensus
    pub fn promote_non_voting_members(&mut self, out: &mut Vec<Action>) -> (r: Result<(), String>)
        requires
            old(self)@.wf(),
            old(self)@.room(1),
            old(self)@.config.number() < u64::MAX,
        ensures
            match r {
                Ok(_) => if old(self)@.adding() {
                    &&& old(self)@.config is Simple
                    &&& final(self)@ == old(self)@.promoted()
                    &&& final(out).deep_view() == old(out).deep_view().push(
                        final(self)@.save_last(),
                    )
                } else {
                    *final(self) == *old(self) && final(out).deep_view() == old(out).deep_view()
                },
                Err(e) => old(self)@.adding() && old(self)@.config is Joint && e@
                    == "Cannot promote: already in joint consensus"@ && *final(self) == *old(self)
                    && final(out).deep_view() == old(out).deep_view(),
            },
            final(self)@.wf(),
            old(self)@.sane() ==> final(self)@.sane(),
            old(self)@.followed() ==> final(self)@.followed(),
    {
        let ghost n0 = self@;
        let joining: HashMap<usize, String> = match &self.config_change_state {
            ConfigChangeState::AddingServers { servers, .. } => joining_book(servers),
            _ => {
                return Ok(());
            },
        };
        let old_members = match &self.cluster_config {
            ClusterConfiguration::Simple { members, .. } => members.clone(),
            _ => {
                return Err("Cannot promote: already in joint consensus".to_owned());
            },
        };
        let new_members = crate::raft::config::book_union(&old_members, &joining);
        assert(new_members@ == n0.enlarged());
        self.begin_joint(old_members, new_members, out);
        let ghost n1 = self@;
        self.non_voting_members.clear();
        self.catch_up_progress.clear();
        assert(self@ =~= n0.promoted());
        Ok(())
    }

    /// Periodic check: promote non-voting members when caught up
    pub fn check_promote_non_voting_members(&mut self, out: &mut Vec<Action>) -> (r: Result<
        (),
        String,
    >)
        requires
            old(self)@.wf(),
            old(self)@.room(1),
            old(self)@.config.number() < u64::MAX,
        ensures
            match r {
                Ok(_) => if old(self)@.all_ready() {
                    &&& old(self)@.config is Simple
                    &&& final(self)@ == old(self)@.promoted()
                    &&& final(out).deep_view() == old(out).deep_view().push(
                        final(self)@.save_last(),
                    )
                } else {
                    *final(self) == *old(self) && final(out).deep_view() == old(out).deep_view()
                },
                Err(e) => old(self)@.all_ready() && old(self)@.config is Joint && e@
                    == "Cannot promote: already in joint consensus"@ && *final(self) == *old(self)
                    && final(out).deep_view() == old(out).deep_view(),
            },
            final(self)@.wf(),
            old(self)@.sane() ==> final(self)@.sane(),
            old(self)@.followed() ==> final(self)@.followed(),
    {
        let ready = match &self.config_change_state {
            ConfigChangeState::AddingServers { servers, .. } => {
                let ids = map_ids(servers);
                let mut all = true;
                let mut i: usize = 0;
                while i < ids.len()
                    invariant
                        i <= ids@.len(),
                        ids@.to_set() == servers@.dom(),
                        all == forall|j: int|
                            0 <= j < i ==> servers@[#[trigger] ids@[j]].1.ready(self.commit_index),
                    decreases ids@.len() - i,
                {
                    assert(ids@.to_set().contains(ids@[i as int]));
                    if let Some(entry) = servers.get(&ids[i]) {
                        if !entry.1.is_caught_up(self.commit_index) {
                            all = false;
                        }
                    }
                    i += 1;
                }
                proof {
                    assert(self@.change->servers == servers@);
                    if all {
                        assert forall|k: usize| #[trigger]
                            servers@.contains_key(k) implies servers@[k].1.ready(
                            self.commit_index,
                        ) by {
                            assert(ids@.to_set().contains(k));
                            let j = ids@.index_of(k);
                            assert(ids@[j] == k);
                        }
                    } else {
                        let j = choose|j: int|
                            0 <= j < ids@.len() && !servers@[#[trigger] ids@[j]].1.ready(
                                self.commit_index,
                            );
                        assert(ids@.to_set().contains(ids@[j]));
                        assert(servers@.contains_key(ids@[j]));
                    }
                }
                all
            },
            _ => false,
        };
        if ready {
            self.promote_non_voting_members(out)
        } else {
            Ok(())
        }
    }

    /// Check if joint consensus is committed and finalize
    pub fn check_finalize_joint_consensus(&mut self, out: &mut Vec<Action>)
        requires
            old(self)@.wf(),
            old(self)@.room(1),
            old(self)@.config.number() < u64::MAX,
        ensures
            if old(self)@.finalizes() {
                &&& final(self)@ == old(self)@.finalizing()
                &&& final(out).deep_view() == old(out).deep_view().push(final(self)@.save_last())
            } else {
                *final(self) == *old(self) && final(out).deep_view() == old(out).deep_view()
            },
            final(self)@.wf(),
            old(self)@.sane() ==> final(self)@.sane(),
            old(self)@.followed() ==> final(self)@.followed(),
    {
        let target: HashMap<usize, String> = match &self.config_change_state {
            ConfigChangeState::InJointConsensus { joint_config_index, target_config } => {
                if self.commit_index < *joint_config_index {
                    return;
                }
                target_config.clone()
            },
            _ => {
                return;
            },
        };
        let version: u64 = self.cluster_config.version() + 1;
        self.append_command(
            Command::Membership(
                MembershipCommand::FinalizeConfiguration { new_members: target, version },
            ),
            out,
        );
    }
}

impl RaftNode {
    /// The smallest server to be added that is a member already.
    fn find_clash(&self, servers: &HashMap<usize, String>) -> (r: Option<usize>)
        ensures
            match r {
                Some(k) => self@.clashes(servers@, k) && k == self@.first_clash(servers@),
                None => forall|k: usize| !#[trigger] self@.clashes(servers@, k),
            },
    {
        let members = self.cluster_config.all_members();
        let entries = sorted_entries(servers, None);
        let ghost ids = ids_of(entries@);
        let mut i: usize = 0;
        while i < entries.len()
            invariant
                i <= entries@.len(),
                ids == ids_of(entries@),
                crate::raft::order::ascending(ids),
                members@ == self@.config.everyone(),
                forall|j: int|
                    0 <= j < entries@.len() ==> servers@.contains_key((#[trigger] entries@[j]).0),
                forall|k: usize| servers@.contains_key(k) ==> #[trigger] ids.contains(k),
                forall|j: int| 0 <= j < i ==> !self@.clashes(servers@, (#[trigger] ids[j])),
            decreases entries@.len() - i,
        {
            assert(ids[i as int] == entries@[i as int].0);
            if members.contains_key(&entries[i].0) {
                proof {
                    let k = ids[i as int];
                    assert(self@.clashes(servers@, k));
                    assert forall|j: usize| #[trigger] self@.clashes(servers@, j) implies k
                        <= j by {
                        assert(ids.contains(j));
                        let p = ids.index_of(j);
                        assert(ids[p] == j);
                        if p > i {
                            assert(ids[i as int] < ids[p]);
                        }
                    }
                    let c = self@.first_clash(servers@);
                    assert(self@.clashes(servers@, c));
                }
                return Some(entries[i].0);
            }
            i += 1;
        }
        proof {
            assert forall|k: usize| !#[trigger] self@.clashes(servers@, k) by {
                if self@.clashes(servers@, k) {
                    assert(ids.contains(k));
                    let p = ids.index_of(k);
                    assert(!self@.clashes(servers@, ids[p]));
                }
            }
        }
        None
    }

    /// Takes in servers that have to catch up first.
    fn take_joining(&mut self, servers: &HashMap<usize, String>)
        requires
            old(self)@.wf(),
        ensures
            final(self)@ == old(self)@.with_joining(servers@),
            final(self)@.wf(),
            old(self)@.sane() ==> final(self)@.sane(),
            old(self)@.followed() ==> final(self)@.followed(),
    {
        let ghost n0 = self@;
        let ghost fresh = CatchUpProgress {
            match_index: 0,
            rounds_caught_up: 0,
            added_at: n0.monotonic_time,
        };
        let entries = crate::raft::config::book_entries(servers);
        let next: usize = self.log.len() + self.last_included_index;
        let base: usize = self.last_included_index;
        let now: u64 = self.monotonic_time;
        let mut joining: HashMap<usize, (String, CatchUpProgress)> = HashMap::new();
        let mut i: usize = 0;
        while i < entries.len()
            invariant
                i <= entries@.len(),
                next == n0.last_included_index + n0.log.len(),
                base == n0.last_included_index,
                now == n0.monotonic_time,
                fresh == (CatchUpProgress { match_index: 0, rounds_caught_up: 0, added_at: now }),
                forall|j: int|
                    0 <= j < entries@.len() ==> servers@.contains_key((#[trigger] entries@[j]).0)
                        && servers@[entries@[j].0] == entries@[j].1,
                self@ == (NodeView {
                    non_voting: self@.non_voting,
                    server_roles: self@.server_roles,
                    catch_up: self@.catch_up,
                    next_index: n0.next_index + Seq::new(i as nat, |k: int| next),
                    match_index: n0.match_index + Seq::new(i as nat, |k: int| base),
                    ..n0
                }),
                forall|k: usize| #[trigger]
                    joining@.contains_key(k) <==> exists|j: int|
                        0 <= j < i && (#[trigger] entries@[j]).0 == k,
                forall|k: usize| #[trigger]
                    joining@.contains_key(k) ==> servers@.contains_key(k) && joining@[k] == (
                        servers@[k],
                        fresh,
                    ),
                forall|k: usize| #[trigger]
                    self@.non_voting.contains_key(k) <==> n0.non_voting.contains_key(k)
                        || joining@.contains_key(k),
                forall|k: usize| #[trigger]
                    self@.non_voting.contains_key(k) ==> self@.non_voting[k]
                        == if joining@.contains_key(k) {
                        servers@[k]
                    } else {
                        n0.non_voting[k]
                    },
                forall|k: usize| #[trigger]
                    self@.server_roles.contains_key(k) <==> n0.server_roles.contains_key(k)
                        || joining@.contains_key(k),
                forall|k: usize| #[trigger]
                    self@.server_roles.contains_key(k) ==> self@.server_roles[k]
                        == if joining@.contains_key(k) {
                        ServerRole::NonVoting
                    } else {
                        n0.server_roles[k]
                    },
                forall|k: usize| #[trigger]
                    self@.catch_up.contains_key(k) <==> n0.catch_up.contains_key(k)
                        || joining@.contains_key(k),
                forall|k: usize| #[trigger]
                    self@.catch_up.contains_key(k) ==> self@.catch_up[k]
                        == if joining@.contains_key(k) {
                        fresh
                    } else {
                        n0.catch_up[k]
                    },
            decreases entries@.len() - i,
        {
            let id: usize = entries[i].0;
            let ghost before = joining@;
            let ghost b = self@;
            joining.insert(id, (entries[i].1.clone(), CatchUpProgress::new(now)));
            self.non_voting_members.insert(id, entries[i].1.clone());
            self.server_roles.insert(id, ServerRole::NonVoting);
            self.catch_up_progress.insert(id, CatchUpProgress::new(now));
            self.next_index.push(next);
            self.match_index.push(base);
            i += 1;
            proof {
                assert forall|k: usize| #[trigger]
                    joining@.contains_key(k) <==> exists|j: int|
                        0 <= j < i && (#[trigger] entries@[j]).0 == k by {
                    if before.contains_key(k) {
                        let j = choose|j: int| 0 <= j < i - 1 && (#[trigger] entries@[j]).0 == k;
                        assert(entries@[j].0 == k);
                    }
                    if k == id {
                        assert(entries@[i as int - 1].0 == k);
                    }
                }
                assert(self@.next_index =~= n0.next_index + Seq::new(i as nat, |k: int| next));
                assert(self@.match_index =~= n0.match_index + Seq::new(i as nat, |k: int| base));
                assert(self@.non_voting == b.non_voting.insert(id, entries@[i as int - 1].1));
                assert(self@.server_roles == b.server_roles.insert(id, ServerRole::NonVoting));
                assert(self@.catch_up == b.catch_up.insert(id, fresh));
            }
        }
        self.config_change_state =
        ConfigChangeState::AddingServers { servers: joining, started_at: now };
        proof {
            let want = n0.with_joining(servers@);
            assert forall|k: usize| joining@.contains_key(k) == servers@.contains_key(k) by {
                if servers@.contains_key(k) {
                    let j = choose|j: int|
                        0 <= j < entries@.len() && (#[trigger] entries@[j]).0 == k;
                    assert(entries@[j].0 == k);
                }
            }
            assert(joining@ =~= joining_servers(servers@, now));
            assert(self@.non_voting =~= want.non_voting);
            assert(self@.server_roles =~= want.server_roles);
            assert(self@.catch_up =~= want.catch_up);
            assert(self@.next_index =~= want.next_index);
            assert(self@.match_index =~= want.match_index);
            assert(self@ =~= want);
        }
    }

    /// Handle a client request to add servers (public API).
    /// This implements the safe multi-phase protocol.
    pub fn handle_add_servers_request(&mut self, servers: HashMap<usize, String>) -> (r: Result<
        (),
        String,
    >)
        requires
            old(self)@.wf(),
        ensures
            match r {
                Ok(_) => old(self)@.add_error(servers@) is None && final(self)@ == old(
                    self)@.with_joining(servers@),
                Err(e) => old(self)@.add_error(servers@) == Some(e@) && *final(self) == *old(self),
            },
            final(self)@.wf(),
            old(self)@.sane() ==> final(self)@.sane(),
            old(self)@.followed() ==> final(self)@.followed(),
    {
        if self.role != Role::Leader {
            return Err("Not the leader".to_owned());
        }
        match &self.config_change_state {
            ConfigChangeState::Idle => {},
            _ => {
                return Err("Configuration change already in progress".to_owned());
            },
        }
        if servers.len() == 0 {
            return Err("No servers to add".to_owned());
        }
        if let Some(k) = self.find_clash(&servers) {
            let n = decimal_text(k as u64);
            return Err(concat3("Server ", n.as_str(), " already exists"));
        }
        self.take_joining(&servers);
        Ok(())
    }

    /// The smallest member that stays and is not the node itself.
    fn find_successor(&self, members: &HashMap<usize, String>, removed: &Vec<usize>) -> (r: Option<
        usize,
    >)
        ensures
            match r {
                Some(t) => is_successor(members@, self.id, removed@, t),
                None => forall|t: usize| !#[trigger] is_successor(members@, self.id, removed@, t),
            },
    {
        let entries = sorted_entries(members, Some(self.id));
        let ghost ids = ids_of(entries@);
        let mut i: usize = 0;
        while i < entries.len()
            invariant
                i <= entries@.len(),
                ids == ids_of(entries@),
                crate::raft::order::ascending(ids),
                forall|j: int|
                    0 <= j < entries@.len() ==> members@.contains_key((#[trigger] entries@[j]).0)
                        && Some(self.id) != Some(entries@[j].0),
                forall|k: usize|
                    members@.contains_key(k) && k != self.id ==> #[trigger] ids.contains(k),
                forall|j: int| 0 <= j < i ==> removed@.contains(#[trigger] ids[j]),
            decreases entries@.len() - i,
        {
            assert(ids[i as int] == entries@[i as int].0);
            if !ids_contain(removed, entries[i].0) {
                proof {
                    let t = ids[i as int];
                    assert forall|k: usize| #[trigger]
                        members@.contains_key(k) && !removed@.contains(k) && k
                            != self.id implies t <= k by {
                        assert(ids.contains(k));
                        let p = ids.index_of(k);
                        if p > i {
                            assert(ids[i as int] < ids[p]);
                        } else if p < i {
                            assert(removed@.contains(ids[p]));
                        }
                    }
                }
                return Some(entries[i].0);
            }
            i += 1;
        }
        proof {
            assert forall|t: usize| !#[trigger] is_successor(
                members@,
                self.id,
                removed@,
                t,
            ) by {
                if members@.contains_key(t) && t != self.id {
                    assert(ids.contains(t));
                    let p = ids.index_of(t);
                    assert(removed@.contains(ids[p]));
                }
            }
        }
        None
    }

    /// Handle a client request to remove servers (public API). Where
    /// leadership has to move first, the caller goes on with
    /// [`RaftNode::initiate_leader_transfer`].
    pub fn handle_remove_servers_request(
        &mut self,
        server_ids: Vec<usize>,
        out: &mut Vec<Action>,
    ) -> (r: Result<RemoveStep, String>)
        requires
            old(self)@.wf(),
            old(self)@.room(1),
            old(self)@.config.number() < u64::MAX,
        ensures
            match r {
                Ok(step) => {
                    &&& old(self)@.remove_error(server_ids@) is None
                    &&& final(self)@ == old(self)@.removing(server_ids@)
                    &&& if server_ids@.contains(old(self).id) {
                        step == (RemoveStep::Transfer { target: old(self)@.successor(server_ids@) })
                            && final(out).deep_view() == old(out).deep_view()
                    } else {
                        step == RemoveStep::Joint && final(out).deep_view() == old(
                            out).deep_view().push(final(self)@.save_last())
                    }
                },
                Err(e) => old(self)@.remove_error(server_ids@) == Some(e@) && *final(self) == *old(
                    self) && final(out).deep_view() == old(out).deep_view(),
            },
            final(self)@.wf(),
            old(self)@.sane() ==> final(self)@.sane(),
            old(self)@.followed() ==> final(self)@.followed(),
    {
        let ghost n0 = self@;
        if self.role != Role::Leader {
            return Err("Not the leader".to_owned());
        }
        match &self.config_change_state {
            ConfigChangeState::Idle => {},
            _ => {
                return Err("Configuration change already in progress".to_owned());
            },
        }
        if server_ids.len() == 0 {
            return Err("No servers to remove".to_owned());
        }
        let (count, target) = match &self.cluster_config {
            ClusterConfiguration::Simple { members, .. } => {
                (members.len(), self.find_successor(members, &server_ids))
            },
            ClusterConfiguration::Joint { .. } => {
                return Err("Cannot remove servers during joint consensus".to_owned());
            },
        };
        if server_ids.len() >= count {
            return Err("Cannot remove all servers".to_owned());
        }
        if ids_contain(&server_ids, self.id) {
            match target {
                Some(target) => {
                    proof {
                        let t = n0.successor(server_ids@);
                        assert(is_successor(n0.config->Simple_members, n0.id, server_ids@, t));
                    }
                    self.config_change_state =
                    ConfigChangeState::TransferringLeadership {
                        target_server: target,
                        servers_to_remove: ids_dup(&server_ids),
                    };
                    assert(self@ =~= n0.removing(server_ids@));
                    return Ok(RemoveStep::Transfer { target });
                },
                None => {
                    return Err("No suitable target for leader transfer".to_owned());
                },
            }
        }
        match self.begin_remove_servers_joint_consensus(server_ids, out) {
            Ok(_) => Ok(RemoveStep::Joint),
            Err(e) => Err(e),
        }
    }

    /// Begin joint consensus phase for removing servers
    pub fn begin_remove_servers_joint_consensus(
        &mut self,
        server_ids: Vec<usize>,
        out: &mut Vec<Action>,
    ) -> (r: Result<(), String>)
        requires
            old(self)@.wf(),
            old(self)@.room(1),
            old(self)@.config.number() < u64::MAX,
        ensures
            match r {
                Ok(_) => old(self)@.config is Simple && final(self)@ == old(self)@.joint_begun(
                    old(self)@.reduced(server_ids@),
                ) && final(out).deep_view() == old(out).deep_view().push(final(self)@.save_last()),
                Err(e) => old(self)@.config is Joint && e@ == "Invalid state"@ && *final(self)
                    == *old(self) && final(out).deep_view() == old(out).deep_view(),
            },
            final(self)@.wf(),
            old(self)@.sane() ==> final(self)@.sane(),
            old(self)@.followed() ==> final(self)@.followed(),
    {
        let ghost n0 = self@;
        let old_members = match &self.cluster_config {
            ClusterConfiguration::Simple { members, .. } => members.clone(),
            _ => {
                return Err("Invalid state".to_owned());
            },
        };
        let mut new_members = old_members.clone();
        let mut i: usize = 0;
        assert(new_members@ =~= old_members@.remove_keys(server_ids@.take(0).to_set()));
        while i < server_ids.len()
            invariant
                i <= server_ids@.len(),
                new_members@ == old_members@.remove_keys(server_ids@.take(i as int).to_set()),
            decreases server_ids@.len() - i,
        {
            new_members.remove(&server_ids[i]);
            proof {
                lemma_take_contains(server_ids@, i as int);
                assert forall|k: usize|
                    server_ids@.take(i as int + 1).to_set().contains(k) == (server_ids@.take(
                        i as int,
                    ).to_set().contains(k) || k == server_ids@[i as int]) by {
                    assert(server_ids@.take(i as int + 1).contains(k) == (server_ids@.take(
                        i as int,
                    ).contains(k) || k == server_ids@[i as int]));
                }
            }
            i += 1;
            assert(new_members@ =~= old_members@.remove_keys(server_ids@.take(i as int).to_set()));
        }
        assert(server_ids@.take(server_ids@.len() as int) =~= server_ids@);
        self.begin_joint(old_members, new_members, out);
        Ok(())
    }

    /// One look at a transfer of leadership to `target_id`, after `attempts`
    /// earlier ones: the target is told to stand for election once it holds
    /// the whole log.
    pub fn initiate_leader_transfer(
        &mut self,
        target_id: usize,
        attempts: u32,
        out: &mut Vec<Action>,
    ) -> (r: Result<TransferStep, String>)
        requires
            old(self)@.wf(),
            old(self)@.followed(),
            old(self).role == Role::Leader,
        ensures
            match r {
                Ok(step) => {
                    let all = old(self)@.config.everyone();
                    let i = first_index(old(self)@.peers, all[target_id]@);
                    &&& old(self)@.transfer_error(target_id, attempts) is None
                    &&& if old(self)@.lags(i) {
                        step == TransferStep::Wait && *final(self) == *old(self) && final(
                            out).deep_view() == old(out).deep_view() + old(self)@.heartbeats()
                    } else {
                        step == TransferStep::Done && final(self)@ == old(self)@.abdicated()
                            && final(out).deep_view() == old(out).deep_view().push(
                            ActionView::SendTimeoutNow {
                                peer: all[target_id]@,
                                args: TimeoutNowArgs {
                                    term: old(self).current_term,
                                    sender_id: old(self).id,
                                },
                            },
                        )
                    }
                },
                Err(e) => old(self)@.transfer_error(target_id, attempts) == Some(e@)
                    && *final(self) == *old(self) && final(out).deep_view() == old(
                    out).deep_view(),
            },
            final(self)@.wf(),
            old(self)@.sane() ==> final(self)@.sane(),
            final(self)@.followed(),
    {
        let ghost n0 = self@;
        let all = self.cluster_config.all_members();
        let name = decimal_text(target_id as u64);
        let addr: String = match all.get(&target_id) {
            Some(a) => a.clone(),
            None => {
                return Err(concat3("Target server ", name.as_str(), " not found in cluster"));
            },
        };
        let i: usize = match position_of(&self.peers, addr.as_str()) {
            Some(i) => i,
            None => {
                return Err(concat3("Target server ", name.as_str(), " not in peers list"));
            },
        };
        proof {
            assert(n0.peers[i as int] == addr@);
            let f = first_index(n0.peers, addr@);
            assert(f == i) by {
                if f < i {
                    assert(n0.peers[f] != addr@);
                }
            }
        }
        let last: usize = self.log.len() - 1 + self.last_included_index;
        if self.match_index[i] < last {
            if attempts >= MAX_TRANSFER_ATTEMPTS {
                let m = decimal_text(self.match_index[i] as u64);
                let l = decimal_text(last as u64);
                let mut e = concat3(
                    "Timeout waiting for target server ",
                    name.as_str(),
                    " to catch up (match_index=",
                );
                e.append(m.as_str());
                e.append(", log_len=");
                e.append(l.as_str());
                e.append(")");
                return Err(e);
            }
            self.send_heartbeats(out);
            return Ok(TransferStep::Wait);
        }
        let args = TimeoutNowArgs { term: self.current_term, sender_id: self.id };
        emit(out, Action::SendTimeoutNow { peer: addr, args });
        self.role = Role::Follower;
        self.current_leader = None;
        self.current_leader_address = None;
        assert(self@ =~= n0.abdicated());
        Ok(TransferStep::Done)
    }
}

/// The addresses of the servers that are being added.
fn joining_book(servers: &HashMap<usize, (String, CatchUpProgress)>) -> (r: HashMap<usize, String>)
    ensures
        r@ == joining_addresses(servers@),
{
    let ids = map_ids(servers);
    let mut r: HashMap<usize, String> = HashMap::new();
    let mut i: usize = 0;
    while i < ids.len()
        invariant
            i <= ids@.len(),
            ids@.to_set() == servers@.dom(),
            forall|k: usize| #[trigger] r@.contains_key(k) <==> ids@.take(i as int).contains(k),
            forall|k: usize| #[trigger] r@.contains_key(k) ==> r@[k] == servers@[k].0,
        decreases ids@.len() - i,
    {
        proof {
            assert(ids@.to_set().contains(ids@[i as int]));
            lemma_take_contains(ids@, i as int);
        }
        if let Some(entry) = servers.get(&ids[i]) {
            r.insert(ids[i], entry.0.clone());
        }
        i += 1;
    }
    proof {
        assert(ids@.take(ids@.len() as int) =~= ids@);
        assert forall|k: usize| r@.contains_key(k) == joining_addresses(servers@).contains_key(
            k,
        ) by {
            assert(ids@.to_set().contains(k) == ids@.contains(k));
        }
        assert(r@ =~= joining_addresses(servers@));
    }
    r
}

/// Taking one more element adds just that element.
pub proof fn lemma_take_contains<T>(s: Seq<T>, i: int)
    requires
        0 <= i < s.len(),
    ensures
        forall|x: T| #[trigger]
            s.take(i + 1).contains(x) <==> s.take(i).contains(x) || x == s[i],
{
    assert(s.take(i + 1) =~= s.take(i).push(s[i]));
    assert forall|x: T| #[trigger] s.take(i + 1).contains(x) <==> s.take(i).contains(x) || x
        == s[i] by {
        if s.take(i).contains(x) {
            let j = s.take(i).index_of(x);
            assert(s.take(i + 1)[j] == x);
        }
        if x == s[i] {
            assert(s.take(i + 1)[i] == x);
        }
        if s.take(i + 1).contains(x) && x != s[i] {
            let j = s.take(i + 1).index_of(x);
            assert(s.take(i)[j] == x);
        }
    }
}

} // verus!
