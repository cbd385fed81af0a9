//! Applying committed entries: commands for the state machine, membership
//! commands for the node itself, and reads that become ready on the way.

use crate::raft::command::{Command, CommandView, MembershipCommand, MembershipView};
use crate::raft::config::{ChangeView, ClusterConfiguration, ConfigChangeState, ConfigView};
use crate::raft::heartbeat::{first_index, lemma_first_index};
use crate::raft::node::{Action, ActionView, NodeView, RaftNode, ReadView};
use crate::raft::order::{ids_of, sorted_entries, sorted_ids};
use crate::strmap::Dup;
use crate::text::{lists, position_of};
use vstd::prelude::*;

verus! {

broadcast use vstd::std_specs::hash::group_hash_axioms;

/// Adds an action at the end of a list.
pub fn emit(out: &mut Vec<Action>, a: Action)
    ensures
        final(out).deep_view() == old(out).deep_view().push(a@),
{
    let ghost before = out.deep_view();
    out.push(a);
    assert(out.deep_view() =~= before.push(a@));
}

/// A read may be answered once a majority confirmed the leader and the state
/// machine has reached the read index.
pub open spec fn read_ready(r: ReadView, last_applied: usize) -> bool {
    r.majority_confirmed && last_applied >= r.read_index
}

/// The reads that still wait.
pub open spec fn reads_waiting(reads: Seq<ReadView>, last_applied: usize) -> Seq<ReadView>
    decreases reads.len(),
{
    if reads.len() == 0 {
        reads
    } else if read_ready(reads.last(), last_applied) {
        reads_waiting(reads.drop_last(), last_applied)
    } else {
        reads_waiting(reads.drop_last(), last_applied).push(reads.last())
    }
}

/// The answers to the reads that are ready, the youngest first.
pub open spec fn read_answers(reads: Seq<ReadView>, last_applied: usize) -> Seq<ActionView>
    decreases reads.len(),
{
    if reads.len() == 0 {
        Seq::empty()
    } else if read_ready(reads.last(), last_applied) {
        seq![
            ActionView::ReadReady {
                request: reads.last().request,
                read_index: reads.last().read_index,
            },
        ] + read_answers(reads.drop_last(), last_applied)
    } else {
        read_answers(reads.drop_last(), last_applied)
    }
}

/// What was noted of `old_peers`, for `peers`: of one that was among them as it
/// was, of anyone else `v`.
pub open spec fn carried_over(
    old_peers: Seq<Seq<char>>,
    noted: Seq<usize>,
    peers: Seq<Seq<char>>,
    v: usize,
) -> Seq<usize> {
    Seq::new(
        peers.len(),
        |i: int|
            if old_peers.contains(peers[i]) {
                noted[first_index(old_peers, peers[i])]
            } else {
                v
            },
    )
}

impl NodeView {
    /// The node after ready reads have been answered.
    pub open spec fn reads_checked(self) -> NodeView {
        NodeView { reads: reads_waiting(self.reads, self.last_applied), ..self }
    }

    /// The addresses of all members but the node itself, by ascending id.
    pub open spec fn member_addresses(self) -> Seq<Seq<char>> {
        let all = self.config.everyone();
        sorted_ids(all.dom().remove(self.id)).map_values(|k: usize| all[k]@)
    }

    /// The node once its peers follow its configuration.
    pub open spec fn peers_updated(self) -> NodeView {
        let peers = self.member_addresses();
        NodeView {
            peers,
            next_index: carried_over(
                self.peers,
                self.next_index,
                peers,
                (self.last_included_index + self.log.len()) as usize,
            ),
            match_index: carried_over(
                self.peers,
                self.match_index,
                peers,
                self.last_included_index,
            ),
            ..self
        }
    }

    /// The node after a committed membership command.
    pub open spec fn member_applied(self, cmd: MembershipView) -> NodeView {
        match cmd {
            MembershipView::BeginJointConsensus { old_members, new_members, version } => NodeView {
                config: ConfigView::Joint { old_members, new_members, version },
                ..self
            }.peers_updated(),
            MembershipView::FinalizeConfiguration { new_members, version } => NodeView {
                change: ChangeView::Idle,
                ..NodeView {
                    config: ConfigView::Simple { members: new_members, version },
                    ..self
                }.peers_updated()
            },
            MembershipView::AddServer { server_id, server_address } => if self.peers.contains(
                server_address@,
            ) {
                self
            } else {
                NodeView {
                    peers: self.peers.push(server_address@),
                    next_index: self.next_index.push(
                        (self.last_included_index + self.log.len()) as usize,
                    ),
                    match_index: self.match_index.push(self.last_included_index),
                    ..self
                }
            },
            MembershipView::RemoveServer { server_id } => if server_id < self.peers.len() {
                NodeView {
                    peers: self.peers.remove(server_id as int),
                    next_index: self.next_index.remove(server_id as int),
                    match_index: self.match_index.remove(server_id as int),
                    ..self
                }
            } else {
                self
            },
            MembershipView::AddServers { servers } => self,
            MembershipView::RemoveServers { server_ids } => self,
        }
    }

    /// The node after the next committed entry has been applied.
    pub open spec fn stepped(self) -> NodeView {
        let n = NodeView { last_applied: (self.last_applied + 1) as usize, ..self };
        if n.holds(n.last_applied as int) {
            match n.entry(n.last_applied as int).command {
                CommandView::Membership(cmd) => n.member_applied(cmd).reads_checked(),
                _ => n.reads_checked(),
            }
        } else {
            n
        }
    }

    /// What applying the next committed entry asks for.
    pub open spec fn step_actions(self) -> Seq<ActionView> {
        let n = NodeView { last_applied: (self.last_applied + 1) as usize, ..self };
        if n.holds(n.last_applied as int) {
            let own = match n.entry(n.last_applied as int).command {
                CommandView::Membership(cmd) => membership_actions(cmd),
                command => seq![ActionView::Apply { command }],
            };
            own + read_answers(n.reads, n.last_applied)
        } else {
            Seq::empty()
        }
    }

    /// The node after all committed entries have been applied, in order.
    pub open spec fn applied(self) -> NodeView
        decreases self.commit_index - self.last_applied,
    {
        if self.last_applied < self.commit_index {
            self.stepped().applied()
        } else {
            self
        }
    }

    /// What applying all committed entries asks for.
    pub open spec fn applied_actions(self) -> Seq<ActionView>
        decreases self.commit_index - self.last_applied,
    {
        if self.last_applied < self.commit_index {
            self.step_actions() + self.stepped().applied_actions()
        } else {
            Seq::empty()
        }
    }
}

/// What a committed membership command asks for.
pub open spec fn membership_actions(cmd: MembershipView) -> Seq<ActionView> {
    match cmd {
        MembershipView::BeginJointConsensus { .. } => seq![ActionView::SaveConfig],
        MembershipView::FinalizeConfiguration { .. } => seq![ActionView::SaveConfig],
        _ => Seq::empty(),
    }
}

/// What applying changes of a node and what it leaves alone.
pub open spec fn apply_frame(before: NodeView, after: NodeView) -> bool {
    &&& after.id == before.id
    &&& after.client_address == before.client_address
    &&& after.role == before.role
    &&& after.current_term == before.current_term
    &&& after.voted_for == before.voted_for
    &&& after.log == before.log
    &&& after.commit_index == before.commit_index
    &&& after.last_applied == if before.last_applied < before.commit_index {
        before.commit_index
    } else {
        before.last_applied
    }
    &&& after.current_leader == before.current_leader
    &&& after.current_leader_address == before.current_leader_address
    &&& after.last_included_index == before.last_included_index
    &&& after.last_included_term == before.last_included_term
    &&& after.election_timeout_ms == before.election_timeout_ms
    &&& after.votes_received == before.votes_received
    &&& after.voters == before.voters
    &&& after.server_roles == before.server_roles
    &&& after.non_voting == before.non_voting
    &&& after.catch_up == before.catch_up
    &&& after.last_committed_config_index == before.last_committed_config_index
    &&& after.monotonic_time == before.monotonic_time
}

/// Applying keeps a node well-formed, applies up to the commit index and
/// touches nothing but peers, configuration and reads.
pub proof fn lemma_applied(n: NodeView)
    requires
        n.wf(),
    ensures
        n.applied().wf(),
        apply_frame(n, n.applied()),
        n.sane() ==> n.applied().sane(),
        n.followed() ==> n.applied().followed(),
    decreases n.commit_index - n.last_applied,
{
    if n.last_applied < n.commit_index {
        lemma_stepped(n);
        lemma_applied(n.stepped());
    }
}

proof fn lemma_member_applied(n: NodeView, cmd: MembershipView)
    requires
        n.wf(),
    ensures
        n.member_applied(cmd).wf(),
        n.followed() ==> n.member_applied(cmd).followed(),
{
    let m = n.member_applied(cmd);
    assert(m.next_index.len() == m.match_index.len());
    assert forall|a: Seq<char>| n.peers.contains(a) implies 0 <= #[trigger] first_index(n.peers, a)
        < n.next_index.len() by {
        lemma_first_index(n.peers, a, n.peers.index_of(a));
    }
}

/// Applying one entry keeps a node well-formed and its log as it is.
pub proof fn lemma_stepped(n: NodeView)
    requires
        n.wf(),
        n.last_applied < n.commit_index,
    ensures
        n.stepped().wf(),
        n.stepped().commit_index == n.commit_index,
        n.stepped().last_applied == n.last_applied + 1,
        n.stepped().log == n.log,
        n.stepped().last_included_index == n.last_included_index,
        n.sane() ==> n.stepped().sane(),
        n.followed() ==> n.stepped().followed(),
{
    let m = NodeView { last_applied: (n.last_applied + 1) as usize, ..n };
    assert(m.wf());
    if m.holds(m.last_applied as int) {
        match m.entry(m.last_applied as int).command {
            CommandView::Membership(cmd) => {
                lemma_member_applied(m, cmd);
            },
            _ => {},
        }
    }
}

fn carry_over(
    old_peers: &Vec<String>,
    noted: &Vec<usize>,
    peers: &Vec<String>,
    v: usize,
) -> (r: Vec<usize>)
    requires
        old_peers@.len() <= noted@.len(),
    ensures
        r@ == carried_over(old_peers.deep_view(), noted@, peers.deep_view(), v),
{
    let ghost ops = old_peers.deep_view();
    let ghost want = carried_over(ops, noted@, peers.deep_view(), v);
    let mut r: Vec<usize> = Vec::new();
    let mut i: usize = 0;
    while i < peers.len()
        invariant
            i <= peers@.len(),
            old_peers@.len() <= noted@.len(),
            ops == old_peers.deep_view(),
            want == carried_over(ops, noted@, peers.deep_view(), v),
            r@.len() == i,
            forall|j: int| 0 <= j < i ==> #[trigger] r@[j] == want[j],
        decreases peers@.len() - i,
    {
        assert(peers.deep_view()[i as int] == peers@[i as int]@);
        match position_of(old_peers, peers[i].as_str()) {
            Some(k) => {
                proof {
                    let a = peers@[i as int]@;
                    assert(ops[k as int] == a);
                    lemma_first_index(ops, a, k as int);
                    let f = first_index(ops, a);
                    assert(f == k) by {
                        if f < k {
                            assert(ops[f] != a);
                        }
                    }
                }
                r.push(noted[k]);
            },
            None => {
                r.push(v);
            },
        }
        i += 1;
    }
    assert(r@ =~= want);
    r
}

impl RaftNode {
    /// Answers the reads that have become ready.
    pub fn check_read_indices(&mut self, out: &mut Vec<Action>)
        ensures
            final(self)@ == old(self)@.reads_checked(),
            final(out).deep_view() == old(out).deep_view() + read_answers(
                old(self)@.reads,
                old(self).last_applied,
            ),
    {
        let ghost reads = self@.reads;
        let ghost la = self.last_applied;
        let ghost before = self@;
        let ghost mut tail: Seq<ReadView> = Seq::empty();
        let ghost mut said: Seq<ActionView> = Seq::empty();
        let mut i: usize = self.pending_read_indices.len();
        proof {
            assert(reads.take(i as int) =~= reads);
            assert(reads_waiting(reads, la) =~= reads_waiting(reads, la) + tail);
            assert(read_answers(reads, la) =~= said + read_answers(reads, la));
            assert(self@.reads =~= reads.take(i as int) + tail);
            assert(out.deep_view() =~= old(out).deep_view() + said);
        }
        while i > 0
            invariant
                i <= reads.len(),
                la == self.last_applied,
                self@ == (NodeView { reads: reads.take(i as int) + tail, ..before }),
                reads_waiting(reads, la) == reads_waiting(reads.take(i as int), la) + tail,
                read_answers(reads, la) == said + read_answers(reads.take(i as int), la),
                out.deep_view() == old(out).deep_view() + said,
            decreases i,
        {
            i -= 1;
            let ghost now = reads.take(i as int + 1);
            proof {
                assert(self.pending_read_indices@.len() == self@.reads.len());
                assert(self@.reads[i as int] == reads[i as int]);
                assert(now.drop_last() =~= reads.take(i as int));
                assert(now.last() == reads[i as int]);
                assert(self.pending_read_indices@[i as int]@ == reads[i as int]);
            }
            if self.pending_read_indices[i].majority_confirmed && self.last_applied
                >= self.pending_read_indices[i].read_index {
                let ghost held = self@;
                let req = self.pending_read_indices.remove(i);
                let a = Action::ReadReady { request: req.request, read_index: req.read_index };
                proof {
                    assert(self@.reads =~= held.reads.remove(i as int));
                    assert(held.reads == now + tail);
                    assert((now + tail).remove(i as int) =~= reads.take(i as int) + tail);
                    assert(self@ =~= (NodeView { reads: reads.take(i as int) + tail, ..before }));
                    assert(said + read_answers(now, la) =~= said.push(a@) + read_answers(
                        reads.take(i as int),
                        la,
                    ));
                    assert((old(out).deep_view() + said).push(a@) =~= old(out).deep_view()
                        + said.push(a@));
                    said = said.push(a@);
                }
                emit(out, a);
            } else {
                proof {
                    let t2 = seq![reads[i as int]] + tail;
                    assert(reads.take(i as int + 1) + tail =~= reads.take(i as int) + t2);
                    assert(reads_waiting(reads.take(i as int), la).push(reads[i as int]) + tail
                        =~= reads_waiting(reads.take(i as int), la) + t2);
                    tail = t2;
                }
            }
        }
        proof {
            assert(reads.take(0) =~= Seq::<ReadView>::empty());
            assert(reads.take(0) + tail =~= tail);
            assert(reads_waiting(reads.take(0), la) + tail =~= tail);
            assert(said + read_answers(reads.take(0), la) =~= said);
            assert(self@ =~= before.reads_checked());
        }
    }

    /// Update peer tracking after configuration change
    pub fn update_peer_tracking(&mut self)
        requires
            old(self)@.wf(),
        ensures
            final(self)@ == old(self)@.peers_updated(),
            final(self).pending_read_indices == old(self).pending_read_indices,
            final(self).log == old(self).log,
    {
        let all = self.cluster_config.all_members();
        let entries = sorted_entries(&all, Some(self.id));
        let mut peers: Vec<String> = Vec::new();
        let mut i: usize = 0;
        while i < entries.len()
            invariant
                i <= entries.len(),
                peers@.len() == i,
                forall|j: int| 0 <= j < i ==> (#[trigger] peers@[j])@ == entries@[j].1@,
            decreases entries.len() - i,
        {
            peers.push(entries[i].1.clone());
            i += 1;
        }
        let ghost before = self@;
        proof {
            let q = ids_of(entries@);
            assert(peers.deep_view() =~= before.member_addresses()) by {
                assert(q == sorted_ids(all@.dom().remove(self.id)));
                assert forall|j: int| 0 <= j < peers@.len() implies peers.deep_view()[j]
                    == before.member_addresses()[j] by {
                    assert(entries@[j].0 == q[j]);
                }
            }
        }
        let next: usize = self.log.len() + self.last_included_index;
        let base: usize = self.last_included_index;
        let next_index = carry_over(&self.peers, &self.next_index, &peers, next);
        let match_index = carry_over(&self.peers, &self.match_index, &peers, base);
        self.peers = peers;
        self.next_index = next_index;
        self.match_index = match_index;
        assert(self@ =~= before.peers_updated());
    }

    /// Applies a committed membership command to the node.
    pub fn apply_membership_command(&mut self, cmd: MembershipCommand, out: &mut Vec<Action>)
        requires
            old(self)@.wf(),
        ensures
            final(self)@ == old(self)@.member_applied(cmd@),
            final(out).deep_view() == old(out).deep_view() + membership_actions(cmd@),
    {
        let ghost before = self@;
        let ghost view = cmd@;
        let ghost said = out.deep_view();
        match cmd {
            MembershipCommand::BeginJointConsensus { old_members, new_members, version } => {
                self.cluster_config =
                ClusterConfiguration::Joint { old_members, new_members, version };
                assert(self@ =~= (NodeView {
                    config: ConfigView::Joint {
                        old_members: old_members@,
                        new_members: new_members@,
                        version,
                    },
                    ..before
                }));
                self.update_peer_tracking();
                emit(out, Action::SaveConfig);
                assert(out.deep_view() =~= said + membership_actions(view));
            },
            MembershipCommand::FinalizeConfiguration { new_members, version } => {
                self.cluster_config = ClusterConfiguration::Simple { members: new_members, version };
                assert(self@ =~= (NodeView {
                    config: ConfigView::Simple { members: new_members@, version },
                    ..before
                }));
                self.update_peer_tracking();
                self.config_change_state = ConfigChangeState::Idle;
                assert(self@ =~= before.member_applied(view));
                emit(out, Action::SaveConfig);
                assert(out.deep_view() =~= said + membership_actions(view));
            },
            MembershipCommand::AddServer { server_id: _, server_address } => {
                assert(out.deep_view() =~= said + membership_actions(view));
                if lists(&self.peers, server_address.as_str()) {
                    return;
                }
                let next: usize = self.log.len() + self.last_included_index;
                self.peers.push(server_address);
                self.next_index.push(next);
                self.match_index.push(self.last_included_index);
                proof {
                    assert(!before.peers.contains(server_address@));
                    assert(self@.peers =~= before.peers.push(server_address@));
                    assert(self@ =~= before.member_applied(view));
                }
            },
            MembershipCommand::RemoveServer { server_id } => {
                assert(out.deep_view() =~= said + membership_actions(view));
                if server_id < self.peers.len() {
                    self.peers.remove(server_id);
                    self.next_index.remove(server_id);
                    self.match_index.remove(server_id);
                    assert(self@.peers =~= before.peers.remove(server_id as int));
                    assert(self@ =~= before.member_applied(view));
                }
            },
            MembershipCommand::AddServers { servers: _ } => {
                assert(out.deep_view() =~= said + membership_actions(view));
            },
            MembershipCommand::RemoveServers { server_ids: _ } => {
                assert(out.deep_view() =~= said + membership_actions(view));
            },
        }
    }

    /// Applies everything committed.
    pub fn apply_logs(&mut self, out: &mut Vec<Action>)
        requires
            old(self)@.wf(),
        ensures
            final(self)@ == old(self)@.applied(),
            final(self)@.wf(),
            apply_frame(old(self)@, final(self)@),
            old(self)@.sane() ==> final(self)@.sane(),
            old(self)@.followed() ==> final(self)@.followed(),
            final(out).deep_view() == old(out).deep_view() + old(self)@.applied_actions(),
    {
        let ghost start = self@;
        let ghost said = out.deep_view();
        proof {
            lemma_applied(start);
            assert(out.deep_view() + self@.applied_actions() =~= said + start.applied_actions());
        }
        while self.commit_index > self.last_applied
            invariant
                self@.wf(),
                self@.applied() == start.applied(),
                out.deep_view() + self@.applied_actions() == said + start.applied_actions(),
            decreases self.commit_index - self.last_applied,
        {
            let ghost n = self@;
            let ghost told = out.deep_view();
            proof {
                lemma_stepped(n);
            }
            self.last_applied += 1;
            let ghost m = NodeView { last_applied: (n.last_applied + 1) as usize, ..n };
            assert(self@ =~= m);
            let at: usize = self.last_applied - self.last_included_index;
            if at < self.log.len() {
                assert(m.entry(m.last_applied as int) == self.log@[at as int]@);
                let command = self.log[at].command.dup();
                match command {
                    Command::Membership(cmd) => {
                        self.apply_membership_command(cmd, out);
                    },
                    other => {
                        emit(out, Action::Apply { command: other });
                    },
                }
                self.check_read_indices(out);
                assert(out.deep_view() =~= told + n.step_actions());
            } else {
                assert(out.deep_view() =~= told + n.step_actions());
            }
            assert(self@ =~= n.stepped());
            assert(told + (n.step_actions() + self@.applied_actions()) =~= out.deep_view()
                + self@.applied_actions());
        }
        assert(out.deep_view() + Seq::<ActionView>::empty() =~= out.deep_view());
    }
}

} // verus!
