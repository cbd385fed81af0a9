//! Elections: voting, counting votes, starting an election and taking over
//! leadership.

use crate::raft::append::term_actions;
use crate::raft::apply::emit;
use crate::raft::command::{Command, CommandView, EntryView, LogEntry};
use crate::raft::config::Role;
use crate::raft::node::{
    Action, ActionView, NodeView, RaftNode, RequestVoteArgs, RequestVoteReply, TimeoutNowArgs,
    TimeoutNowReply,
};
use rand::Rng;
use std::collections::HashSet;
use vstd::prelude::*;

verus! {

broadcast use vstd::std_specs::hash::group_hash_axioms;

/// A number of milliseconds from 1500 up to but not including 3000, drawn by
/// `Rng::random_range` from the generator of the thread (`rand::rng`).
#[verifier::external_body]
fn random_timeout_ms() -> (r: u64)
    ensures
        1500 <= r < 3000,
{
    rand::rng().random_range(1500..3000)
}

/// An election timeout, drawn at random so that nodes rarely stand for
/// election at the same time.
pub fn election_timeout() -> (r: u64)
    ensures
        1500 <= r < 3000,
{
    random_timeout_ms()
}

impl NodeView {
    /// The node after it learnt of a newer term.
    pub open spec fn stepped_down(self, term: u64) -> NodeView {
        NodeView {
            current_term: term,
            role: Role::Follower,
            voted_for: None,
            current_leader: None,
            current_leader_address: None,
            ..self
        }
    }

    /// The candidate's log is at least as complete as the node's own.
    pub open spec fn up_to_date(self, a: RequestVoteArgs) -> bool {
        a.last_log_term > self.last_term() || (a.last_log_term == self.last_term()
            && a.last_log_index >= self.last_index())
    }

    /// The node votes for the candidate: its term is not old, its log is
    /// complete enough, and no one else has the vote in that term.
    pub open spec fn grants(self, a: RequestVoteArgs) -> bool {
        &&& a.term >= self.current_term
        &&& a.term > self.current_term || self.voted_for is None || self.voted_for == Some(
            a.candidate_id,
        )
        &&& self.up_to_date(a)
    }

    /// The node after a vote request.
    pub open spec fn voted(self, a: RequestVoteArgs) -> NodeView {
        let n = if a.term > self.current_term {
            self.stepped_down(a.term)
        } else {
            self
        };
        if self.grants(a) {
            NodeView { voted_for: Some(a.candidate_id), ..n }
        } else {
            n
        }
    }

    /// What a vote request asks for.
    pub open spec fn vote_actions(self, a: RequestVoteArgs) -> Seq<ActionView> {
        let base = term_actions(self.current_term, a.term);
        if self.grants(a) {
            base + seq![
                ActionView::SaveVote { vote: Some(a.candidate_id) },
                ActionView::ResetElectionTimer,
            ]
        } else {
            base
        }
    }

    /// The entry with which a leader opens its term.
    pub open spec fn opening_entry(self) -> EntryView {
        EntryView { term: self.current_term, command: CommandView::NoOp }
    }

    /// The node as leader of its term, before anything is committed in it.
    pub open spec fn enthroned(self) -> NodeView {
        let next = (self.last_included_index + self.log.len()) as usize;
        NodeView {
            role: Role::Leader,
            current_leader: Some(self.id),
            current_leader_address: Some(self.client_address),
            next_index: Seq::new(self.peers.len(), |i: int| next),
            match_index: Seq::new(self.peers.len(), |i: int| self.last_included_index),
            log: self.log.push(self.opening_entry()),
            ..self
        }
    }

    /// The node once it leads: without peers it commits its log at once.
    pub open spec fn leading(self) -> NodeView {
        let n = self.enthroned();
        if n.peers.len() == 0 && n.last_index() > n.commit_index {
            NodeView { commit_index: n.last_index() as usize, ..n }.applied()
        } else {
            n
        }
    }

    /// What taking over leadership asks for.
    pub open spec fn leading_actions(self) -> Seq<ActionView> {
        let n = self.enthroned();
        let base = seq![
            ActionView::SaveEntry { index: n.last_index() as usize, entry: self.opening_entry() },
        ];
        if n.peers.len() == 0 && n.last_index() > n.commit_index {
            base + NodeView { commit_index: n.last_index() as usize, ..n }.applied_actions()
        } else {
            base
        }
    }

    /// A vote that counts: for this candidate in this term.
    pub open spec fn counts(self, r: RequestVoteReply) -> bool {
        self.role == Role::Candidate && self.current_term == r.term && r.vote_granted
    }

    /// The candidate with the vote of a member; one that has voted for it
    /// before is not counted again.
    pub open spec fn with_vote(self, r: RequestVoteReply) -> NodeView {
        NodeView {
            votes_received: if self.voters.contains(r.peer_id) {
                self.votes_received
            } else {
                (self.votes_received + 1) as usize
            },
            voters: self.voters.insert(r.peer_id),
            ..self
        }
    }

    /// The node after an answer to its vote request.
    pub open spec fn vote_counted(self, r: RequestVoteReply) -> NodeView {
        if self.counts(r) {
            let n = self.with_vote(r);
            if n.config.decides(n.voters) {
                n.leading()
            } else {
                n
            }
        } else if r.term > self.current_term {
            self.stepped_down(r.term)
        } else {
            self
        }
    }

    /// What an answer to a vote request asks for.
    pub open spec fn vote_count_actions(self, r: RequestVoteReply) -> Seq<ActionView> {
        if self.counts(r) {
            let n = self.with_vote(r);
            if n.config.decides(n.voters) {
                n.leading_actions()
            } else {
                Seq::empty()
            }
        } else {
            term_actions(self.current_term, r.term)
        }
    }

    /// The node as candidate of the next term, with its own vote.
    pub open spec fn standing(self) -> NodeView {
        NodeView {
            role: Role::Candidate,
            current_term: (self.current_term + 1) as u64,
            voted_for: Some(self.id),
            votes_received: 1,
            voters: Set::empty().insert(self.id),
            ..self
        }
    }

    /// What standing for election asks for.
    pub open spec fn standing_actions(self) -> Seq<ActionView> {
        seq![
            ActionView::SaveTerm { term: (self.current_term + 1) as u64 },
            ActionView::SaveVote { vote: Some(self.id) },
            ActionView::ResetElectionTimer,
        ]
    }

    /// The request with which the node asks for votes.
    pub open spec fn vote_request(self) -> RequestVoteArgs {
        RequestVoteArgs {
            term: self.current_term,
            candidate_id: self.id,
            last_log_index: self.last_index() as usize,
            last_log_term: self.last_term(),
        }
    }

    /// The node after it started an election with a new timeout.
    pub open spec fn elected_with(self, timeout_ms: u64) -> NodeView {
        let n = NodeView { election_timeout_ms: timeout_ms, ..self.standing() };
        if n.config.everyone().len() == 1 {
            n.leading()
        } else {
            n
        }
    }

    /// What starting an election asks for: a vote from every peer, unless the
    /// node is alone.
    pub open spec fn election_actions(self, timeout_ms: u64) -> Seq<ActionView> {
        let n = NodeView { election_timeout_ms: timeout_ms, ..self.standing() };
        if n.config.everyone().len() == 1 {
            self.standing_actions() + n.leading_actions()
        } else {
            self.standing_actions() + Seq::new(
                n.peers.len(),
                |i: int| ActionView::SendVote { peer: n.peers[i], args: n.vote_request() },
            )
        }
    }

    /// The node after it was told to stand for election at once.
    pub open spec fn timed_out_now(self, a: TimeoutNowArgs) -> NodeView {
        if a.term < self.current_term {
            self
        } else {
            NodeView { current_term: a.term, ..self }.standing()
        }
    }

    /// What being told to stand for election asks for.
    pub open spec fn timeout_now_actions(self, a: TimeoutNowArgs) -> Seq<ActionView> {
        if a.term < self.current_term {
            Seq::empty()
        } else {
            term_actions(self.current_term, a.term) + NodeView {
                current_term: a.term,
                ..self
            }.standing_actions()
        }
    }
}

impl RaftNode {
    /// Adopts a newer term as a follower without leader.
    pub fn step_down(&mut self, term: u64, out: &mut Vec<Action>)
        requires
            term > old(self).current_term,
        ensures
            final(self)@ == old(self)@.stepped_down(term),
            final(out).deep_view() == old(out).deep_view() + term_actions(
                old(self).current_term,
                term,
            ),
            old(self)@.wf() ==> final(self)@.wf(),
            old(self)@.sane() ==> final(self)@.sane(),
            final(self)@.followed(),
    {
        let ghost n0 = self@;
        let ghost said = out.deep_view();
        self.current_term = term;
        emit(out, Action::SaveTerm { term });
        self.role = Role::Follower;
        self.voted_for = None;
        emit(out, Action::SaveVote { vote: None });
        self.current_leader = None;
        self.current_leader_address = None;
        assert(self@ =~= n0.stepped_down(term));
        assert(out.deep_view() =~= said + term_actions(n0.current_term, term));
    }

    /// Handles a vote request.
    pub fn handle_request_vote(
        &mut self,
        args: RequestVoteArgs,
        out: &mut Vec<Action>,
    ) -> (reply: RequestVoteReply)
        requires
            old(self)@.wf(),
        ensures
            final(self)@ == old(self)@.voted(args),
            final(out).deep_view() == old(out).deep_view() + old(self)@.vote_actions(args),
            reply == (RequestVoteReply {
                term: final(self).current_term,
                vote_granted: old(self)@.grants(args),
                peer_id: old(self).id,
            }),
            final(self)@.wf(),
            old(self)@.sane() ==> final(self)@.sane(),
            old(self)@.followed() ==> final(self)@.followed(),
    {
        let ghost n0 = self@;
        let ghost said = out.deep_view();
        let mut vote_granted = false;
        if args.term >= self.current_term {
            if args.term > self.current_term {
                self.step_down(args.term, out);
            }
            let last_index: usize = self.log.len() - 1 + self.last_included_index;
            let last_term: u64 = self.log[self.log.len() - 1].term;
            assert(last_term == n0.last_term());
            let up_to_date = args.last_log_term > last_term || (args.last_log_term == last_term
                && args.last_log_index >= last_index);
            let free = match self.voted_for {
                None => true,
                Some(v) => v == args.candidate_id,
            };
            if free && up_to_date {
                self.voted_for = Some(args.candidate_id);
                emit(out, Action::SaveVote { vote: Some(args.candidate_id) });
                emit(out, Action::ResetElectionTimer);
                vote_granted = true;
            }
        }
        assert(self@ =~= n0.voted(args));
        assert(out.deep_view() =~= said + n0.vote_actions(args));
        RequestVoteReply { term: self.current_term, vote_granted, peer_id: self.id }
    }

    /// Takes over leadership of the current term.
    pub fn become_leader(&mut self, out: &mut Vec<Action>)
        requires
            old(self)@.wf(),
            old(self)@.room(1),
        ensures
            final(self)@ == old(self)@.leading(),
            final(out).deep_view() == old(out).deep_view() + old(self)@.leading_actions(),
            final(self)@.wf(),
            final(self).role == Role::Leader,
            final(self).current_term == old(self).current_term,
            final(self).id == old(self).id,
            old(self)@.sane() ==> final(self)@.sane(),
            final(self)@.followed(),
    {
        let ghost n0 = self@;
        let ghost said = out.deep_view();
        self.role = Role::Leader;
        self.current_leader = Some(self.id);
        self.current_leader_address = Some(self.client_address.clone());
        let next: usize = self.log.len() + self.last_included_index;
        self.next_index = vec![next; self.peers.len()];
        self.match_index = vec![self.last_included_index; self.peers.len()];
        self.log.push(LogEntry { term: self.current_term, command: Command::NoOp });
        let index: usize = self.log.len() - 1 + self.last_included_index;
        emit(
            out,
            Action::SaveEntry {
                index,
                entry: LogEntry { term: self.current_term, command: Command::NoOp },
            },
        );
        let ghost n1 = self@;
        proof {
            assert(n1.log =~= n0.log.push(n0.opening_entry()));
            assert(n1.next_index =~= n0.enthroned().next_index);
            assert(n1.match_index =~= n0.enthroned().match_index);
            assert(n1 =~= n0.enthroned());
            assert(n1.log[0] == n0.log[0]);
            assert(n1.wf());
            assert(n1.followed());
        }
        if self.peers.is_empty() && index > self.commit_index {
            self.commit_index = index;
            let ghost n2 = self@;
            assert(n2 =~= NodeView { commit_index: n1.last_index() as usize, ..n1 });
            assert(n2.followed());
            self.apply_logs(out);
        }
        assert(out.deep_view() =~= said + n0.leading_actions());
    }

    /// Handles an answer to a vote request.
    pub fn handle_vote_response(&mut self, reply: RequestVoteReply, out: &mut Vec<Action>)
        requires
            old(self)@.wf(),
            old(self)@.room(1),
            old(self)@.counts(reply) && !old(self)@.voters.contains(reply.peer_id) ==> old(
                self).votes_received < usize::MAX,
        ensures
            final(self)@ == old(self)@.vote_counted(reply),
            final(out).deep_view() == old(out).deep_view() + old(self)@.vote_count_actions(reply),
            final(self)@.wf(),
            old(self)@.sane() ==> final(self)@.sane(),
            old(self)@.followed() ==> final(self)@.followed(),
    {
        let ghost n0 = self@;
        let ghost said = out.deep_view();
        if self.role == Role::Candidate && self.current_term == reply.term && reply.vote_granted {
            if self.voters.insert(reply.peer_id) {
                self.votes_received += 1;
            }
            let ghost n1 = self@;
            assert(n1 =~= n0.with_vote(reply));
            if self.cluster_config.has_joint_majority(&self.voters) {
                self.become_leader(out);
            } else {
                assert(out.deep_view() =~= said + n0.vote_count_actions(reply));
            }
        } else if reply.term > self.current_term {
            self.step_down(reply.term, out);
        } else {
            assert(out.deep_view() =~= said + n0.vote_count_actions(reply));
        }
    }

    /// Becomes candidate of the next term.
    fn stand(&mut self, out: &mut Vec<Action>)
        requires
            old(self).current_term < u64::MAX,
        ensures
            final(self)@ == old(self)@.standing(),
            final(out).deep_view() == old(out).deep_view() + old(self)@.standing_actions(),
    {
        let ghost n0 = self@;
        let ghost said = out.deep_view();
        self.role = Role::Candidate;
        self.current_term += 1;
        emit(out, Action::SaveTerm { term: self.current_term });
        self.voted_for = Some(self.id);
        emit(out, Action::SaveVote { vote: Some(self.id) });
        self.votes_received = 1;
        let mut voters: HashSet<usize> = HashSet::new();
        voters.insert(self.id);
        self.voters = voters;
        emit(out, Action::ResetElectionTimer);
        assert(self@ =~= n0.standing());
        assert(out.deep_view() =~= said + n0.standing_actions());
    }

    /// Starts an election whose timeout is `timeout_ms`.
    pub fn start_election_with(&mut self, timeout_ms: u64, out: &mut Vec<Action>)
        requires
            old(self)@.wf(),
            old(self)@.room(1),
            old(self).current_term < u64::MAX,
            1500 <= timeout_ms < 3000,
        ensures
            final(self)@ == old(self)@.elected_with(timeout_ms),
            final(out).deep_view() == old(out).deep_view() + old(self)@.election_actions(
                timeout_ms,
            ),
            final(self)@.wf(),
            old(self)@.sane() ==> final(self)@.sane(),
            final(self)@.followed(),
    {
        let ghost n0 = self@;
        let ghost said = out.deep_view();
        self.stand(out);
        self.election_timeout_ms = timeout_ms;
        let ghost n1 = self@;
        proof {
            assert(n1 =~= NodeView { election_timeout_ms: timeout_ms, ..n0.standing() });
            assert(n1.wf());
        }
        let last_log_index: usize = self.log.len() - 1 + self.last_included_index;
        let last_log_term: u64 = self.log[self.log.len() - 1].term;
        let args = RequestVoteArgs {
            term: self.current_term,
            candidate_id: self.id,
            last_log_index,
            last_log_term,
        };
        assert(args == n1.vote_request());
        let all = self.cluster_config.all_members();
        if all.len() == 1 {
            self.become_leader(out);
            assert(out.deep_view() =~= said + n0.election_actions(timeout_ms));
            return;
        }
        let ghost asked = Seq::new(
            n1.peers.len(),
            |i: int| ActionView::SendVote { peer: n1.peers[i], args: n1.vote_request() },
        );
        let ghost told = out.deep_view();
        let mut i: usize = 0;
        assert(out.deep_view() =~= told + asked.take(0));
        while i < self.peers.len()
            invariant
                i <= self.peers@.len(),
                self@ == n1,
                args == n1.vote_request(),
                asked == Seq::new(
                    n1.peers.len(),
                    |i: int| ActionView::SendVote { peer: n1.peers[i], args: n1.vote_request() },
                ),
                out.deep_view() == told + asked.take(i as int),
            decreases self.peers@.len() - i,
        {
            let peer = self.peers[i].clone();
            assert(n1.peers[i as int] == peer@);
            emit(out, Action::SendVote { peer, args });
            i += 1;
            assert(asked.take(i as int) =~= asked.take(i as int - 1).push(asked[i as int - 1]));
            assert(out.deep_view() =~= told + asked.take(i as int));
        }
        assert(asked.take(asked.len() as int) =~= asked);
        assert(out.deep_view() =~= said + n0.election_actions(timeout_ms));
    }

    /// Starts an election with a timeout drawn at random.
    pub fn start_election(&mut self, out: &mut Vec<Action>)
        requires
            old(self)@.wf(),
            old(self)@.room(1),
            old(self).current_term < u64::MAX,
        ensures
            final(self)@ == old(self)@.elected_with(final(self).election_timeout_ms),
            final(out).deep_view() == old(out).deep_view() + old(self)@.election_actions(
                final(self).election_timeout_ms,
            ),
            final(self)@.wf(),
            old(self)@.sane() ==> final(self)@.sane(),
            final(self)@.followed(),
    {
        let timeout_ms: u64 = random_timeout_ms();
        let ghost n0 = self@;
        self.start_election_with(timeout_ms, out);
        proof {
            let n = NodeView { election_timeout_ms: timeout_ms, ..n0.standing() };
            assert(n.wf());
            if n.config.everyone().len() == 1 {
                assert(n.enthroned().log[0] == n.log[0]);
                crate::raft::apply::lemma_applied(
                    NodeView {
                        commit_index: n.enthroned().last_index() as usize,
                        ..n.enthroned()
                    },
                );
            }
        }
    }

    /// Handles the demand of a leader to stand for election at once.
    pub fn handle_timeout_now(&mut self, args: TimeoutNowArgs, out: &mut Vec<Action>) -> (reply:
        TimeoutNowReply)
        requires
            old(self)@.wf(),
            args.term < u64::MAX || args.term < old(self).current_term,
        ensures
            final(self)@ == old(self)@.timed_out_now(args),
            final(out).deep_view() == old(out).deep_view() + old(self)@.timeout_now_actions(args),
            reply == (TimeoutNowReply {
                term: final(self).current_term,
                success: args.term >= old(self).current_term,
            }),
            final(self)@.wf(),
            old(self)@.sane() ==> final(self)@.sane(),
            old(self)@.followed() ==> final(self)@.followed(),
    {
        let ghost n0 = self@;
        let ghost said = out.deep_view();
        if args.term < self.current_term {
            assert(out.deep_view() =~= said + n0.timeout_now_actions(args));
            return TimeoutNowReply { term: self.current_term, success: false };
        }
        if args.term > self.current_term {
            self.current_term = args.term;
            emit(out, Action::SaveTerm { term: args.term });
            self.voted_for = None;
            emit(out, Action::SaveVote { vote: None });
            self.role = Role::Follower;
        }
        self.stand(out);
        assert(self@ =~= n0.timed_out_now(args));
        assert(out.deep_view() =~= said + n0.timeout_now_actions(args));
        TimeoutNowReply { term: self.current_term, success: true }
    }
}

} // verus!
