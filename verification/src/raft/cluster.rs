//! A whole cluster whose members stay the same: its nodes, what they have
//! voted, led, logged and sent so far, and what holds at all times.

use crate::raft::append::{
    agreement, lemma_agreement_exists, merge_actions, merged, saves, term_actions,
};
use crate::raft::apply::{lemma_applied, membership_actions, read_answers};
use crate::raft::command::{CommandView, EntryView};
use crate::raft::config::{ConfigView, Role};
use crate::raft::drive::RpcView;
use crate::raft::heartbeat::lemma_first_index;
use crate::raft::laws::{law_quorums_meet, lemma_answer_taken};
use crate::raft::node::{ActionView, AppendView, NodeView, ReadView, RequestVoteArgs};
use vstd::prelude::*;

verus! {

/// The nodes of a cluster, and what has happened among them.
pub struct Cluster {
    pub nodes: Map<usize, NodeView>,
    /// In which term who voted for whom
    pub granted: Set<(u64, usize, usize)>,
    /// Which term was led by whom
    pub led: Set<(u64, usize)>,
    /// How far the log of the leader of a term reached
    pub peak: Map<u64, int>,
    /// Entries that stood in a log, each with its index and the term of the
    /// entry before it
    pub made: Set<(int, EntryView, u64)>,
    /// Requests for votes
    pub asked: Set<RequestVoteArgs>,
    /// Requests to append
    pub sent: Set<AppendView>,
    /// Snapshots that were sent: the term of the leader, index and term of the
    /// last entry
    pub snapped: Set<(u64, int, u64)>,
    /// In which term who held the log of its leader up to which index
    pub acked: Set<(u64, usize, int)>,
    /// In which term who answered a snapshot, and where its own ended then
    pub rested: Set<(u64, usize, int)>,
}

/// What a node does in one step.
pub enum Step {
    /// It takes a message
    Hear { msg: RpcView },
    /// It takes a command as leader
    Propose { command: CommandView },
    /// It takes a read as leader
    Read { request: u64 },
    /// Its clock moves on and its role has its turn
    Turn { elapsed_ms: u64, timeout_ms: u64 },
    /// It applies what is committed and compacts its log
    Settle,
    /// It goes down and comes back
    Restart { node: NodeView },
}

/// A node that comes back has the term, the vote, the snapshot and the entries
/// with which it went down, and takes just what the snapshot covers as
/// committed and applied.
pub open spec fn resumes(n: NodeView, m: NodeView) -> bool {
    &&& m.role == Role::Follower
    &&& m.current_term == n.current_term
    &&& m.voted_for == n.voted_for
    &&& m.last_included_index == n.last_included_index
    &&& m.last_included_term == n.last_included_term
    &&& m.log.len() == n.log.len()
    &&& m.log[0].term == m.last_included_term
    &&& forall|k: int|
        n.last_included_index < k <= n.last_index() ==> #[trigger] m.entry(k) == n.entry(k)
    &&& m.commit_index == n.last_included_index
    &&& m.last_applied == n.last_included_index
}

/// A log that came back holds what it held.
pub proof fn lemma_resumed(n: NodeView, m: NodeView)
    requires
        n.log.len() >= 1,
        n.log[0].term == n.last_included_term,
        resumes(n, m),
    ensures
        m.last_index() == n.last_index(),
        m.last_term() == n.last_term(),
        logged(m) == logged(n),
{
    assert forall|k: int| n.last_included_index <= k <= n.last_index() implies #[trigger] m.entry(
        k,
    ).term == n.entry(k).term by {
        if k > n.last_included_index {
            assert(m.entry(k) == n.entry(k));
        }
    }
    assert(m.last_term() == m.entry(m.last_index()).term);
    assert(n.last_term() == n.entry(n.last_index()).term);
    assert forall|q: (int, EntryView, u64)| logged(m).contains(q) == logged(n).contains(q) by {
        if n.last_included_index < q.0 <= n.last_index() {
            assert(m.entry(q.0) == n.entry(q.0));
            assert(m.entry(q.0 - 1).term == n.entry(q.0 - 1).term);
        }
    }
    assert(logged(m) =~= logged(n));
}

impl Step {
    /// The node after the step.
    pub open spec fn node(self, n: NodeView) -> NodeView {
        match self {
            Step::Hear { msg } => n.heard(msg),
            Step::Propose { command } => n.proposed(command),
            Step::Read { request } => n.with_read(request),
            Step::Turn { elapsed_ms, timeout_ms } => n.later().acted(elapsed_ms, timeout_ms),
            Step::Settle => n.settled(),
            Step::Restart { node } => node,
        }
    }

    /// What the step asks for.
    pub open spec fn actions(self, n: NodeView) -> Seq<ActionView> {
        match self {
            Step::Hear { msg } => n.heard_actions(msg),
            Step::Propose { command } => n.proposed_actions(command),
            Step::Read { request } => n.read_actions(request),
            Step::Turn { elapsed_ms, timeout_ms } => n.later().acted_actions(
                elapsed_ms,
                timeout_ms,
            ),
            Step::Settle => n.settled_actions(),
            Step::Restart { node } => Seq::empty(),
        }
    }
}

impl Step {
    /// What the node holds of the log of its leader, as the step shows: a
    /// leader its whole log, a follower what it took.
    pub open spec fn acks(self, n: NodeView) -> Set<(u64, usize, int)> {
        let m = self.node(n);
        Set::new(
            |x: (u64, usize, int)|
                x.0 == m.current_term && x.1 == n.id && 0 <= x.2 && {
                    ||| m.role == Role::Leader && x.2 <= m.last_index()
                    ||| self matches Step::Hear { msg: RpcView::AppendEntries(a) } && n.accepts(a)
                        && x.2 <= n.append_match(a)
                },
        )
    }

    /// The answer to a snapshot.
    pub open spec fn rests(self, n: NodeView) -> Set<(u64, usize, int)> {
        let m = self.node(n);
        match self {
            Step::Hear { msg: RpcView::InstallSnapshot(a) } => Set::empty().insert(
                (m.current_term, n.id, m.last_included_index as int),
            ),
            _ => Set::empty(),
        }
    }
}

/// The entries of a log, each with its index and the term of the entry before
/// it.
pub open spec fn logged(n: NodeView) -> Set<(int, EntryView, u64)> {
    Set::new(
        |q: (int, EntryView, u64)|
            n.last_included_index < q.0 <= n.last_index() && q.1 == n.entry(q.0) && q.2 == n.entry(
                q.0 - 1,
            ).term,
    )
}

/// The entry at position `j` of a request to append, with its index and the
/// term of the entry before it.
pub open spec fn carried(a: AppendView, j: int) -> (int, EntryView, u64) {
    (
        a.prev_log_index + 1 + j,
        a.entries[j],
        if j == 0 {
            a.prev_log_term
        } else {
            a.entries[j - 1].term
        },
    )
}

impl Cluster {
    /// Every entry of the request has stood in a log.
    pub open spec fn vouches(self, a: AppendView) -> bool {
        forall|j: int| 0 <= j < a.entries.len() ==> self.made.contains(#[trigger] carried(a, j))
    }

    /// The node can take the step: it is in the cluster, whose members are
    /// those of `config`, within the limits of the machine; votes that it
    /// counts were given, and entries that it takes were sent.
    pub open spec fn can_step(self, config: ConfigView, id: usize, step: Step) -> bool {
        let n = self.nodes[id];
        &&& self.nodes.contains_key(id)
        &&& n.wf()
        &&& n.config == config
        &&& config.everyone().contains_key(id)
        &&& match step {
            Step::Hear { msg } => {
                &&& n.fits(msg)
                &&& msg matches RpcView::RequestVoteResponse(r) ==> n.counts(r)
                    ==> self.granted.contains((r.term, r.peer_id, id))
                &&& msg matches RpcView::AppendEntries(a) ==> self.sent.contains(a)
            },
            Step::Propose { command } => n.role == Role::Leader && n.room(1),
            Step::Read { request } => n.role == Role::Leader && n.followed(),
            Step::Turn { elapsed_ms, timeout_ms } => {
                &&& n.followed()
                &&& n.sane()
                &&& n.room(2)
                &&& n.current_term < u64::MAX
                &&& n.monotonic_time < u64::MAX
                &&& 1500 <= timeout_ms < 3000
                &&& !(n.role == Role::Leader && n.stuck())
            },
            Step::Settle => n.sane(),
            Step::Restart { node } => {
                &&& resumes(n, node)
                &&& node.wf()
                &&& node.id == id
                &&& node.config == config
            },
        }
    }

    /// The cluster after a step of a node.
    pub open spec fn after(self, id: usize, step: Step) -> Cluster {
        let n = self.nodes[id];
        let m = step.node(n);
        Cluster {
            nodes: self.nodes.insert(id, m),
            granted: match m.voted_for {
                Some(c) => self.granted.insert((m.current_term, id, c)),
                None => self.granted,
            },
            led: if m.role == Role::Leader {
                self.led.insert((m.current_term, id))
            } else {
                self.led
            },
            peak: if m.role == Role::Leader {
                self.peak.insert(m.current_term, m.last_index())
            } else {
                self.peak
            },
            made: self.made.union(logged(m)),
            asked: self.asked.union(asks(step.actions(n))),
            sent: self.sent.union(sends(step.actions(n))),
            snapped: self.snapped.union(snaps(step.actions(n))),
            acked: self.acked.union(step.acks(n)),
            rested: self.rested.union(step.rests(n)),
        }
    }

    /// A cluster as it starts: followers with empty logs that have voted for
    /// no one.
    pub open spec fn fresh(self) -> bool {
        &&& forall|id: usize| #[trigger]
            self.nodes.contains_key(id) ==> self.nodes[id].id == id && self.nodes[id].role
                == Role::Follower && self.nodes[id].log.len() == 1 && self.nodes[id].voted_for
                is None
        &&& self.granted == Set::<(u64, usize, usize)>::empty()
        &&& self.led == Set::<(u64, usize)>::empty()
        &&& self.peak == Map::<u64, int>::empty()
        &&& self.made == Set::<(int, EntryView, u64)>::empty()
        &&& self.asked == Set::<RequestVoteArgs>::empty()
        &&& self.sent == Set::<AppendView>::empty()
        &&& self.snapped == Set::<(u64, int, u64)>::empty()
        &&& self.acked == Set::<(u64, usize, int)>::empty()
        &&& self.rested == Set::<(u64, usize, int)>::empty()
    }
}

/// The requests to append among actions.
pub open spec fn sends(actions: Seq<ActionView>) -> Set<AppendView> {
    Set::new(
        |a: AppendView|
            exists|i: int|
                0 <= i < actions.len() && (#[trigger] actions[i] matches ActionView::SendAppend {
                    args,
                    ..
                } && args == a),
    )
}

/// The requests for votes among actions.
pub open spec fn asks(actions: Seq<ActionView>) -> Set<RequestVoteArgs> {
    Set::new(
        |a: RequestVoteArgs|
            exists|i: int|
                0 <= i < actions.len() && (#[trigger] actions[i] matches ActionView::SendVote {
                    args,
                    ..
                } && args == a),
    )
}

/// The snapshots among actions.
pub open spec fn snaps(actions: Seq<ActionView>) -> Set<(u64, int, u64)> {
    Set::new(
        |x: (u64, int, u64)|
            exists|i: int|
                0 <= i < actions.len() && (#[trigger] actions[i] matches ActionView::SendSnapshot {
                    term,
                    last_included_index,
                    last_included_term,
                    ..
                } && x == (term, last_included_index as int, last_included_term)),
    )
}

impl Cluster {
    /// Votes stand: whom a node voted for in a term is kept as long as the
    /// term lasts.
    pub open spec fn votes_stand(self) -> bool {
        &&& forall|t: u64, v: usize, c: usize, d: usize| #[trigger]
            self.granted.contains((t, v, c)) && #[trigger] self.granted.contains((t, v, d)) ==> c
                == d
        &&& forall|t: u64, v: usize, c: usize| #[trigger]
            self.granted.contains((t, v, c)) ==> self.nodes.contains_key(v) && (
            self.nodes[v].current_term > t || (self.nodes[v].current_term == t
                && self.nodes[v].voted_for == Some(c)))
    }

    /// The node's votes were given to it, its own included.
    pub open spec fn backed(self, m: NodeView) -> bool {
        forall|v: usize| #[trigger]
            m.voters.contains(v) ==> (v == m.id && m.voted_for == Some(m.id))
                || self.granted.contains((m.current_term, v, m.id))
    }

    /// Candidates count just votes that were given to them.
    pub open spec fn votes_counted(self) -> bool {
        forall|id: usize| #[trigger]
            self.nodes.contains_key(id) ==> {
                &&& self.nodes[id].id == id
                &&& self.nodes[id].role == Role::Candidate ==> self.backed(self.nodes[id])
                    && self.nodes[id].voted_for == Some(id)
                &&& self.nodes[id].role == Role::Leader ==> self.led.contains(
                    (self.nodes[id].current_term, id),
                )
                &&& self.nodes[id].voted_for matches Some(c) ==> self.granted.contains(
                    (self.nodes[id].current_term, id, c),
                )
            }
    }

    /// Whoever led a term was elected by members enough to decide.
    pub open spec fn elected(self, config: ConfigView, t: u64, l: usize) -> bool {
        exists|s: Set<usize>| #[trigger]
            config.decides(s) && forall|v: usize| #[trigger]
                s.contains(v) ==> self.granted.contains((t, v, l))
    }

    /// Whoever led a term was elected, has not gone back since, and does not
    /// stand for election in it again.
    pub open spec fn leaders_elected(self, config: ConfigView) -> bool {
        forall|t: u64, l: usize| #[trigger]
            self.led.contains((t, l)) ==> {
                &&& self.elected(config, t, l)
                &&& self.nodes.contains_key(l)
                &&& self.nodes[l].current_term >= t
                &&& self.nodes[l].current_term == t ==> self.nodes[l].role != Role::Candidate
            }
    }

    /// Every entry was made by the leader of its term, and the leader of a term
    /// has all of them; an index and a term name one entry, and one term
    /// before it.
    pub open spec fn entries_unique(self) -> bool {
        &&& forall|q: (int, EntryView, u64)| #[trigger]
            self.made.contains(q) ==> exists|l: usize| self.led.contains((q.1.term, l))
        &&& forall|q: (int, EntryView, u64), id: usize|
            #![trigger self.made.contains(q), self.nodes.contains_key(id)]
            self.made.contains(q) && self.nodes.contains_key(id) && self.nodes[id].role
                == Role::Leader && self.nodes[id].current_term == q.1.term ==> q.0
                <= self.nodes[id].last_index()
        &&& forall|q: (int, EntryView, u64), r: (int, EntryView, u64)| #[trigger]
            self.made.contains(q) && #[trigger] self.made.contains(r) && q.0 == r.0 && q.1.term
                == r.1.term ==> q == r
    }

    /// All that stands in logs and requests was made.
    pub open spec fn entries_known(self) -> bool {
        &&& forall|id: usize| #[trigger]
            self.nodes.contains_key(id) ==> logged(self.nodes[id]).subset_of(self.made)
        &&& forall|a: AppendView| #[trigger] self.sent.contains(a) ==> self.vouches(a)
    }

    /// What holds at all times.
    pub open spec fn sound(self, config: ConfigView) -> bool {
        &&& self.votes_stand()
        &&& self.votes_counted()
        &&& self.leaders_elected(config)
        &&& self.entries_unique()
        &&& self.entries_known()
    }
}

/// No two nodes ever lead the same term.
pub proof fn lemma_one_leader(c: Cluster, config: ConfigView, t: u64, l: usize, k: usize)
    requires
        config.finite(),
        c.votes_stand(),
        c.elected(config, t, l),
        c.elected(config, t, k),
    ensures
        l == k,
{
    let a = choose|s: Set<usize>| #[trigger]
        config.decides(s) && forall|v: usize| #[trigger]
            s.contains(v) ==> c.granted.contains((t, v, l));
    let b = choose|s: Set<usize>| #[trigger]
        config.decides(s) && forall|v: usize| #[trigger]
            s.contains(v) ==> c.granted.contains((t, v, k));
    law_quorums_meet(config, a, b);
    let x = choose|x: usize| #[trigger] a.contains(x) && b.contains(x);
    assert(c.granted.contains((t, x, l)));
    assert(c.granted.contains((t, x, k)));
}

/// How votes and roles of a node change in a step.
pub open spec fn vote_frame(c: Cluster, config: ConfigView, n: NodeView, m: NodeView) -> bool {
    &&& m.id == n.id
    &&& m.current_term >= n.current_term
    &&& m.current_term == n.current_term && n.voted_for is Some ==> m.voted_for == n.voted_for
    &&& m.role == Role::Candidate ==> {
        &&& c.backed(m)
        &&& m.voted_for == Some(m.id)
        &&& m.current_term > n.current_term || n.role == Role::Candidate
    }
    &&& m.role == Role::Leader && !(n.role == Role::Leader && n.current_term
        == m.current_term) ==> {
        &&& c.backed(m)
        &&& config.decides(m.voters)
        &&& m.current_term > n.current_term || n.role == Role::Candidate
    }
}

/// What taking the lead changes.
pub proof fn lemma_leading_frame(n: NodeView)
    requires
        n.wf(),
        n.room(1),
    ensures
        n.leading().wf(),
        n.leading().id == n.id,
        n.leading().role == Role::Leader,
        n.leading().current_term == n.current_term,
        n.leading().voted_for == n.voted_for,
        n.leading().voters == n.voters,
        n.leading().log == n.log.push(n.opening_entry()),
        n.leading().last_included_index == n.last_included_index,
        n.leading().followed(),
{
    let m = n.enthroned();
    if m.peers.len() == 0 && m.last_index() > m.commit_index {
        lemma_applied(NodeView { commit_index: m.last_index() as usize, ..m });
    }
}

/// A member that is alone decides by itself.
pub proof fn lemma_alone(config: ConfigView, id: usize)
    requires
        config.finite(),
        config.everyone().len() == 1,
        config.everyone().contains_key(id),
        config is Simple,
    ensures
        config.decides(Set::empty().insert(id)),
{
    let d = config.everyone().dom();
    assert(d.len() == 1);
    assert(d =~= Set::empty().insert(id)) by {
        assert(d.remove(id).len() == 0);
        d.remove(id).lemma_len0_is_empty();
        assert forall|x: usize| d.contains(x) implies x == id by {
            if x != id {
                assert(d.remove(id).contains(x));
            }
        }
    }
    assert(Set::<usize>::empty().insert(id).intersect(d) =~= d);
}

proof fn lemma_heard_votes(c: Cluster, config: ConfigView, id: usize, msg: RpcView)
    requires
        config.finite(),
        c.votes_counted(),
        c.can_step(config, id, Step::Hear { msg }),
    ensures
        vote_frame(c, config, c.nodes[id], c.nodes[id].heard(msg)),
{
    let n = c.nodes[id];
    let m = n.heard(msg);
    assert(n.id == id);
    match msg {
        RpcView::RequestVote(a) => {},
        RpcView::RequestVoteResponse(r) => {
            if n.counts(r) {
                let w = n.with_vote(r);
                assert(c.backed(w)) by {
                    assert forall|v: usize| #[trigger] w.voters.contains(v) implies (v == w.id
                        && w.voted_for == Some(w.id)) || c.granted.contains(
                        (w.current_term, v, w.id),
                    ) by {
                        if v != r.peer_id {
                            assert(n.voters.contains(v));
                        }
                    }
                }
                if w.config.decides(w.voters) {
                    lemma_leading_frame(w);
                    assert(c.backed(m)) by {
                        assert forall|v: usize| #[trigger] m.voters.contains(v) implies (v == m.id
                            && m.voted_for == Some(m.id)) || c.granted.contains(
                            (m.current_term, v, m.id),
                        ) by {
                            assert(w.voters.contains(v));
                        }
                    }
                }
            }
        },
        RpcView::AppendEntries(a) => {
            if a.term >= n.current_term && n.matches_prev(a) {
                let f = NodeView {
                    current_leader_address: Some(a.leader_address),
                    ..n.following(a.term, a.leader_id)
                };
                lemma_taking(f, a);
            }
        },
        RpcView::AppendEntriesResponse(r) => {
            if n.role == Role::Leader && r.term == n.current_term {
                lemma_answer_frame(n, msg);
            }
        },
        RpcView::InstallSnapshot(a) => {},
        RpcView::InstallSnapshotResponse(r) => {},
        RpcView::TimeoutNow(a) => {},
        RpcView::TimeoutNowResponse(r) => {},
    }
}

/// Taking entries changes neither votes nor roles.
proof fn lemma_taking(f: NodeView, a: AppendView)
    requires
        f.wf(),
        f.room(a.entries.len() as int),
        f.matches_prev(a),
    ensures
        f.taking(a).id == f.id,
        f.taking(a).role == f.role,
        f.taking(a).current_term == f.current_term,
        f.taking(a).voted_for == f.voted_for,
        f.taking(a).voters == f.voters,
        f.taking(a).log == f.with_entries(a).log,
        f.taking(a).last_included_index == f.last_included_index,
{
    let w = f.with_entries(a);
    lemma_agreement_exists(f.log, f.append_pos(a), a.entries, 0);
    assert(w.wf());
    if a.leader_commit > f.commit_index {
        lemma_applied(w);
    }
}

/// An answer to a leader changes neither votes nor roles nor logs.
proof fn lemma_answer_frame(n: NodeView, msg: RpcView)
    requires
        n.wf(),
        n.fits(msg),
        n.role == Role::Leader,
        msg matches RpcView::AppendEntriesResponse(r) && r.term == n.current_term,
    ensures
        n.heard(msg).id == n.id,
        n.heard(msg).role == n.role,
        n.heard(msg).current_term == n.current_term,
        n.heard(msg).voted_for == n.voted_for,
        n.heard(msg).log == n.log,
        n.heard(msg).last_included_index == n.last_included_index,
{
    let r = msg->AppendEntriesResponse_0;
    lemma_answer_taken(n, r);
    reveal(NodeView::answered);
    reveal(NodeView::committed);
    let m = n.answered(r);
    if m.may_commit() {
        lemma_applied(NodeView { commit_index: m.majority_index(), ..m });
    }
}

proof fn lemma_settled_frame(n: NodeView)
    requires
        n.wf(),
        n.sane(),
    ensures
        n.settled().id == n.id,
        n.settled().role == n.role,
        n.settled().current_term == n.current_term,
        n.settled().voted_for == n.voted_for,
        n.settled().voters == n.voters,
        n.settled().last_index() == n.last_index(),
        logged(n.settled()).subset_of(logged(n)),
{
    lemma_applied(n);
    let m = n.applied();
    if m.overlong() {
        let s = m.compacted();
        let at = m.last_applied - m.last_included_index;
        assert(s.last_index() == m.last_index());
        assert forall|q: (int, EntryView, u64)| logged(s).contains(q) implies logged(n).contains(
            q,
        ) by {
            assert(s.log[q.0 - s.last_included_index] == m.log.skip(at + 1)[q.0
                - s.last_included_index - 1]);
            assert(s.entry(q.0) == m.entry(q.0));
            if q.0 - 1 > s.last_included_index {
                assert(s.log[q.0 - 1 - s.last_included_index] == m.log.skip(at + 1)[q.0 - 1
                    - s.last_included_index - 1]);
            }
            assert(s.entry(q.0 - 1).term == m.entry(q.0 - 1).term);
        }
    }
}

/// Every step changes votes and roles within that frame.
pub proof fn lemma_step_votes(c: Cluster, config: ConfigView, id: usize, step: Step)
    requires
        config.finite(),
        config is Simple,
        c.votes_counted(),
        c.can_step(config, id, step),
    ensures
        vote_frame(c, config, c.nodes[id], step.node(c.nodes[id])),
{
    let n = c.nodes[id];
    assert(n.id == id);
    match step {
        Step::Hear { msg } => {
            lemma_heard_votes(c, config, id, msg);
        },
        Step::Propose { command } => {
            let w = n.with_command(command);
            if w.peers.len() == 0 && w.last_index() > w.commit_index {
                lemma_applied(NodeView { commit_index: w.last_index() as usize, ..w });
            }
        },
        Step::Read { request } => {},
        Step::Turn { elapsed_ms, timeout_ms } => {
            let l = n.later();
            let s = l.acted(elapsed_ms, timeout_ms);
            lemma_acted(l, elapsed_ms, timeout_ms);
            if l.role == Role::Leader {
            } else if elapsed_ms > l.election_timeout_ms {
                if l.config.everyone().len() == 1 {
                    lemma_alone(config, id);
                }
            } else {
                assert(s.role == Role::Candidate ==> c.backed(s)) by {
                    if s.role == Role::Candidate {
                        assert(c.backed(n));
                        assert forall|v: usize| #[trigger] s.voters.contains(v) implies (v == s.id
                            && s.voted_for == Some(s.id)) || c.granted.contains(
                            (s.current_term, v, s.id),
                        ) by {
                            assert(n.voters.contains(v));
                        }
                    }
                }
            }
        },
        Step::Settle => {
            lemma_settled_frame(n);
            let s = n.settled();
            assert(s.role == Role::Candidate ==> c.backed(s)) by {
                if s.role == Role::Candidate {
                    assert(c.backed(n));
                    assert forall|v: usize| #[trigger] s.voters.contains(v) implies (v == s.id
                        && s.voted_for == Some(s.id)) || c.granted.contains(
                        (s.current_term, v, s.id),
                    ) by {
                        assert(n.voters.contains(v));
                    }
                }
            }
        },
        Step::Restart { node } => {},
    }
}

/// What the turn of a role does to term, vote and log.
proof fn lemma_acted(n: NodeView, elapsed_ms: u64, timeout_ms: u64)
    requires
        n.wf(),
        n.sane(),
        n.room(2),
        n.current_term < u64::MAX,
        1500 <= timeout_ms < 3000,
    ensures
        ({
            let m = n.acted(elapsed_ms, timeout_ms);
            &&& m.wf()
            &&& m.sane()
            &&& m.id == n.id
            &&& m.last_included_index == n.last_included_index
            &&& n.role == Role::Leader ==> m.role == Role::Leader && m.current_term
                == n.current_term && m.voted_for == n.voted_for
            &&& n.role != Role::Leader && elapsed_ms > n.election_timeout_ms ==> {
                &&& m.current_term == n.current_term + 1
                &&& m.voted_for == Some(n.id)
                &&& m.voters == Set::<usize>::empty().insert(n.id)
                &&& m.role == if n.config.everyone().len() == 1 {
                    Role::Leader
                } else {
                    Role::Candidate
                }
            }
            &&& n.role != Role::Leader && elapsed_ms <= n.election_timeout_ms ==> m == n
            &&& m.last_index() >= n.last_index()
            &&& m.log.len() >= n.log.len()
            &&& m.log.take(n.log.len() as int) == n.log
            &&& forall|i: int|
                n.log.len() <= i < m.log.len() ==> (#[trigger] m.log[i]).term == m.current_term
            &&& m.role != Role::Leader ==> m.log == n.log
        }),
{
    let m = n.acted(elapsed_ms, timeout_ms);
    if n.role == Role::Leader {
        let p = if n.all_ready() {
            n.promoted()
        } else {
            n
        };
        assert(m.log.take(n.log.len() as int) =~= n.log);
    } else if elapsed_ms > n.election_timeout_ms {
        let s = NodeView { election_timeout_ms: timeout_ms, ..n.standing() };
        if s.config.everyone().len() == 1 {
            lemma_leading_frame(s);
            let e = s.enthroned();
            if e.peers.len() == 0 && e.last_index() > e.commit_index {
                lemma_applied(NodeView { commit_index: e.last_index() as usize, ..e });
            }
        }
        assert(m.log.take(n.log.len() as int) =~= n.log);
    } else {
        assert(m.log.take(n.log.len() as int) =~= n.log);
    }
}

/// Whom a node votes for: whom it voted for in that term before, itself, or
/// who just asked.
pub open spec fn vote_source(n: NodeView, m: NodeView, step: Step) -> bool {
    m.voted_for matches Some(x) ==> {
        ||| m.current_term == n.current_term && n.voted_for == Some(x)
        ||| x == n.id
        ||| step matches Step::Hear { msg: RpcView::RequestVote(a) } && n.grants(a) && a.term
            == m.current_term && a.candidate_id == x
    }
}

/// Every step changes votes that way.
pub proof fn lemma_vote_source(c: Cluster, config: ConfigView, id: usize, step: Step)
    requires
        c.can_step(config, id, step),
    ensures
        vote_source(c.nodes[id], step.node(c.nodes[id]), step),
{
    let n = c.nodes[id];
    match step {
        Step::Hear { msg } => match msg {
            RpcView::RequestVoteResponse(r) => {
                if n.counts(r) && n.config.decides(n.with_vote(r).voters) {
                    lemma_leading_frame(n.with_vote(r));
                }
            },
            RpcView::AppendEntries(a) => {
                if n.accepts(a) {
                    let f = NodeView {
                        current_leader_address: Some(a.leader_address),
                        ..n.following(a.term, a.leader_id)
                    };
                    lemma_taking(f, a);
                }
            },
            RpcView::AppendEntriesResponse(r) => {
                if n.role == Role::Leader && r.term == n.current_term {
                    lemma_answer_frame(n, msg);
                }
            },
            _ => {},
        },
        Step::Propose { command } => {
            let w = n.with_command(command);
            if w.peers.len() == 0 && w.last_index() > w.commit_index {
                lemma_applied(NodeView { commit_index: w.last_index() as usize, ..w });
            }
        },
        Step::Read { request } => {},
        Step::Turn { elapsed_ms, timeout_ms } => {
            lemma_acted(n.later(), elapsed_ms, timeout_ms);
        },
        Step::Settle => {
            lemma_settled_frame(n);
        },
        Step::Restart { node } => {},
    }
}

/// How the log of a node changes in a step: nothing enters it that was not
/// made before, but for what a leader appends in its own term.
pub open spec fn log_frame(c: Cluster, n: NodeView, m: NodeView) -> bool {
    &&& forall|q: (int, EntryView, u64)| #[trigger]
        logged(m).contains(q) ==> c.made.contains(q) || (m.role == Role::Leader && q.1.term
            == m.current_term && n.last_index() < q.0)
    &&& n.role == Role::Leader && m.role == Role::Leader && n.current_term == m.current_term
        ==> m.last_index() >= n.last_index()
}

/// A log that grew at its end by entries of the leader's term.
proof fn lemma_grown(c: Cluster, n: NodeView, m: NodeView)
    requires
        n.wf(),
        logged(n).subset_of(c.made),
        m.last_included_index == n.last_included_index,
        m.log.len() >= n.log.len(),
        m.log.take(n.log.len() as int) == n.log,
        forall|i: int|
            n.log.len() <= i < m.log.len() ==> (#[trigger] m.log[i]).term == m.current_term,
        m.role != Role::Leader ==> m.log.len() == n.log.len(),
    ensures
        log_frame(c, n, m),
{
    assert forall|q: (int, EntryView, u64)| #[trigger] logged(m).contains(q) implies c.made.contains(
        q,
    ) || (m.role == Role::Leader && q.1.term == m.current_term && n.last_index() < q.0) by {
        let i = q.0 - m.last_included_index;
        if i < n.log.len() {
            assert(m.log.take(n.log.len() as int)[i] == m.log[i]);
            assert(m.log.take(n.log.len() as int)[i - 1] == m.log[i - 1]);
            assert(logged(n).contains(q));
        }
    }
}

/// The node with another log.
pub open spec fn with_log(n: NodeView, log: Seq<EntryView>) -> NodeView {
    NodeView { log, ..n }
}

/// A log that took entries of a request holds nothing that was not made.
pub proof fn lemma_merged(c: Cluster, n: NodeView, a: AppendView)
    requires
        n.log.len() >= 1,
        logged(n).subset_of(c.made),
        c.vouches(a),
        n.matches_prev(a),
    ensures
        logged(with_log(n, merged(n.log, n.append_pos(a), a.entries))).subset_of(c.made),
{
    let m = with_log(n, merged(n.log, n.append_pos(a), a.entries));
    let p = n.append_pos(a);
    let k = agreement(n.log, p, a.entries);
    lemma_agreement_exists(n.log, p, a.entries, 0);
    assert forall|q: (int, EntryView, u64)| logged(m).contains(q) implies c.made.contains(q) by {
        let i = q.0 - m.last_included_index;
        if k == a.entries.len() || i < p + k {
            assert(m.log[i] == n.log[i]);
            assert(m.log[i - 1] == n.log[i - 1]);
            assert(logged(n).contains(q));
        } else {
            let j = i - p;
            assert(m.log == n.log.take(p + k) + a.entries.skip(k));
            assert(m.log[i] == a.entries[j]);
            if j == k {
                assert(m.log[i - 1] == n.log[i - 1]);
                if k > 0 {
                    assert(n.log[p + (k - 1)].term == a.entries[k - 1].term);
                }
            } else {
                assert(m.log[i - 1] == a.entries[j - 1]);
            }
            assert(q == carried(a, j));
        }
    }
}

/// Every step changes logs within that frame.
pub proof fn lemma_step_logs(c: Cluster, config: ConfigView, id: usize, step: Step)
    requires
        c.entries_known(),
        c.can_step(config, id, step),
    ensures
        log_frame(c, c.nodes[id], step.node(c.nodes[id])),
{
    let n = c.nodes[id];
    let m = step.node(n);
    assert(logged(n).subset_of(c.made));
    assert(n.log.take(n.log.len() as int) =~= n.log);
    match step {
        Step::Hear { msg } => match msg {
            RpcView::RequestVote(a) => {
                lemma_grown(c, n, m);
            },
            RpcView::RequestVoteResponse(r) => {
                if n.counts(r) {
                    let w = n.with_vote(r);
                    if w.config.decides(w.voters) {
                        lemma_leading_frame(w);
                        assert(m.log.take(n.log.len() as int) =~= n.log);
                    }
                }
                lemma_grown(c, n, m);
            },
            RpcView::AppendEntries(a) => {
                if a.term >= n.current_term && n.matches_prev(a) {
                    let f = NodeView {
                        current_leader_address: Some(a.leader_address),
                        ..n.following(a.term, a.leader_id)
                    };
                    lemma_merged(c, n, a);
                    lemma_taking(f, a);
                    assert(m.log == merged(n.log, n.append_pos(a), a.entries));
                    assert(logged(m) =~= logged(
                        with_log(n, merged(n.log, n.append_pos(a), a.entries)),
                    ));
                } else {
                    lemma_grown(c, n, m);
                }
            },
            RpcView::AppendEntriesResponse(r) => {
                if n.role == Role::Leader && r.term == n.current_term {
                    lemma_answer_frame(n, msg);
                }
                lemma_grown(c, n, m);
            },
            RpcView::InstallSnapshot(a) => {
                if n.installs(a) {
                    let k = a.last_included_index as int;
                    assert forall|q: (int, EntryView, u64)| #[trigger] logged(m).contains(
                        q,
                    ) implies c.made.contains(q) by {
                        assert(n.agrees_at(a.last_included_index, a.last_included_term));
                        let tail = n.log.skip(k - n.last_included_index + 1);
                        assert(m.log[q.0 - k] == tail[q.0 - k - 1]);
                        assert(m.entry(q.0) == n.entry(q.0));
                        if q.0 - 1 > k {
                            assert(m.log[q.0 - 1 - k] == tail[q.0 - 1 - k - 1]);
                        }
                        assert(m.entry(q.0 - 1).term == n.entry(q.0 - 1).term);
                        assert(logged(n).contains(q));
                    }
                } else {
                    lemma_grown(c, n, m);
                }
            },
            _ => {
                lemma_grown(c, n, m);
            },
        },
        Step::Propose { command } => {
            let w = n.with_command(command);
            if w.peers.len() == 0 && w.last_index() > w.commit_index {
                lemma_applied(NodeView { commit_index: w.last_index() as usize, ..w });
            }
            assert(m.log.take(n.log.len() as int) =~= n.log);
            lemma_grown(c, n, m);
        },
        Step::Read { request } => {
            lemma_grown(c, n, m);
        },
        Step::Turn { elapsed_ms, timeout_ms } => {
            let l = n.later();
            lemma_acted(l, elapsed_ms, timeout_ms);
            lemma_grown(c, n, m);
        },
        Step::Settle => {
            lemma_settled_frame(n);
            assert forall|q: (int, EntryView, u64)| #[trigger] logged(m).contains(
                q,
            ) implies c.made.contains(q) || (m.role == Role::Leader && q.1.term == m.current_term
                && n.last_index() < q.0) by {
                assert(logged(n).contains(q));
            }
        },
        Step::Restart { node } => {
            lemma_resumed(n, node);
        },
    }
}

/// None of the actions asks for votes or sends entries or snapshots.
spec fn quiet(s: Seq<ActionView>) -> bool {
    forall|i: int| 0 <= i < s.len() ==> !speaks(#[trigger] s[i])
}

/// The action asks for a vote or sends entries or a snapshot.
spec fn speaks(a: ActionView) -> bool {
    a is SendAppend || a is SendVote || a is SendSnapshot
}

proof fn lemma_quiet_add(s: Seq<ActionView>, t: Seq<ActionView>)
    requires
        quiet(s),
        quiet(t),
    ensures
        quiet(s + t),
{
    assert forall|i: int| 0 <= i < (s + t).len() implies !speaks(#[trigger] (s + t)[i]) by {
        if i >= s.len() {
            assert((s + t)[i] == t[i - s.len()]);
        } else {
            assert((s + t)[i] == s[i]);
        }
    }
}

proof fn lemma_reads_quiet(reads: Seq<ReadView>, last_applied: usize)
    ensures
        quiet(read_answers(reads, last_applied)),
    decreases reads.len(),
{
    if reads.len() > 0 {
        lemma_reads_quiet(reads.drop_last(), last_applied);
        lemma_quiet_add(
            seq![
                ActionView::ReadReady {
                    request: reads.last().request,
                    read_index: reads.last().read_index,
                },
            ],
            read_answers(reads.drop_last(), last_applied),
        );
    }
}

proof fn lemma_applied_quiet(n: NodeView)
    ensures
        quiet(n.applied_actions()),
    decreases n.commit_index - n.last_applied,
{
    if n.last_applied < n.commit_index {
        let m = NodeView { last_applied: (n.last_applied + 1) as usize, ..n };
        if m.holds(m.last_applied as int) {
            lemma_reads_quiet(m.reads, m.last_applied);
            let own = match m.entry(m.last_applied as int).command {
                CommandView::Membership(cmd) => membership_actions(cmd),
                command => seq![ActionView::Apply { command }],
            };
            lemma_quiet_add(own, read_answers(m.reads, m.last_applied));
        }
        lemma_applied_quiet(n.stepped());
        lemma_quiet_add(n.step_actions(), n.stepped().applied_actions());
    }
}

proof fn lemma_leading_quiet(n: NodeView)
    ensures
        quiet(n.leading_actions()),
{
    let m = n.enthroned();
    let base = seq![
        ActionView::SaveEntry { index: m.last_index() as usize, entry: n.opening_entry() },
    ];
    if m.peers.len() == 0 && m.last_index() > m.commit_index {
        let c = NodeView { commit_index: m.last_index() as usize, ..m };
        lemma_applied_quiet(c);
        lemma_quiet_add(base, c.applied_actions());
    }
}

proof fn lemma_heard_quiet(n: NodeView, msg: RpcView)
    ensures
        quiet(n.heard_actions(msg)),
{
    match msg {
        RpcView::RequestVote(a) => {},
        RpcView::RequestVoteResponse(r) => {
            if n.counts(r) {
                lemma_leading_quiet(n.with_vote(r));
            }
        },
        RpcView::AppendEntries(a) => {
            if a.term >= n.current_term {
                let f = NodeView {
                    current_leader_address: Some(a.leader_address),
                    ..n.following(a.term, a.leader_id)
                };
                let base = term_actions(n.current_term, a.term).push(
                    ActionView::ResetElectionTimer,
                );
                let kept = merge_actions(f.log, f.append_pos(a), a.prev_log_index + 1, a.entries);
                let k = agreement(f.log, f.append_pos(a), a.entries);
                let rest = saves(a.prev_log_index + 1 + k, a.entries.skip(k));
                assert(quiet(rest));
                lemma_quiet_add(
                    seq![ActionView::EraseFrom { index: (a.prev_log_index + 1 + k) as usize }],
                    rest,
                );
                assert(quiet(kept));
                lemma_applied_quiet(f.with_entries(a));
                lemma_quiet_add(kept, f.with_entries(a).applied_actions());
                lemma_quiet_add(base, f.taking_actions(a));
            }
        },
        RpcView::AppendEntriesResponse(r) => {
            reveal(NodeView::answered_actions);
            reveal(NodeView::commit_actions);
            let m = n.answered(r);
            lemma_reads_quiet(n.acked_by(r.peer_id).reads, n.last_applied);
            if m.may_commit() {
                lemma_applied_quiet(NodeView { commit_index: m.majority_index(), ..m });
            }
            lemma_quiet_add(n.answered_actions(r), m.commit_actions());
        },
        RpcView::InstallSnapshot(a) => {},
        RpcView::InstallSnapshotResponse(r) => {
            lemma_reads_quiet(n.acked_by(r.peer_id).reads, n.last_applied);
        },
        RpcView::TimeoutNow(a) => {
            lemma_quiet_add(
                term_actions(n.current_term, a.term),
                NodeView { current_term: a.term, ..n }.standing_actions(),
            );
        },
        RpcView::TimeoutNowResponse(r) => {},
    }
}

/// A request to append that the node can send: all that its log holds from
/// some point on.
pub open spec fn from_log(n: NodeView, a: AppendView) -> bool {
    let prev = a.prev_log_index as int;
    &&& a.term == n.current_term
    &&& a.leader_commit == n.commit_index
    &&& n.holds(prev)
    &&& a.prev_log_term == n.entry(prev).term
    &&& a.entries == n.log.skip(prev + 1 - n.last_included_index)
}

/// What a node says is true of itself: a leader sends its log or its snapshot,
/// and who asks for votes is a candidate with that log.
pub open spec fn truthful(n: NodeView, m: NodeView, action: ActionView) -> bool {
    match action {
        ActionView::SendAppend { args, .. } => n.role == Role::Leader && from_log(n, args),
        ActionView::SendSnapshot { term, last_included_index, last_included_term, .. } => n.role
            == Role::Leader && term == n.current_term && last_included_index
            == n.last_included_index && last_included_term == n.last_included_term,
        ActionView::SendVote { args, .. } => m.role == Role::Candidate && args
            == m.vote_request(),
        _ => true,
    }
}

/// What stands in a log was made.
proof fn lemma_from_log(c: Cluster, n: NodeView, a: AppendView)
    requires
        logged(n).subset_of(c.made),
        from_log(n, a),
    ensures
        c.vouches(a),
{
    assert forall|j: int| 0 <= j < a.entries.len() implies c.made.contains(
        #[trigger] carried(a, j),
    ) by {
        let q = carried(a, j);
        let i = a.prev_log_index + 1 - n.last_included_index + j;
        assert(a.entries[j] == n.log[i]);
        assert(n.entry(q.0) == n.log[i]);
        if j > 0 {
            assert(a.entries[j - 1] == n.log[i - 1]);
        }
        assert(logged(n).contains(q));
    }
}

/// What a leader sends to its replicas is true.
proof fn lemma_heartbeats(n: NodeView, m: NodeView, k: int, i: int)
    requires
        n.wf(),
        n.followed(),
        n.role == Role::Leader,
        k <= n.replicas().len(),
        0 <= i < n.heartbeats_to(k).len(),
    ensures
        truthful(n, m, n.heartbeats_to(k)[i]),
    decreases k,
{
    let before = n.heartbeats_to(k - 1);
    if i < before.len() {
        lemma_heartbeats(n, m, k - 1, i);
        assert(n.heartbeats_to(k)[i] == before[i]);
    } else {
        let r = n.replicas()[k - 1];
        let p = n.slot(r, k - 1);
        lemma_slot(n, r, k - 1);
        assert(n.next_index[p] <= n.last_included_index + n.log.len());
        assert(n.heartbeats_to(k)[i] == n.replication(r.0, p));
    }
}

/// The slot of a replica is no position below the first.
proof fn lemma_slot(n: NodeView, replica: (Seq<char>, bool), place: int)
    requires
        place >= 0,
    ensures
        n.slot(replica, place) >= 0,
{
    if replica.1 && n.peers.contains(replica.0) {
        let k = n.peers.index_of(replica.0);
        lemma_first_index(n.peers, replica.0, k);
    }
}

/// Whatever a node says in a step is true.
pub proof fn lemma_step_says(c: Cluster, config: ConfigView, id: usize, step: Step, i: int)
    requires
        c.can_step(config, id, step),
        0 <= i < step.actions(c.nodes[id]).len(),
    ensures
        truthful(c.nodes[id], step.node(c.nodes[id]), step.actions(c.nodes[id])[i]),
{
    let n = c.nodes[id];
    let m = step.node(n);
    let acts = step.actions(n);
    match step {
        Step::Hear { msg } => {
            lemma_heard_quiet(n, msg);
        },
        Step::Propose { command } => {
            let w = n.with_command(command);
            if w.peers.len() == 0 && w.last_index() > w.commit_index {
                let b = NodeView { commit_index: w.last_index() as usize, ..w };
                lemma_applied_quiet(b);
                lemma_quiet_add(seq![w.save_last()], b.applied_actions());
            }
        },
        Step::Read { request } => {
            let r = NodeView { reads: n.reads.push(n.new_read(request)), ..n };
            let first = if n.new_read(request).majority_confirmed {
                read_answers(r.reads, r.last_applied)
            } else {
                Seq::empty()
            };
            lemma_reads_quiet(r.reads, r.last_applied);
            if i < first.len() {
                assert(acts[i] == first[i]);
                assert(!speaks(first[i]));
            } else {
                assert(acts[i] == m.heartbeats()[i - first.len()]);
                lemma_heartbeats(m, m, m.replicas().len() as int, i - first.len());
                lemma_same_words(n, m, m, acts[i]);
            }
        },
        Step::Turn { elapsed_ms, timeout_ms } => {
            let l = n.later();
            if l.role == Role::Leader {
                let h = l.heartbeats();
                if i < h.len() {
                    assert(acts[i] == h[i]);
                    lemma_heartbeats(l, m, l.replicas().len() as int, i);
                    lemma_same_words(n, l, m, acts[i]);
                } else {
                    assert(acts[i] == l.tended_actions()[i - h.len()]);
                }
            } else if elapsed_ms > l.election_timeout_ms {
                let s = NodeView { election_timeout_ms: timeout_ms, ..l.standing() };
                lemma_leading_quiet(s);
                lemma_quiet_add(l.standing_actions(), s.leading_actions());
                assert(quiet(l.standing_actions()));
                if s.config.everyone().len() != 1 {
                    let st = l.standing_actions();
                    if i < st.len() {
                        assert(acts[i] == st[i]);
                    } else {
                        assert(acts[i] == ActionView::SendVote {
                            peer: s.peers[i - st.len()],
                            args: s.vote_request(),
                        });
                        assert(m == s);
                    }
                }
            }
        },
        Step::Settle => {
            lemma_applied_quiet(n);
        },
        Step::Restart { node } => {},
    }
}

/// What a node says does not depend on its clock and its reads.
proof fn lemma_same_words(n: NodeView, l: NodeView, m: NodeView, action: ActionView)
    requires
        truthful(l, m, action),
        l.role == n.role,
        l.current_term == n.current_term,
        l.commit_index == n.commit_index,
        l.log == n.log,
        l.last_included_index == n.last_included_index,
        l.last_included_term == n.last_included_term,
    ensures
        truthful(n, m, action),
{
}

proof fn lemma_votes_kept(c: Cluster, config: ConfigView, id: usize, step: Step)
    requires
        config.finite(),
        config is Simple,
        c.sound(config),
        c.can_step(config, id, step),
    ensures
        c.after(id, step).votes_stand(),
        c.after(id, step).votes_counted(),
{
    let n = c.nodes[id];
    let m = step.node(n);
    let d = c.after(id, step);
    lemma_step_votes(c, config, id, step);
    assert(n.id == id);
    assert forall|t: u64, v: usize, x: usize, y: usize| #[trigger]
        d.granted.contains((t, v, x)) && #[trigger] d.granted.contains((t, v, y)) implies x
        == y by {
        if c.granted.contains((t, v, x)) && c.granted.contains((t, v, y)) {
        } else {
            assert(v == id && t == m.current_term);
        }
    }
    assert forall|t: u64, v: usize, x: usize| #[trigger]
        d.granted.contains((t, v, x)) implies d.nodes.contains_key(v) && (d.nodes[v].current_term
        > t || (d.nodes[v].current_term == t && d.nodes[v].voted_for == Some(x))) by {
        if c.granted.contains((t, v, x)) {
            assert(c.nodes.contains_key(v));
        }
    }
    assert forall|k: usize| #[trigger] d.nodes.contains_key(k) implies {
        &&& d.nodes[k].id == k
        &&& d.nodes[k].role == Role::Candidate ==> d.backed(d.nodes[k]) && d.nodes[k].voted_for
            == Some(k)
        &&& d.nodes[k].role == Role::Leader ==> d.led.contains((d.nodes[k].current_term, k))
        &&& d.nodes[k].voted_for matches Some(x) ==> d.granted.contains(
            (d.nodes[k].current_term, k, x),
        )
    } by {
        if k != id {
            assert(c.nodes.contains_key(k));
        }
        let w = d.nodes[k];
        if w.role == Role::Candidate {
            assert(c.backed(w));
            assert forall|v: usize| #[trigger] w.voters.contains(v) implies (v == w.id
                && w.voted_for == Some(w.id)) || d.granted.contains((w.current_term, v, w.id)) by {
                if c.granted.contains((w.current_term, v, w.id)) {
                    assert(d.granted.contains((w.current_term, v, w.id)));
                }
            }
        }
    }
}

proof fn lemma_elected_kept(
    c: Cluster,
    d: Cluster,
    config: ConfigView,
    t: u64,
    l: usize,
)
    requires
        c.elected(config, t, l),
        c.granted.subset_of(d.granted),
    ensures
        d.elected(config, t, l),
{
    let s = choose|s: Set<usize>| #[trigger]
        config.decides(s) && forall|v: usize| #[trigger]
            s.contains(v) ==> c.granted.contains((t, v, l));
    assert(config.decides(s) && forall|v: usize| #[trigger]
        s.contains(v) ==> d.granted.contains((t, v, l)));
}

proof fn lemma_leaders_kept(c: Cluster, config: ConfigView, id: usize, step: Step)
    requires
        config.finite(),
        config is Simple,
        c.sound(config),
        c.can_step(config, id, step),
    ensures
        c.after(id, step).leaders_elected(config),
{
    let n = c.nodes[id];
    let m = step.node(n);
    let d = c.after(id, step);
    lemma_step_votes(c, config, id, step);
    assert(n.id == id);
    assert forall|t: u64, l: usize| #[trigger] d.led.contains((t, l)) implies {
        &&& d.elected(config, t, l)
        &&& d.nodes.contains_key(l)
        &&& d.nodes[l].current_term >= t
        &&& d.nodes[l].current_term == t ==> d.nodes[l].role != Role::Candidate
    } by {
        if c.led.contains((t, l)) {
            assert(c.elected(config, t, l));
            lemma_elected_kept(c, d, config, t, l);
        } else {
            assert(t == m.current_term && l == id && m.role == Role::Leader);
            assert(!(n.role == Role::Leader && n.current_term == m.current_term));
            assert(config.decides(m.voters));
            assert forall|v: usize| #[trigger] m.voters.contains(v) implies d.granted.contains(
                (t, v, l),
            ) by {}
            assert(d.elected(config, t, l));
        }
    }
}

/// Before a node first leads a term, nothing was made in it.
proof fn lemma_nothing_made(
    c: Cluster,
    config: ConfigView,
    id: usize,
    step: Step,
    q: (int, EntryView, u64),
)
    requires
        config.finite(),
        config is Simple,
        c.sound(config),
        c.can_step(config, id, step),
        c.made.contains(q),
        step.node(c.nodes[id]).role == Role::Leader,
        step.node(c.nodes[id]).current_term == q.1.term,
    ensures
        c.nodes[id].role == Role::Leader,
        c.nodes[id].current_term == q.1.term,
        q.0 <= c.nodes[id].last_index(),
{
    let n = c.nodes[id];
    let m = step.node(n);
    let d = c.after(id, step);
    let t = q.1.term;
    lemma_step_votes(c, config, id, step);
    lemma_votes_kept(c, config, id, step);
    lemma_leaders_kept(c, config, id, step);
    let l = choose|l: usize| c.led.contains((t, l));
    assert(c.led.contains((t, l)));
    assert(d.led.contains((t, l)));
    assert(d.led.contains((t, id)));
    lemma_one_leader(d, config, t, l, id);
}

proof fn lemma_entries_kept(c: Cluster, config: ConfigView, id: usize, step: Step)
    requires
        config.finite(),
        config is Simple,
        c.sound(config),
        c.can_step(config, id, step),
    ensures
        c.after(id, step).entries_unique(),
        c.after(id, step).entries_known(),
{
    let n = c.nodes[id];
    let m = step.node(n);
    let d = c.after(id, step);
    lemma_step_logs(c, config, id, step);
    lemma_votes_kept(c, config, id, step);
    lemma_leaders_kept(c, config, id, step);
    assert forall|q: (int, EntryView, u64)| #[trigger] d.made.contains(q) implies exists|l: usize|
        d.led.contains((q.1.term, l)) by {
        if c.made.contains(q) {
            let l = choose|l: usize| c.led.contains((q.1.term, l));
            assert(d.led.contains((q.1.term, l)));
        } else {
            assert(logged(m).contains(q));
            assert(d.led.contains((q.1.term, id)));
        }
    }
    assert forall|q: (int, EntryView, u64), k: usize|
        #![trigger d.made.contains(q), d.nodes.contains_key(k)]
        d.made.contains(q) && d.nodes.contains_key(k) && d.nodes[k].role == Role::Leader
            && d.nodes[k].current_term == q.1.term implies q.0 <= d.nodes[k].last_index() by {
        if c.made.contains(q) {
            if k == id {
                lemma_nothing_made(c, config, id, step, q);
            } else {
                assert(c.nodes.contains_key(k));
            }
        } else {
            assert(logged(m).contains(q));
            assert(d.led.contains((q.1.term, id)));
            assert(d.led.contains((q.1.term, k)));
            lemma_one_leader(d, config, q.1.term, id, k);
        }
    }
    assert forall|q: (int, EntryView, u64), r: (int, EntryView, u64)| #[trigger]
        d.made.contains(q) && #[trigger] d.made.contains(r) && q.0 == r.0 && q.1.term
            == r.1.term implies q == r by {
        if c.made.contains(q) && c.made.contains(r) {
        } else if c.made.contains(q) {
            assert(logged(m).contains(r));
            lemma_nothing_made(c, config, id, step, q);
        } else if c.made.contains(r) {
            assert(logged(m).contains(q));
            lemma_nothing_made(c, config, id, step, r);
        } else {
            assert(logged(m).contains(q) && logged(m).contains(r));
        }
    }
    assert forall|k: usize| #[trigger] d.nodes.contains_key(k) implies logged(
        d.nodes[k],
    ).subset_of(d.made) by {
        if k != id {
            assert(c.nodes.contains_key(k));
        }
    }
    assert forall|a: AppendView| #[trigger] d.sent.contains(a) implies d.vouches(a) by {
        if !c.sent.contains(a) {
            let acts = step.actions(n);
            let i = choose|i: int|
                0 <= i < acts.len() && (#[trigger] acts[i] matches ActionView::SendAppend {
                    args,
                    ..
                } && args == a);
            lemma_step_says(c, config, id, step, i);
            assert(logged(n).subset_of(c.made));
            lemma_from_log(c, n, a);
        }
        assert(c.vouches(a));
        assert forall|j: int| 0 <= j < a.entries.len() implies d.made.contains(
            #[trigger] carried(a, j),
        ) by {
            assert(c.made.contains(carried(a, j)));
        }
    }
}

/// A cluster that starts is sound.
pub proof fn law_fresh_is_sound(c: Cluster, config: ConfigView)
    requires
        c.fresh(),
    ensures
        c.sound(config),
{
}

/// Whatever a node does next, a sound cluster stays sound, as long as its
/// members are those of one configuration.
pub proof fn law_steps_keep_soundness(c: Cluster, config: ConfigView, id: usize, step: Step)
    requires
        config.finite(),
        config is Simple,
        c.sound(config),
        c.can_step(config, id, step),
    ensures
        c.after(id, step).sound(config),
{
    lemma_votes_kept(c, config, id, step);
    lemma_leaders_kept(c, config, id, step);
    lemma_entries_kept(c, config, id, step);
}

impl Cluster {
    /// The cluster after steps, in order.
    pub open spec fn run(self, steps: Seq<(usize, Step)>) -> Cluster
        decreases steps.len(),
    {
        if steps.len() == 0 {
            self
        } else {
            self.run(steps.drop_last()).after(steps.last().0, steps.last().1)
        }
    }

    /// Each of the steps can be taken when its turn comes.
    pub open spec fn can_run(self, config: ConfigView, steps: Seq<(usize, Step)>) -> bool
        decreases steps.len(),
    {
        steps.len() == 0 || (self.can_run(config, steps.drop_last()) && self.run(
            steps.drop_last(),
        ).can_step(config, steps.last().0, steps.last().1))
    }
}

/// Every cluster that came about from a fresh one by steps of its nodes is
/// sound.
pub proof fn law_runs_are_sound(c: Cluster, config: ConfigView, steps: Seq<(usize, Step)>)
    requires
        config.finite(),
        config is Simple,
        c.fresh(),
        c.can_run(config, steps),
    ensures
        c.run(steps).sound(config),
    decreases steps.len(),
{
    if steps.len() == 0 {
        law_fresh_is_sound(c, config);
    } else {
        law_runs_are_sound(c, config, steps.drop_last());
        law_steps_keep_soundness(
            c.run(steps.drop_last()),
            config,
            steps.last().0,
            steps.last().1,
        );
    }
}

/// No split brain: at most one node ever leads a term.
pub proof fn law_one_leader_per_term(c: Cluster, config: ConfigView, t: u64, l: usize, k: usize)
    requires
        config.finite(),
        c.sound(config),
        c.led.contains((t, l)),
        c.led.contains((t, k)),
    ensures
        l == k,
{
    lemma_one_leader(c, config, t, l, k);
}

/// Logs match: where the logs of two nodes hold an entry of the same term at
/// the same index, they hold the same entries up to there, as far as snapshots
/// have not taken their place.
pub proof fn law_logs_match(
    c: Cluster,
    config: ConfigView,
    a: usize,
    b: usize,
    index: int,
    before: int,
)
    requires
        c.sound(config),
        c.nodes.contains_key(a),
        c.nodes.contains_key(b),
        c.nodes[a].last_included_index < before <= index <= c.nodes[a].last_index(),
        c.nodes[b].last_included_index < before <= index <= c.nodes[b].last_index(),
        c.nodes[a].entry(index).term == c.nodes[b].entry(index).term,
    ensures
        c.nodes[a].entry(before) == c.nodes[b].entry(before),
    decreases index - before,
{
    let m = c.nodes[a];
    let n = c.nodes[b];
    let q = (index, m.entry(index), m.entry(index - 1).term);
    let r = (index, n.entry(index), n.entry(index - 1).term);
    assert(logged(m).contains(q));
    assert(logged(n).contains(r));
    assert(c.made.contains(q) && c.made.contains(r));
    if before < index {
        law_logs_match(c, config, a, b, index - 1, before);
    }
}

/// An entry that a leader made in its term is in its log for as long as it
/// leads that term.
pub proof fn law_leaders_keep_their_entries(
    c: Cluster,
    config: ConfigView,
    id: usize,
    q: (int, EntryView, u64),
)
    requires
        c.sound(config),
        c.nodes.contains_key(id),
        c.nodes[id].role == Role::Leader,
        c.made.contains(q),
        q.1.term == c.nodes[id].current_term,
    ensures
        q.0 <= c.nodes[id].last_index(),
{
}

} // verus!
