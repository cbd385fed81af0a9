//! What a cluster has committed stays committed: every later leader has it,
//! and no two nodes ever apply different entries at the same index.

use crate::raft::append::{agree_up_to, agreement, lemma_agreement_exists, merged};
use crate::raft::apply::lemma_applied;
use crate::raft::chain::{
    held, lemma_all_more, lemma_below, lemma_end, lemma_next, lemma_rising, lemma_rooted,
    lemma_same_below, lemma_stands_range, lemma_start, lemma_term_at_end, named, ordered, passes,
    rooted, stands, term_at,
};
use crate::raft::cluster::{
    carried, law_fresh_is_sound, law_steps_keep_soundness, lemma_alone, lemma_leading_frame,
    lemma_merged, lemma_one_leader, lemma_resumed, lemma_step_logs, lemma_step_says,
    lemma_step_votes, lemma_vote_source, logged, vote_frame, with_log, Cluster, Step,
};
use crate::raft::command::EntryView;
use crate::raft::config::{ConfigView, Role};
use crate::raft::drive::RpcView;
use crate::raft::heartbeat::lemma_first_index;
use crate::raft::laws::{commands, law_quorums_meet, lemma_answer_taken};
use crate::raft::leader::{lemma_slot_of, reached};
use crate::raft::moves::{
    goes_on, grows, lemma_answer_moves, lemma_answered, lemma_leading, lemma_plain_applied,
    lemma_restored_log, lemma_same_log, lemma_settle_moves, lemma_take_moves, moves, plain,
};
use crate::raft::node::{ActionView, AppendEntriesReply, AppendView, NodeView, RequestVoteArgs};
use crate::raft::order::sorted_ids;
use vstd::prelude::*;

verus! {

impl ConfigView {
    /// Every member has an address of its own.
    pub open spec fn apart(self) -> bool {
        forall|a: usize, b: usize| #[trigger]
            self.everyone().contains_key(a) && #[trigger] self.everyone().contains_key(b) && a != b
                ==> self.everyone()[a]@ != self.everyone()[b]@
    }
}

/// The term that a request to append holds at index `j`.
pub open spec fn told(a: AppendView, j: int) -> u64 {
    if j <= a.prev_log_index {
        a.prev_log_term
    } else {
        a.entries[j - a.prev_log_index - 1].term
    }
}

impl Cluster {
    /// The node can take the step, and nothing is made up: what it hears was
    /// said. A node without peers is alone, and members stay the same.
    pub open spec fn can_step_safely(self, config: ConfigView, id: usize, step: Step) -> bool {
        let n = self.nodes[id];
        &&& self.can_step(config, id, step)
        &&& n.peers.len() == 0 ==> config.everyone().len() == 1
        &&& match step {
            Step::Hear { msg: RpcView::RequestVote(a) } => self.asked.contains(a),
            Step::Hear { msg: RpcView::AppendEntriesResponse(r) } => n.role == Role::Leader
                && r.term == n.current_term && r.success ==> self.acked.contains(
                (r.term, r.peer_id, r.match_index as int),
            ),
            Step::Hear { msg: RpcView::InstallSnapshot(a) } => self.snapped.contains(
                (a.term, a.last_included_index as int, a.last_included_term),
            ),
            Step::Hear { msg: RpcView::InstallSnapshotResponse(r) } => self.rested.contains(
                (r.term, r.peer_id, r.last_included_index as int),
            ),
            Step::Propose { command } => !(command is Membership),
            Step::Restart { node } => node.change is Idle,
            _ => true,
        }
    }

    /// An entry is committed: in its own term, members enough to decide held
    /// the log of the leader up to it.
    pub open spec fn committed(self, config: ConfigView, q: (int, EntryView, u64)) -> bool {
        self.made.contains(q) && exists|s: Set<usize>| #[trigger]
            config.decides(s) && forall|x: usize| #[trigger]
                s.contains(x) ==> self.acked.contains((q.1.term, x, q.0))
    }

    /// An entry may still be committed by `s`: whoever of them does not hold
    /// it has not gone on to a later term.
    pub open spec fn choosable(
        self,
        config: ConfigView,
        q: (int, EntryView, u64),
        s: Set<usize>,
    ) -> bool {
        &&& self.made.contains(q)
        &&& config.decides(s)
        &&& forall|x: usize| #[trigger]
            s.contains(x) ==> self.acked.contains((q.1.term, x, q.0)) || (
            self.nodes.contains_key(x) ==> self.nodes[x].current_term <= q.1.term)
    }

    /// Up to `index` everything is decided, by what was committed up to the
    /// term `t`.
    pub open spec fn decided(self, config: ConfigView, t: u64, index: int) -> bool {
        index <= 0 || exists|q: (int, EntryView, u64)| #[trigger]
            self.committed(config, q) && q.1.term <= t && index <= q.0
    }

    /// What the node takes for committed is: its log agrees with one that ends
    /// in a committed entry.
    pub open spec fn agreed(self, config: ConfigView, n: NodeView) -> bool {
        n.commit_index == 0 || exists|q: (int, EntryView, u64)| #[trigger]
            self.committed(config, q) && q.1.term <= n.current_term && n.commit_index <= q.0
                && held(self.made, n, n.commit_index as int) == term_at(
                self.made,
                q.0,
                q.1.term,
                n.commit_index as int,
            )
    }

    /// What a leader noted of the member `x` is right: the member holds the log
    /// up to there, or that is decided, or it is from before the leader's term.
    pub open spec fn credible(self, config: ConfigView, n: NodeView, x: usize) -> bool {
        let v = n.matched(x) as int;
        ||| v <= n.last_index() && held(self.made, n, v) < n.current_term
        ||| self.acked.contains((n.current_term, x, v))
        ||| self.decided(config, n.current_term, v)
    }

    /// Everything that was made has a beginning, and so has every log.
    pub open spec fn chains_hold(self) -> bool {
        &&& ordered(self.made)
        &&& forall|q: (int, EntryView, u64)| #[trigger]
            self.made.contains(q) ==> q.0 >= 1 && stands(self.made, q.0, q.1.term) && !(
            q.1.command is Membership)
        &&& forall|id: usize| #[trigger]
            self.nodes.contains_key(id) ==> self.node_holds(self.nodes[id])
    }

    /// The log of a node is in order, and so are its indexes.
    pub open spec fn node_holds(self, n: NodeView) -> bool {
        &&& rooted(self.made, n)
        &&& n.wf()
        &&& n.sane()
        &&& n.followed()
        &&& n.change is Idle
        &&& n.last_term() <= n.current_term
        &&& n.role == Role::Candidate ==> n.last_term() < n.current_term
        &&& n.role == Role::Leader ==> n.last_term() == n.current_term
    }

    /// All that was made in a term is in the log of its leader.
    pub open spec fn peaks_hold(self) -> bool {
        &&& forall|t: u64| #[trigger]
            self.peak.contains_key(t) ==> self.peak[t] >= 1 && stands(self.made, self.peak[t], t)
                && exists|l: usize| self.led.contains((t, l))
        &&& forall|t: u64, l: usize| #[trigger]
            self.led.contains((t, l)) ==> self.peak.contains_key(t)
        &&& forall|q: (int, EntryView, u64)| #[trigger]
            self.made.contains(q) ==> self.peak.contains_key(q.1.term) && passes(
                self.made,
                self.peak[q.1.term],
                q.1.term,
                q,
            )
        &&& forall|id: usize| #[trigger]
            self.nodes.contains_key(id) && self.nodes[id].role == Role::Leader
                ==> self.peak.contains_key(self.nodes[id].current_term)
                && self.peak[self.nodes[id].current_term] == self.nodes[id].last_index()
    }

    /// Who said to hold the log of a leader does so while the term lasts.
    pub open spec fn acks_hold(self) -> bool {
        &&& forall|t: u64, x: usize, i: int| #[trigger]
            self.acked.contains((t, x, i)) ==> {
                &&& 0 <= i
                &&& self.nodes.contains_key(x)
                &&& self.nodes[x].current_term >= t
                &&& self.peak.contains_key(t)
                &&& i <= self.peak[t]
                &&& self.nodes[x].current_term == t ==> i <= self.nodes[x].last_index() && held(
                    self.made,
                    self.nodes[x],
                    i,
                ) == term_at(self.made, self.peak[t], t, i)
            }
        &&& forall|t: u64, x: usize, i: int, k: int| #[trigger]
            self.acked.contains((t, x, i)) && 0 <= k <= i ==> #[trigger] self.acked.contains(
                (t, x, k),
            )
    }

    /// Who holds an entry that may be committed keeps it.
    pub open spec fn holders_keep(self, config: ConfigView) -> bool {
        forall|q: (int, EntryView, u64), s: Set<usize>, x: usize|
            #![trigger self.choosable(config, q, s), s.contains(x)]
            self.choosable(config, q, s) && s.contains(x) && self.acked.contains(
                (q.1.term, x, q.0),
            ) ==> passes(self.made, self.nodes[x].last_index(), self.nodes[x].last_term(), q)
    }

    /// Whatever is made in a later term follows an entry that may be
    /// committed.
    pub open spec fn leaders_complete(self, config: ConfigView) -> bool {
        forall|q: (int, EntryView, u64), s: Set<usize>, r: (int, EntryView, u64)|
            #![trigger self.choosable(config, q, s), self.made.contains(r)]
            self.choosable(config, q, s) && self.made.contains(r) && r.1.term > q.1.term ==> passes(
                self.made,
                r.0,
                r.1.term,
                q,
            )
    }

    /// Votes go to candidates that have what the voter has of all that may be
    /// committed.
    pub open spec fn votes_hold(self, config: ConfigView) -> bool {
        &&& forall|t: u64, v: usize, l: usize| #[trigger]
            self.granted.contains((t, v, l)) ==> self.nodes.contains_key(l)
                && self.nodes[l].current_term >= t
        &&& forall|a: RequestVoteArgs| #[trigger]
            self.asked.contains(a) ==> {
                let n = self.nodes[a.candidate_id];
                &&& self.nodes.contains_key(a.candidate_id)
                &&& n.current_term >= a.term
                &&& n.current_term == a.term && n.role == Role::Candidate ==> n.last_index()
                    == a.last_log_index && n.last_term() == a.last_log_term
            }
        &&& forall|x: usize, l: usize, q: (int, EntryView, u64), s: Set<usize>|
            #![trigger self.nodes.contains_key(l), self.choosable(config, q, s), s.contains(x)]
            self.nodes.contains_key(l) && self.nodes[l].role == Role::Candidate
                && self.granted.contains((self.nodes[l].current_term, x, l)) && self.choosable(
                config,
                q,
                s,
            ) && s.contains(x) && q.1.term < self.nodes[l].current_term && self.acked.contains(
                (q.1.term, x, q.0),
            ) ==> passes(self.made, self.nodes[l].last_index(), self.nodes[l].last_term(), q)
    }

    /// What is on its way is right: it comes from the log of a leader, and
    /// what it calls committed is decided.
    pub open spec fn messages_hold(self, config: ConfigView) -> bool {
        &&& forall|a: AppendView| #[trigger]
            self.sent.contains(a) ==> {
                &&& self.peak.contains_key(a.term)
                &&& a.prev_log_index + a.entries.len() <= self.peak[a.term]
                &&& a.leader_commit <= a.prev_log_index + a.entries.len()
                &&& self.decided(config, a.term, a.leader_commit as int)
                &&& forall|j: int|
                    a.prev_log_index <= j <= a.prev_log_index + a.entries.len() ==> #[trigger] told(
                        a,
                        j,
                    ) == term_at(self.made, self.peak[a.term], a.term, j)
            }
        &&& forall|t: u64, k: int, u: u64| #[trigger]
            self.snapped.contains((t, k, u)) ==> {
                &&& self.peak.contains_key(t)
                &&& 0 <= k <= self.peak[t]
                &&& term_at(self.made, self.peak[t], t, k) == u
                &&& self.decided(config, t, k)
            }
        &&& forall|t: u64, x: usize, k: int| #[trigger]
            self.rested.contains((t, x, k)) ==> self.decided(config, t, k)
    }

    /// What nodes take for committed is committed, and what leaders note of
    /// the others is right.
    pub open spec fn commits_hold(self, config: ConfigView) -> bool {
        &&& forall|id: usize| #[trigger]
            self.nodes.contains_key(id) ==> {
                let n = self.nodes[id];
                &&& self.agreed(config, n)
                &&& n.role == Role::Leader ==> forall|x: usize|
                    n.config.everyone().contains_key(x) ==> #[trigger] self.credible(config, n, x)
            }
        &&& forall|t: u64, x: usize, i: int| #[trigger]
            self.acked.contains((t, x, i)) ==> config.everyone().contains_key(x)
    }

    /// What holds at all times where nothing is made up.
    pub open spec fn safe(self, config: ConfigView) -> bool {
        &&& self.sound(config)
        &&& self.chains_hold()
        &&& self.peaks_hold()
        &&& self.acks_hold()
        &&& self.holders_keep(config)
        &&& self.leaders_complete(config)
        &&& self.votes_hold(config)
        &&& self.messages_hold(config)
        &&& self.commits_hold(config)
    }
}

proof fn lemma_plain(c: Cluster, n: NodeView)
    requires
        c.chains_hold(),
        logged(n).subset_of(c.made),
    ensures
        plain(n),
{
    assert forall|i: int| 1 <= i < n.log.len() implies !((
    #[trigger] n.log[i]).command is Membership) by {
        let k = n.last_included_index + i;
        let q = (k, n.entry(k), n.entry(k - 1).term);
        assert(logged(n).contains(q));
        assert(c.made.contains(q));
    }
}

/// What a committed entry needs to be committed.
proof fn lemma_choosable(c: Cluster, config: ConfigView, q: (int, EntryView, u64)) -> (s: Set<
    usize,
>)
    requires
        c.committed(config, q),
    ensures
        c.choosable(config, q, s),
        forall|x: usize| #[trigger] s.contains(x) ==> c.acked.contains((q.1.term, x, q.0)),
{
    choose|s: Set<usize>| #[trigger]
        config.decides(s) && forall|x: usize| #[trigger]
            s.contains(x) ==> c.acked.contains((q.1.term, x, q.0))
}

/// The log of every leader from then on holds what may be committed.
proof fn lemma_peak_passes(
    c: Cluster,
    config: ConfigView,
    q: (int, EntryView, u64),
    s: Set<usize>,
    t: u64,
)
    requires
        c.peaks_hold(),
        c.leaders_complete(config),
        c.choosable(config, q, s),
        c.peak.contains_key(t),
        t >= q.1.term,
    ensures
        passes(c.made, c.peak[t], t, q),
{
    if t > q.1.term {
        lemma_end(c.made, c.peak[t], t);
        let r = named(c.made, c.peak[t], t);
        assert(c.made.contains(r));
    }
}

/// At index `j` the node holds what the leader of term `t` holds.
spec fn with_leader(c: Cluster, n: NodeView, t: u64, j: int) -> bool {
    c.peak.contains_key(t) ==> j <= c.peak[t] && term_at(c.made, c.peak[t], t, j) == held(
        c.made,
        n,
        j,
    )
}

/// What a node takes for committed, the leaders from then on hold.
proof fn lemma_agreed(c: Cluster, config: ConfigView, n: NodeView, t: u64)
    requires
        c.chains_hold(),
        c.peaks_hold(),
        c.leaders_complete(config),
        rooted(c.made, n),
        n.commit_index <= n.last_index(),
        c.agreed(config, n),
        t >= n.current_term,
    ensures
        with_leader(c, n, t, n.commit_index as int),
{
    let k = n.commit_index as int;
    if c.peak.contains_key(t) {
        lemma_rooted(c.made, n);
        if k == 0 {
            lemma_below(c.made, c.peak[t], t, 0, 0);
            lemma_stands_range(c.made, 0, term_at(c.made, c.peak[t], t, 0));
            lemma_below(c.made, n.last_index(), n.last_term(), 0, 0);
            lemma_stands_range(c.made, 0, held(c.made, n, 0));
        } else {
            let q = choose|q: (int, EntryView, u64)| #[trigger]
                c.committed(config, q) && q.1.term <= n.current_term && n.commit_index <= q.0
                    && held(c.made, n, k) == term_at(c.made, q.0, q.1.term, k);
            let s = lemma_choosable(c, config, q);
            lemma_peak_passes(c, config, q, s, t);
            assert(stands(c.made, q.0, q.1.term));
            lemma_term_at_end(c.made, q.0, q.1.term);
            lemma_same_below(c.made, c.peak[t], t, q.0, q.1.term, q.0, k);
        }
    }
}

/// The log after entries of a leader were taken: up to their end it is the
/// leader's, and nothing is lost on which the node agreed with the leader.
proof fn lemma_taken(c: Cluster, config: ConfigView, n: NodeView, m: NodeView, a: AppendView)
    requires
        c.chains_hold(),
        c.peaks_hold(),
        c.messages_hold(config),
        c.sent.contains(a),
        n.accepts(a),
        rooted(c.made, n),
        rooted(c.made, m),
        m.last_included_index == n.last_included_index,
        m.last_included_term == n.last_included_term,
        m.log == merged(n.log, n.append_pos(a), a.entries),
    ensures
        a.prev_log_index + a.entries.len() <= m.last_index(),
        forall|j: int|
            0 <= j <= a.prev_log_index + a.entries.len() ==> #[trigger] held(c.made, m, j)
                == term_at(c.made, c.peak[a.term], a.term, j),
        forall|j: int|
            0 <= j <= n.last_index() && #[trigger] with_leader(c, n, a.term, j) ==> j
                <= m.last_index() && held(c.made, m, j) == held(c.made, n, j),
{
    let prev = a.prev_log_index as int;
    let top = prev + a.entries.len();
    let p = n.append_pos(a);
    let t = a.term;
    let peak = c.peak[t];
    lemma_agreement_exists(n.log, p, a.entries, 0);
    let k = agreement(n.log, p, a.entries);
    assert(agree_up_to(n.log, p, a.entries, k));
    lemma_rooted(c.made, n);
    lemma_rooted(c.made, m);
    assert(m.last_index() >= top);
    assert(held(c.made, m, top) == term_at(c.made, peak, t, top)) by {
        assert(told(a, top) == term_at(c.made, peak, t, top));
        if k < a.entries.len() {
            assert(m.entry(top) == a.entries[a.entries.len() - 1]);
        } else if k > 0 {
            assert(n.log[p + (k - 1)].term == a.entries[k - 1].term);
            assert(m.entry(top) == n.log[p + (k - 1)]);
        } else {
            assert(m.entry(top) == n.entry(prev));
        }
    }
    assert forall|j: int| 0 <= j <= top implies #[trigger] held(c.made, m, j) == term_at(
        c.made,
        peak,
        t,
        j,
    ) by {
        lemma_same_below(c.made, m.last_index(), m.last_term(), peak, t, top, j);
    }
    assert forall|j: int|
        0 <= j <= n.last_index() && #[trigger] with_leader(c, n, t, j) implies j <= m.last_index()
        && held(c.made, m, j) == held(c.made, n, j) by {
        if k < a.entries.len() {
            let cut = prev + 1 + k;
            if j >= cut {
                lemma_same_below(c.made, n.last_index(), n.last_term(), peak, t, j, cut);
                assert(told(a, cut) == term_at(c.made, peak, t, cut));
                assert(held(c.made, n, cut) == n.entry(cut).term);
                assert(n.entry(cut) == n.log[p + k]);
                assert(false);
            }
            assert(m.entry(cut - 1) == n.entry(cut - 1));
            assert(held(c.made, m, cut - 1) == held(c.made, n, cut - 1));
            lemma_same_below(
                c.made,
                m.last_index(),
                m.last_term(),
                n.last_index(),
                n.last_term(),
                cut - 1,
                j,
            );
        } else {
            assert(m.log == n.log);
        }
    }
}

/// Every step of a safe cluster moves its node in one of these ways.
proof fn lemma_moves(c: Cluster, config: ConfigView, id: usize, step: Step)
    requires
        config.finite(),
        config is Simple,
        c.safe(config),
        c.can_step_safely(config, id, step),
    ensures
        moves(c.nodes[id], step.node(c.nodes[id]), step),
{
    let n = c.nodes[id];
    let m = step.node(n);
    assert(n.id == id);
    assert(c.node_holds(n));
    lemma_plain(c, n);
    lemma_step_votes(c, config, id, step);
    match step {
        Step::Hear { msg } => match msg {
            RpcView::RequestVote(a) => {
                lemma_same_log(n, m);
            },
            RpcView::RequestVoteResponse(r) => {
                if n.counts(r) && n.config.decides(n.with_vote(r).voters) {
                    let w = n.with_vote(r);
                    assert(plain(w));
                    lemma_leading(w);
                } else {
                    lemma_same_log(n, m);
                }
            },
            RpcView::AppendEntries(a) => {
                if n.accepts(a) {
                    lemma_step_logs(c, config, id, step);
                    lemma_overlap(c, config, id, a);
                    assert forall|j: int| 0 <= j < a.entries.len() implies !((
                    #[trigger] a.entries[j]).command is Membership) by {
                        assert(c.made.contains(carried(a, j)));
                    }
                    lemma_take_moves(n, a);
                } else {
                    lemma_same_log(n, m);
                }
            },
            RpcView::AppendEntriesResponse(r) => {
                if n.role == Role::Leader && r.term == n.current_term {
                    lemma_answer_moves(n, msg);
                } else {
                    lemma_same_log(n, m);
                }
            },
            RpcView::InstallSnapshot(a) => {
                if !n.installs(a) {
                    lemma_same_log(n, m);
                }
            },
            RpcView::InstallSnapshotResponse(r) => {
                lemma_slot_of(n, r.peer_id);
                if n.role == Role::Leader && r.term == n.current_term && n.slot_of(r.peer_id)
                    is Some {
                } else {
                    lemma_same_log(n, m);
                }
            },
            RpcView::TimeoutNow(a) => {
                lemma_same_log(n, m);
            },
            RpcView::TimeoutNowResponse(r) => {
                lemma_same_log(n, m);
            },
        },
        Step::Propose { command } => {
            let w = n.with_command(command);
            assert(plain(w)) by {
                assert forall|i: int| 1 <= i < w.log.len() implies !((
                #[trigger] w.log[i]).command is Membership) by {
                    if i < n.log.len() {
                        assert(w.log[i] == n.log[i]);
                    }
                }
            }
            if w.peers.len() == 0 && w.last_index() > w.commit_index {
                let b = NodeView { commit_index: w.last_index() as usize, ..w };
                assert(plain(b));
                lemma_plain_applied(b);
            }
            assert(grows(n, m));
        },
        Step::Read { request } => {
            lemma_same_log(n, m);
        },
        Step::Turn { elapsed_ms, timeout_ms } => {
            let l = n.later();
            if l.role != Role::Leader && elapsed_ms > l.election_timeout_ms {
                let w = NodeView { election_timeout_ms: timeout_ms, ..l.standing() };
                if w.config.everyone().len() == 1 {
                    assert(plain(w));
                    lemma_leading(w);
                    assert(grows(n, m));
                } else {
                    lemma_same_log(n, m);
                }
            } else {
                lemma_same_log(n, m);
            }
        },
        Step::Settle => {
            lemma_settle_moves(n);
        },
        Step::Restart { node } => {
            lemma_resumed(n, node);
        },
    }
}

/// Entries of a leader replace nothing that a node takes for committed.
proof fn lemma_overlap(c: Cluster, config: ConfigView, id: usize, a: AppendView)
    requires
        c.safe(config),
        c.can_step_safely(config, id, Step::Hear { msg: RpcView::AppendEntries(a) }),
        c.nodes[id].accepts(a),
    ensures
        ({
            let n = c.nodes[id];
            n.commit_index <= merged(n.log, n.append_pos(a), a.entries).len()
                + n.last_included_index - 1
        }),
{
    let n = c.nodes[id];
    let m = with_log(n, merged(n.log, n.append_pos(a), a.entries));
    assert(c.node_holds(n));
    lemma_merged_known(c, n, a);
    lemma_agreed(c, config, n, a.term);
    lemma_taken(c, config, n, m, a);
    assert(with_leader(c, n, a.term, n.commit_index as int));
}

/// A log with the entries of a request has a beginning.
proof fn lemma_merged_known(c: Cluster, n: NodeView, a: AppendView)
    requires
        rooted(c.made, n),
        c.vouches(a),
        n.accepts(a),
    ensures
        rooted(c.made, with_log(n, merged(n.log, n.append_pos(a), a.entries))),
{
    lemma_agreement_exists(n.log, n.append_pos(a), a.entries, 0);
    lemma_merged(c, n, a);
}

/// A safe cluster, a step, and what came of it.
spec fn steps(c: Cluster, d: Cluster, config: ConfigView, id: usize, step: Step) -> bool {
    &&& config.finite()
    &&& config is Simple
    &&& config.apart()
    &&& c.safe(config)
    &&& c.can_step_safely(config, id, step)
    &&& d == c.after(id, step)
    &&& d.sound(config)
    &&& moves(c.nodes[id], step.node(c.nodes[id]), step)
    &&& vote_frame(c, config, c.nodes[id], step.node(c.nodes[id]))
}

proof fn lemma_steps(c: Cluster, config: ConfigView, id: usize, step: Step)
    requires
        config.finite(),
        config is Simple,
        config.apart(),
        c.safe(config),
        c.can_step_safely(config, id, step),
    ensures
        steps(c, c.after(id, step), config, id, step),
{
    lemma_moves(c, config, id, step);
    lemma_step_votes(c, config, id, step);
    law_steps_keep_soundness(c, config, id, step);
}

/// What a step makes is the last entry of a leader.
proof fn lemma_new(
    c: Cluster,
    d: Cluster,
    config: ConfigView,
    id: usize,
    step: Step,
    q: (int, EntryView, u64),
)
    requires
        steps(c, d, config, id, step),
        d.made.contains(q),
        !c.made.contains(q),
    ensures
        grows(c.nodes[id], d.nodes[id]),
        q == (d.nodes[id].last_index(), d.nodes[id].log.last(), c.nodes[id].last_term()),
        q.0 == c.nodes[id].last_index() + 1,
{
    let n = c.nodes[id];
    let m = step.node(n);
    assert(c.node_holds(n));
    lemma_step_logs(c, config, id, step);
    assert(logged(m).contains(q));
    assert(m.role == Role::Leader && n.last_index() < q.0);
    assert(grows(n, m));
    assert(m.log.last() == m.entry(q.0));
    assert(m.log[m.log.len() - 2] == n.log.last());
}

/// What a step made, and what it left.
proof fn lemma_ordered(c: Cluster, d: Cluster, config: ConfigView, id: usize, step: Step)
    requires
        steps(c, d, config, id, step),
    ensures
        c.made.subset_of(d.made),
        ordered(d.made),
        forall|k: int, t: u64| #[trigger] stands(c.made, k, t) ==> stands(d.made, k, t),
        forall|k: int, t: u64, j: int|
            stands(c.made, k, t) && j >= 0 ==> #[trigger] term_at(d.made, k, t, j) == term_at(
                c.made,
                k,
                t,
                j,
            ),
{
    assert forall|q: (int, EntryView, u64)| #[trigger] d.made.contains(q) implies q.2
        <= q.1.term by {
        if !c.made.contains(q) {
            lemma_new(c, d, config, id, step, q);
            assert(c.node_holds(c.nodes[id]));
        }
    }
    lemma_all_more(c.made, d.made);
}

/// The log with one more entry.
proof fn lemma_grown_log(c: Cluster, d: Cluster, config: ConfigView, id: usize, step: Step)
    requires
        steps(c, d, config, id, step),
        grows(c.nodes[id], d.nodes[id]),
    ensures
        ({
            let n = c.nodes[id];
            let m = d.nodes[id];
            &&& m.last_index() == n.last_index() + 1
            &&& m.last_term() == m.current_term
            &&& stands(d.made, m.last_index(), m.last_term())
            &&& forall|j: int|
                0 <= j <= n.last_index() ==> #[trigger] held(d.made, m, j) == held(c.made, n, j)
        }),
{
    let n = c.nodes[id];
    let m = d.nodes[id];
    assert(c.node_holds(n));
    lemma_ordered(c, d, config, id, step);
    lemma_rooted(c.made, n);
    let q = (m.last_index(), m.log.last(), n.last_term());
    assert(m.log[m.log.len() - 2] == n.log.last());
    assert(logged(m).contains(q));
    assert(d.made.contains(q));
    lemma_stands_range(c.made, n.last_index(), n.last_term());
    assert forall|j: int| 0 <= j <= n.last_index() implies #[trigger] held(d.made, m, j) == held(
        c.made,
        n,
        j,
    ) by {
        lemma_next(d.made, q, j);
    }
    lemma_next(d.made, q, 0);
}

proof fn lemma_chains(c: Cluster, d: Cluster, config: ConfigView, id: usize, step: Step)
    requires
        steps(c, d, config, id, step),
    ensures
        d.chains_hold(),
{
    let n = c.nodes[id];
    let m = d.nodes[id];
    lemma_ordered(c, d, config, id, step);
    assert forall|q: (int, EntryView, u64)| #[trigger] d.made.contains(q) implies q.0 >= 1
        && stands(d.made, q.0, q.1.term) && !(q.1.command is Membership) by {
        if !c.made.contains(q) {
            lemma_new(c, d, config, id, step, q);
            lemma_grown_log(c, d, config, id, step);
            assert(c.node_holds(n));
        }
    }
    assert forall|x: usize| #[trigger] d.nodes.contains_key(x) implies d.node_holds(
        d.nodes[x],
    ) by {
        if x == id {
            lemma_node_kept(c, d, config, id, step);
        } else {
            assert(c.nodes.contains_key(x));
            assert(c.node_holds(c.nodes[x]));
        }
    }
}

/// A node stays well-formed, and a leader notes no one beyond its log.
proof fn lemma_ready_kept(c: Cluster, d: Cluster, config: ConfigView, id: usize, step: Step)
    requires
        steps(c, d, config, id, step),
    ensures
        d.nodes[id].wf(),
        d.nodes[id].followed(),
{
    let n = c.nodes[id];
    let m = d.nodes[id];
    assert(n.id == id);
    assert(c.node_holds(n));
    match step {
        Step::Hear { msg } => match msg {
            RpcView::RequestVoteResponse(r) => {
                if n.counts(r) && n.config.decides(n.with_vote(r).voters) {
                    lemma_leading_frame(n.with_vote(r));
                }
            },
            RpcView::AppendEntries(a) => {
                if n.accepts(a) {
                    let f = NodeView {
                        current_leader_address: Some(a.leader_address),
                        ..n.following(a.term, a.leader_id)
                    };
                    let w = f.with_entries(a);
                    lemma_agreement_exists(n.log, n.append_pos(a), a.entries, 0);
                    assert(w.log[0] == n.log[0]);
                    assert(w.wf());
                    lemma_applied(w);
                }
            },
            RpcView::AppendEntriesResponse(r) => {
                if n.role == Role::Leader && r.term == n.current_term {
                    lemma_answer_ready(c, config, id, r);
                }
            },
            RpcView::InstallSnapshotResponse(r) => {
                if n.role == Role::Leader && r.term == n.current_term {
                    let k = r.last_included_index as int;
                    if k > 0 {
                        let q = lemma_decided_agrees(c, config, r.term, k);
                    }
                    lemma_slot_of(n, r.peer_id);
                }
            },
            _ => {},
        },
        Step::Propose { command } => {
            let w = n.with_command(command);
            assert(w.log[0] == n.log[0]);
            assert(w.wf() && w.followed());
            if w.peers.len() == 0 && w.last_index() > w.commit_index {
                lemma_applied(NodeView { commit_index: w.last_index() as usize, ..w });
            }
        },
        Step::Read { request } => {},
        Step::Turn { elapsed_ms, timeout_ms } => {
            let l = n.later();
            if l.role != Role::Leader && elapsed_ms > l.election_timeout_ms {
                let w = NodeView { election_timeout_ms: timeout_ms, ..l.standing() };
                if w.config.everyone().len() == 1 {
                    lemma_leading_frame(w);
                }
            }
        },
        Step::Settle => {
            lemma_applied(n);
        },
        Step::Restart { node } => {},
    }
}

/// An answer leaves a leader well-formed: no one answers beyond its log.
proof fn lemma_answer_ready(
    c: Cluster,
    config: ConfigView,
    id: usize,
    r: AppendEntriesReply,
)
    requires
        c.safe(config),
        c.can_step_safely(config, id, Step::Hear { msg: RpcView::AppendEntriesResponse(r) }),
        c.nodes[id].role == Role::Leader,
        r.term == c.nodes[id].current_term,
    ensures
        c.nodes[id].append_answered(r).wf(),
        c.nodes[id].append_answered(r).followed(),
{
    let n = c.nodes[id];
    let w = n.answered(r);
    assert(c.node_holds(n));
    lemma_answer_taken(n, r);
    lemma_slot_of(n, r.peer_id);
    lemma_answered(n, r);
    assert(w.followed()) by {
        reveal(NodeView::answered);
    }
    reveal(NodeView::committed);
    if w.may_commit() {
        lemma_applied(NodeView { commit_index: w.majority_index(), ..w });
    }
}

proof fn lemma_node_kept(c: Cluster, d: Cluster, config: ConfigView, id: usize, step: Step)
    requires
        steps(c, d, config, id, step),
    ensures
        d.node_holds(d.nodes[id]),
{
    let n = c.nodes[id];
    let m = d.nodes[id];
    assert(c.node_holds(n));
    lemma_ready_kept(c, d, config, id, step);
    lemma_ordered(c, d, config, id, step);
    lemma_rooted(c.made, n);
    assert(logged(m).subset_of(d.made));
    if goes_on(n, m) {
        let k = m.last_included_index as int;
        assert(held(c.made, n, k) == n.entry(k).term);
        lemma_below(c.made, n.last_index(), n.last_term(), k, k);
    } else if grows(n, m) {
        assert(m.log[0] == n.log[0]);
    } else {
        match step {
            Step::Hear { msg: RpcView::AppendEntries(a) } => {
                lemma_overlap(c, config, id, a);
                lemma_merged_known(c, n, a);
                let w = with_log(n, m.log);
                lemma_taken(c, config, n, w, a);
                lemma_agreement_exists(n.log, n.append_pos(a), a.entries, 0);
                let k = agreement(n.log, n.append_pos(a), a.entries);
                assert(m.log[0] == n.log[0]);
                if k < a.entries.len() {
                    let top = a.prev_log_index + a.entries.len();
                    assert(m.log.last() == a.entries.last());
                    assert(told(a, top) == m.last_term());
                    lemma_below(c.made, c.peak[a.term], a.term, top, top);
                }
            },
            Step::Hear { msg: RpcView::InstallSnapshot(a) } => {
                let k = a.last_included_index as int;
                lemma_below(c.made, c.peak[a.term], a.term, k, k);
                lemma_restored_log(n, m, a);
            },
            _ => {},
        }
    }
}

/// Who takes the lead finds no log of that term.
proof fn lemma_new_peak(c: Cluster, d: Cluster, config: ConfigView, id: usize, step: Step)
    requires
        steps(c, d, config, id, step),
        d.nodes[id].role == Role::Leader,
        c.peak.contains_key(d.nodes[id].current_term),
    ensures
        c.nodes[id].role == Role::Leader,
        c.nodes[id].current_term == d.nodes[id].current_term,
        c.peak[d.nodes[id].current_term] == c.nodes[id].last_index(),
{
    let n = c.nodes[id];
    let m = d.nodes[id];
    let t = m.current_term;
    let l = choose|l: usize| c.led.contains((t, l));
    assert(c.led.contains((t, l)));
    assert(d.led.contains((t, l)));
    assert(d.led.contains((t, id)));
    lemma_one_leader(d, config, t, l, id);
}

proof fn lemma_peaks(c: Cluster, d: Cluster, config: ConfigView, id: usize, step: Step)
    requires
        steps(c, d, config, id, step),
        d.chains_hold(),
    ensures
        d.peaks_hold(),
        forall|t: u64| #[trigger]
            c.peak.contains_key(t) ==> d.peak.contains_key(t) && c.peak[t] <= d.peak[t],
        forall|t: u64, j: int|
            #![trigger term_at(d.made, d.peak[t], t, j)]
            c.peak.contains_key(t) && 0 <= j <= c.peak[t] ==> term_at(d.made, d.peak[t], t, j)
                == term_at(c.made, c.peak[t], t, j),
{
    let n = c.nodes[id];
    let m = d.nodes[id];
    let u = m.current_term;
    assert(n.id == id);
    assert(c.node_holds(n));
    assert(d.nodes.contains_key(id));
    assert(d.node_holds(m));
    lemma_ordered(c, d, config, id, step);
    lemma_rooted(c.made, n);
    lemma_rooted(d.made, m);
    lemma_stands_range(d.made, m.last_index(), m.last_term());
    if m.role == Role::Leader {
        if c.peak.contains_key(u) {
            lemma_new_peak(c, d, config, id, step);
        }
        if grows(n, m) {
            lemma_grown_log(c, d, config, id, step);
        } else {
            assert(m.last_index() == n.last_index() && m.last_term() == n.last_term());
        }
    }
    assert forall|t: u64| #[trigger] c.peak.contains_key(t) implies d.peak.contains_key(t)
        && c.peak[t] <= d.peak[t] by {}
    assert forall|t: u64, j: int|
        #![trigger term_at(d.made, d.peak[t], t, j)]
        c.peak.contains_key(t) && 0 <= j <= c.peak[t] implies term_at(d.made, d.peak[t], t, j)
        == term_at(c.made, c.peak[t], t, j) by {
        assert(stands(c.made, c.peak[t], t));
        if m.role == Role::Leader && t == u {
            assert(held(d.made, m, j) == held(c.made, n, j));
        }
    }
    assert forall|t: u64| #[trigger] d.peak.contains_key(t) implies d.peak[t] >= 1 && stands(
        d.made,
        d.peak[t],
        t,
    ) && exists|l: usize| d.led.contains((t, l)) by {
        if m.role == Role::Leader && t == u {
            assert(d.led.contains((t, id)));
            if m.last_index() == 0 {
                lemma_stands_range(d.made, 0, u);
                assert(grows(n, m) || n.role == Role::Leader);
            }
        } else {
            assert(c.peak.contains_key(t));
            let l = choose|l: usize| c.led.contains((t, l));
            assert(d.led.contains((t, l)));
        }
    }
    assert forall|q: (int, EntryView, u64)| #[trigger] d.made.contains(
        q,
    ) implies d.peak.contains_key(q.1.term) && passes(d.made, d.peak[q.1.term], q.1.term, q) by {
        let t = q.1.term;
        if c.made.contains(q) {
            assert(q.0 >= 1);
            assert(c.peak.contains_key(t));
            assert(term_at(d.made, d.peak[t], t, q.0) == term_at(c.made, c.peak[t], t, q.0));
        } else {
            lemma_new(c, d, config, id, step, q);
            lemma_term_at_end(d.made, m.last_index(), m.last_term());
        }
    }
    assert forall|x: usize| #[trigger]
        d.nodes.contains_key(x) && d.nodes[x].role == Role::Leader implies d.peak.contains_key(
        d.nodes[x].current_term,
    ) && d.peak[d.nodes[x].current_term] == d.nodes[x].last_index() by {
        if x != id {
            assert(c.nodes.contains_key(x));
            let t = d.nodes[x].current_term;
            if m.role == Role::Leader && t == u {
                assert(d.led.contains((t, x)));
                assert(d.led.contains((t, id)));
                lemma_one_leader(d, config, t, x, id);
            }
        }
    }
}

/// Nothing leaves a log on which the node agrees with the leader that it
/// hears.
proof fn lemma_held(c: Cluster, d: Cluster, config: ConfigView, id: usize, step: Step, j: int)
    requires
        steps(c, d, config, id, step),
        d.chains_hold(),
        0 <= j <= c.nodes[id].last_index(),
        d.nodes[id].role != Role::Follower || with_leader(
            c,
            c.nodes[id],
            d.nodes[id].current_term,
            j,
        ),
    ensures
        j <= d.nodes[id].last_index(),
        held(d.made, d.nodes[id], j) == held(c.made, c.nodes[id], j),
{
    let n = c.nodes[id];
    let m = d.nodes[id];
    assert(c.node_holds(n));
    assert(d.nodes.contains_key(id));
    assert(d.node_holds(m));
    lemma_ordered(c, d, config, id, step);
    lemma_rooted(c.made, n);
    lemma_rooted(d.made, m);
    if goes_on(n, m) {
    } else if grows(n, m) {
        lemma_grown_log(c, d, config, id, step);
    } else {
        match step {
            Step::Hear { msg: RpcView::AppendEntries(a) } => {
                lemma_merged_known(c, n, a);
                let w = with_log(n, m.log);
                lemma_taken(c, config, n, w, a);
                lemma_rooted(c.made, w);
                assert(with_leader(c, n, a.term, j));
                assert(held(c.made, w, j) == held(c.made, n, j));
                assert(held(d.made, m, j) == held(c.made, w, j));
            },
            Step::Hear { msg: RpcView::InstallSnapshot(a) } => {
                let k = a.last_included_index as int;
                let t = a.term;
                lemma_restored_log(n, m, a);
                if n.agrees_at(a.last_included_index, a.last_included_term) {
                } else {
                    if j > k {
                        lemma_same_below(c.made, n.last_index(), n.last_term(), c.peak[t], t, j, k);
                        assert(held(c.made, n, k) == n.entry(k).term);
                    }
                    lemma_below(c.made, c.peak[t], t, k, j);
                }
            },
            _ => {},
        }
    }
}

proof fn lemma_new_acks(
    c: Cluster,
    d: Cluster,
    config: ConfigView,
    id: usize,
    step: Step,
    i: int,
)
    requires
        steps(c, d, config, id, step),
        d.chains_hold(),
        step.acks(c.nodes[id]).contains((d.nodes[id].current_term, id, i)),
    ensures
        ({
            let m = d.nodes[id];
            let t = m.current_term;
            &&& 0 <= i <= m.last_index()
            &&& d.peak.contains_key(t)
            &&& i <= d.peak[t]
            &&& held(d.made, m, i) == term_at(d.made, d.peak[t], t, i)
        }),
{
    let n = c.nodes[id];
    let m = d.nodes[id];
    assert(c.node_holds(n));
    assert(d.nodes.contains_key(id));
    assert(d.node_holds(m));
    lemma_ordered(c, d, config, id, step);
    lemma_peaks(c, d, config, id, step);
    if m.role == Role::Leader {
    } else {
        let a = step->msg->AppendEntries_0;
        lemma_merged_known(c, n, a);
        let w = with_log(n, m.log);
        lemma_taken(c, config, n, w, a);
        lemma_rooted(c.made, w);
        assert(held(c.made, w, i) == term_at(c.made, c.peak[a.term], a.term, i));
        assert(held(d.made, m, i) == held(c.made, w, i));
    }
}

proof fn lemma_acks(c: Cluster, d: Cluster, config: ConfigView, id: usize, step: Step)
    requires
        steps(c, d, config, id, step),
        d.chains_hold(),
        d.peaks_hold(),
    ensures
        d.acks_hold(),
{
    let n = c.nodes[id];
    let m = d.nodes[id];
    assert(n.id == id);
    lemma_ordered(c, d, config, id, step);
    lemma_peaks(c, d, config, id, step);
    assert forall|t: u64, x: usize, i: int| #[trigger] d.acked.contains((t, x, i)) implies {
        &&& 0 <= i
        &&& d.nodes.contains_key(x)
        &&& d.nodes[x].current_term >= t
        &&& d.peak.contains_key(t)
        &&& i <= d.peak[t]
        &&& d.nodes[x].current_term == t ==> i <= d.nodes[x].last_index() && held(
            d.made,
            d.nodes[x],
            i,
        ) == term_at(d.made, d.peak[t], t, i)
    } by {
        if c.acked.contains((t, x, i)) {
            assert(c.nodes.contains_key(x));
            assert(term_at(d.made, d.peak[t], t, i) == term_at(c.made, c.peak[t], t, i));
            if d.nodes[x].current_term == t {
                assert(c.node_holds(c.nodes[x]));
                lemma_rooted(c.made, c.nodes[x]);
                if x == id {
                    assert(with_leader(c, n, t, i));
                    lemma_held(c, d, config, id, step, i);
                } else {
                    assert(held(d.made, d.nodes[x], i) == held(c.made, c.nodes[x], i));
                }
            }
        } else {
            lemma_new_acks(c, d, config, id, step, i);
        }
    }
    assert forall|t: u64, x: usize, i: int, k: int| #[trigger]
        d.acked.contains((t, x, i)) && 0 <= k <= i implies #[trigger] d.acked.contains(
        (t, x, k),
    ) by {
        if c.acked.contains((t, x, i)) {
            assert(c.acked.contains((t, x, k)));
        } else {
            assert(step.acks(n).contains((t, x, i)));
            assert(step.acks(n).contains((t, x, k)));
        }
    }
}

/// What may be committed after a step could be before.
proof fn lemma_shrinks(
    c: Cluster,
    d: Cluster,
    config: ConfigView,
    id: usize,
    step: Step,
    q: (int, EntryView, u64),
    s: Set<usize>,
)
    requires
        steps(c, d, config, id, step),
        c.made.contains(q),
        d.choosable(config, q, s),
    ensures
        c.choosable(config, q, s),
{
    assert forall|x: usize| #[trigger] s.contains(x) implies c.acked.contains((q.1.term, x, q.0))
        || (c.nodes.contains_key(x) ==> c.nodes[x].current_term <= q.1.term) by {
        if d.acked.contains((q.1.term, x, q.0)) {
        } else {
            assert(d.nodes.contains_key(x) ==> d.nodes[x].current_term <= q.1.term);
        }
    }
}

/// An entry that a step makes is held by no one but the leader.
proof fn lemma_unheld(
    c: Cluster,
    d: Cluster,
    config: ConfigView,
    id: usize,
    step: Step,
    q: (int, EntryView, u64),
    x: usize,
)
    requires
        steps(c, d, config, id, step),
        d.made.contains(q),
        !c.made.contains(q),
        d.acked.contains((q.1.term, x, q.0)),
    ensures
        x == id,
        d.nodes[id].current_term == q.1.term,
{
    lemma_new(c, d, config, id, step, q);
    assert(c.nodes[id].id == id);
    if c.acked.contains((q.1.term, x, q.0)) {
        lemma_new_peak(c, d, config, id, step);
    }
}

proof fn lemma_holders(c: Cluster, d: Cluster, config: ConfigView, id: usize, step: Step)
    requires
        steps(c, d, config, id, step),
        d.chains_hold(),
        d.peaks_hold(),
    ensures
        d.holders_keep(config),
{
    let n = c.nodes[id];
    let m = d.nodes[id];
    assert(n.id == id);
    lemma_ordered(c, d, config, id, step);
    assert forall|q: (int, EntryView, u64), s: Set<usize>, x: usize|
        #![trigger d.choosable(config, q, s), s.contains(x)]
        d.choosable(config, q, s) && s.contains(x) && d.acked.contains(
            (q.1.term, x, q.0),
        ) implies passes(d.made, d.nodes[x].last_index(), d.nodes[x].last_term(), q) by {
        let t = q.1.term;
        if c.acked.contains((t, x, q.0)) {
            if !c.made.contains(q) {
                lemma_unheld(c, d, config, id, step, q, x);
                lemma_new(c, d, config, id, step, q);
                lemma_new_peak(c, d, config, id, step);
            }
            lemma_shrinks(c, d, config, id, step, q, s);
            assert(c.nodes.contains_key(x));
            assert(c.node_holds(c.nodes[x]));
            lemma_rooted(c.made, c.nodes[x]);
            assert(passes(c.made, c.nodes[x].last_index(), c.nodes[x].last_term(), q));
            if x == id {
                if c.peak.contains_key(m.current_term) {
                    lemma_peak_passes(c, config, q, s, m.current_term);
                }
                assert(with_leader(c, n, m.current_term, q.0));
                lemma_held(c, d, config, id, step, q.0);
            }
        } else {
            assert(step.acks(n).contains((t, x, q.0)));
            lemma_new_acks(c, d, config, id, step, q.0);
        }
    }
}

/// Who newly leads has what may be committed.
proof fn lemma_winner(
    c: Cluster,
    d: Cluster,
    config: ConfigView,
    id: usize,
    step: Step,
    q: (int, EntryView, u64),
    s: Set<usize>,
)
    requires
        steps(c, d, config, id, step),
        c.made.contains(q),
        d.choosable(config, q, s),
        d.nodes[id].role == Role::Leader,
        d.nodes[id].current_term > q.1.term,
    ensures
        passes(c.made, c.nodes[id].last_index(), c.nodes[id].last_term(), q),
{
    let n = c.nodes[id];
    let m = d.nodes[id];
    let u = m.current_term;
    assert(n.id == id);
    assert(c.node_holds(n));
    lemma_rooted(c.made, n);
    lemma_shrinks(c, d, config, id, step, q, s);
    if n.role == Role::Leader && n.current_term == u {
        lemma_peak_passes(c, config, q, s, u);
    } else {
        law_quorums_meet(config, m.voters, s);
        let x = choose|x: usize| #[trigger] m.voters.contains(x) && s.contains(x);
        assert(c.backed(m));
        assert((x == id && m.voted_for == Some(id)) || c.granted.contains((u, x, id)));
        if x == id {
            assert(d.nodes[x].current_term > q.1.term);
        } else {
            assert(c.nodes.contains_key(x));
            assert(d.nodes[x].current_term >= u);
        }
        assert(d.acked.contains((q.1.term, x, q.0)));
        assert(c.acked.contains((q.1.term, x, q.0)));
        if n.role == Role::Candidate && n.current_term == u {
            assert(c.granted.contains((u, x, id)));
        } else {
            assert(x == id) by {
                if x != id {
                    assert(c.granted.contains((u, x, id)));
                }
            }
        }
    }
}

proof fn lemma_complete(c: Cluster, d: Cluster, config: ConfigView, id: usize, step: Step)
    requires
        steps(c, d, config, id, step),
        d.chains_hold(),
    ensures
        d.leaders_complete(config),
{
    let n = c.nodes[id];
    let m = d.nodes[id];
    assert(n.id == id);
    lemma_ordered(c, d, config, id, step);
    assert forall|q: (int, EntryView, u64), s: Set<usize>, r: (int, EntryView, u64)|
        #![trigger d.choosable(config, q, s), d.made.contains(r)]
        d.choosable(config, q, s) && d.made.contains(r) && r.1.term > q.1.term implies passes(
        d.made,
        r.0,
        r.1.term,
        q,
    ) by {
        if c.made.contains(q) {
            lemma_shrinks(c, d, config, id, step, q, s);
            if c.made.contains(r) {
                assert(passes(c.made, r.0, r.1.term, q));
                assert(stands(c.made, r.0, r.1.term));
            } else {
                lemma_new(c, d, config, id, step, r);
                lemma_winner(c, d, config, id, step, q, s);
                lemma_grown_log(c, d, config, id, step);
                assert(held(d.made, m, q.0) == held(c.made, n, q.0));
            }
        } else {
            lemma_new(c, d, config, id, step, q);
            if !c.made.contains(r) {
                lemma_new(c, d, config, id, step, r);
            }
            let u = r.1.term;
            let l = choose|l: usize| c.led.contains((u, l));
            assert(c.led.contains((u, l)));
            assert(c.elected(config, u, l));
            let v = choose|v: Set<usize>| #[trigger]
                config.decides(v) && forall|y: usize| #[trigger]
                    v.contains(y) ==> c.granted.contains((u, y, l));
            law_quorums_meet(config, v, s);
            let x = choose|x: usize| #[trigger] v.contains(x) && s.contains(x);
            assert(c.granted.contains((u, x, l)));
            assert(d.granted.contains((u, x, l)));
            assert(d.nodes[x].current_term >= u);
            assert(d.acked.contains((q.1.term, x, q.0)));
            lemma_unheld(c, d, config, id, step, q, x);
        }
    }
}

proof fn lemma_votes(c: Cluster, d: Cluster, config: ConfigView, id: usize, step: Step)
    requires
        steps(c, d, config, id, step),
        d.chains_hold(),
    ensures
        d.votes_hold(config),
{
    let n = c.nodes[id];
    let m = d.nodes[id];
    assert(n.id == id);
    assert(c.node_holds(n));
    lemma_vote_source(c, config, id, step);
    lemma_ordered(c, d, config, id, step);
    assert forall|t: u64, v: usize, l: usize| #[trigger]
        d.granted.contains((t, v, l)) implies d.nodes.contains_key(l) && d.nodes[l].current_term
        >= t by {
        if !c.granted.contains((t, v, l)) {
            assert(v == id && m.voted_for == Some(l) && t == m.current_term);
            if l != id {
                let a = step->msg->RequestVote_0;
                assert(c.asked.contains(a));
            }
        }
    }
    assert forall|a: RequestVoteArgs| #[trigger] d.asked.contains(a) implies {
        let w = d.nodes[a.candidate_id];
        &&& d.nodes.contains_key(a.candidate_id)
        &&& w.current_term >= a.term
        &&& w.current_term == a.term && w.role == Role::Candidate ==> w.last_index()
            == a.last_log_index && w.last_term() == a.last_log_term
    } by {
        if !c.asked.contains(a) {
            let acts = step.actions(n);
            let i = choose|i: int|
                0 <= i < acts.len() && (#[trigger] acts[i] matches ActionView::SendVote {
                    args,
                    ..
                } && args == a);
            lemma_step_says(c, config, id, step, i);
        }
    }
    assert forall|x: usize, l: usize, q: (int, EntryView, u64), s: Set<usize>|
        #![trigger d.nodes.contains_key(l), d.choosable(config, q, s), s.contains(x)]
        d.nodes.contains_key(l) && d.nodes[l].role == Role::Candidate && d.granted.contains(
            (d.nodes[l].current_term, x, l),
        ) && d.choosable(config, q, s) && s.contains(x) && q.1.term < d.nodes[l].current_term
            && d.acked.contains((q.1.term, x, q.0)) implies passes(
        d.made,
        d.nodes[l].last_index(),
        d.nodes[l].last_term(),
        q,
    ) by {
        let u = d.nodes[l].current_term;
        assert(d.nodes[x].current_term >= u);
        if !c.made.contains(q) {
            lemma_unheld(c, d, config, id, step, q, x);
        }
        assert(c.acked.contains((q.1.term, x, q.0)));
        lemma_shrinks(c, d, config, id, step, q, s);
        lemma_vote_kept(c, d, config, id, step, x, l, q, s);
    }
}

proof fn lemma_vote_kept(
    c: Cluster,
    d: Cluster,
    config: ConfigView,
    id: usize,
    step: Step,
    x: usize,
    l: usize,
    q: (int, EntryView, u64),
    s: Set<usize>,
)
    requires
        steps(c, d, config, id, step),
        d.chains_hold(),
        c.made.contains(q),
        c.choosable(config, q, s),
        c.acked.contains((q.1.term, x, q.0)),
        s.contains(x),
        d.nodes.contains_key(l),
        d.nodes[l].role == Role::Candidate,
        d.granted.contains((d.nodes[l].current_term, x, l)),
        q.1.term < d.nodes[l].current_term,
    ensures
        passes(d.made, d.nodes[l].last_index(), d.nodes[l].last_term(), q),
{
    let n = c.nodes[id];
    let m = d.nodes[id];
    let u = d.nodes[l].current_term;
    assert(n.id == id);
    assert(c.node_holds(n));
    lemma_vote_source(c, config, id, step);
    lemma_ordered(c, d, config, id, step);
    assert(c.nodes.contains_key(l));
    let k = c.nodes[l];
    assert(c.node_holds(k));
    lemma_rooted(c.made, k);
    assert(d.nodes[l].last_index() == k.last_index() && d.nodes[l].last_term() == k.last_term())
        by {
        if l == id {
            assert(goes_on(n, m));
        }
    }
    assert(passes(c.made, k.last_index(), k.last_term(), q)) by {
        if c.granted.contains((u, x, l)) {
            if l == id {
                assert(n.role == Role::Candidate && n.current_term == u);
            }
        } else {
            assert(x == id && m.voted_for == Some(l) && u == m.current_term);
            assert(passes(c.made, n.last_index(), n.last_term(), q));
            if l != id {
                let a = step->msg->RequestVote_0;
                assert(c.asked.contains(a));
                assert(n.up_to_date(a));
                lemma_more_complete(c, config, n, k, q, s);
            }
        }
    }
}

/// A log that is at least as complete as one that holds what may be committed
/// holds it too.
proof fn lemma_more_complete(
    c: Cluster,
    config: ConfigView,
    n: NodeView,
    k: NodeView,
    q: (int, EntryView, u64),
    s: Set<usize>,
)
    requires
        c.chains_hold(),
        c.peaks_hold(),
        c.leaders_complete(config),
        c.choosable(config, q, s),
        rooted(c.made, n),
        rooted(c.made, k),
        passes(c.made, n.last_index(), n.last_term(), q),
        k.last_term() > n.last_term() || (k.last_term() == n.last_term() && k.last_index()
            >= n.last_index()),
    ensures
        passes(c.made, k.last_index(), k.last_term(), q),
{
    assert(q.0 >= 1);
    lemma_rooted(c.made, n);
    lemma_rooted(c.made, k);
    lemma_below(c.made, n.last_index(), n.last_term(), q.0, q.0);
    let t = k.last_term();
    lemma_end(c.made, k.last_index(), t);
    let r = named(c.made, k.last_index(), t);
    assert(c.made.contains(r));
    if t == q.1.term {
        lemma_term_at_end(c.made, k.last_index(), t);
        lemma_same_below(c.made, c.peak[t], t, k.last_index(), t, r.0, q.0);
    }
}

proof fn lemma_committed_kept(
    c: Cluster,
    d: Cluster,
    config: ConfigView,
    q: (int, EntryView, u64),
)
    requires
        c.committed(config, q),
        c.made.subset_of(d.made),
        c.acked.subset_of(d.acked),
    ensures
        d.committed(config, q),
{
    let s = choose|s: Set<usize>| #[trigger]
        config.decides(s) && forall|x: usize| #[trigger]
            s.contains(x) ==> c.acked.contains((q.1.term, x, q.0));
    assert(config.decides(s) && forall|x: usize| #[trigger]
        s.contains(x) ==> d.acked.contains((q.1.term, x, q.0)));
}

proof fn lemma_decided_kept(c: Cluster, d: Cluster, config: ConfigView, t: u64, k: int)
    requires
        c.decided(config, t, k),
        c.made.subset_of(d.made),
        c.acked.subset_of(d.acked),
    ensures
        d.decided(config, t, k),
{
    if k > 0 {
        let q = choose|q: (int, EntryView, u64)| #[trigger]
            c.committed(config, q) && q.1.term <= t && k <= q.0;
        lemma_committed_kept(c, d, config, q);
    }
}

/// What a node takes for committed is decided.
proof fn lemma_agreed_decided(c: Cluster, config: ConfigView, n: NodeView, k: int)
    requires
        c.agreed(config, n),
        k <= n.commit_index,
    ensures
        c.decided(config, n.current_term, k),
{
    if n.commit_index > 0 {
        let q = choose|q: (int, EntryView, u64)| #[trigger]
            c.committed(config, q) && q.1.term <= n.current_term && n.commit_index <= q.0 && held(
                c.made,
                n,
                n.commit_index as int,
            ) == term_at(c.made, q.0, q.1.term, n.commit_index as int);
        assert(c.committed(config, q));
    }
}

/// What a leader sends comes from its log.
proof fn lemma_sent(
    c: Cluster,
    d: Cluster,
    config: ConfigView,
    id: usize,
    step: Step,
    a: AppendView,
)
    requires
        steps(c, d, config, id, step),
        d.sent.contains(a),
        !c.sent.contains(a),
    ensures
        c.peak.contains_key(a.term),
        a.prev_log_index + a.entries.len() <= c.peak[a.term],
        a.leader_commit <= a.prev_log_index + a.entries.len(),
        c.decided(config, a.term, a.leader_commit as int),
        forall|j: int|
            a.prev_log_index <= j <= a.prev_log_index + a.entries.len() ==> #[trigger] told(a, j)
                == term_at(c.made, c.peak[a.term], a.term, j),
{
    let n = c.nodes[id];
    let acts = step.actions(n);
    let i = choose|i: int|
        0 <= i < acts.len() && (#[trigger] acts[i] matches ActionView::SendAppend { args, .. }
            && args == a);
    assert(c.node_holds(n));
    lemma_step_says(c, config, id, step, i);
    lemma_agreed_decided(c, config, n, n.commit_index as int);
    lemma_rooted(c.made, n);
    assert forall|j: int|
        a.prev_log_index <= j <= a.prev_log_index + a.entries.len() implies #[trigger] told(a, j)
        == term_at(c.made, c.peak[a.term], a.term, j) by {
        assert(held(c.made, n, j) == n.entry(j).term);
    }
}

/// A snapshot that a leader sends comes from its log.
proof fn lemma_snapped(
    c: Cluster,
    d: Cluster,
    config: ConfigView,
    id: usize,
    step: Step,
    t: u64,
    k: int,
    u: u64,
)
    requires
        steps(c, d, config, id, step),
        d.snapped.contains((t, k, u)),
        !c.snapped.contains((t, k, u)),
    ensures
        c.peak.contains_key(t),
        0 <= k <= c.peak[t],
        term_at(c.made, c.peak[t], t, k) == u,
        c.decided(config, t, k),
{
    let n = c.nodes[id];
    let acts = step.actions(n);
    let i = choose|i: int|
        0 <= i < acts.len() && (#[trigger] acts[i] matches ActionView::SendSnapshot {
            term,
            last_included_index,
            last_included_term,
            ..
        } && (t, k, u) == (term, last_included_index as int, last_included_term));
    assert(c.node_holds(n));
    lemma_step_says(c, config, id, step, i);
    lemma_agreed_decided(c, config, n, k);
    lemma_rooted(c.made, n);
    assert(held(c.made, n, k) == n.entry(k).term);
}

proof fn lemma_messages(c: Cluster, d: Cluster, config: ConfigView, id: usize, step: Step)
    requires
        steps(c, d, config, id, step),
        d.chains_hold(),
        d.agreed(config, d.nodes[id]),
    ensures
        d.messages_hold(config),
{
    let m = d.nodes[id];
    lemma_ordered(c, d, config, id, step);
    lemma_peaks(c, d, config, id, step);
    assert forall|a: AppendView| #[trigger] d.sent.contains(a) implies {
        &&& d.peak.contains_key(a.term)
        &&& a.prev_log_index + a.entries.len() <= d.peak[a.term]
        &&& a.leader_commit <= a.prev_log_index + a.entries.len()
        &&& d.decided(config, a.term, a.leader_commit as int)
        &&& forall|j: int|
            a.prev_log_index <= j <= a.prev_log_index + a.entries.len() ==> #[trigger] told(a, j)
                == term_at(d.made, d.peak[a.term], a.term, j)
    } by {
        let t = a.term;
        if !c.sent.contains(a) {
            lemma_sent(c, d, config, id, step, a);
        }
        lemma_decided_kept(c, d, config, t, a.leader_commit as int);
        assert forall|j: int|
            a.prev_log_index <= j <= a.prev_log_index + a.entries.len() implies #[trigger] told(
            a,
            j,
        ) == term_at(d.made, d.peak[t], t, j) by {
            assert(told(a, j) == term_at(c.made, c.peak[t], t, j));
        }
    }
    assert forall|t: u64, k: int, u: u64| #[trigger] d.snapped.contains((t, k, u)) implies {
        &&& d.peak.contains_key(t)
        &&& 0 <= k <= d.peak[t]
        &&& term_at(d.made, d.peak[t], t, k) == u
        &&& d.decided(config, t, k)
    } by {
        if !c.snapped.contains((t, k, u)) {
            lemma_snapped(c, d, config, id, step, t, k, u);
        }
        lemma_decided_kept(c, d, config, t, k);
        assert(term_at(d.made, d.peak[t], t, k) == term_at(c.made, c.peak[t], t, k));
    }
    assert forall|t: u64, x: usize, k: int| #[trigger] d.rested.contains((t, x, k)) implies d.decided(
        config,
        t,
        k,
    ) by {
        if c.rested.contains((t, x, k)) {
            lemma_decided_kept(c, d, config, t, k);
        } else {
            assert(d.nodes.contains_key(id));
            assert(d.node_holds(m));
            lemma_agreed_decided(d, config, m, k);
        }
    }
}

/// The log of a leader agrees with what is decided.
proof fn lemma_decided_agrees(
    c: Cluster,
    config: ConfigView,
    t: u64,
    k: int,
) -> (q: (int, EntryView, u64))
    requires
        c.chains_hold(),
        c.peaks_hold(),
        c.leaders_complete(config),
        c.peak.contains_key(t),
        c.decided(config, t, k),
        k > 0,
    ensures
        c.committed(config, q),
        q.1.term <= t,
        k <= q.0,
        k <= c.peak[t],
        term_at(c.made, c.peak[t], t, k) == term_at(c.made, q.0, q.1.term, k),
        stands(c.made, q.0, q.1.term),
{
    let q = choose|q: (int, EntryView, u64)| #[trigger]
        c.committed(config, q) && q.1.term <= t && k <= q.0;
    let s = lemma_choosable(c, config, q);
    lemma_peak_passes(c, config, q, s, t);
    assert(c.made.contains(q));
    lemma_term_at_end(c.made, q.0, q.1.term);
    lemma_same_below(c.made, c.peak[t], t, q.0, q.1.term, q.0, k);
    q
}

/// What a leader notes of the others stays right.
proof fn lemma_noted(
    c: Cluster,
    d: Cluster,
    config: ConfigView,
    id: usize,
    step: Step,
    m: NodeView,
    x: usize,
)
    requires
        steps(c, d, config, id, step),
        rooted(c.made, m),
        c.credible(config, m, x),
    ensures
        d.credible(config, m, x),
{
    lemma_ordered(c, d, config, id, step);
    lemma_rooted(c.made, m);
    let v = m.matched(x) as int;
    if c.decided(config, m.current_term, v) {
        lemma_decided_kept(c, d, config, m.current_term, v);
    }
}

/// Members are noted in places of their own.
proof fn lemma_places_apart(n: NodeView, config: ConfigView, x: usize, y: usize)
    requires
        n.config == config,
        config.apart(),
        config.everyone().contains_key(x),
        config.everyone().contains_key(y),
        n.slot_of(x) is Some,
        n.slot_of(x) == n.slot_of(y),
    ensures
        x == y,
{
    let all = config.everyone();
    lemma_first_index(n.peers, all[x]@, n.peers.index_of(all[x]@));
    lemma_first_index(n.peers, all[y]@, n.peers.index_of(all[y]@));
}

/// A leader notes what it learns.
proof fn lemma_learnt(c: Cluster, d: Cluster, config: ConfigView, id: usize, step: Step, x: usize)
    requires
        steps(c, d, config, id, step),
        d.nodes[id].role == Role::Leader,
        !grows(c.nodes[id], d.nodes[id]),
        config.everyone().contains_key(x),
    ensures
        c.nodes[id].role == Role::Leader,
        c.nodes[id].current_term == d.nodes[id].current_term,
        c.credible(config, d.nodes[id], x),
{
    let n = c.nodes[id];
    let m = d.nodes[id];
    assert(n.id == id);
    assert(c.node_holds(n));
    assert(m.last_index() == n.last_index() && m.last_term() == n.last_term());
    assert(n.role == Role::Leader && n.current_term == m.current_term);
    assert(m.slot_of(x) == n.slot_of(x));
    assert(c.credible(config, n, x));
    lemma_slot_of(n, x);
    if m.matched(x) != n.matched(x) {
        match step {
            Step::Hear { msg: RpcView::AppendEntriesResponse(r) } => {
                assert(c.acked.contains((r.term, r.peer_id, r.match_index as int)));
                assert(n.slot_of(r.peer_id) == n.slot_of(x));
                lemma_places_apart(n, config, x, r.peer_id);
            },
            Step::Hear { msg: RpcView::InstallSnapshotResponse(r) } => {
                assert(c.decided(config, r.term, r.last_included_index as int));
            },
            _ => {},
        }
    }
}

/// What a leader commits is held by members enough to decide, or was decided
/// before.
proof fn lemma_counted(c: Cluster, d: Cluster, config: ConfigView, id: usize, step: Step)
    requires
        steps(c, d, config, id, step),
        d.chains_hold(),
        d.peaks_hold(),
        d.acks_hold(),
        d.nodes[id].role == Role::Leader,
        !grows(c.nodes[id], d.nodes[id]),
        d.nodes[id].commit_index != c.nodes[id].commit_index,
    ensures
        d.agreed(config, d.nodes[id]),
{
    let n = c.nodes[id];
    let m = d.nodes[id];
    let t = m.current_term;
    let k = m.commit_index as int;
    let known = m.known_progress();
    let members = config.everyone().dom();
    let s = reached(known, m.commit_index).intersect(members);
    assert(s.intersect(members) =~= reached(known, m.commit_index).intersect(members));
    assert(n.id == id);
    assert(c.node_holds(n));
    assert(d.nodes.contains_key(id));
    assert(d.node_holds(m));
    lemma_ordered(c, d, config, id, step);
    lemma_rooted(c.made, n);
    lemma_rooted(d.made, m);
    assert(config.decides(s));
    assert(held(d.made, m, k) == t);
    if forall|x: usize| #[trigger] s.contains(x) ==> d.acked.contains((t, x, k)) {
        lemma_below(d.made, m.last_index(), m.last_term(), k, k);
        lemma_stands_range(c.made, n.last_index(), n.last_term());
        lemma_end(d.made, k, t);
        let q = named(d.made, k, t);
        assert(d.committed(config, q));
        lemma_term_at_end(d.made, k, t);
    } else {
        let x = choose|x: usize| #[trigger] s.contains(x) && !d.acked.contains((t, x, k));
        let j = choose|j: int|
            0 <= j < known.len() && (#[trigger] known[j]).0 == x && known[j].1 >= m.commit_index;
        if j == 0 {
            assert(step.acks(n).contains((t, id, k)));
        } else {
            lemma_learnt(c, d, config, id, step, x);
            let v = m.matched(x) as int;
            let ids = sorted_ids(m.config.everyone().dom().remove(id));
            assert(known[j] == (ids[j - 1], m.matched(ids[j - 1])));
            if v <= m.last_index() && held(c.made, m, v) < t {
                lemma_rising(d.made, m.last_index(), m.last_term(), k, v);
            }
            if c.acked.contains((t, x, v)) {
                assert(c.acked.contains((t, x, k)));
            }
            assert(c.decided(config, t, v));
            lemma_decided_lower(c, config, t, v, k);
            let q = lemma_decided_agrees(c, config, t, k);
            lemma_committed_kept(c, d, config, q);
            assert(c.peak[t] == n.last_index());
            assert(held(d.made, m, k) == term_at(d.made, q.0, q.1.term, k));
        }
    }
}

proof fn lemma_decided_lower(c: Cluster, config: ConfigView, t: u64, v: int, k: int)
    requires
        c.decided(config, t, v),
        k <= v,
    ensures
        c.decided(config, t, k),
{
    if k > 0 {
        let q = choose|q: (int, EntryView, u64)| #[trigger]
            c.committed(config, q) && q.1.term <= t && v <= q.0;
        assert(c.committed(config, q));
    }
}

/// What a node takes for committed is.
proof fn lemma_node_agreed(c: Cluster, d: Cluster, config: ConfigView, id: usize, step: Step)
    requires
        steps(c, d, config, id, step),
        d.chains_hold(),
        d.peaks_hold(),
        d.acks_hold(),
    ensures
        d.agreed(config, d.nodes[id]),
{
    let n = c.nodes[id];
    let m = d.nodes[id];
    let k = m.commit_index as int;
    assert(n.id == id);
    assert(c.node_holds(n));
    assert(d.nodes.contains_key(id));
    assert(d.node_holds(m));
    lemma_ordered(c, d, config, id, step);
    lemma_rooted(c.made, n);
    lemma_rooted(d.made, m);
    if m.commit_index == n.commit_index {
        if k > 0 {
            lemma_agreed(c, config, n, m.current_term);
            lemma_held(c, d, config, id, step, k);
            let q = choose|q: (int, EntryView, u64)| #[trigger]
                c.committed(config, q) && q.1.term <= n.current_term && n.commit_index <= q.0
                    && held(c.made, n, k) == term_at(c.made, q.0, q.1.term, k);
            assert(c.made.contains(q));
            lemma_committed_kept(c, d, config, q);
        }
    } else if step is Restart {
        if k > 0 {
            let q = lemma_agreed_at(c, config, n, k);
            assert(c.made.contains(q));
            lemma_committed_kept(c, d, config, q);
            assert(held(d.made, m, k) == held(c.made, n, k));
        }
    } else if grows(n, m) {
        let q = (m.last_index(), m.log.last(), n.last_term());
        assert(m.log[m.log.len() - 2] == n.log.last());
        assert(logged(m).contains(q));
        assert(d.made.contains(q));
        lemma_alone(config, id);
        let s = Set::<usize>::empty().insert(id);
        assert forall|x: usize| #[trigger] s.contains(x) implies d.acked.contains(
            (q.1.term, x, q.0),
        ) by {
            assert(step.acks(n).contains((q.1.term, id, q.0)));
        }
        assert(config.decides(s));
        assert(d.committed(config, q));
    } else if m.role == Role::Leader {
        lemma_counted(c, d, config, id, step);
    } else {
        match step {
            Step::Hear { msg: RpcView::AppendEntries(a) } => {
                lemma_merged_known(c, n, a);
                let w = with_log(n, m.log);
                lemma_taken(c, config, n, w, a);
                lemma_rooted(c.made, w);
                assert(k == a.leader_commit);
                let q = lemma_decided_agrees(c, config, a.term, k);
                lemma_committed_kept(c, d, config, q);
                assert(held(c.made, w, k) == term_at(c.made, c.peak[a.term], a.term, k));
                assert(held(d.made, m, k) == held(c.made, w, k));
            },
            Step::Hear { msg: RpcView::InstallSnapshot(a) } => {
                let q = lemma_decided_agrees(c, config, a.term, k);
                lemma_committed_kept(c, d, config, q);
                assert(held(d.made, m, k) == m.entry(k).term);
            },
            _ => {},
        }
    }
}

proof fn lemma_commits(c: Cluster, d: Cluster, config: ConfigView, id: usize, step: Step)
    requires
        steps(c, d, config, id, step),
        d.chains_hold(),
        d.agreed(config, d.nodes[id]),
    ensures
        d.commits_hold(config),
{
    let n = c.nodes[id];
    let m = d.nodes[id];
    assert(n.id == id);
    assert(c.node_holds(n));
    lemma_ordered(c, d, config, id, step);
    assert forall|x: usize| #[trigger] d.nodes.contains_key(x) implies {
        let w = d.nodes[x];
        &&& d.agreed(config, w)
        &&& w.role == Role::Leader ==> forall|y: usize|
            w.config.everyone().contains_key(y) ==> #[trigger] d.credible(config, w, y)
    } by {
        let w = d.nodes[x];
        assert(d.node_holds(w));
        if x != id {
            assert(c.nodes.contains_key(x));
            assert(c.node_holds(w));
            lemma_rooted(c.made, w);
            if w.commit_index > 0 {
                let k = w.commit_index as int;
                let q = choose|q: (int, EntryView, u64)| #[trigger]
                    c.committed(config, q) && q.1.term <= w.current_term && w.commit_index <= q.0
                        && held(c.made, w, k) == term_at(c.made, q.0, q.1.term, k);
                assert(c.made.contains(q));
                lemma_committed_kept(c, d, config, q);
                assert(held(d.made, w, k) == term_at(d.made, q.0, q.1.term, k));
            }
        }
        if w.role == Role::Leader {
            assert forall|y: usize| w.config.everyone().contains_key(
                y,
            ) implies #[trigger] d.credible(config, w, y) by {
                if x != id {
                    assert(c.credible(config, w, y));
                    lemma_noted(c, d, config, id, step, w, y);
                } else if grows(n, m) {
                    lemma_grown_credible(c, d, config, id, step, y);
                } else {
                    lemma_learnt(c, d, config, id, step, y);
                    assert(logged(m).subset_of(c.made)) by {
                        assert forall|q: (int, EntryView, u64)| logged(m).contains(
                            q,
                        ) implies c.made.contains(q) by {
                            assert(d.made.contains(q));
                            if !c.made.contains(q) {
                                lemma_new(c, d, config, id, step, q);
                            }
                        }
                    }
                    lemma_known_base(c, config, id, step);
                    lemma_noted(c, d, config, id, step, m, y);
                }
            }
        }
    }
}

/// The snapshot of a leader that did not just get one ends where its log
/// stands.
proof fn lemma_known_base(c: Cluster, config: ConfigView, id: usize, step: Step)
    requires
        steps(c, c.after(id, step), config, id, step),
        step.node(c.nodes[id]).role == Role::Leader,
    ensures
        ({
            let m = step.node(c.nodes[id]);
            stands(c.made, m.last_included_index as int, m.last_included_term)
        }),
{
    let n = c.nodes[id];
    let m = step.node(n);
    assert(c.node_holds(n));
    if goes_on(n, m) {
        let k = m.last_included_index as int;
        lemma_rooted(c.made, n);
        assert(held(c.made, n, k) == n.entry(k).term);
        lemma_below(c.made, n.last_index(), n.last_term(), k, k);
    }
}

proof fn lemma_grown_credible(
    c: Cluster,
    d: Cluster,
    config: ConfigView,
    id: usize,
    step: Step,
    x: usize,
)
    requires
        steps(c, d, config, id, step),
        d.chains_hold(),
        grows(c.nodes[id], d.nodes[id]),
        config.everyone().contains_key(x),
    ensures
        d.credible(config, d.nodes[id], x),
{
    let n = c.nodes[id];
    let m = d.nodes[id];
    assert(n.id == id);
    assert(c.node_holds(n));
    lemma_ordered(c, d, config, id, step);
    lemma_grown_log(c, d, config, id, step);
    lemma_rooted(c.made, n);
    lemma_ready_kept(c, d, config, id, step);
    lemma_slot_of(m, x);
    assert(m.slot_of(x) == n.slot_of(x));
    let v = m.matched(x) as int;
    if n.role == Role::Leader && n.current_term == m.current_term {
        assert(c.credible(config, n, x));
        if v <= n.last_index() && held(c.made, n, v) < n.current_term {
            assert(held(d.made, m, v) == held(c.made, n, v));
        } else if c.decided(config, n.current_term, v) {
            lemma_decided_kept(c, d, config, n.current_term, v);
        }
    } else {
        lemma_below(c.made, n.last_index(), n.last_term(), v, v);
        assert(held(d.made, m, v) == held(c.made, n, v));
    }
}

impl Cluster {
    /// A cluster as it starts, with nothing in its logs and no change of its
    /// members under way.
    pub open spec fn blank(self) -> bool {
        &&& self.fresh()
        &&& forall|id: usize| #[trigger]
            self.nodes.contains_key(id) ==> {
                let n = self.nodes[id];
                &&& n.wf()
                &&& n.last_included_index == 0
                &&& n.last_included_term == 0
                &&& n.commit_index == 0
                &&& n.last_applied == 0
                &&& n.change is Idle
            }
    }

    /// Each of the steps can be taken when its turn comes, and nothing is made
    /// up.
    pub open spec fn can_run_safely(self, config: ConfigView, steps: Seq<(usize, Step)>) -> bool
        decreases steps.len(),
    {
        steps.len() == 0 || (self.can_run_safely(config, steps.drop_last()) && self.run(
            steps.drop_last(),
        ).can_step_safely(config, steps.last().0, steps.last().1))
    }
}

/// A cluster that starts is safe.
pub proof fn law_blank_is_safe(c: Cluster, config: ConfigView)
    requires
        c.blank(),
    ensures
        c.safe(config),
{
    law_fresh_is_sound(c, config);
    lemma_start(c.made);
    assert forall|id: usize| #[trigger] c.nodes.contains_key(id) implies c.node_holds(
        c.nodes[id],
    ) by {
        assert(logged(c.nodes[id]).subset_of(c.made));
    }
}

/// Whatever a node does next, a safe cluster stays safe.
pub proof fn law_steps_keep_safety(c: Cluster, config: ConfigView, id: usize, step: Step)
    requires
        config.finite(),
        config is Simple,
        config.apart(),
        c.safe(config),
        c.can_step_safely(config, id, step),
    ensures
        c.after(id, step).safe(config),
{
    let d = c.after(id, step);
    lemma_steps(c, config, id, step);
    lemma_chains(c, d, config, id, step);
    lemma_peaks(c, d, config, id, step);
    lemma_acks(c, d, config, id, step);
    lemma_holders(c, d, config, id, step);
    lemma_complete(c, d, config, id, step);
    lemma_votes(c, d, config, id, step);
    lemma_node_agreed(c, d, config, id, step);
    lemma_messages(c, d, config, id, step);
    lemma_commits(c, d, config, id, step);
}

/// Every cluster that came about from a blank one by steps of its nodes is
/// safe.
pub proof fn law_runs_are_safe(c: Cluster, config: ConfigView, steps: Seq<(usize, Step)>)
    requires
        config.finite(),
        config is Simple,
        config.apart(),
        c.blank(),
        c.can_run_safely(config, steps),
    ensures
        c.run(steps).safe(config),
    decreases steps.len(),
{
    if steps.len() == 0 {
        law_blank_is_safe(c, config);
    } else {
        law_runs_are_safe(c, config, steps.drop_last());
        law_steps_keep_safety(
            c.run(steps.drop_last()),
            config,
            steps.last().0,
            steps.last().1,
        );
    }
}

/// Every node of a safe cluster is ready for the next step: it is well-formed,
/// has applied nothing that is not committed, and a leader notes no one beyond
/// its log.
pub proof fn law_nodes_stay_ready(c: Cluster, config: ConfigView, id: usize)
    requires
        c.safe(config),
        c.nodes.contains_key(id),
    ensures
        c.nodes[id].wf(),
        c.nodes[id].sane(),
        c.nodes[id].followed(),
{
    assert(c.node_holds(c.nodes[id]));
}

/// What is committed stays committed.
pub proof fn law_committed_stays(
    c: Cluster,
    config: ConfigView,
    id: usize,
    step: Step,
    q: (int, EntryView, u64),
)
    requires
        c.committed(config, q),
    ensures
        c.after(id, step).committed(config, q),
{
    lemma_committed_kept(c, c.after(id, step), config, q);
}

/// Leaders are complete: whoever leads a term holds everything that was
/// committed in earlier terms, in its log or in its snapshot.
pub proof fn law_leaders_are_complete(
    c: Cluster,
    config: ConfigView,
    id: usize,
    q: (int, EntryView, u64),
)
    requires
        c.safe(config),
        c.nodes.contains_key(id),
        c.nodes[id].role == Role::Leader,
        c.committed(config, q),
        q.1.term <= c.nodes[id].current_term,
    ensures
        q.0 <= c.nodes[id].last_index(),
        q.0 > c.nodes[id].last_included_index ==> c.nodes[id].entry(q.0) == q.1,
{
    let n = c.nodes[id];
    let s = lemma_choosable(c, config, q);
    lemma_peak_passes(c, config, q, s, n.current_term);
    assert(c.node_holds(n));
    lemma_rooted(c.made, n);
    if q.0 > n.last_included_index {
        let r = (q.0, n.entry(q.0), n.entry(q.0 - 1).term);
        assert(logged(n).contains(r));
        assert(held(c.made, n, q.0) == n.entry(q.0).term);
    }
}

/// State machines agree: what two nodes take for committed at the same index
/// is the same entry, as far as snapshots have not taken its place.
pub proof fn law_committed_entries_agree(
    c: Cluster,
    config: ConfigView,
    a: usize,
    b: usize,
    index: int,
)
    requires
        c.safe(config),
        c.nodes.contains_key(a),
        c.nodes.contains_key(b),
        c.nodes[a].last_included_index < index <= c.nodes[a].commit_index,
        c.nodes[b].last_included_index < index <= c.nodes[b].commit_index,
    ensures
        c.nodes[a].entry(index) == c.nodes[b].entry(index),
{
    let m = c.nodes[a];
    let n = c.nodes[b];
    assert(c.node_holds(m));
    assert(c.node_holds(n));
    lemma_rooted(c.made, m);
    lemma_rooted(c.made, n);
    let q = lemma_agreed_at(c, config, m, index);
    let r = lemma_agreed_at(c, config, n, index);
    if q.1.term < r.1.term || (q.1.term == r.1.term && q.0 <= r.0) {
        lemma_committed_in_line(c, config, q, r, index);
    } else {
        lemma_committed_in_line(c, config, r, q, index);
    }
    assert(held(c.made, m, index) == m.entry(index).term);
    assert(held(c.made, n, index) == n.entry(index).term);
    let x = (index, m.entry(index), m.entry(index - 1).term);
    let y = (index, n.entry(index), n.entry(index - 1).term);
    assert(logged(m).contains(x));
    assert(logged(n).contains(y));
    assert(c.made.contains(x) && c.made.contains(y));
}

/// State machines see the same: between the same indexes, two nodes hand the
/// same commands to their state machines, in the same order.
pub proof fn law_same_commands(
    c: Cluster,
    config: ConfigView,
    a: usize,
    b: usize,
    from: int,
    to: int,
)
    requires
        c.safe(config),
        c.nodes.contains_key(a),
        c.nodes.contains_key(b),
        c.nodes[a].last_included_index <= from,
        c.nodes[b].last_included_index <= from,
        to <= c.nodes[a].commit_index,
        to <= c.nodes[b].commit_index,
    ensures
        commands(c.nodes[a], from, to) == commands(c.nodes[b], from, to),
    decreases to - from,
{
    if from < to {
        law_same_commands(c, config, a, b, from, to - 1);
        law_committed_entries_agree(c, config, a, b, to);
    }
}

/// Everything that a node applied was committed.
pub proof fn law_applied_is_committed(c: Cluster, config: ConfigView, id: usize, index: int)
    requires
        c.safe(config),
        c.nodes.contains_key(id),
        0 < index <= c.nodes[id].last_applied,
    ensures
        index <= c.nodes[id].commit_index,
        c.decided(config, c.nodes[id].current_term, index),
{
    assert(c.node_holds(c.nodes[id]));
    lemma_agreed_decided(c, config, c.nodes[id], index);
}

/// The committed entry that vouches for what a node holds at an index.
proof fn lemma_agreed_at(c: Cluster, config: ConfigView, n: NodeView, index: int) -> (q: (
    int,
    EntryView,
    u64,
))
    requires
        c.chains_hold(),
        rooted(c.made, n),
        n.commit_index <= n.last_index(),
        c.agreed(config, n),
        0 < index <= n.commit_index,
    ensures
        c.committed(config, q),
        index <= q.0,
        q.1.term <= n.current_term,
        held(c.made, n, index) == term_at(c.made, q.0, q.1.term, index),
{
    let k = n.commit_index as int;
    let q = choose|q: (int, EntryView, u64)| #[trigger]
        c.committed(config, q) && q.1.term <= n.current_term && n.commit_index <= q.0 && held(
            c.made,
            n,
            k,
        ) == term_at(c.made, q.0, q.1.term, k);
    lemma_rooted(c.made, n);
    assert(c.made.contains(q));
    lemma_same_below(c.made, n.last_index(), n.last_term(), q.0, q.1.term, k, index);
    q
}

/// Of two committed entries the later one follows the other.
proof fn lemma_committed_in_line(
    c: Cluster,
    config: ConfigView,
    q: (int, EntryView, u64),
    r: (int, EntryView, u64),
    index: int,
)
    requires
        c.chains_hold(),
        c.peaks_hold(),
        c.leaders_complete(config),
        c.committed(config, q),
        c.committed(config, r),
        q.1.term < r.1.term || (q.1.term == r.1.term && q.0 <= r.0),
        0 <= index <= q.0,
    ensures
        term_at(c.made, q.0, q.1.term, index) == term_at(c.made, r.0, r.1.term, index),
{
    let s = lemma_choosable(c, config, q);
    assert(c.made.contains(q) && c.made.contains(r));
    lemma_term_at_end(c.made, q.0, q.1.term);
    if q.1.term == r.1.term {
        let t = r.1.term;
        lemma_term_at_end(c.made, r.0, t);
        lemma_same_below(c.made, c.peak[t], t, r.0, t, r.0, q.0);
    }
    lemma_same_below(c.made, q.0, q.1.term, r.0, r.1.term, q.0, index);
}

} // verus!
