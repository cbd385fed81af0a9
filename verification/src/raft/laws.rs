//! What holds of the protocol as a whole.

use crate::raft::append::{agree_up_to, agreement, lemma_agreement_exists};
use crate::raft::apply::{
    lemma_applied, lemma_stepped, membership_actions, read_answers, read_ready, reads_waiting,
};
use crate::raft::command::CommandView;
use crate::raft::config::{is_majority, ConfigView, Role};
use crate::raft::drive::RpcView;
use crate::raft::leader::{lemma_slot_of, reached};
use crate::raft::node::{
    ActionView, AppendEntriesReply, AppendView, NodeView, ReadView, RequestVoteArgs,
};
use vstd::prelude::*;

verus! {

impl ConfigView {
    /// The member lists are finite, as those of every real configuration.
    pub open spec fn finite(self) -> bool {
        match self {
            ConfigView::Simple { members, .. } => members.dom().finite(),
            ConfigView::Joint { old_members, new_members, .. } => old_members.dom().finite()
                && new_members.dom().finite(),
        }
    }
}

/// A majority of `n` servers is more than half of them, is not more than all
/// of them, and two majorities are more than all.
pub proof fn law_majority_size(n: nat)
    requires
        n >= 1,
    ensures
        n / 2 + 1 > n / 2,
        n / 2 + 1 <= n,
        2 * (n / 2 + 1) > n,
{
}

/// Two majorities of the same members have a member in common.
pub proof fn law_majorities_meet(a: Set<usize>, b: Set<usize>, members: Set<usize>)
    requires
        members.finite(),
        is_majority(a, members),
        is_majority(b, members),
    ensures
        exists|x: usize| #[trigger] a.contains(x) && b.contains(x) && members.contains(x),
{
    let p = a.intersect(members);
    let q = b.intersect(members);
    vstd::set_lib::lemma_len_subset(p, members);
    vstd::set_lib::lemma_len_subset(q, members);
    if p.disjoint(q) {
        vstd::set_lib::lemma_set_disjoint_lens(p, q);
        vstd::set_lib::lemma_len_subset(p + q, members);
    }
    let x = choose|x: usize| p.contains(x) && q.contains(x);
    assert(a.contains(x) && b.contains(x) && members.contains(x));
}

/// Two sets of acknowledgements that decide in the same configuration have a
/// server in common.
pub proof fn law_quorums_meet(c: ConfigView, a: Set<usize>, b: Set<usize>)
    requires
        c.finite(),
        c.decides(a),
        c.decides(b),
    ensures
        exists|x: usize| #[trigger] a.contains(x) && b.contains(x),
{
    match c {
        ConfigView::Simple { members, .. } => {
            law_majorities_meet(a, b, members.dom());
        },
        ConfigView::Joint { old_members, .. } => {
            law_majorities_meet(a, b, old_members.dom());
        },
    }
}

/// What decides during a transition has a server in common with what decides
/// before it, and with what decides after it: the cluster cannot split while
/// its members change.
pub proof fn law_joint_meets_old_and_new(
    old_members: Map<usize, String>,
    new_members: Map<usize, String>,
    joint: Set<usize>,
    before: Set<usize>,
    after: Set<usize>,
    v1: u64,
    v2: u64,
    v3: u64,
)
    requires
        old_members.dom().finite(),
        new_members.dom().finite(),
        (ConfigView::Joint { old_members, new_members, version: v2 }).decides(joint),
        (ConfigView::Simple { members: old_members, version: v1 }).decides(before),
        (ConfigView::Simple { members: new_members, version: v3 }).decides(after),
    ensures
        exists|x: usize| #[trigger] joint.contains(x) && before.contains(x),
        exists|x: usize| #[trigger] joint.contains(x) && after.contains(x),
{
    law_majorities_meet(joint, before, old_members.dom());
    law_majorities_meet(joint, after, new_members.dom());
}

/// Where every server votes for one candidate at most, two candidates cannot
/// both win: at most one leader per term.
pub proof fn law_one_winner(
    c: ConfigView,
    votes: Map<usize, usize>,
    first: usize,
    second: usize,
    for_first: Set<usize>,
    for_second: Set<usize>,
)
    requires
        c.finite(),
        c.decides(for_first),
        c.decides(for_second),
        forall|s: usize| #[trigger] for_first.contains(s) ==> votes[s] == first,
        forall|s: usize| #[trigger] for_second.contains(s) ==> votes[s] == second,
    ensures
        first == second,
{
    law_quorums_meet(c, for_first, for_second);
    let x = choose|x: usize| #[trigger] for_first.contains(x) && for_second.contains(x);
    assert(votes[x] == first && votes[x] == second);
}

/// No message makes a node go back to an older term.
pub proof fn law_terms_grow(n: NodeView, msg: RpcView)
    requires
        n.wf(),
        n.fits(msg),
    ensures
        n.heard(msg).current_term >= n.current_term,
{
    lemma_heard_frame(n, msg);
}

/// Within a term a vote stands: no message makes a node vote for another
/// candidate of the same term.
pub proof fn law_one_vote_per_term(n: NodeView, msg: RpcView)
    requires
        n.wf(),
        n.fits(msg),
        n.voted_for is Some,
        n.heard(msg).current_term == n.current_term,
    ensures
        n.heard(msg).voted_for == n.voted_for,
{
    lemma_heard_frame(n, msg);
}

/// Whoever asks twice in a term for a vote that was given to someone else is
/// refused; a vote that was given is given again.
pub proof fn law_votes_are_exclusive(n: NodeView, a: RequestVoteArgs, b: RequestVoteArgs)
    requires
        n.grants(a),
        a.term == b.term,
        n.voted(a).grants(b),
    ensures
        a.candidate_id == b.candidate_id,
{
}

/// A vote goes to candidates alone whose log is at least as complete.
pub proof fn law_votes_need_complete_log(n: NodeView, a: RequestVoteArgs)
    requires
        n.grants(a),
    ensures
        a.last_log_term > n.last_term() || a.last_log_term == n.last_term() && a.last_log_index
            >= n.last_index(),
{
}

pub proof fn lemma_leading_frame(n: NodeView)
    requires
        n.wf(),
        n.room(1),
    ensures
        n.leading().current_term == n.current_term,
        n.leading().voted_for == n.voted_for,
        n.leading().commit_index >= n.commit_index,
        n.leading().log == n.log.push(n.opening_entry()),
        n.leading().last_included_index == n.last_included_index,
{
    let e = n.enthroned();
    assert(e.log[0] == n.log[0]);
    let m = NodeView { commit_index: e.last_index() as usize, ..e };
    if e.peers.len() == 0 && e.last_index() > e.commit_index {
        assert(m.wf());
        lemma_applied(m);
    }
}

pub proof fn lemma_taking_frame(n: NodeView, a: AppendView)
    requires
        n.wf(),
        n.matches_prev(a),
        n.room(a.entries.len() as int),
    ensures
        n.taking(a).current_term == n.current_term,
        n.taking(a).voted_for == n.voted_for,
        n.taking(a).log == n.with_entries(a).log,
        n.taking(a).commit_index == n.with_entries(a).commit_index,
        n.taking(a).last_included_index == n.last_included_index,
{
    let m = n.with_entries(a);
    lemma_agreement_exists(n.log, n.append_pos(a), a.entries, 0);
    assert(m.log[0] == n.log[0]);
    assert(m.wf());
    lemma_applied(m);
}

pub proof fn lemma_answer_taken(n: NodeView, r: AppendEntriesReply)
    requires
        n.wf(),
        r.match_index < usize::MAX,
    ensures
        n.answered(r).wf(),
        n.answered(r).current_term == n.current_term,
        n.answered(r).voted_for == n.voted_for,
        n.answered(r).commit_index == n.commit_index,
        n.answered(r).log == n.log,
        n.answered(r).last_included_index == n.last_included_index,
{
    reveal(NodeView::answered);
    lemma_slot_of(n, r.peer_id);
    if let Some(i) = n.slot_of(r.peer_id) {
        if r.success {
            let m = n.matched_at(i, r.match_index);
            assert(m.wf());
            assert(m.caught_up_to(r.peer_id, r.match_index).wf());
        } else {
            assert(n.backed_off(i).wf());
        }
    }
}

pub proof fn lemma_committed_frame(a: NodeView)
    requires
        a.wf(),
    ensures
        a.committed().current_term == a.current_term,
        a.committed().voted_for == a.voted_for,
        a.committed().commit_index >= a.commit_index,
        a.committed().log == a.log,
        a.committed().last_included_index == a.last_included_index,
{
    reveal(NodeView::committed);
    if a.may_commit() {
        let m = NodeView { commit_index: a.majority_index(), ..a };
        assert(m.wf());
        lemma_applied(m);
    }
}

proof fn lemma_answered_frame(n: NodeView, r: AppendEntriesReply)
    requires
        n.wf(),
        r.match_index < usize::MAX,
    ensures
        n.answered(r).committed().current_term == n.current_term,
        n.answered(r).committed().voted_for == n.voted_for,
        n.answered(r).committed().commit_index >= n.commit_index,
        n.answered(r).committed().log == n.log,
        n.answered(r).committed().last_included_index == n.last_included_index,
{
    lemma_answer_taken(n, r);
    lemma_committed_frame(n.answered(r));
}

proof fn lemma_heard_frame(n: NodeView, msg: RpcView)
    requires
        n.wf(),
        n.fits(msg),
    ensures
        n.heard(msg).current_term >= n.current_term,
        n.heard(msg).current_term == n.current_term && n.voted_for is Some ==> n.heard(
            msg,
        ).voted_for == n.voted_for,
{
    match msg {
        RpcView::RequestVoteResponse(r) => {
            if n.counts(r) {
                assert(n.with_vote(r).wf());
                lemma_leading_frame(n.with_vote(r));
            }
        },
        RpcView::AppendEntries(a) => {
            let f = NodeView {
                current_leader_address: Some(a.leader_address),
                ..n.following(a.term, a.leader_id)
            };
            if a.term >= n.current_term && n.matches_prev(a) {
                assert(f.wf());
                lemma_taking_frame(f, a);
            }
        },
        RpcView::AppendEntriesResponse(r) => {
            lemma_answered_frame(n, r);
        },
        _ => {},
    }
}

/// No message makes the commit index go back.
pub proof fn law_commit_index_grows(n: NodeView, msg: RpcView)
    requires
        n.wf(),
        n.fits(msg),
    ensures
        n.heard(msg).commit_index >= n.commit_index,
{
    match msg {
        RpcView::RequestVoteResponse(r) => {
            if n.counts(r) {
                assert(n.with_vote(r).wf());
                lemma_leading_frame(n.with_vote(r));
            }
        },
        RpcView::AppendEntries(a) => {
            let f = NodeView {
                current_leader_address: Some(a.leader_address),
                ..n.following(a.term, a.leader_id)
            };
            if a.term >= n.current_term && n.matches_prev(a) {
                assert(f.wf());
                lemma_taking_frame(f, a);
                lemma_agreement_exists(n.log, n.append_pos(a), a.entries, 0);
                assert(f.append_pos(a) == n.append_pos(a));
            }
        },
        RpcView::AppendEntriesResponse(r) => {
            lemma_answered_frame(n, r);
        },
        _ => {},
    }
}

/// What is committed stays as it is: honest requests to append leave every
/// committed entry in place.
pub proof fn law_committed_entries_stay(n: NodeView, a: AppendView, index: int)
    requires
        n.wf(),
        n.sane(),
        n.room(a.entries.len() as int),
        !n.overwrites_committed(a),
        n.last_included_index <= index <= n.commit_index,
    ensures
        n.appended(a).holds(index),
        n.appended(a).entry(index) == n.entry(index),
{
    if a.term >= n.current_term && n.matches_prev(a) {
        let f = NodeView {
            current_leader_address: Some(a.leader_address),
            ..n.following(a.term, a.leader_id)
        };
        assert(f.wf());
        lemma_taking_frame(f, a);
        lemma_agreement_exists(n.log, n.append_pos(a), a.entries, 0);
    }
}

/// Two logs that hold the same term at the same index hold the same entries
/// there and before.
pub open spec fn logs_match(f: NodeView, l: NodeView) -> bool {
    forall|i: int, j: int|
        #![trigger f.entry(i), f.entry(j)]
        f.holds(i) && l.holds(i) && f.entry(i).term == l.entry(i).term && f.holds(j) && l.holds(j)
            && j <= i ==> f.entry(j) == l.entry(j)
}

/// The entries of a request come from the log of the leader.
pub open spec fn sent_by(l: NodeView, a: AppendView) -> bool {
    &&& l.holds(a.prev_log_index as int)
    &&& a.prev_log_index + a.entries.len() <= l.last_index()
    &&& a.prev_log_term == l.entry(a.prev_log_index as int).term
    &&& forall|j: int|
        0 <= j < a.entries.len() ==> (#[trigger] a.entries[j]) == l.entry(a.prev_log_index + 1 + j)
}

/// Once a follower has taken entries from a leader, its log equals the log of
/// the leader up to the index that it reports, wherever both hold entries.
pub proof fn law_append_makes_logs_equal(f: NodeView, l: NodeView, a: AppendView, i: int)
    requires
        f.wf(),
        l.wf(),
        f.room(a.entries.len() as int),
        logs_match(f, l),
        sent_by(l, a),
        f.accepts(a),
        f.appended(a).holds(i),
        l.holds(i),
        i <= f.append_match(a),
    ensures
        f.appended(a).entry(i) == l.entry(i),
{
    let g = NodeView {
        current_leader_address: Some(a.leader_address),
        ..f.following(a.term, a.leader_id)
    };
    assert(g.wf());
    lemma_taking_frame(g, a);
    let p = f.append_pos(a);
    lemma_agreement_exists(f.log, p, a.entries, 0);
    let k = agreement(f.log, p, a.entries);
    assert(agree_up_to(f.log, p, a.entries, k));
    let prev = a.prev_log_index as int;
    assert(f.entry(prev).term == l.entry(prev).term);
    if i <= prev {
        assert(f.entry(i) == l.entry(i));
    } else if i <= prev + k {
        let j = i - prev - 1;
        assert(f.log[p + j].term == a.entries[j].term);
        assert(f.entry(i) == f.log[p + j]);
        assert(a.entries[j] == l.entry(prev + 1 + j));
        assert(f.entry(i).term == l.entry(i).term);
        assert(f.entry(i) == l.entry(i));
    } else {
        let j = i - prev - 1;
        assert(a.entries[j] == l.entry(prev + 1 + j));
    }
}

/// The commands among actions that go to the state machine.
pub open spec fn applies(actions: Seq<ActionView>) -> Seq<CommandView>
    decreases actions.len(),
{
    if actions.len() == 0 {
        Seq::empty()
    } else {
        match actions.last() {
            ActionView::Apply { command } => applies(actions.drop_last()).push(command),
            _ => applies(actions.drop_last()),
        }
    }
}

/// The commands of the log after index `from` up to index `to` that go to the
/// state machine: all but those that change the members.
pub open spec fn commands(n: NodeView, from: int, to: int) -> Seq<CommandView>
    decreases to - from,
{
    if to <= from {
        Seq::empty()
    } else {
        match n.entry(to).command {
            CommandView::Membership(_) => commands(n, from, to - 1),
            command => commands(n, from, to - 1).push(command),
        }
    }
}

pub proof fn lemma_applies_add(s: Seq<ActionView>, t: Seq<ActionView>)
    ensures
        applies(s + t) == applies(s) + applies(t),
    decreases t.len(),
{
    if t.len() == 0 {
        assert(s + t =~= s);
    } else {
        lemma_applies_add(s, t.drop_last());
        assert((s + t).drop_last() =~= s + t.drop_last());
        assert((s + t).last() == t.last());
        assert(applies(s + t) =~= applies(s) + applies(t));
    }
}

pub proof fn lemma_reads_apply_nothing(reads: Seq<ReadView>, last_applied: usize)
    ensures
        applies(read_answers(reads, last_applied)) == Seq::<CommandView>::empty(),
    decreases reads.len(),
{
    if reads.len() > 0 {
        let rest = read_answers(reads.drop_last(), last_applied);
        let one = seq![
            ActionView::ReadReady {
                request: reads.last().request,
                read_index: reads.last().read_index,
            },
        ];
        lemma_reads_apply_nothing(reads.drop_last(), last_applied);
        lemma_applies_add(one, rest);
        reveal_with_fuel(applies, 2);
        assert(applies(one) =~= Seq::<CommandView>::empty());
    }
}

proof fn lemma_commands_first(n: NodeView, m: NodeView, from: int, to: int)
    requires
        from < to,
        m.log == n.log,
        m.last_included_index == n.last_included_index,
    ensures
        commands(n, from, to) == commands(n, from, from + 1) + commands(m, from + 1, to),
    decreases to - from,
{
    if to == from + 1 {
        assert(commands(n, from, to) + Seq::<CommandView>::empty() =~= commands(n, from, to));
    } else {
        lemma_commands_first(n, m, from, to - 1);
        assert(m.entry(to) == n.entry(to));
        assert(commands(n, from, to) =~= commands(n, from, from + 1) + commands(m, from + 1, to));
    }
}

/// Every committed command goes to the state machine once, in the order of the
/// log.
pub proof fn law_applies_in_order(n: NodeView)
    requires
        n.wf(),
        n.sane(),
    ensures
        applies(n.applied_actions()) == commands(
            n,
            n.last_applied as int,
            n.commit_index as int,
        ),
    decreases n.commit_index - n.last_applied,
{
    if n.last_applied < n.commit_index {
        let k = n.last_applied + 1;
        let w = NodeView { last_applied: k as usize, ..n };
        let m = n.stepped();
        let own = match w.entry(k).command {
            CommandView::Membership(cmd) => membership_actions(cmd),
            command => seq![ActionView::Apply { command }],
        };
        let answers = read_answers(w.reads, w.last_applied);
        lemma_stepped(n);
        law_applies_in_order(m);
        lemma_applies_add(n.step_actions(), m.applied_actions());
        lemma_applies_add(own, answers);
        lemma_reads_apply_nothing(w.reads, w.last_applied);
        assert(commands(n, k - 1, k) =~= applies(own)) by {
            reveal_with_fuel(applies, 2);
            reveal_with_fuel(commands, 2);
            assert(w.entry(k) == n.entry(k));
        }
        assert(applies(n.step_actions()) =~= applies(own));
        lemma_commands_first(n, m, k - 1, n.commit_index as int);
    }
}

/// Compacting the log loses nothing that is not applied: later entries, the
/// end of the log and the term at the snapshot point stay.
pub proof fn law_compaction_keeps_the_rest(n: NodeView, index: int)
    requires
        n.wf(),
        n.sane(),
        n.last_applied < index <= n.last_index(),
    ensures
        n.compacted().holds(index),
        n.compacted().entry(index) == n.entry(index),
        n.compacted().last_index() == n.last_index(),
        n.compacted().last_included_term == n.entry(n.last_applied as int).term,
        n.compacted().commit_index == n.commit_index,
{
}

/// After compaction the log holds just the snapshot point and what follows
/// it.
pub proof fn law_compaction_shortens(n: NodeView)
    requires
        n.wf(),
        n.sane(),
    ensures
        n.compacted().log.len() == n.last_index() - n.last_applied + 1,
{
}

/// A leader commits an entry only if it is of its own term and servers enough
/// to decide hold it.
pub proof fn law_commit_needs_quorum(n: NodeView)
    requires
        n.wf(),
        n.committed().commit_index > n.commit_index,
    ensures
        ({
            let m = n.committed().commit_index;
            &&& n.holds(m as int)
            &&& n.entry(m as int).term == n.current_term
            &&& n.config.decides(reached(n.known_progress(), m))
        }),
{
    reveal(NodeView::committed);
    let m = NodeView { commit_index: n.majority_index(), ..n };
    if n.may_commit() {
        assert(m.wf());
        lemma_applied(m);
        if exists|v: usize| #[trigger] n.replicated(v) {
            lemma_largest_replicated(n);
            assert(n.replicated(n.majority_index()));
        }
    }
}

/// Among the indexes that servers enough to decide have reached there is a
/// largest one.
pub proof fn lemma_largest_replicated(n: NodeView)
    requires
        exists|v: usize| #[trigger] n.replicated(v),
    ensures
        exists|v: usize| #[trigger]
            n.replicated(v) && forall|w: usize| #[trigger] n.replicated(w) ==> w <= v,
{
    let v = choose|v: usize| #[trigger] n.replicated(v);
    lemma_largest_above(n, v);
}

proof fn lemma_largest_above(n: NodeView, v: usize)
    requires
        n.replicated(v),
    ensures
        exists|u: usize| #[trigger]
            n.replicated(u) && forall|w: usize| #[trigger] n.replicated(w) ==> w <= u,
    decreases usize::MAX - v,
{
    if exists|w: usize| #[trigger] n.replicated(w) && w > v {
        let w = choose|w: usize| #[trigger] n.replicated(w) && w > v;
        lemma_largest_above(n, w);
    }
}

/// A read is answered only once a majority confirmed the leader and the state
/// machine has reached the index at which it arrived.
pub proof fn law_reads_wait_for_majority(reads: Seq<ReadView>, last_applied: usize, i: int)
    requires
        0 <= i < read_answers(reads, last_applied).len(),
    ensures
        exists|j: int|
            0 <= j < reads.len() && read_ready(#[trigger] reads[j], last_applied) && read_answers(
                reads,
                last_applied,
            )[i] == (ActionView::ReadReady {
                request: reads[j].request,
                read_index: reads[j].read_index,
            }),
    decreases reads.len(),
{
    let rest = reads.drop_last();
    if read_ready(reads.last(), last_applied) {
        if i == 0 {
            assert(reads[reads.len() - 1] == reads.last());
        } else {
            law_reads_wait_for_majority(rest, last_applied, i - 1);
            let j = choose|j: int|
                0 <= j < rest.len() && read_ready(#[trigger] rest[j], last_applied)
                    && read_answers(rest, last_applied)[i - 1] == (ActionView::ReadReady {
                    request: rest[j].request,
                    read_index: rest[j].read_index,
                });
            assert(reads[j] == rest[j]);
        }
    } else {
        law_reads_wait_for_majority(rest, last_applied, i);
        let j = choose|j: int|
            0 <= j < rest.len() && read_ready(#[trigger] rest[j], last_applied) && read_answers(
                rest,
                last_applied,
            )[i] == (ActionView::ReadReady {
                request: rest[j].request,
                read_index: rest[j].read_index,
            });
        assert(reads[j] == rest[j]);
    }
}

/// No read is lost: those that are not answered still wait.
pub proof fn law_reads_are_kept(reads: Seq<ReadView>, last_applied: usize)
    ensures
        reads_waiting(reads, last_applied).len() + read_answers(reads, last_applied).len()
            == reads.len(),
    decreases reads.len(),
{
    if reads.len() > 0 {
        law_reads_are_kept(reads.drop_last(), last_applied);
    }
}

/// A read that arrives sees everything committed so far.
pub proof fn law_read_index_is_commit_index(n: NodeView, request: u64)
    ensures
        n.new_read(request).read_index == n.commit_index,
        n.new_read(request).term == n.current_term,
{
}

/// A leader without a quorum commits nothing: where the servers that it hears
/// from cannot decide, the commit index stays.
pub proof fn law_minority_commits_nothing(n: NodeView)
    requires
        n.wf(),
        forall|v: usize| v > n.commit_index ==> !n.config.decides(
            #[trigger] reached(n.known_progress(), v),
        ),
    ensures
        n.committed() == n,
{
    reveal(NodeView::committed);
    if exists|v: usize| #[trigger] n.replicated(v) {
        lemma_largest_replicated(n);
    }
}

/// Every step of a membership change raises the version of the configuration.
pub proof fn law_versions_grow(n: NodeView, new_members: Map<usize, String>)
    requires
        n.config is Simple,
        n.config.number() < u64::MAX,
    ensures
        ({
            let cmd = n.joint_command(new_members)->Membership_0;
            n.member_applied(cmd).config.number() == n.config.number() + 1
        }),
{
}

/// Joint consensus leads from the old members to the new ones: first both
/// lists decide, then the new list alone.
pub proof fn law_joint_then_new(n: NodeView, new_members: Map<usize, String>, version: u64)
    requires
        n.config is Simple,
    ensures
        ({
            let joint = n.member_applied(n.joint_command(new_members)->Membership_0);
            let done = joint.member_applied(
                crate::raft::command::MembershipView::FinalizeConfiguration {
                    new_members,
                    version,
                },
            );
            &&& joint.config is Joint
            &&& joint.config->old_members == n.config->Simple_members
            &&& joint.config->new_members == new_members
            &&& done.config == (ConfigView::Simple { members: new_members, version })
            &&& done.change is Idle
        }),
{
}

/// A candidate that has not won stays without leadership, and one that has
/// won leads its own term with the entry that opens it at the end of its log.
pub proof fn law_winner_leads_its_term(n: NodeView)
    requires
        n.wf(),
        n.room(1),
    ensures
        n.leading().role == Role::Leader,
        n.leading().current_term == n.current_term,
        n.leading().current_leader == Some(n.id),
        n.leading().log == n.log.push(n.opening_entry()),
{
    lemma_leading_frame(n);
    let e = n.enthroned();
    assert(e.log[0] == n.log[0]);
    let m = NodeView { commit_index: e.last_index() as usize, ..e };
    if e.peers.len() == 0 && e.last_index() > e.commit_index {
        assert(m.wf());
        lemma_applied(m);
    }
}

} // verus!
