//! What a node hands to its state machine and to its disk on the way: whatever
//! it hears, just the commands that it comes to apply, in the order of the log,
//! and the configuration whenever that changes.

use crate::raft::append::{
    agree_up_to, agreement, lemma_agreement_exists, merge_actions, term_actions,
};
use crate::raft::apply::{lemma_applied, lemma_stepped, membership_actions, read_answers};
use crate::raft::changes::lists_at;
use crate::raft::command::{CommandView, MembershipView};
use crate::raft::config::Role;
use crate::raft::drive::RpcView;
use crate::raft::laws::{
    applies, commands, law_applies_in_order, law_committed_entries_stay, lemma_answer_taken,
    lemma_applies_add, lemma_reads_apply_nothing, lemma_taking_frame,
};
use crate::raft::node::{ActionView, AppendEntriesReply, AppendView, NodeView};
use crate::raft::progress::law_every_member_is_sent_to;
use vstd::prelude::*;

verus! {

/// Nothing among the actions goes to the state machine.
pub open spec fn applies_nothing(s: Seq<ActionView>) -> bool {
    forall|i: int| 0 <= i < s.len() ==> !(#[trigger] s[i] is Apply)
}

proof fn lemma_nothing(s: Seq<ActionView>)
    requires
        applies_nothing(s),
    ensures
        applies(s) == Seq::<CommandView>::empty(),
    decreases s.len(),
{
    if s.len() > 0 {
        let d = s.drop_last();
        assert(s[s.len() - 1] == s.last());
        assert forall|i: int| 0 <= i < d.len() implies !(#[trigger] d[i] is Apply) by {
            assert(s[i] == d[i]);
        }
        lemma_nothing(d);
    }
}

/// The commands between two indexes depend on the log alone.
proof fn lemma_same_log(n: NodeView, m: NodeView, from: int, to: int)
    requires
        m.log == n.log,
        m.last_included_index == n.last_included_index,
    ensures
        commands(n, from, to) == commands(m, from, to),
    decreases to - from,
{
    if from < to {
        lemma_same_log(n, m, from, to - 1);
        assert(n.entry(to) == m.entry(to));
    }
}

/// What applying hands out, seen from the node that has applied.
proof fn lemma_applied_out(n: NodeView)
    requires
        n.wf(),
        n.sane(),
    ensures
        applies(n.applied_actions()) == commands(
            n.applied(),
            n.last_applied as int,
            n.applied().last_applied as int,
        ),
        n.applied().log == n.log,
        n.applied().last_included_index == n.last_included_index,
{
    lemma_applied(n);
    law_applies_in_order(n);
    lemma_same_log(n, n.applied(), n.last_applied as int, n.commit_index as int);
}

proof fn lemma_leading_out(n: NodeView)
    requires
        n.wf(),
        n.sane(),
        n.room(1),
    ensures
        applies(n.leading_actions()) == commands(
            n.leading(),
            n.last_applied as int,
            n.leading().last_applied as int,
        ),
{
    let e = n.enthroned();
    assert(e.log[0] == n.log[0]);
    let base = seq![
        ActionView::SaveEntry { index: e.last_index() as usize, entry: n.opening_entry() },
    ];
    lemma_nothing(base);
    if e.peers.len() == 0 && e.last_index() > e.commit_index {
        let m = NodeView { commit_index: e.last_index() as usize, ..e };
        assert(m.wf() && m.sane());
        lemma_applied_out(m);
        lemma_applies_add(base, m.applied_actions());
        assert(Seq::<CommandView>::empty() + applies(m.applied_actions()) =~= applies(
            m.applied_actions(),
        ));
    }
}

proof fn lemma_taking_out(n: NodeView, a: AppendView)
    requires
        n.wf(),
        n.sane(),
        n.matches_prev(a),
        n.room(a.entries.len() as int),
        n.with_entries(a).sane(),
    ensures
        applies(n.taking_actions(a)) == commands(
            n.taking(a),
            n.last_applied as int,
            n.taking(a).last_applied as int,
        ),
{
    let p = n.append_pos(a);
    let kept = merge_actions(n.log, p, a.prev_log_index + 1, a.entries);
    let w = n.with_entries(a);
    lemma_agreement_exists(n.log, p, a.entries, 0);
    assert(w.log[0] == n.log[0]);
    assert(w.wf());
    assert(applies_nothing(kept));
    lemma_nothing(kept);
    if a.leader_commit > n.commit_index {
        lemma_applied_out(w);
        lemma_applies_add(kept, w.applied_actions());
        assert(Seq::<CommandView>::empty() + applies(w.applied_actions()) =~= applies(
            w.applied_actions(),
        ));
    }
}

/// Taking entries that replace nothing committed leaves all that is committed
/// in the log.
proof fn lemma_taking_sane(n: NodeView, f: NodeView, a: AppendView)
    requires
        n.wf(),
        n.sane(),
        n.room(a.entries.len() as int),
        a.term >= n.current_term,
        n.matches_prev(a),
        !n.overwrites_committed(a),
        f == (NodeView {
            current_leader_address: Some(a.leader_address),
            ..n.following(a.term, a.leader_id)
        }),
    ensures
        f.with_entries(a).sane(),
{
    assert(f.wf());
    lemma_taking_frame(f, a);
    law_committed_entries_stay(n, a, n.commit_index as int);
    let p = n.append_pos(a);
    lemma_agreement_exists(n.log, p, a.entries, 0);
    let k = agreement(n.log, p, a.entries);
    assert(agree_up_to(n.log, p, a.entries, k));
}

proof fn lemma_committed_out(n: NodeView)
    requires
        n.wf(),
        n.sane(),
    ensures
        applies(n.commit_actions()) == commands(
            n.committed(),
            n.last_applied as int,
            n.committed().last_applied as int,
        ),
{
    reveal(NodeView::committed);
    reveal(NodeView::commit_actions);
    if n.may_commit() {
        let m = NodeView { commit_index: n.majority_index(), ..n };
        assert(m.wf() && m.sane());
        lemma_applied_out(m);
    } else {
        lemma_nothing(n.commit_actions());
    }
}

/// Whatever honest message a node hears, apart from a snapshot: what it hands
/// to its state machine are the commands between the index up to which it had
/// applied and the one up to which it has applied afterwards, each once and in
/// the order of its log.
pub proof fn law_messages_hand_out_commands(n: NodeView, msg: RpcView)
    requires
        n.wf(),
        n.sane(),
        n.fits(msg),
        n.honest(msg),
        !(msg is InstallSnapshot),
    ensures
        applies(n.heard_actions(msg)) == commands(
            n.heard(msg),
            n.last_applied as int,
            n.heard(msg).last_applied as int,
        ),
{
    let none = Seq::<CommandView>::empty();
    match msg {
        RpcView::RequestVote(a) => {
            assert(applies_nothing(n.vote_actions(a)));
            lemma_nothing(n.vote_actions(a));
        },
        RpcView::RequestVoteResponse(r) => {
            if n.counts(r) {
                let v = n.with_vote(r);
                assert(v.wf() && v.sane());
                if v.config.decides(v.voters) {
                    lemma_leading_out(v);
                } else {
                    lemma_nothing(n.vote_count_actions(r));
                }
            } else {
                assert(applies_nothing(term_actions(n.current_term, r.term)));
                lemma_nothing(n.vote_count_actions(r));
            }
        },
        RpcView::AppendEntries(a) => {
            let f = NodeView {
                current_leader_address: Some(a.leader_address),
                ..n.following(a.term, a.leader_id)
            };
            if a.term < n.current_term {
                lemma_nothing(n.append_actions(a));
            } else {
                let base = term_actions(n.current_term, a.term).push(
                    ActionView::ResetElectionTimer,
                );
                assert(applies_nothing(base));
                lemma_nothing(base);
                if n.matches_prev(a) {
                    lemma_taking_sane(n, f, a);
                    assert(f.wf() && f.sane());
                    lemma_taking_out(f, a);
                    lemma_applies_add(base, f.taking_actions(a));
                    assert(none + applies(f.taking_actions(a)) =~= applies(f.taking_actions(a)));
                }
            }
        },
        RpcView::AppendEntriesResponse(r) => {
            if n.role == Role::Leader && r.term == n.current_term {
                lemma_answered_out(n, r);
            } else {
                assert(applies_nothing(term_actions(n.current_term, r.term)));
                lemma_nothing(n.append_answer_actions(r));
            }
        },
        RpcView::InstallSnapshotResponse(r) => {
            if n.role == Role::Leader && r.term == n.current_term {
                lemma_reads_apply_nothing(n.acked_by(r.peer_id).reads, n.last_applied);
                if n.slot_of(r.peer_id) is None {
                    lemma_nothing(n.snapshot_answer_actions(r));
                }
            } else {
                assert(applies_nothing(term_actions(n.current_term, r.term)));
                lemma_nothing(n.snapshot_answer_actions(r));
            }
        },
        RpcView::TimeoutNow(a) => {
            assert(applies_nothing(n.timeout_now_actions(a)));
            lemma_nothing(n.timeout_now_actions(a));
        },
        _ => {
            lemma_nothing(n.heard_actions(msg));
        },
    }
}

proof fn lemma_answered_out(n: NodeView, r: AppendEntriesReply)
    requires
        n.wf(),
        n.sane(),
        r.match_index < usize::MAX,
    ensures
        applies(n.answered_actions(r) + n.answered(r).commit_actions()) == commands(
            n.answered(r).committed(),
            n.last_applied as int,
            n.answered(r).committed().last_applied as int,
        ),
{
    reveal(NodeView::answered_actions);
    let m = n.answered(r);
    lemma_answer_taken(n, r);
    assert(m.last_applied == n.last_applied) by {
        reveal(NodeView::answered);
    }
    lemma_reads_apply_nothing(n.acked_by(r.peer_id).reads, n.last_applied);
    let reads = n.answered_actions(r);
    if !(n.slot_of(r.peer_id) is Some && r.success) {
        lemma_nothing(reads);
    }
    lemma_committed_out(m);
    lemma_applies_add(reads, m.commit_actions());
    assert(Seq::<CommandView>::empty() + applies(m.commit_actions()) =~= applies(
        m.commit_actions(),
    ));
}

/// So does a command that a leader takes: it is handed to the state machine at
/// once by a leader without peers, behind what it had not applied yet, and later
/// by any other.
pub proof fn law_proposals_hand_out_commands(n: NodeView, command: CommandView)
    requires
        n.wf(),
        n.sane(),
        n.room(1),
    ensures
        applies(n.proposed_actions(command)) == commands(
            n.proposed(command),
            n.last_applied as int,
            n.proposed(command).last_applied as int,
        ),
{
    let c = n.with_command(command);
    assert(c.log[0] == n.log[0]);
    let base = seq![c.save_last()];
    assert(applies_nothing(base));
    lemma_nothing(base);
    if c.peers.len() == 0 && c.last_index() > c.commit_index {
        let m = NodeView { commit_index: c.last_index() as usize, ..c };
        assert(m.wf() && m.sane());
        lemma_applied_out(m);
        lemma_applies_add(base, m.applied_actions());
        assert(Seq::<CommandView>::empty() + applies(m.applied_actions()) =~= applies(
            m.applied_actions(),
        ));
    }
}

/// Whenever an entry that is applied changes the configuration, or ends a
/// change of members, the configuration is saved.
pub proof fn law_configurations_are_saved(n: NodeView, cmd: MembershipView)
    requires
        n.member_applied(cmd).config != n.config || n.member_applied(cmd).change != n.change,
    ensures
        membership_actions(cmd).contains(ActionView::SaveConfig),
{
    assert(membership_actions(cmd)[0] == ActionView::SaveConfig);
}

/// All the more when all that is committed is applied.
pub proof fn law_applying_saves_configurations(n: NodeView)
    requires
        n.wf(),
        n.sane(),
        n.applied().config != n.config,
    ensures
        n.applied_actions().contains(ActionView::SaveConfig),
    decreases n.commit_index - n.last_applied,
{
    if n.last_applied < n.commit_index {
        let m = n.stepped();
        lemma_stepped(n);
        let first = n.step_actions();
        let rest = m.applied_actions();
        let all = n.applied_actions();
        if m.config != n.config {
            let w = NodeView { last_applied: (n.last_applied + 1) as usize, ..n };
            assert(w.holds(w.last_applied as int));
            let cmd = w.entry(w.last_applied as int).command->Membership_0;
            assert(w.member_applied(cmd).config != w.config);
            law_configurations_are_saved(w, cmd);
            let own = membership_actions(cmd);
            let answers = read_answers(w.reads, w.last_applied);
            assert(first == own + answers);
            let i = own.index_of(ActionView::SaveConfig);
            assert(all[i] == ActionView::SaveConfig);
        } else {
            law_applying_saves_configurations(m);
            let i = rest.index_of(ActionView::SaveConfig);
            assert(all[first.len() + i] == ActionView::SaveConfig);
        }
    }
}

/// In its turn a leader sends to every member that it talks to what that member
/// lacks.
pub proof fn law_leaders_turn(
    n: NodeView,
    elapsed_ms: u64,
    timeout_ms: u64,
    id: usize,
    i: int,
)
    requires
        n.wf(),
        n.role == Role::Leader,
        n.peers.no_duplicates(),
        n.config.everyone().dom().finite(),
        id != n.id,
        0 <= i < n.peers.len(),
        lists_at(n.config.everyone(), id, n.peers[i]),
    ensures
        n.acted_actions(elapsed_ms, timeout_ms).contains(n.replication(n.peers[i], i)),
{
    law_every_member_is_sent_to(n, id, i);
    let x = n.replication(n.peers[i], i);
    let beats = n.heartbeats();
    let all = n.acted_actions(elapsed_ms, timeout_ms);
    assert(all[beats.index_of(x)] == x);
}

/// A log that is compacted has its snapshot saved, up to what is applied and
/// with the term there.
pub proof fn law_compaction_is_saved(n: NodeView)
    requires
        n.wf(),
        n.sane(),
        n.log.len() > 100,
        n.commit_index > n.last_included_index,
    ensures
        n.settled_actions().last() matches ActionView::SaveSnapshot { index, term, .. } && index
            == n.commit_index && term == n.log[n.commit_index - n.last_included_index].term,
        applies(n.settled_actions()) == commands(
            n,
            n.last_applied as int,
            n.commit_index as int,
        ),
{
    lemma_applied(n);
    law_applies_in_order(n);
    let a = n.applied_actions();
    let x = n.applied().compact_action();
    assert(n.settled_actions() =~= a + seq![x]);
    lemma_applies_add(a, seq![x]);
    assert(applies_nothing(seq![x]));
    lemma_nothing(seq![x]);
    assert(applies(a) + Seq::<CommandView>::empty() =~= applies(a));
}

} // verus!
