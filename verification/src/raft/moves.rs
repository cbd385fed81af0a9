//! How each step changes the log of a node, its commit index and what it knows
//! of the others.

use crate::raft::append::{agreement, lemma_agreement_exists, merged};
use crate::raft::cluster::{logged, resumes, Step};
use crate::raft::command::EntryView;
use crate::raft::config::Role;
use crate::raft::drive::RpcView;
use crate::raft::laws::{law_commit_needs_quorum, lemma_answer_taken};
use crate::raft::leader::{lemma_slot_of, reached};
use crate::raft::node::{AppendEntriesReply, AppendView, NodeView};
use crate::raft::snapshot::{snapshot_entry, InstallView};
use vstd::prelude::*;

verus! {

/// No entry of the log changes the members.
pub open spec fn plain(n: NodeView) -> bool {
    forall|i: int| 1 <= i < n.log.len() ==> !((#[trigger] n.log[i]).command is Membership)
}

/// Applying entries that change no members changes nothing but how far the
/// node has applied, and its reads.
pub proof fn lemma_plain_applied(n: NodeView)
    requires
        plain(n),
        n.last_included_index <= n.last_applied,
    ensures
        n.applied() == (NodeView {
            last_applied: if n.last_applied < n.commit_index {
                n.commit_index
            } else {
                n.last_applied
            },
            reads: n.applied().reads,
            ..n
        }),
    decreases n.commit_index - n.last_applied,
{
    if n.last_applied < n.commit_index {
        let m = n.stepped();
        let k = n.last_applied + 1;
        if n.last_included_index <= k <= n.last_index() {
            assert(!(n.log[k - n.last_included_index].command is Membership));
        }
        assert(m == NodeView { last_applied: k as usize, reads: m.reads, ..n });
        assert(plain(m));
        lemma_plain_applied(m);
    }
}

/// What a node is, but for terms, votes and its log.
pub open spec fn same_place(n: NodeView, m: NodeView) -> bool {
    &&& m.id == n.id
    &&& m.config == n.config
    &&& m.peers == n.peers
    &&& m.change == n.change
    &&& m.last_applied <= m.commit_index
    &&& m.last_included_index <= m.last_applied
    &&& m.current_term >= n.current_term
}

/// The log ends as before, whatever a snapshot took of it.
pub open spec fn same_log(n: NodeView, m: NodeView) -> bool {
    &&& m.commit_index == n.commit_index
    &&& n.last_included_index <= m.last_included_index <= m.commit_index
    &&& m.log.len() >= 1
    &&& m.log[0].term == m.last_included_term
    &&& m.last_included_term == n.entry(m.last_included_index as int).term
    &&& m.last_index() == n.last_index()
    &&& m.last_term() == n.last_term()
    &&& logged(m).subset_of(logged(n))
}

/// The node goes on with the log that it has: whoever leads led before, and
/// has learnt nothing of the others.
pub open spec fn goes_on(n: NodeView, m: NodeView) -> bool {
    &&& same_place(n, m)
    &&& same_log(n, m)
    &&& m.role == Role::Leader ==> n.role == Role::Leader && m.current_term == n.current_term
        && m.match_index == n.match_index
    &&& m.role == Role::Candidate ==> m.current_term > n.current_term || n.role == Role::Candidate
}

/// The log has one entry more, of the term that the node leads; alone, the
/// node commits it.
pub open spec fn grows(n: NodeView, m: NodeView) -> bool {
    &&& same_place(n, m)
    &&& m.role == Role::Leader
    &&& m.last_included_index == n.last_included_index
    &&& m.last_included_term == n.last_included_term
    &&& m.log == n.log.push(m.log.last())
    &&& m.log.last().term == m.current_term
    &&& !(m.log.last().command is Membership)
    &&& m.commit_index == n.commit_index || (m.peers.len() == 0 && m.commit_index
        == m.last_index())
    &&& if n.role == Role::Leader && n.current_term == m.current_term {
        m.match_index == n.match_index
    } else {
        &&& forall|j: int|
            0 <= j < m.match_index.len() ==> #[trigger] m.match_index[j] == m.last_included_index
        &&& n.last_term() < m.current_term
    }
}

/// The node took entries of a leader.
pub open spec fn takes(n: NodeView, m: NodeView, a: AppendView) -> bool {
    &&& same_place(n, m)
    &&& n.accepts(a)
    &&& m.role == Role::Follower
    &&& m.current_term == a.term
    &&& m.last_included_index == n.last_included_index
    &&& m.last_included_term == n.last_included_term
    &&& m.log == merged(n.log, n.append_pos(a), a.entries)
    &&& m.commit_index == n.commit_after(a.leader_commit, a.prev_log_index + a.entries.len())
}

/// The node took the snapshot of a leader.
pub open spec fn restores(n: NodeView, m: NodeView, a: InstallView) -> bool {
    &&& same_place(n, m)
    &&& n.installs(a)
    &&& m.role == Role::Follower
    &&& m.current_term == a.term
    &&& m.last_included_index == a.last_included_index
    &&& m.last_included_term == a.last_included_term
    &&& m.log == seq![snapshot_entry(a.last_included_term)] + n.rest_after(
        a.last_included_index,
        a.last_included_term,
    )
    &&& m.commit_index == a.last_included_index
}

/// Behind a snapshot the log ends as before, if it held the last entry of the
/// snapshot; else it ends with the snapshot.
pub proof fn lemma_restored_log(n: NodeView, m: NodeView, a: InstallView)
    requires
        n.log.len() >= 1,
        n.last_included_index <= n.commit_index,
        restores(n, m, a),
    ensures
        m.log.len() >= 1,
        m.log[0].term == m.last_included_term,
        logged(m).subset_of(logged(n)),
        m.last_index() >= m.last_included_index,
        if n.agrees_at(a.last_included_index, a.last_included_term) {
            m.last_index() == n.last_index() && m.last_term() == n.last_term()
        } else {
            m.last_index() == a.last_included_index && m.last_term() == a.last_included_term
        },
{
    let k = a.last_included_index as int;
    let at = k - n.last_included_index;
    if n.agrees_at(a.last_included_index, a.last_included_term) {
        let tail = n.log.skip(at + 1);
        assert forall|q: (int, EntryView, u64)| logged(m).contains(q) implies logged(n).contains(
            q,
        ) by {
            assert(m.log[q.0 - k] == tail[q.0 - k - 1]);
            assert(m.entry(q.0) == n.entry(q.0));
            if q.0 - 1 > k {
                assert(m.log[q.0 - 1 - k] == tail[q.0 - 1 - k - 1]);
            }
            assert(m.entry(q.0 - 1).term == n.entry(q.0 - 1).term);
        }
        if tail.len() > 0 {
            assert(m.log.last() == tail.last());
        } else {
            assert(n.log.last() == n.entry(k));
        }
    } else {
        assert(m.log =~= seq![snapshot_entry(a.last_included_term)]);
    }
}

/// A leader learnt that the member in place `i` holds its log up to `v`, and
/// may have committed more.
pub open spec fn learns(n: NodeView, m: NodeView, i: int, v: usize) -> bool {
    &&& same_place(n, m)
    &&& n.role == Role::Leader
    &&& m.role == Role::Leader
    &&& m.current_term == n.current_term
    &&& m.log == n.log
    &&& m.last_included_index == n.last_included_index
    &&& m.last_included_term == n.last_included_term
    &&& m.match_index == n.match_index || (0 <= i < n.match_index.len() && m.match_index
        == n.match_index.update(i, v))
    &&& m.commit_index == n.commit_index || {
        &&& m.commit_index > n.commit_index
        &&& m.holds(m.commit_index as int)
        &&& m.entry(m.commit_index as int).term == m.current_term
        &&& m.config.decides(reached(m.known_progress(), m.commit_index))
    }
}

/// The node came back with the log that it had.
pub open spec fn restarts(n: NodeView, m: NodeView) -> bool {
    &&& resumes(n, m)
    &&& m.id == n.id
    &&& m.config == n.config
    &&& m.change is Idle
    &&& m.last_index() == n.last_index()
    &&& m.last_term() == n.last_term()
    &&& logged(m) == logged(n)
}

/// How a step changes a node.
pub open spec fn moves(n: NodeView, m: NodeView, step: Step) -> bool {
    match step {
        Step::Hear { msg: RpcView::AppendEntries(a) } => if n.accepts(a) {
            takes(n, m, a)
        } else {
            goes_on(n, m)
        },
        Step::Hear { msg: RpcView::InstallSnapshot(a) } => if n.installs(a) {
            restores(n, m, a)
        } else {
            goes_on(n, m)
        },
        Step::Hear { msg: RpcView::AppendEntriesResponse(r) } => if n.role == Role::Leader
            && r.term == n.current_term {
            match n.slot_of(r.peer_id) {
                Some(i) if r.success => learns(n, m, i, r.match_index),
                _ => learns(n, m, 0, 0) && m.match_index == n.match_index,
            }
        } else {
            goes_on(n, m)
        },
        Step::Hear { msg: RpcView::InstallSnapshotResponse(r) } => if n.role == Role::Leader
            && r.term == n.current_term {
            match n.slot_of(r.peer_id) {
                Some(i) => learns(n, m, i, r.last_included_index),
                None => goes_on(n, m),
            }
        } else {
            goes_on(n, m)
        },
        Step::Restart { node } => restarts(n, m),
        _ => goes_on(n, m) || grows(n, m),
    }
}

pub proof fn lemma_same_log(n: NodeView, m: NodeView)
    requires
        n.log.len() >= 1,
        n.log[0].term == n.last_included_term,
        n.last_included_index <= n.commit_index,
        m.log == n.log,
        m.last_included_index == n.last_included_index,
        m.last_included_term == n.last_included_term,
        m.commit_index == n.commit_index,
    ensures
        same_log(n, m),
{
    assert(logged(m) =~= logged(n));
}

/// Taking the lead, alone or not.
pub proof fn lemma_leading(n: NodeView)
    requires
        plain(n),
        n.wf(),
        n.sane(),
        n.room(1),
    ensures
        ({
            let m = n.leading();
            &&& m.id == n.id
            &&& m.config == n.config
            &&& m.peers == n.peers
            &&& m.change == n.change
            &&& m.role == Role::Leader
            &&& m.current_term == n.current_term
            &&& m.last_included_index == n.last_included_index
            &&& m.last_included_term == n.last_included_term
            &&& m.log == n.log.push(n.opening_entry())
            &&& m.commit_index == n.commit_index || (m.peers.len() == 0 && m.commit_index
                == m.last_index())
            &&& m.last_applied <= m.commit_index
            &&& m.last_included_index <= m.last_applied
            &&& forall|j: int|
                0 <= j < m.match_index.len() ==> #[trigger] m.match_index[j]
                    == m.last_included_index
        }),
{
    let e = n.enthroned();
    assert(plain(e)) by {
        assert forall|i: int| 1 <= i < e.log.len() implies !((
        #[trigger] e.log[i]).command is Membership) by {
            if i < n.log.len() {
                assert(e.log[i] == n.log[i]);
            }
        }
    }
    if e.peers.len() == 0 && e.last_index() > e.commit_index {
        let w = NodeView { commit_index: e.last_index() as usize, ..e };
        assert(plain(w));
        lemma_plain_applied(w);
    }
}

pub proof fn lemma_take_moves(n: NodeView, a: AppendView)
    requires
        plain(n),
        n.wf(),
        n.sane(),
        n.room(a.entries.len() as int),
        n.accepts(a),
        forall|j: int|
            0 <= j < a.entries.len() ==> !((#[trigger] a.entries[j]).command is Membership),
        n.commit_index <= merged(n.log, n.append_pos(a), a.entries).len()
            + n.last_included_index - 1,
    ensures
        takes(n, n.appended(a), a),
{
    let f = NodeView {
        current_leader_address: Some(a.leader_address),
        ..n.following(a.term, a.leader_id)
    };
    let w = f.with_entries(a);
    let p = n.append_pos(a);
    lemma_agreement_exists(n.log, p, a.entries, 0);
    let k = agreement(n.log, p, a.entries);
    assert(f.append_pos(a) == p);
    assert(w.log == merged(n.log, p, a.entries));
    assert(plain(w)) by {
        assert forall|i: int| 1 <= i < w.log.len() implies !((
        #[trigger] w.log[i]).command is Membership) by {
            if k == a.entries.len() || i < p + k {
                assert(w.log[i] == n.log[i]);
            } else {
                assert(w.log[i] == a.entries[i - p]);
            }
        }
    }
    if a.leader_commit > n.commit_index {
        lemma_plain_applied(w);
    }
}

/// An answer changes nothing but what the leader notes of the others, and its
/// reads.
pub proof fn lemma_answered(n: NodeView, r: AppendEntriesReply)
    requires
        n.wf(),
    ensures
        ({
            let w = n.answered(r);
            &&& w == (NodeView {
                next_index: w.next_index,
                match_index: w.match_index,
                catch_up: w.catch_up,
                reads: w.reads,
                ..n
            })
            &&& w.match_index == match n.slot_of(r.peer_id) {
                Some(i) if r.success => n.match_index.update(i, r.match_index),
                _ => n.match_index,
            }
        }),
{
    reveal(NodeView::answered);
}

/// Committing changes nothing but the commit index, how far the node has
/// applied, and its reads.
pub proof fn lemma_committing(w: NodeView)
    requires
        plain(w),
        w.wf(),
    ensures
        ({
            let m = w.committed();
            &&& m == (NodeView {
                commit_index: m.commit_index,
                last_applied: m.last_applied,
                reads: m.reads,
                ..w
            })
            &&& w.last_applied <= w.commit_index ==> m.last_applied <= m.commit_index
            &&& w.last_applied <= m.last_applied
            &&& m.commit_index == w.commit_index || m.commit_index > w.commit_index
        }),
{
    reveal(NodeView::committed);
    if w.may_commit() {
        let b = NodeView { commit_index: w.majority_index(), ..w };
        assert(plain(b));
        lemma_plain_applied(b);
    }
}

pub proof fn lemma_answer_moves(n: NodeView, msg: RpcView)
    requires
        plain(n),
        n.wf(),
        n.sane(),
        n.fits(msg),
        n.role == Role::Leader,
        msg matches RpcView::AppendEntriesResponse(r) && r.term == n.current_term,
    ensures
        moves(n, n.heard(msg), Step::Hear { msg }),
{
    let r = msg->AppendEntriesResponse_0;
    let w = n.answered(r);
    let m = w.committed();
    lemma_answer_taken(n, r);
    lemma_slot_of(n, r.peer_id);
    lemma_answered(n, r);
    assert(plain(w));
    lemma_committing(w);
    assert(m == n.heard(msg));
    if m.commit_index != n.commit_index {
        law_commit_needs_quorum(w);
        assert(w.known_progress() =~= m.known_progress());
        assert(m.entry(m.commit_index as int) == w.entry(m.commit_index as int));
    }
}

pub proof fn lemma_settle_moves(n: NodeView)
    requires
        plain(n),
        n.wf(),
        n.sane(),
    ensures
        goes_on(n, n.settled()),
{
    lemma_plain_applied(n);
    let m = n.applied();
    if m.overlong() {
        let s = m.compacted();
        let at = m.last_applied - m.last_included_index;
        assert(s.last_index() == m.last_index());
        assert(s.log.last() == m.log.last() || s.log.len() == 1);
        assert(s.last_term() == n.last_term());
        assert forall|q: (int, EntryView, u64)| logged(s).contains(q) implies logged(n).contains(
            q,
        ) by {
            assert(s.log[q.0 - s.last_included_index] == m.log.skip(at + 1)[q.0
                - s.last_included_index - 1]);
            assert(s.entry(q.0) == m.entry(q.0));
            if q.0 - 1 > s.last_included_index {
                assert(s.log[q.0 - 1 - s.last_included_index] == m.log.skip(at + 1)[q.0 - 1
                    - s.last_included_index - 1]);
            }
            assert(s.entry(q.0 - 1).term == m.entry(q.0 - 1).term);
        }
        assert(s.last_included_term == n.entry(s.last_included_index as int).term);
    } else {
        lemma_same_log(n, m);
    }
}

} // verus!
