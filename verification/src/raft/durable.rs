//! What of a node is on disk, and that it is enough to start again.

use crate::bytes::{be_digits, lemma_be_len, lemma_be_round_trip, lemma_u64_digits};
use crate::raft::append::{
    agreement, lemma_agreement_exists, merge_actions, saves, term_actions,
};
use crate::raft::apply::{
    lemma_applied, membership_actions, read_answers,
};
use crate::raft::cluster::resumes;
use crate::raft::command::{CommandView, EntryView};
use crate::raft::config::Role;
use crate::raft::drive::{
    bytes_view, initial_node, saved_term, saved_vote, RpcView, SavedState,
};
use crate::raft::laws::lemma_answer_taken;
use crate::raft::node::{ActionView, AppendView, NodeView, ReadView};
use vstd::prelude::*;

verus! {

/// What of a node is on disk: its term, its vote, the position of its snapshot
/// and the entries by their index.
#[verifier::ext_equal]
pub struct Disk {
    pub term: u64,
    pub vote: Option<usize>,
    pub snapshot_index: usize,
    pub snapshot_term: u64,
    pub entries: Map<int, EntryView>,
}

impl Disk {
    /// The entry at `k` belongs to the unbroken run of entries from `from` on.
    pub open spec fn in_run(self, from: int, k: int) -> bool {
        from <= k && forall|j: int| from <= j <= k ==> #[trigger] self.entries.contains_key(j)
    }

    /// The disk after an action; only some of them write.
    pub open spec fn after(self, a: ActionView) -> Disk {
        match a {
            ActionView::SaveTerm { term } => Disk { term, ..self },
            ActionView::SaveVote { vote } => Disk { vote, ..self },
            ActionView::SaveEntry { index, entry } => Disk {
                entries: self.entries.insert(index as int, entry),
                ..self
            },
            ActionView::EraseFrom { index } => Disk {
                entries: self.entries.remove_keys(
                    Set::new(|k: int| self.in_run(index as int, k)),
                ),
                ..self
            },
            ActionView::SaveSnapshot { index, term, erase_from } => self.covered(
                index,
                term,
                erase_from,
            ),
            ActionView::RestoreSnapshot { index, term, data, erase_from } => self.covered(
                index,
                term,
                erase_from,
            ),
            _ => self,
        }
    }

    /// The disk once a snapshot is written and the entries that it covers, from
    /// `erase_from` on, are erased.
    pub open spec fn covered(self, index: usize, term: u64, erase_from: usize) -> Disk {
        Disk {
            snapshot_index: index,
            snapshot_term: term,
            entries: self.entries.remove_keys(
                Set::new(|k: int| erase_from <= k <= index),
            ),
            ..self
        }
    }

    /// The disk after actions, in order.
    pub open spec fn after_all(self, actions: Seq<ActionView>) -> Disk
        decreases actions.len(),
    {
        if actions.len() == 0 {
            self
        } else {
            self.after_all(actions.drop_last()).after(actions.last())
        }
    }

    /// The disk holds what the node must not forget: term, vote, snapshot, and
    /// all entries that follow it but no others.
    pub open spec fn mirrors(self, n: NodeView) -> bool {
        &&& self.term == n.current_term
        &&& self.vote == n.voted_for
        &&& self.snapshot_index == n.last_included_index
        &&& self.snapshot_term == n.last_included_term
        &&& forall|k: int| #[trigger]
            self.entries.contains_key(k) <==> n.last_included_index < k <= n.last_index()
        &&& forall|k: int| #[trigger]
            self.entries.contains_key(k) ==> self.entries[k] == n.entry(k)
    }

    /// What a node finds on such a disk.
    pub open spec fn holds(self, saved: SavedState, count: int) -> bool {
        &&& saved_term(bytes_view(saved.term)) == self.term
        &&& saved_vote(bytes_view(saved.vote)) == self.vote
        &&& saved.snapshot == Some((self.snapshot_index, self.snapshot_term))
        &&& saved.entries.deep_view() == Seq::new(
            count as nat,
            |i: int| self.entries[self.snapshot_index + 1 + i],
        )
    }
}

/// The action writes nothing that a disk holds.
pub open spec fn quiet(a: ActionView) -> bool {
    match a {
        ActionView::SaveTerm { .. } => false,
        ActionView::SaveVote { .. } => false,
        ActionView::SaveEntry { .. } => false,
        ActionView::EraseFrom { .. } => false,
        ActionView::SaveSnapshot { .. } => false,
        ActionView::RestoreSnapshot { .. } => false,
        _ => true,
    }
}

/// None of the actions writes.
pub open spec fn all_quiet(s: Seq<ActionView>) -> bool {
    forall|i: int| 0 <= i < s.len() ==> quiet(#[trigger] s[i])
}

proof fn lemma_quiet(d: Disk, s: Seq<ActionView>)
    requires
        all_quiet(s),
    ensures
        d.after_all(s) == d,
    decreases s.len(),
{
    if s.len() > 0 {
        let t = s.drop_last();
        assert forall|i: int| 0 <= i < t.len() implies quiet(#[trigger] t[i]) by {
            assert(t[i] == s[i]);
        }
        lemma_quiet(d, t);
        assert(quiet(s[s.len() - 1]));
    }
}

proof fn lemma_after_add(d: Disk, s: Seq<ActionView>, t: Seq<ActionView>)
    ensures
        d.after_all(s + t) == d.after_all(s).after_all(t),
    decreases t.len(),
{
    if t.len() == 0 {
        assert(s + t =~= s);
    } else {
        assert((s + t).drop_last() =~= s + t.drop_last());
        assert((s + t).last() == t.last());
        lemma_after_add(d, s, t.drop_last());
    }
}

proof fn lemma_after_one(d: Disk, a: ActionView)
    ensures
        d.after_all(seq![a]) == d.after(a),
{
    reveal_with_fuel(Disk::after_all, 2);
    assert(seq![a].drop_last() =~= Seq::<ActionView>::empty());
}

proof fn lemma_quiet_add(s: Seq<ActionView>, t: Seq<ActionView>)
    requires
        all_quiet(s),
        all_quiet(t),
    ensures
        all_quiet(s + t),
{
    assert forall|i: int| 0 <= i < (s + t).len() implies quiet(#[trigger] (s + t)[i]) by {
        if i >= s.len() {
            assert((s + t)[i] == t[i - s.len()]);
        } else {
            assert((s + t)[i] == s[i]);
        }
    }
}

proof fn lemma_read_answers_quiet(reads: Seq<ReadView>, last_applied: usize)
    ensures
        all_quiet(read_answers(reads, last_applied)),
    decreases reads.len(),
{
    if reads.len() > 0 {
        lemma_read_answers_quiet(reads.drop_last(), last_applied);
        lemma_quiet_add(
            seq![
                ActionView::ReadReady {
                    request: reads.last().request,
                    read_index: reads.last().read_index,
                },
            ],
            read_answers(reads.drop_last(), last_applied),
        );
    }
}

proof fn lemma_step_quiet(n: NodeView)
    ensures
        all_quiet(n.step_actions()),
{
    let m = NodeView { last_applied: (n.last_applied + 1) as usize, ..n };
    if m.holds(m.last_applied as int) {
        lemma_read_answers_quiet(m.reads, m.last_applied);
        let own = match m.entry(m.last_applied as int).command {
            CommandView::Membership(cmd) => membership_actions(cmd),
            command => seq![ActionView::Apply { command }],
        };
        lemma_quiet_add(own, read_answers(m.reads, m.last_applied));
    }
}

proof fn lemma_applied_quiet(n: NodeView)
    ensures
        all_quiet(n.applied_actions()),
    decreases n.commit_index - n.last_applied,
{
    if n.last_applied < n.commit_index {
        lemma_step_quiet(n);
        lemma_applied_quiet(n.stepped());
        lemma_quiet_add(n.step_actions(), n.stepped().applied_actions());
    }
}

proof fn lemma_heartbeats_quiet(n: NodeView, k: int)
    ensures
        all_quiet(n.heartbeats_to(k)),
    decreases k,
{
    if k > 0 {
        lemma_heartbeats_quiet(n, k - 1);
    }
}

/// Applying changes nothing that a disk mirrors.
proof fn lemma_applied_mirror(d: Disk, n: NodeView)
    requires
        n.wf(),
        d.mirrors(n),
    ensures
        d.after_all(n.applied_actions()).mirrors(n.applied()),
{
    lemma_applied_quiet(n);
    lemma_quiet(d, n.applied_actions());
    lemma_applied(n);
}

proof fn lemma_term_mirror(d: Disk, n: NodeView, term: u64)
    requires
        d.mirrors(n),
        term >= n.current_term,
    ensures
        ({
            let e = d.after_all(term_actions(n.current_term, term));
            &&& e.term == term
            &&& e.vote == if term > n.current_term {
                None
            } else {
                n.voted_for
            }
            &&& e.snapshot_index == d.snapshot_index
            &&& e.snapshot_term == d.snapshot_term
            &&& e.entries == d.entries
        }),
{
    if term > n.current_term {
        let a = ActionView::SaveTerm { term };
        let b = ActionView::SaveVote { vote: None };
        assert(seq![a, b] =~= seq![a] + seq![b]);
        lemma_after_add(d, seq![a], seq![b]);
        lemma_after_one(d, a);
        lemma_after_one(d.after(a), b);
    }
}

proof fn lemma_saves(d: Disk, first: int, entries: Seq<EntryView>)
    requires
        0 <= first,
        first + entries.len() <= usize::MAX + 1,
    ensures
        ({
            let e = d.after_all(saves(first, entries));
            &&& e.term == d.term
            &&& e.vote == d.vote
            &&& e.snapshot_index == d.snapshot_index
            &&& e.snapshot_term == d.snapshot_term
            &&& forall|k: int| #[trigger]
                e.entries.contains_key(k) == (d.entries.contains_key(k) || first <= k < first
                    + entries.len())
            &&& forall|k: int| #[trigger]
                e.entries.contains_key(k) ==> e.entries[k] == if first <= k < first
                    + entries.len() {
                    entries[k - first]
                } else {
                    d.entries[k]
                }
        }),
    decreases entries.len(),
{
    if entries.len() > 0 {
        let front = entries.drop_last();
        lemma_saves(d, first, front);
        assert(saves(first, entries).drop_last() =~= saves(first, front));
        let last = saves(first, entries).last();
        assert(last == (ActionView::SaveEntry {
            index: (first + front.len()) as usize,
            entry: entries.last(),
        }));
    }
}

/// One more entry, written and kept in mind.
proof fn lemma_push_mirror(d: Disk, n: NodeView, e: EntryView)
    requires
        d.mirrors(n),
        n.wf(),
        n.room(1),
    ensures
        ({
            let m = NodeView { log: n.log.push(e), ..n };
            d.after(
                ActionView::SaveEntry { index: m.last_index() as usize, entry: e },
            ).mirrors(m)
        }),
{
    let m = NodeView { log: n.log.push(e), ..n };
    let f = d.after(ActionView::SaveEntry { index: m.last_index() as usize, entry: e });
    assert(m.last_index() == n.last_index() + 1);
    assert forall|k: int| #[trigger] f.entries.contains_key(k) implies f.entries[k] == m.entry(
        k,
    ) by {
        if k != m.last_index() {
            assert(d.entries.contains_key(k));
        }
    }
}

/// Entries of a leader, written and kept in mind.
proof fn lemma_merge_mirror(d: Disk, n: NodeView, a: AppendView)
    requires
        d.mirrors(n),
        n.wf(),
        n.room(a.entries.len() as int),
        n.matches_prev(a),
    ensures
        d.after_all(
            merge_actions(n.log, n.append_pos(a), a.prev_log_index + 1, a.entries),
        ).mirrors(n.with_entries(a)),
        n.with_entries(a).wf(),
{
    let p = n.append_pos(a);
    let first = a.prev_log_index + 1;
    let k = agreement(n.log, p, a.entries);
    let m = n.with_entries(a);
    lemma_agreement_exists(n.log, p, a.entries, 0);
    if k < a.entries.len() {
        let rest = a.entries.skip(k);
        let from = first + k;
        let erase = ActionView::EraseFrom { index: from as usize };
        let d1 = if p + k < n.log.len() {
            d.after(erase)
        } else {
            d
        };
        if p + k < n.log.len() {
            lemma_after_add(d, seq![erase], saves(from, rest));
            lemma_after_one(d, erase);
            assert forall|i: int| #[trigger] d1.entries.contains_key(i) == (
            n.last_included_index < i < from) by {
                assert(d.entries.contains_key(i) == (n.last_included_index < i
                    <= n.last_index()));
                if from <= i <= n.last_index() {
                    assert forall|j: int| from <= j <= i implies #[trigger]
                        d.entries.contains_key(j) by {}
                    assert(d.in_run(from, i));
                }
            }
        } else {
            assert forall|i: int| #[trigger] d1.entries.contains_key(i) == (
            n.last_included_index < i < from) by {}
        }
        lemma_saves(d1, from, rest);
        let e = d1.after_all(saves(from, rest));
        assert(e == d.after_all(merge_actions(n.log, p, first, a.entries)));
        assert(m.log == n.log.take(p + k) + rest);
        assert(m.last_index() == from + rest.len() - 1);
        assert forall|i: int| #[trigger] e.entries.contains_key(i) implies e.entries[i] == m.entry(
            i,
        ) by {
            if i < from {
                assert(d1.entries.contains_key(i));
                assert(d.entries.contains_key(i));
                assert(m.entry(i) == n.entry(i));
            } else {
                assert(m.entry(i) == rest[i - from]);
            }
        }
    }
}

proof fn lemma_leading_mirror(d: Disk, n: NodeView)
    requires
        d.mirrors(n),
        n.wf(),
        n.room(1),
    ensures
        d.after_all(n.leading_actions()).mirrors(n.leading()),
{
    let m = n.enthroned();
    let save = ActionView::SaveEntry { index: m.last_index() as usize, entry: n.opening_entry() };
    let d1 = d.after(save);
    lemma_after_one(d, save);
    lemma_push_mirror(d, n, n.opening_entry());
    let l = NodeView { log: n.log.push(n.opening_entry()), ..n };
    assert(m.log == l.log && m.last_index() == l.last_index());
    assert forall|k: int| #[trigger] d1.entries.contains_key(k) implies d1.entries[k] == m.entry(
        k,
    ) by {
        assert(l.entry(k) == m.entry(k));
    }
    assert(d1.mirrors(m));
    if m.peers.len() == 0 && m.last_index() > m.commit_index {
        let c = NodeView { commit_index: m.last_index() as usize, ..m };
        assert(d1.mirrors(c)) by {
            assert forall|k: int| #[trigger] d1.entries.contains_key(k) implies d1.entries[k]
                == c.entry(k) by {
                assert(m.entry(k) == c.entry(k));
            }
        }
        lemma_applied_mirror(d1, c);
        lemma_after_add(d, seq![save], c.applied_actions());
    }
}

/// A disk that mirrors a node mirrors any other with the same term, vote, log
/// and snapshot.
proof fn lemma_same_mirror(d: Disk, n: NodeView, m: NodeView)
    requires
        d.mirrors(n),
        m.current_term == n.current_term,
        m.voted_for == n.voted_for,
        m.log == n.log,
        m.last_included_index == n.last_included_index,
        m.last_included_term == n.last_included_term,
    ensures
        d.mirrors(m),
{
    assert forall|k: int| #[trigger] d.entries.contains_key(k) implies d.entries[k] == m.entry(
        k,
    ) by {
        assert(n.entry(k) == m.entry(k));
    }
}

proof fn lemma_following_mirror(d: Disk, n: NodeView, m: NodeView, term: u64)
    requires
        d.mirrors(n),
        term >= n.current_term,
        m.current_term == term,
        m.voted_for == if term > n.current_term {
            None
        } else {
            n.voted_for
        },
        m.log == n.log,
        m.last_included_index == n.last_included_index,
        m.last_included_term == n.last_included_term,
    ensures
        d.after_all(term_actions(n.current_term, term)).mirrors(m),
{
    let t = term_actions(n.current_term, term);
    let e = d.after_all(t);
    lemma_term_mirror(d, n, term);
    assert forall|k: int| #[trigger] e.entries.contains_key(k) implies e.entries[k] == m.entry(
        k,
    ) by {
        assert(d.entries.contains_key(k));
        assert(n.entry(k) == m.entry(k));
    }
}

proof fn lemma_vote_mirror(d: Disk, n: NodeView, vote: Option<usize>)
    requires
        d.mirrors(n),
    ensures
        d.after(ActionView::SaveVote { vote }).mirrors(NodeView { voted_for: vote, ..n }),
{
    let m = NodeView { voted_for: vote, ..n };
    let e = d.after(ActionView::SaveVote { vote });
    assert forall|k: int| #[trigger] e.entries.contains_key(k) implies e.entries[k] == m.entry(
        k,
    ) by {
        assert(n.entry(k) == m.entry(k));
    }
}

proof fn lemma_standing_mirror(d: Disk, n: NodeView)
    requires
        d.mirrors(n),
    ensures
        d.after_all(n.standing_actions()).mirrors(n.standing()),
{
    let a = ActionView::SaveTerm { term: (n.current_term + 1) as u64 };
    let b = ActionView::SaveVote { vote: Some(n.id) };
    let c = ActionView::ResetElectionTimer;
    assert(n.standing_actions() =~= seq![a] + (seq![b] + seq![c]));
    lemma_after_add(d, seq![a], seq![b] + seq![c]);
    lemma_after_one(d, a);
    lemma_after_add(d.after(a), seq![b], seq![c]);
    lemma_after_one(d.after(a), b);
    lemma_after_one(d.after(a).after(b), c);
    let e = d.after_all(n.standing_actions());
    let m = n.standing();
    assert forall|k: int| #[trigger] e.entries.contains_key(k) implies e.entries[k] == m.entry(
        k,
    ) by {
        assert(d.entries.contains_key(k));
        assert(n.entry(k) == m.entry(k));
    }
}

proof fn lemma_append_mirror(d: Disk, n: NodeView, a: AppendView)
    requires
        d.mirrors(n),
        n.wf(),
        n.room(a.entries.len() as int),
    ensures
        d.after_all(n.append_actions(a)).mirrors(n.appended(a)),
{
    if a.term >= n.current_term {
        let t = term_actions(n.current_term, a.term);
        let timer = ActionView::ResetElectionTimer;
        let base = t.push(timer);
        let f = NodeView {
            current_leader_address: Some(a.leader_address),
            ..n.following(a.term, a.leader_id)
        };
        lemma_following_mirror(d, n, f, a.term);
        assert(base =~= t + seq![timer]);
        lemma_after_add(d, t, seq![timer]);
        let d1 = d.after_all(base);
        lemma_after_one(d.after_all(t), timer);
        assert(d1.mirrors(f));
        if n.matches_prev(a) {
            assert(f.matches_prev(a));
            let kept = merge_actions(f.log, f.append_pos(a), a.prev_log_index + 1, a.entries);
            lemma_merge_mirror(d1, f, a);
            lemma_after_add(d, base, f.taking_actions(a));
            if a.leader_commit > f.commit_index {
                let w = f.with_entries(a);
                lemma_after_add(d1, kept, w.applied_actions());
                lemma_applied_mirror(d1.after_all(kept), w);
            }
        }
    }
}

/// A received snapshot is on disk, and behind it just the entries that stay.
proof fn lemma_restore_mirror(d: Disk, n: NodeView, index: usize, term: u64, data: Seq<u8>)
    requires
        d.mirrors(n),
        n.wf(),
        n.commit_index < index < usize::MAX,
    ensures
        d.after_all(n.restore_actions(index, term, data)).mirrors(n.restored(index, term)),
{
    let r = ActionView::RestoreSnapshot {
        index,
        term,
        data,
        erase_from: (n.last_included_index + 1) as usize,
    };
    let x = ActionView::EraseFrom { index: (index + 1) as usize };
    let m = n.restored(index, term);
    let e = d.after(r);
    lemma_after_one(d, r);
    assert forall|k: int| #[trigger] e.entries.contains_key(k) <==> index < k
        <= n.last_index() by {
        assert(d.entries.contains_key(k) <==> n.last_included_index < k <= n.last_index());
    }
    if n.agrees_at(index, term) {
        let tail = n.log.skip(index - n.last_included_index + 1);
        assert forall|k: int| #[trigger] e.entries.contains_key(k) implies e.entries[k]
            == m.entry(k) by {
            assert(d.entries.contains_key(k));
            assert(m.log[k - index] == tail[k - index - 1]);
        }
    } else if n.last_index() > index {
        assert(seq![r, x] =~= seq![r] + seq![x]);
        lemma_after_add(d, seq![r], seq![x]);
        lemma_after_one(e, x);
        let f = e.after(x);
        assert forall|k: int| !(#[trigger] f.entries.contains_key(k)) by {
            if e.entries.contains_key(k) {
                assert(e.in_run(index + 1, k));
            }
        }
    } else {
        assert forall|k: int| !(#[trigger] e.entries.contains_key(k)) by {}
    }
}

proof fn lemma_install_mirror(d: Disk, n: NodeView, msg: RpcView)
    requires
        d.mirrors(n),
        n.wf(),
        msg is InstallSnapshot,
        n.fits(msg),
    ensures
        d.after_all(n.heard_actions(msg)).mirrors(n.heard(msg)),
{
    let a = msg->InstallSnapshot_0;
    if a.term >= n.current_term {
        let t = term_actions(n.current_term, a.term);
        let timer = ActionView::ResetElectionTimer;
        let base = t.push(timer);
        let f = n.following(a.term, a.leader_id);
        lemma_following_mirror(d, n, f, a.term);
        assert(base =~= t + seq![timer]);
        lemma_after_add(d, t, seq![timer]);
        lemma_after_one(d.after_all(t), timer);
        let d1 = d.after_all(base);
        assert(d1.mirrors(f));
        if n.installs(a) {
            let i = a.last_included_index;
            let u = a.last_included_term;
            let acts = n.restore_actions(i, u, a.data);
            assert(f.agrees_at(i, u) == n.agrees_at(i, u));
            assert(f.restore_actions(i, u, a.data) == acts);
            lemma_restore_mirror(d1, f, i, u, a.data);
            lemma_after_add(d, base, acts);
        }
    }
}

/// What a node must not forget is on disk after every message: a disk that
/// held term, vote, snapshot and log before holds them after the writes that
/// the message asks for.
pub proof fn law_messages_are_durable(d: Disk, n: NodeView, msg: RpcView)
    requires
        n.wf(),
        n.fits(msg),
        d.mirrors(n),
    ensures
        d.after_all(n.heard_actions(msg)).mirrors(n.heard(msg)),
{
    match msg {
        RpcView::RequestVote(a) => {
            let t = term_actions(n.current_term, a.term);
            let m = if a.term > n.current_term {
                n.stepped_down(a.term)
            } else {
                n
            };
            let d1 = d.after_all(t);
            if a.term >= n.current_term {
                lemma_following_mirror(d, n, m, a.term);
            } else {
                lemma_quiet(d, t);
            }
            assert(d1.mirrors(m));
            if n.grants(a) {
                let v = ActionView::SaveVote { vote: Some(a.candidate_id) };
                let timer = ActionView::ResetElectionTimer;
                assert(seq![v, timer] =~= seq![v] + seq![timer]);
                lemma_after_add(d, t, seq![v, timer]);
                lemma_after_add(d1, seq![v], seq![timer]);
                lemma_after_one(d1, v);
                lemma_after_one(d1.after(v), timer);
                lemma_vote_mirror(d1, m, Some(a.candidate_id));
            }
        },
        RpcView::RequestVoteResponse(r) => {
            if n.counts(r) {
                let m = n.with_vote(r);
                lemma_same_mirror(d, n, m);
                if m.config.decides(m.voters) {
                    lemma_leading_mirror(d, m);
                }
            } else if r.term > n.current_term {
                lemma_following_mirror(d, n, n.stepped_down(r.term), r.term);
            }
        },
        RpcView::AppendEntries(a) => {
            lemma_append_mirror(d, n, a);
        },
        RpcView::AppendEntriesResponse(r) => {
            lemma_answer_mirror(d, n, msg);
        },
        RpcView::InstallSnapshot(a) => {
            lemma_install_mirror(d, n, msg);
        },
        RpcView::InstallSnapshotResponse(r) => {
            if n.role == Role::Leader && r.term == n.current_term {
                lemma_read_answers_quiet(n.acked_by(r.peer_id).reads, n.last_applied);
                lemma_quiet(d, n.heard_actions(msg));
                lemma_same_mirror(d, n, n.heard(msg));
            } else if r.term > n.current_term {
                lemma_following_mirror(d, n, n.stepped_down(r.term), r.term);
            }
        },
        RpcView::TimeoutNow(a) => {
            if a.term >= n.current_term {
                let t = term_actions(n.current_term, a.term);
                let m = NodeView { current_term: a.term, ..n };
                lemma_term_mirror(d, n, a.term);
                let d1 = d.after_all(t);
                let v = NodeView {
                    voted_for: if a.term > n.current_term {
                        None
                    } else {
                        n.voted_for
                    },
                    ..m
                };
                lemma_following_mirror(d, n, v, a.term);
                lemma_standing_mirror(d1, v);
                lemma_after_add(d, t, m.standing_actions());
                assert(v.standing_actions() =~= m.standing_actions());
                lemma_same_mirror(
                    d1.after_all(v.standing_actions()),
                    v.standing(),
                    m.standing(),
                );
            }
        },
        RpcView::TimeoutNowResponse(r) => {},
    }
}

proof fn lemma_answer_mirror(d: Disk, n: NodeView, msg: RpcView)
    requires
        n.wf(),
        n.fits(msg),
        d.mirrors(n),
        msg is AppendEntriesResponse,
    ensures
        d.after_all(n.heard_actions(msg)).mirrors(n.heard(msg)),
{
    let r = msg->AppendEntriesResponse_0;
    if n.role == Role::Leader && r.term == n.current_term {
        reveal(NodeView::answered);
        reveal(NodeView::answered_actions);
        reveal(NodeView::committed);
        reveal(NodeView::commit_actions);
        let m = n.answered(r);
        lemma_read_answers_quiet(n.acked_by(r.peer_id).reads, n.last_applied);
        lemma_quiet(d, n.answered_actions(r));
        lemma_same_mirror(d, n, m);
        lemma_after_add(d, n.answered_actions(r), m.commit_actions());
        if m.may_commit() {
            let c = NodeView { commit_index: m.majority_index(), ..m };
            lemma_same_mirror(d, m, c);
            lemma_answer_taken(n, r);
            lemma_applied_mirror(d, c);
        }
    } else if r.term > n.current_term {
        lemma_following_mirror(d, n, n.stepped_down(r.term), r.term);
    }
}

/// A command that a leader takes is on disk before anything is answered.
pub proof fn law_proposals_are_durable(d: Disk, n: NodeView, command: CommandView)
    requires
        n.wf(),
        n.room(1),
        d.mirrors(n),
    ensures
        d.after_all(n.proposed_actions(command)).mirrors(n.proposed(command)),
{
    let m = n.with_command(command);
    let save = m.save_last();
    lemma_push_mirror(d, n, m.log.last());
    lemma_after_one(d, save);
    let d1 = d.after(save);
    if m.peers.len() == 0 && m.last_index() > m.commit_index {
        let c = NodeView { commit_index: m.last_index() as usize, ..m };
        lemma_same_mirror(d1, m, c);
        lemma_applied_mirror(d1, c);
        lemma_after_add(d, seq![save], c.applied_actions());
    }
}

/// Servers that join or leave are on disk as far as the log tells of them:
/// a joint configuration is written when it is appended, and servers that
/// catch up first change nothing that is kept.
pub proof fn law_member_changes_are_durable(
    d: Disk,
    n: NodeView,
    servers: Map<usize, String>,
    ids: Seq<usize>,
)
    requires
        n.wf(),
        n.room(1),
        d.mirrors(n),
    ensures
        d.mirrors(n.with_joining(servers)),
        ids.contains(n.id) ==> d.mirrors(n.removing(ids)),
        !ids.contains(n.id) ==> d.after(n.removing(ids).save_last()).mirrors(n.removing(ids)),
{
    lemma_same_mirror(d, n, n.with_joining(servers));
    let m = n.removing(ids);
    if ids.contains(n.id) {
        lemma_same_mirror(d, n, m);
    } else {
        let w = n.with_command(n.joint_command(n.reduced(ids)));
        lemma_push_mirror(d, n, w.log.last());
        lemma_same_mirror(d.after(w.save_last()), w, m);
    }
}

proof fn lemma_tended_mirror(d: Disk, n: NodeView)
    requires
        n.wf(),
        n.room(2),
        d.mirrors(n),
    ensures
        d.after_all(n.tended_actions()).mirrors(n.tended()),
        n.tended().wf(),
{
    let p = if n.all_ready() {
        n.promoted()
    } else {
        n
    };
    let first = if n.all_ready() {
        seq![p.save_last()]
    } else {
        Seq::empty()
    };
    let d1 = d.after_all(first);
    if n.all_ready() {
        let c = n.with_command(n.joint_command(n.enlarged()));
        lemma_push_mirror(d, n, c.log.last());
        lemma_after_one(d, p.save_last());
        lemma_same_mirror(d1, c, p);
    }
    if p.finalizes() {
        let f = p.finalizing();
        lemma_push_mirror(d1, p, f.log.last());
        assert(first.push(f.save_last()).drop_last() =~= first);
    }
}

proof fn lemma_settled_mirror(d: Disk, n: NodeView)
    requires
        n.wf(),
        d.mirrors(n),
        n.applied().overlong() ==> n.applied().holds(n.applied().last_applied as int),
    ensures
        d.after_all(n.settled_actions()).mirrors(n.settled()),
{
    let m = n.applied();
    lemma_applied_mirror(d, n);
    lemma_applied(n);
    if m.overlong() {
        let acts = n.applied_actions();
        let c = m.compact_action();
        let d1 = d.after_all(acts);
        assert(acts.push(c).drop_last() =~= acts);
        let e = d1.after(c);
        let s = m.compacted();
        let at = m.last_applied - m.last_included_index;
        assert(s.last_index() == m.last_index());
        assert forall|k: int| #[trigger] e.entries.contains_key(k) <==> s.last_included_index < k
            <= s.last_index() by {
            assert(d1.entries.contains_key(k) == (m.last_included_index < k <= m.last_index()));
        }
        assert forall|k: int| #[trigger] e.entries.contains_key(k) implies e.entries[k] == s.entry(
            k,
        ) by {
            assert(d1.entries.contains_key(k));
            assert(s.log[k - s.last_included_index] == m.log.skip(at + 1)[k
                - s.last_included_index - 1]);
        }
    }
}

/// What a node must not forget is on disk after every turn of its clock: when
/// it stands for election, tends to its members, applies and compacts.
pub proof fn law_turns_are_durable(d: Disk, n: NodeView, elapsed_ms: u64, timeout_ms: u64)
    requires
        n.wf(),
        n.room(2),
        n.sane(),
        n.current_term < u64::MAX,
        1500 <= timeout_ms < 3000,
        d.mirrors(n),
    ensures
        ({
            let m = n.acted(elapsed_ms, timeout_ms);
            d.after_all(n.acted_actions(elapsed_ms, timeout_ms) + m.settled_actions()).mirrors(
                m.settled(),
            )
        }),
{
    let m = n.acted(elapsed_ms, timeout_ms);
    let acts = n.acted_actions(elapsed_ms, timeout_ms);
    if n.role == Role::Leader {
        lemma_heartbeats_quiet(n, n.replicas().len() as int);
        lemma_quiet(d, n.heartbeats());
        lemma_after_add(d, n.heartbeats(), n.tended_actions());
        lemma_tended_mirror(d, n);
    } else if elapsed_ms > n.election_timeout_ms {
        let c = NodeView { election_timeout_ms: timeout_ms, ..n.standing() };
        lemma_standing_mirror(d, n);
        let d1 = d.after_all(n.standing_actions());
        lemma_same_mirror(d1, n.standing(), c);
        if c.config.everyone().len() == 1 {
            lemma_leading_mirror(d1, c);
            lemma_after_add(d, n.standing_actions(), c.leading_actions());
            lemma_leading_wf(c);
        } else {
            let asks = Seq::new(
                c.peers.len(),
                |i: int| ActionView::SendVote { peer: c.peers[i], args: c.vote_request() },
            );
            lemma_quiet(d1, asks);
            lemma_after_add(d, n.standing_actions(), asks);
        }
    }
    let d2 = d.after_all(acts);
    assert(d2.mirrors(m));
    assert(m.wf());
    lemma_applied(m);
    lemma_after_add(d, acts, m.settled_actions());
    lemma_settled_mirror(d2, m);
}

proof fn lemma_leading_wf(n: NodeView)
    requires
        n.wf(),
        n.room(1),
        n.sane(),
    ensures
        n.leading().wf(),
        n.leading().sane(),
{
    let m = n.enthroned();
    if m.peers.len() == 0 && m.last_index() > m.commit_index {
        let c = NodeView { commit_index: m.last_index() as usize, ..m };
        lemma_applied(c);
    }
}

/// A node that starts from a disk has the term, the vote, the snapshot and the
/// entries of the node whose writes filled the disk; it takes just what the
/// snapshot covers as committed.
pub proof fn law_restart(
    d: Disk,
    n: NodeView,
    saved: SavedState,
    id: usize,
    peers: Seq<String>,
    own: String,
    timeout_ms: u64,
)
    requires
        n.wf(),
        d.mirrors(n),
        d.holds(saved, n.log.len() - 1),
    ensures
        resumes(n, initial_node(id, peers, own, saved, timeout_ms)),
{
    let m = initial_node(id, peers, own, saved, timeout_ms);
    assert forall|k: int| n.last_included_index < k <= n.last_index() implies #[trigger] m.entry(k)
        == n.entry(k) by {
        assert(d.entries.contains_key(k));
        assert(m.entry(k) == saved.entries.deep_view()[k - n.last_included_index - 1]);
    }
}

/// Terms and votes read back as they were written: as eight bytes each, a
/// missing vote as no bytes at all.
pub proof fn law_term_and_vote_read_back(term: u64, vote: usize)
    ensures
        saved_term(Some(be_digits(term as nat, 8))) == term,
        saved_vote(Some(be_digits(vote as nat, 8))) == Some(vote),
        saved_vote(None) is None,
{
    lemma_u64_digits(term);
    lemma_be_len(term as nat, 8);
    lemma_be_round_trip(term as nat, 8);
    assert(vote <= u64::MAX);
    lemma_u64_digits(vote as u64);
    lemma_be_len(vote as nat, 8);
    lemma_be_round_trip(vote as nat, 8);
}

} // verus!
