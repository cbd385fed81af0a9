//! The follower's side of log replication: accepting entries from a leader.

use crate::raft::apply::emit;
use crate::raft::command::{EntryView, LogEntry};
use crate::raft::config::Role;
use crate::raft::node::{
    Action, ActionView, AppendEntriesArgs, AppendEntriesReply, AppendView, NodeView, RaftNode,
};
use crate::strmap::Dup;
use vstd::prelude::*;

verus! {

/// The first `k` entries agree in term with the log from position `p` on, and
/// there the agreement ends.
pub open spec fn agree_up_to(log: Seq<EntryView>, p: int, entries: Seq<EntryView>, k: int) -> bool {
    &&& 0 <= k <= entries.len()
    &&& p + k <= log.len()
    &&& forall|j: int| 0 <= j < k ==> (#[trigger] log[p + j]).term == entries[j].term
    &&& k == entries.len() || p + k == log.len() || log[p + k].term != entries[k].term
}

/// How many leading entries the log holds already from position `p` on.
pub open spec fn agreement(log: Seq<EntryView>, p: int, entries: Seq<EntryView>) -> int {
    choose|k: int| agree_up_to(log, p, entries, k)
}

pub proof fn lemma_agreement(log: Seq<EntryView>, p: int, entries: Seq<EntryView>, k: int)
    requires
        agree_up_to(log, p, entries, k),
    ensures
        agreement(log, p, entries) == k,
{
    let c = agreement(log, p, entries);
    assert(agree_up_to(log, p, entries, c));
    if c < k {
        assert(log[p + c].term == entries[c].term);
    } else if k < c {
        assert(log[p + k].term == entries[k].term);
    }
}

/// Agreement always ends somewhere.
pub proof fn lemma_agreement_exists(log: Seq<EntryView>, p: int, entries: Seq<EntryView>, from: int)
    requires
        0 <= from <= entries.len(),
        0 <= p,
        p + from <= log.len(),
        forall|j: int| 0 <= j < from ==> (#[trigger] log[p + j]).term == entries[j].term,
    ensures
        agree_up_to(log, p, entries, agreement(log, p, entries)),
    decreases entries.len() - from,
{
    if from == entries.len() || p + from == log.len() || log[p + from].term
        != entries[from].term {
        assert(agree_up_to(log, p, entries, from));
    } else {
        lemma_agreement_exists(log, p, entries, from + 1);
    }
}

/// The log once `entries` stand from position `p` on: what agrees is kept, and
/// from the first disagreement on the entries replace the rest.
pub open spec fn merged(log: Seq<EntryView>, p: int, entries: Seq<EntryView>) -> Seq<EntryView> {
    let k = agreement(log, p, entries);
    if k == entries.len() {
        log
    } else {
        log.take(p + k) + entries.skip(k)
    }
}

/// The writes that persist `entries` from index `first` on.
pub open spec fn saves(first: int, entries: Seq<EntryView>) -> Seq<ActionView> {
    Seq::new(
        entries.len(),
        |j: int| ActionView::SaveEntry { index: (first + j) as usize, entry: entries[j] },
    )
}

/// The writes that persist a merge of `entries`, the first of which has index
/// `first`, at position `p`.
pub open spec fn merge_actions(
    log: Seq<EntryView>,
    p: int,
    first: int,
    entries: Seq<EntryView>,
) -> Seq<ActionView> {
    let k = agreement(log, p, entries);
    if k == entries.len() {
        Seq::empty()
    } else if p + k < log.len() {
        seq![ActionView::EraseFrom { index: (first + k) as usize }] + saves(
            first + k,
            entries.skip(k),
        )
    } else {
        saves(first + k, entries.skip(k))
    }
}

/// The writes that persist a newer term, in which no vote was cast yet.
pub open spec fn term_actions(current: u64, seen: u64) -> Seq<ActionView> {
    if seen > current {
        seq![ActionView::SaveTerm { term: seen }, ActionView::SaveVote { vote: None }]
    } else {
        Seq::empty()
    }
}

impl NodeView {
    /// The node once it follows the leader of `term`, which is not older than
    /// its own.
    pub open spec fn following(self, term: u64, leader_id: usize) -> NodeView {
        NodeView {
            current_term: term,
            voted_for: if term > self.current_term {
                None
            } else {
                self.voted_for
            },
            role: Role::Follower,
            current_leader: Some(leader_id),
            ..self
        }
    }

    /// The log holds the entry that the new ones follow.
    pub open spec fn matches_prev(self, a: AppendView) -> bool {
        self.holds(a.prev_log_index as int) && self.entry(a.prev_log_index as int).term
            == a.prev_log_term
    }

    /// Entries are taken from a leader that is not outdated and whose log
    /// agrees at the point before them.
    pub open spec fn accepts(self, a: AppendView) -> bool {
        a.term >= self.current_term && self.matches_prev(a)
    }

    /// Position in the log at which the new entries belong.
    pub open spec fn append_pos(self, a: AppendView) -> int {
        a.prev_log_index - self.last_included_index + 1
    }

    /// Index of the first entry that disagrees with the new ones.
    pub open spec fn cut_index(self, a: AppendView) -> int {
        a.prev_log_index + 1 + agreement(self.log, self.append_pos(a), a.entries)
    }

    /// The entries would replace a committed one.
    pub open spec fn overwrites_committed(self, a: AppendView) -> bool {
        &&& self.accepts(a)
        &&& agreement(self.log, self.append_pos(a), a.entries) < a.entries.len()
        &&& self.cut_index(a) <= self.commit_index
    }

    /// The commit index after entries up to index `top` were taken: the
    /// leader's, as far as the entries vouch for it, if that is news.
    pub open spec fn commit_after(self, leader_commit: usize, top: int) -> usize {
        let known = if leader_commit <= top {
            leader_commit as int
        } else {
            top
        };
        if known > self.commit_index {
            known as usize
        } else {
            self.commit_index
        }
    }

    /// The node with the new entries in its log and its commit index advanced.
    pub open spec fn with_entries(self, a: AppendView) -> NodeView {
        let n = NodeView { log: merged(self.log, self.append_pos(a), a.entries), ..self };
        NodeView {
            commit_index: n.commit_after(a.leader_commit, a.prev_log_index + a.entries.len()),
            ..n
        }
    }

    /// The node once it took the new entries and applied what is committed.
    pub open spec fn taking(self, a: AppendView) -> NodeView {
        if a.leader_commit > self.commit_index {
            self.with_entries(a).applied()
        } else {
            self.with_entries(a)
        }
    }

    /// What taking the new entries asks for.
    pub open spec fn taking_actions(self, a: AppendView) -> Seq<ActionView> {
        let kept = merge_actions(self.log, self.append_pos(a), a.prev_log_index + 1, a.entries);
        if a.leader_commit > self.commit_index {
            kept + self.with_entries(a).applied_actions()
        } else {
            kept
        }
    }

    /// The node after a request to append entries.
    pub open spec fn appended(self, a: AppendView) -> NodeView {
        if a.term < self.current_term {
            self
        } else {
            let n = NodeView {
                current_leader_address: Some(a.leader_address),
                ..self.following(a.term, a.leader_id)
            };
            if self.matches_prev(a) {
                n.taking(a)
            } else {
                n
            }
        }
    }

    /// What a request to append entries asks for.
    pub open spec fn append_actions(self, a: AppendView) -> Seq<ActionView> {
        if a.term < self.current_term {
            Seq::empty()
        } else {
            let n = NodeView {
                current_leader_address: Some(a.leader_address),
                ..self.following(a.term, a.leader_id)
            };
            let base = term_actions(self.current_term, a.term).push(ActionView::ResetElectionTimer);
            if self.matches_prev(a) {
                base + n.taking_actions(a)
            } else {
                base
            }
        }
    }

    /// How far the follower tells the leader that their logs match; on a
    /// refusal, where the leader should look next.
    pub open spec fn append_match(self, a: AppendView) -> int {
        if a.term < self.current_term {
            0
        } else if self.matches_prev(a) {
            a.prev_log_index + a.entries.len()
        } else if a.prev_log_index < self.last_included_index {
            self.last_included_index as int
        } else if a.prev_log_index == self.last_included_index {
            0
        } else if self.holds(a.prev_log_index as int) {
            a.prev_log_index as int
        } else {
            self.last_included_index as int
        }
    }
}

/// Keeps and replaces as [`merged`] says, and persists what changed.
fn merge_entries(
    log: &mut Vec<LogEntry>,
    p: usize,
    first: usize,
    entries: &Vec<LogEntry>,
    out: &mut Vec<Action>,
)
    requires
        1 <= p <= old(log)@.len(),
        first + entries@.len() <= usize::MAX,
        old(log)@.len() + entries@.len() <= usize::MAX,
    ensures
        final(log).deep_view() == merged(old(log).deep_view(), p as int, entries.deep_view()),
        final(out).deep_view() == old(out).deep_view() + merge_actions(
            old(log).deep_view(),
            p as int,
            first as int,
            entries.deep_view(),
        ),
{
    let ghost l0 = log.deep_view();
    let ghost es = entries.deep_view();
    let ghost said = out.deep_view();
    let mut k: usize = 0;
    while k < entries.len() && p + k < log.len() && log[p + k].term == entries[k].term
        invariant
            k <= entries@.len(),
            p + k <= log@.len(),
            log@.len() + entries@.len() <= usize::MAX,
            log.deep_view() == l0,
            es == entries.deep_view(),
            forall|j: int| 0 <= j < k ==> (#[trigger] l0[p + j]).term == es[j].term,
        decreases entries@.len() - k,
    {
        k += 1;
    }
    proof {
        assert(agree_up_to(l0, p as int, es, k as int));
        lemma_agreement(l0, p as int, es, k as int);
    }
    if k == entries.len() {
        assert(out.deep_view() =~= said + merge_actions(l0, p as int, first as int, es));
        return;
    }
    let ghost mut head: Seq<ActionView> = Seq::empty();
    if p + k < log.len() {
        log.truncate(p + k);
        emit(out, Action::EraseFrom { index: first + k });
        proof {
            head = seq![ActionView::EraseFrom { index: (first + k) as usize }];
        }
    }
    let ghost keep = l0.take(p + k);
    let ghost rest = es.skip(k as int);
    proof {
        assert(log.deep_view() =~= keep + rest.take(0));
        assert(out.deep_view() =~= said + head + saves(first + k, rest.take(0)));
    }
    let mut i: usize = k;
    while i < entries.len()
        invariant
            k <= i <= entries@.len(),
            first + entries@.len() <= usize::MAX,
            es == entries.deep_view(),
            rest == es.skip(k as int),
            log.deep_view() == keep + rest.take(i - k),
            out.deep_view() == said + head + saves(first + k, rest.take(i - k)),
        decreases entries@.len() - i,
    {
        let e1 = entries[i].dup();
        let e2 = entries[i].dup();
        let ghost t = rest.take(i - k);
        let ghost t1 = rest.take(i - k + 1);
        proof {
            assert(rest[i - k] == es[i as int]);
            assert(t1 =~= t.push(es[i as int]));
            assert(saves(first + k, t1) =~= saves(first + k, t).push(
                ActionView::SaveEntry { index: (first + i) as usize, entry: es[i as int] },
            ));
        }
        let ghost lv = log.deep_view();
        log.push(e1);
        assert(log.deep_view() =~= lv.push(es[i as int]));
        emit(out, Action::SaveEntry { index: first + i, entry: e2 });
        i += 1;
        assert(log.deep_view() =~= keep + t1);
        assert(out.deep_view() =~= said + head + saves(first + k, t1));
    }
    proof {
        assert(rest.take(rest.len() as int) =~= rest);
        assert(out.deep_view() =~= said + merge_actions(l0, p as int, first as int, es));
    }
}

impl RaftNode {
    /// Follows the leader of a term that is not older than the node's own.
    pub fn follow(&mut self, term: u64, leader_id: usize, out: &mut Vec<Action>)
        requires
            term >= old(self).current_term,
        ensures
            final(self)@ == old(self)@.following(term, leader_id),
            final(out).deep_view() == old(out).deep_view() + term_actions(
                old(self).current_term,
                term,
            ).push(ActionView::ResetElectionTimer),
    {
        let ghost n0 = self@;
        let ghost said = out.deep_view();
        if term > self.current_term {
            self.current_term = term;
            emit(out, Action::SaveTerm { term });
            self.voted_for = None;
            emit(out, Action::SaveVote { vote: None });
        }
        self.role = Role::Follower;
        self.current_leader = Some(leader_id);
        emit(out, Action::ResetElectionTimer);
        assert(self@ =~= n0.following(term, leader_id));
        assert(out.deep_view() =~= said + term_actions(n0.current_term, term).push(
            ActionView::ResetElectionTimer,
        ));
    }

    /// Takes entries that follow an entry of the log.
    fn take_entries(&mut self, args: &AppendEntriesArgs, out: &mut Vec<Action>)
        requires
            old(self)@.wf(),
            old(self)@.matches_prev(args@),
            old(self)@.room(args.entries@.len() as int),
            old(self).role == Role::Follower,
        ensures
            final(self)@ == old(self)@.taking(args@),
            final(out).deep_view() == old(out).deep_view() + old(self)@.taking_actions(args@),
            final(self)@.wf(),
            final(self).role == old(self).role,
            final(self).current_term == old(self).current_term,
            final(self).id == old(self).id,
            old(self)@.sane() && (agreement(
                old(self)@.log,
                old(self)@.append_pos(args@),
                args@.entries,
            ) == args@.entries.len() || old(self)@.cut_index(args@) > old(self).commit_index)
                ==> final(self)@.sane(),
    {
        let ghost n1 = self@;
        let ghost a = args@;
        let ghost said = out.deep_view();
        let pos: usize = args.prev_log_index - self.last_included_index + 1;
        let first: usize = args.prev_log_index + 1;
        proof {
            lemma_agreement_exists(n1.log, pos as int, a.entries, 0);
        }
        merge_entries(&mut self.log, pos, first, &args.entries, out);
        let ghost n2 = self@;
        let ghost kept = merge_actions(n1.log, n1.append_pos(a), a.prev_log_index + 1, a.entries);
        proof {
            assert(n2 =~= NodeView { log: merged(n1.log, n1.append_pos(a), a.entries), ..n1 });
            assert(n2.log[0] == n1.log[0]);
            assert(n2.wf());
        }
        if args.leader_commit > self.commit_index {
            let top: usize = args.prev_log_index + args.entries.len();
            let known: usize = if args.leader_commit <= top {
                args.leader_commit
            } else {
                top
            };
            if known > self.commit_index {
                self.commit_index = known;
            }
            let ghost n3 = self@;
            proof {
                assert(n3 =~= n1.with_entries(a));
                assert(n3.wf());
            }
            self.apply_logs(out);
            assert(out.deep_view() =~= said + n1.taking_actions(a));
        } else {
            assert(self@ =~= n1.with_entries(a));
        }
    }

    /// Handles a request of a leader to append entries.
    pub fn handle_append_entries(
        &mut self,
        args: AppendEntriesArgs,
        out: &mut Vec<Action>,
    ) -> (reply: AppendEntriesReply)
        requires
            old(self)@.wf(),
            old(self)@.room(args.entries@.len() as int),
        ensures
            final(self)@ == old(self)@.appended(args@),
            final(out).deep_view() == old(out).deep_view() + old(self)@.append_actions(args@),
            reply.term == final(self).current_term,
            reply.success == old(self)@.accepts(args@),
            reply.match_index == old(self)@.append_match(args@),
            reply.peer_id == old(self).id,
            final(self)@.wf(),
            old(self)@.followed() ==> final(self)@.followed(),
            old(self)@.sane() && !old(self)@.overwrites_committed(args@) ==> final(self)@.sane(),
    {
        let ghost n0 = self@;
        let ghost a = args@;
        let ghost said = out.deep_view();
        if args.term < self.current_term {
            assert(out.deep_view() =~= said + n0.append_actions(a));
            return AppendEntriesReply {
                term: self.current_term,
                success: false,
                match_index: 0,
                peer_id: self.id,
            };
        }
        self.follow(args.term, args.leader_id, out);
        self.current_leader_address = Some(args.leader_address.clone());
        let ghost n1 = self@;
        proof {
            assert(n1 =~= NodeView {
                current_leader_address: Some(a.leader_address),
                ..n0.following(a.term, a.leader_id)
            });
            assert(n1.wf());
            assert(n1.matches_prev(a) == n0.matches_prev(a));
            assert(n1.append_pos(a) == n0.append_pos(a));
        }
        let lii: usize = self.last_included_index;
        let mut success = false;
        let mut match_index: usize = 0;
        if args.prev_log_index < lii {
            match_index = lii;
        } else {
            let prev: usize = args.prev_log_index - lii;
            if prev < self.log.len() {
                assert(n1.entry(a.prev_log_index as int) == self.log@[prev as int]@);
                if self.log[prev].term == args.prev_log_term {
                    success = true;
                    match_index = args.prev_log_index + args.entries.len();
                } else if prev > 0 {
                    match_index = args.prev_log_index;
                }
            } else if prev > 0 {
                match_index = lii;
            }
        }
        assert(success == n0.matches_prev(a));
        if success {
            proof {
                lemma_agreement_exists(n0.log, n0.append_pos(a), a.entries, 0);
            }
            self.take_entries(&args, out);
        }
        assert(out.deep_view() =~= said + n0.append_actions(a));
        AppendEntriesReply { term: self.current_term, success, match_index, peer_id: self.id }
    }
}

} // verus!
