//! Log compaction: snapshots made by the node and received from a leader.

use crate::raft::append::term_actions;
use crate::raft::apply::emit;
use crate::raft::command::{Command, CommandView, EntryView, LogEntry};
use crate::raft::config::Role;
use crate::raft::node::{
    Action, ActionView, InstallSnapshotArgs, InstallSnapshotReply, NodeView, RaftNode, Snapshot,
};
use vstd::prelude::*;

verus! {

/// The entry that stands for everything up to a snapshot.
pub open spec fn snapshot_entry(term: u64) -> EntryView {
    EntryView { term, command: CommandView::NoOp }
}

/// What a request to install a snapshot stands for.
pub struct InstallView {
    pub term: u64,
    pub leader_id: usize,
    pub last_included_index: usize,
    pub last_included_term: u64,
    pub data: Seq<u8>,
}

impl View for InstallSnapshotArgs {
    type V = InstallView;

    open spec fn view(&self) -> InstallView {
        InstallView {
            term: self.term,
            leader_id: self.leader_id,
            last_included_index: self.last_included_index,
            last_included_term: self.last_included_term,
            data: self.data@,
        }
    }
}

impl NodeView {
    /// The node once a snapshot covers everything applied.
    pub open spec fn compacted(self) -> NodeView {
        let at = self.last_applied - self.last_included_index;
        let term = self.log[at].term;
        NodeView {
            last_included_index: self.last_applied,
            last_included_term: term,
            log: seq![snapshot_entry(term)] + self.log.skip(at + 1),
            ..self
        }
    }

    /// The write that persists a snapshot of everything applied.
    pub open spec fn compact_action(self) -> ActionView {
        ActionView::SaveSnapshot {
            index: self.last_applied,
            term: self.entry(self.last_applied as int).term,
            erase_from: (self.last_included_index + 1) as usize,
        }
    }

    /// The log holds the last entry of a snapshot.
    pub open spec fn agrees_at(self, index: usize, term: u64) -> bool {
        self.holds(index as int) && self.entry(index as int).term == term
    }

    /// The entries that stay behind a snapshot: all that follow its last
    /// entry, if the log holds that one; else none.
    pub open spec fn rest_after(self, index: usize, term: u64) -> Seq<EntryView> {
        if self.agrees_at(index, term) {
            self.log.skip(index - self.last_included_index + 1)
        } else {
            Seq::empty()
        }
    }

    /// The node once a received snapshot took the place of the log up to its
    /// last entry.
    pub open spec fn restored(self, index: usize, term: u64) -> NodeView {
        NodeView {
            last_included_index: index,
            last_included_term: term,
            log: seq![snapshot_entry(term)] + self.rest_after(index, term),
            commit_index: index,
            last_applied: index,
            ..self
        }
    }

    /// The writes that persist a received snapshot; entries behind it that do
    /// not stay are erased.
    pub open spec fn restore_actions(self, index: usize, term: u64, data: Seq<u8>) -> Seq<
        ActionView,
    > {
        let restore = ActionView::RestoreSnapshot {
            index,
            term,
            data,
            erase_from: (self.last_included_index + 1) as usize,
        };
        if self.last_index() > index && !self.agrees_at(index, term) {
            seq![restore, ActionView::EraseFrom { index: (index + 1) as usize }]
        } else {
            seq![restore]
        }
    }

    /// A snapshot is installed if its leader is not outdated and it reaches
    /// further than what is committed: nothing that is committed is taken
    /// back.
    pub open spec fn installs(self, a: InstallView) -> bool {
        a.term >= self.current_term && a.last_included_index > self.commit_index
    }

    /// The node after a request to install a snapshot.
    pub open spec fn installed(self, a: InstallView) -> NodeView {
        if a.term < self.current_term {
            self
        } else if self.installs(a) {
            self.following(a.term, a.leader_id).restored(
                a.last_included_index,
                a.last_included_term,
            )
        } else {
            self.following(a.term, a.leader_id)
        }
    }

    /// What a request to install a snapshot asks for.
    pub open spec fn install_actions(self, a: InstallView) -> Seq<ActionView> {
        if a.term < self.current_term {
            Seq::empty()
        } else {
            let base = term_actions(self.current_term, a.term).push(ActionView::ResetElectionTimer);
            if self.installs(a) {
                base + self.restore_actions(a.last_included_index, a.last_included_term, a.data)
            } else {
                base
            }
        }
    }
}

impl RaftNode {
    /// Compacts the log: everything applied is covered by a snapshot.
    pub fn create_snapshot(&mut self, out: &mut Vec<Action>)
        requires
            old(self)@.wf(),
            old(self)@.holds(old(self).last_applied as int),
            old(self).last_applied <= old(self).commit_index,
        ensures
            final(self)@ == old(self)@.compacted(),
            final(out).deep_view() == old(out).deep_view().push(old(self)@.compact_action()),
            final(self)@.wf(),
            old(self)@.sane() ==> final(self)@.sane(),
            old(self)@.followed() ==> final(self)@.followed(),
    {
        let ghost n0 = self@;
        let at: usize = self.last_applied - self.last_included_index;
        let term: u64 = self.log[at].term;
        emit(
            out,
            Action::SaveSnapshot {
                index: self.last_applied,
                term,
                erase_from: self.last_included_index + 1,
            },
        );
        let tail = self.log.split_off(at + 1);
        let mut tail = tail;
        let mut log: Vec<LogEntry> = Vec::new();
        log.push(LogEntry { term, command: Command::NoOp });
        log.append(&mut tail);
        self.log = log;
        self.last_included_term = term;
        self.last_included_index = self.last_applied;
        proof {
            assert(n0.entry(n0.last_applied as int) == n0.log[at as int]);
            assert(self@.log =~= n0.compacted().log);
            assert(self@ =~= n0.compacted());
        }
    }

    /// Replaces state machine and log, up to its last entry, by a received
    /// snapshot; one that does not reach beyond what is committed is left.
    pub fn install_snapshot(&mut self, snapshot: Snapshot, out: &mut Vec<Action>)
        requires
            old(self)@.wf(),
            old(self).role == Role::Follower,
            snapshot.last_included_index < usize::MAX,
        ensures
            if snapshot.last_included_index > old(self).commit_index {
                &&& final(self)@ == old(self)@.restored(
                    snapshot.last_included_index,
                    snapshot.last_included_term,
                )
                &&& final(out).deep_view() == old(out).deep_view() + old(self)@.restore_actions(
                    snapshot.last_included_index,
                    snapshot.last_included_term,
                    snapshot.data@,
                )
                &&& final(self)@.sane()
            } else {
                *final(self) == *old(self) && final(out).deep_view() == old(out).deep_view()
            },
            final(self)@.wf(),
            final(self)@.followed(),
    {
        let ghost n0 = self@;
        let ghost said = out.deep_view();
        let ghost data = snapshot.data@;
        let index: usize = snapshot.last_included_index;
        let term: u64 = snapshot.last_included_term;
        if index <= self.commit_index {
            return;
        }
        let at: usize = index - self.last_included_index;
        let keep = at < self.log.len() && self.log[at].term == term;
        let beyond = at < self.log.len() - 1;
        let erase_from: usize = self.last_included_index + 1;
        assert(at < n0.log.len() ==> n0.entry(index as int) == self.log@[at as int]@);
        assert(keep == n0.agrees_at(index, term));
        emit(out, Action::RestoreSnapshot { snapshot, erase_from });
        if beyond && !keep {
            emit(out, Action::EraseFrom { index: index + 1 });
        }
        let mut tail: Vec<LogEntry> = if keep {
            self.log.split_off(at + 1)
        } else {
            Vec::new()
        };
        assert(tail.deep_view() =~= n0.rest_after(index, term));
        let mut log: Vec<LogEntry> = Vec::new();
        log.push(LogEntry { term, command: Command::NoOp });
        log.append(&mut tail);
        self.last_included_index = index;
        self.last_included_term = term;
        self.log = log;
        self.commit_index = index;
        self.last_applied = index;
        assert(self@.log =~= n0.restored(index, term).log);
        assert(self@ =~= n0.restored(index, term));
        assert(out.deep_view() =~= said + n0.restore_actions(index, term, data));
    }

    /// Handles a snapshot sent by a leader.
    pub fn handle_install_snapshot(
        &mut self,
        args: InstallSnapshotArgs,
        out: &mut Vec<Action>,
    ) -> (reply: InstallSnapshotReply)
        requires
            old(self)@.wf(),
            args.last_included_index < usize::MAX,
        ensures
            final(self)@ == old(self)@.installed(args@),
            final(out).deep_view() == old(out).deep_view() + old(self)@.install_actions(args@),
            reply == (InstallSnapshotReply {
                term: final(self).current_term,
                last_included_index: final(self).last_included_index,
                peer_id: old(self).id,
            }),
            final(self)@.wf(),
            old(self)@.sane() ==> final(self)@.sane(),
            old(self)@.followed() ==> final(self)@.followed(),
    {
        let ghost n0 = self@;
        let ghost said = out.deep_view();
        let ghost a = args@;
        if args.term >= self.current_term {
            self.follow(args.term, args.leader_id, out);
            let ghost n1 = self@;
            self.install_snapshot(
                Snapshot {
                    last_included_index: args.last_included_index,
                    last_included_term: args.last_included_term,
                    data: args.data,
                },
                out,
            );
            proof {
                let i = a.last_included_index;
                let t = a.last_included_term;
                assert(n1.agrees_at(i, t) == n0.agrees_at(i, t));
                assert(n1.rest_after(i, t) == n0.rest_after(i, t));
                assert(n1.restore_actions(i, t, a.data) == n0.restore_actions(i, t, a.data));
            }
        }
        assert(out.deep_view() =~= said + n0.install_actions(a));
        InstallSnapshotReply {
            term: self.current_term,
            last_included_index: self.last_included_index,
            peer_id: self.id,
        }
    }
}

} // verus!
