//! What the answers of members tell a leader about the progress of its
//! cluster.

use crate::raft::append::term_actions;
use crate::raft::apply::read_answers;
use crate::raft::config::{CatchUpProgress, Role};
use crate::raft::heartbeat::{first_index, lemma_first_index};
use crate::raft::node::{
    Action, ActionView, AppendEntriesReply, InstallSnapshotReply, NodeView, RaftNode, ReadView,
};
use crate::raft::order::{ids_of, sorted_entries, sorted_ids};
use crate::text::position_of;
use std::collections::HashSet;
use vstd::prelude::*;

verus! {

broadcast use vstd::std_specs::hash::group_hash_axioms;

/// The servers that are known to hold the log up to `v`.
pub open spec fn reached(known: Seq<(usize, usize)>, v: usize) -> Set<usize> {
    Set::new(|s: usize| exists|j: int| 0 <= j < known.len() && (#[trigger] known[j]).0 == s
        && known[j].1 >= v)
}

impl NodeView {
    /// Where the leader notes the progress of a server: that of a member where
    /// its address stands among the peers, that of a server that is catching
    /// up behind the members; nowhere for anyone else.
    pub open spec fn slot_of(self, id: usize) -> Option<int> {
        let all = self.config.everyone();
        if id == self.id {
            None
        } else if all.contains_key(id) {
            if self.peers.contains(all[id]@) {
                Some(first_index(self.peers, all[id]@))
            } else {
                None
            }
        } else if self.non_voting.contains_key(id) {
            let place = sorted_ids(all.dom().remove(self.id)).len() + sorted_ids(
                self.non_voting.dom(),
            ).index_of(id);
            if 0 <= place < self.match_index.len() {
                Some(place)
            } else {
                None
            }
        } else {
            None
        }
    }

    /// How much of the log a member is known to hold.
    pub open spec fn matched(self, id: usize) -> usize {
        match self.slot_of(id) {
            Some(i) => self.match_index[i],
            None => 0,
        }
    }

    /// A read after the member `peer` acknowledged the leader.
    pub open spec fn acked_read(self, r: ReadView, peer: usize) -> ReadView {
        if r.term == self.current_term {
            let acks = r.acks.insert(peer);
            ReadView {
                acks,
                majority_confirmed: r.majority_confirmed || self.config.decides(acks),
                ..r
            }
        } else {
            r
        }
    }

    /// The node after the member `peer` acknowledged the leader.
    pub open spec fn acked_by(self, peer: usize) -> NodeView {
        NodeView { reads: self.reads.map_values(|r: ReadView| self.acked_read(r, peer)), ..self }
    }

    /// The progress of `peer` after it acknowledged `matched`, if it is
    /// catching up.
    pub open spec fn caught_up_to(self, peer: usize, matched: usize) -> NodeView {
        if self.catch_up.contains_key(peer) {
            NodeView {
                catch_up: self.catch_up.insert(peer, self.catch_up[peer].advanced(matched)),
                ..self
            }
        } else {
            self
        }
    }

    /// The leader once it knows that the peer at `i` holds the log up to
    /// `matched`.
    pub open spec fn matched_at(self, i: int, matched: usize) -> NodeView {
        NodeView {
            next_index: self.next_index.update(i, (matched + 1) as usize),
            match_index: self.match_index.update(i, matched),
            ..self
        }
    }

    /// The leader once the peer at `i` refused: it looks one entry further
    /// back, but not into the snapshot.
    pub open spec fn backed_off(self, i: int) -> NodeView {
        if self.next_index[i] > self.last_included_index + 1 {
            NodeView {
                next_index: self.next_index.update(i, (self.next_index[i] - 1) as usize),
                ..self
            }
        } else {
            self
        }
    }

    /// The leader after an answer of its term to a request to append, before
    /// it looks at the commit index.
    #[verifier::opaque]
    pub open spec fn answered(self, r: AppendEntriesReply) -> NodeView {
        match self.slot_of(r.peer_id) {
            None => self,
            Some(i) => if r.success {
                self.matched_at(i, r.match_index).caught_up_to(r.peer_id, r.match_index).acked_by(
                    r.peer_id,
                ).reads_checked()
            } else {
                self.backed_off(i)
            },
        }
    }

    /// The reads that such an answer completes.
    #[verifier::opaque]
    pub open spec fn answered_actions(self, r: AppendEntriesReply) -> Seq<ActionView> {
        if self.slot_of(r.peer_id) is Some && r.success {
            read_answers(self.acked_by(r.peer_id).reads, self.last_applied)
        } else {
            Seq::empty()
        }
    }

    /// What the leader knows of the logs of the members: its own, then those
    /// of the other members by ascending id.
    pub open spec fn known_progress(self) -> Seq<(usize, usize)> {
        seq![(self.id, self.last_index() as usize)] + sorted_ids(
            self.config.everyone().dom().remove(self.id),
        ).map_values(|k: usize| (k, self.matched(k)))
    }

    /// Members enough to decide hold the log up to `v`, the end of some
    /// member's log.
    pub open spec fn replicated(self, v: usize) -> bool {
        let known = self.known_progress();
        &&& exists|j: int| 0 <= j < known.len() && (#[trigger] known[j]).1 == v
        &&& self.config.decides(reached(known, v))
    }

    /// The furthest index that members enough to decide have reached; the
    /// commit index where there is none.
    pub open spec fn majority_index(self) -> usize {
        if exists|v: usize| #[trigger] self.replicated(v) {
            choose|v: usize| #[trigger]
                self.replicated(v) && forall|w: usize| #[trigger] self.replicated(w) ==> w <= v
        } else {
            self.commit_index
        }
    }

    /// The commit index may move to the majority index: that is news, and the
    /// entry there is of the current term.
    pub open spec fn may_commit(self) -> bool {
        let m = self.majority_index();
        m > self.commit_index && self.holds(m as int) && self.entry(m as int).term
            == self.current_term
    }

    /// The leader after it committed what it may.
    #[verifier::opaque]
    pub open spec fn committed(self) -> NodeView {
        if self.may_commit() {
            NodeView { commit_index: self.majority_index(), ..self }.applied()
        } else {
            self
        }
    }

    /// What committing asks for.
    #[verifier::opaque]
    pub open spec fn commit_actions(self) -> Seq<ActionView> {
        if self.may_commit() {
            NodeView { commit_index: self.majority_index(), ..self }.applied_actions()
        } else {
            Seq::empty()
        }
    }

    /// The node after an answer to a request to append entries.
    pub open spec fn append_answered(self, r: AppendEntriesReply) -> NodeView {
        if self.role == Role::Leader && r.term == self.current_term {
            self.answered(r).committed()
        } else if r.term > self.current_term {
            self.stepped_down(r.term)
        } else {
            self
        }
    }

    /// What an answer to a request to append entries asks for.
    pub open spec fn append_answer_actions(self, r: AppendEntriesReply) -> Seq<ActionView> {
        if self.role == Role::Leader && r.term == self.current_term {
            self.answered_actions(r) + self.answered(r).commit_actions()
        } else {
            term_actions(self.current_term, r.term)
        }
    }

    /// The node after an answer to a snapshot.
    pub open spec fn snapshot_answered(self, r: InstallSnapshotReply) -> NodeView {
        if self.role == Role::Leader && r.term == self.current_term {
            match self.slot_of(r.peer_id) {
                None => self,
                Some(i) => self.matched_at(i, r.last_included_index).acked_by(
                    r.peer_id,
                ).reads_checked(),
            }
        } else if r.term > self.current_term {
            self.stepped_down(r.term)
        } else {
            self
        }
    }

    /// What an answer to a snapshot asks for.
    pub open spec fn snapshot_answer_actions(self, r: InstallSnapshotReply) -> Seq<ActionView> {
        if self.role == Role::Leader && r.term == self.current_term {
            if self.slot_of(r.peer_id) is Some {
                read_answers(self.acked_by(r.peer_id).reads, self.last_applied)
            } else {
                Seq::empty()
            }
        } else {
            term_actions(self.current_term, r.term)
        }
    }
}

/// Progress is noted in a place that there is.
pub proof fn lemma_slot_of(n: NodeView, id: usize)
    requires
        n.wf(),
    ensures
        n.slot_of(id) matches Some(i) ==> 0 <= i < n.match_index.len(),
{
    let all = n.config.everyone();
    if id != n.id && all.contains_key(id) && n.peers.contains(all[id]@) {
        lemma_first_index(n.peers, all[id]@, n.peers.index_of(all[id]@));
    }
}

impl RaftNode {
    /// Where the progress of the member with this address is noted.
    fn find_peer(&self, addr: &String) -> (r: Option<usize>)
        ensures
            match r {
                Some(i) => i < self.peers@.len() && self@.peers.contains(addr@) && first_index(
                    self@.peers,
                    addr@,
                ) == i,
                None => !self@.peers.contains(addr@),
            },
    {
        match position_of(&self.peers, addr.as_str()) {
            Some(i) => {
                proof {
                    let ps = self@.peers;
                    assert(ps[i as int] == addr@);
                    let f = first_index(ps, addr@);
                    assert(f == i) by {
                        if f < i {
                            assert(ps[f] != addr@);
                        }
                    }
                }
                Some(i)
            },
            None => None,
        }
    }

    /// Where the progress of a server is noted.
    fn find_answering(&self, id: usize) -> (r: Option<usize>)
        requires
            self@.wf(),
        ensures
            match r {
                Some(i) => i < self.match_index@.len() && self@.slot_of(id) == Some(i as int),
                None => self@.slot_of(id) is None,
            },
    {
        if id == self.id {
            return None;
        }
        let all = self.cluster_config.all_members();
        if let Some(addr) = all.get(&id) {
            return self.find_peer(addr);
        }
        if !self.non_voting_members.contains_key(&id) {
            return None;
        }
        let members = sorted_entries(&all, Some(self.id));
        let joining = sorted_entries(&self.non_voting_members, None);
        let ghost ids = ids_of(joining@);
        let mut k: usize = 0;
        while k < joining.len() && joining[k].0 != id
            invariant
                k <= joining@.len(),
                ids == ids_of(joining@),
                forall|j: int| 0 <= j < k ==> #[trigger] ids[j] != id,
            decreases joining@.len() - k,
        {
            assert(ids[k as int] == joining@[k as int].0);
            k += 1;
        }
        proof {
            assert(ids.contains(id));
            let i = ids.index_of(id);
            assert(ids[i] == id);
            assert(ids[k as int] == joining@[k as int].0);
            if i < k {
                assert(ids[i] != id);
            } else if k < i {
                assert(ids[k as int] < ids[i]);
            }
            assert(ids_of(members@).len() == members@.len());
        }
        if members.len() <= self.match_index.len() && k < self.match_index.len() - members.len() {
            Some(members.len() + k)
        } else {
            None
        }
    }

    /// Counts an acknowledgement of `peer` for the waiting reads.
    fn ack_reads(&mut self, peer: usize)
        ensures
            final(self)@ == old(self)@.acked_by(peer),
    {
        let ghost n0 = self@;
        let ghost want = n0.acked_by(peer).reads;
        let mut i: usize = 0;
        while i < self.pending_read_indices.len()
            invariant
                i <= self.pending_read_indices@.len(),
                self.pending_read_indices@.len() == n0.reads.len(),
                want == n0.acked_by(peer).reads,
                self@ == (NodeView { reads: self@.reads, ..n0 }),
                forall|j: int| 0 <= j < i ==> self@.reads[j] == want[j],
                forall|j: int| i <= j < n0.reads.len() ==> self@.reads[j] == n0.reads[j],
            decreases n0.reads.len() - i,
        {
            let ghost before = self@;
            if self.pending_read_indices[i].term == self.current_term {
                let mut req = self.pending_read_indices.remove(i);
                req.acks.insert(peer);
                if self.cluster_config.has_joint_majority(&req.acks) {
                    req.majority_confirmed = true;
                }
                proof {
                    assert(before.reads[i as int] == n0.reads[i as int]);
                    assert(req@ == n0.acked_read(n0.reads[i as int], peer));
                    assert(req@ == want[i as int]);
                }
                self.pending_read_indices.insert(i, req);
                assert(self@.reads =~= before.reads.update(i as int, req@));
            } else {
                assert(before.reads[i as int] == n0.reads[i as int]);
                assert(want[i as int] == n0.reads[i as int]);
            }
            i += 1;
        }
        assert(self@.reads =~= want);
        assert(self@ =~= n0.acked_by(peer));
    }

    /// What is known of the progress of the members.
    fn progress(&self) -> (r: Vec<(usize, usize)>)
        requires
            self@.wf(),
        ensures
            r@ == self@.known_progress(),
    {
        let last: usize = self.log.len() - 1 + self.last_included_index;
        let all = self.cluster_config.all_members();
        let members = sorted_entries(&all, Some(self.id));
        let ghost ids = ids_of(members@);
        let mut r: Vec<(usize, usize)> = Vec::new();
        r.push((self.id, last));
        let mut j: usize = 0;
        while j < members.len()
            invariant
                j <= members@.len(),
                self@.wf(),
                all@ == self@.config.everyone(),
                ids == ids_of(members@),
                forall|i: int|
                    0 <= i < members@.len() ==> all@.contains_key((#[trigger] members@[i]).0)
                        && all@[members@[i].0] == members@[i].1 && members@[i].0 != self.id,
                r@.len() == j + 1,
                r@[0] == (self.id, last),
                forall|k: int|
                    0 <= k < j ==> #[trigger] r@[k + 1] == (ids[k], self@.matched(ids[k])),
            decreases members@.len() - j,
        {
            assert(ids[j as int] == members@[j as int].0);
            let matched: usize = match self.find_peer(&members[j].1) {
                Some(i) => self.match_index[i],
                None => 0,
            };
            r.push((members[j].0, matched));
            j += 1;
        }
        proof {
            let want = self@.known_progress();
            assert(r@.len() == want.len());
            assert forall|k: int| 0 <= k < r@.len() implies r@[k] == want[k] by {
                if k > 0 {
                    assert(r@[(k - 1) + 1] == (ids[k - 1], self@.matched(ids[k - 1])));
                }
            }
            assert(r@ =~= want);
        }
        r
    }

    /// Whether members enough to decide hold the log up to `v`.
    fn decided_at(&self, known: &Vec<(usize, usize)>, v: usize) -> (r: bool)
        ensures
            r == self@.config.decides(reached(known@, v)),
    {
        let mut acks: HashSet<usize> = HashSet::new();
        let mut j: usize = 0;
        while j < known.len()
            invariant
                j <= known@.len(),
                forall|s: usize| #[trigger]
                    acks@.contains(s) <==> exists|k: int|
                        0 <= k < j && (#[trigger] known@[k]).0 == s && known@[k].1 >= v,
            decreases known@.len() - j,
        {
            let ghost before = acks@;
            if known[j].1 >= v {
                acks.insert(known[j].0);
            }
            j += 1;
            proof {
                assert forall|s: usize| #[trigger] acks@.contains(s) <==> exists|k: int|
                    0 <= k < j && (#[trigger] known@[k]).0 == s && known@[k].1 >= v by {
                    if acks@.contains(s) {
                        if before.contains(s) {
                            let k = choose|k: int|
                                0 <= k < j - 1 && (#[trigger] known@[k]).0 == s && known@[k].1 >= v;
                            assert(known@[k].0 == s);
                        } else {
                            assert(known@[j as int - 1].0 == s);
                        }
                    }
                    if exists|k: int| 0 <= k < j && (#[trigger] known@[k]).0 == s && known@[k].1
                        >= v {
                        let k = choose|k: int|
                            0 <= k < j && (#[trigger] known@[k]).0 == s && known@[k].1 >= v;
                        if k < j - 1 {
                            assert(before.contains(s));
                        }
                    }
                }
            }
        }
        assert(acks@ =~= reached(known@, v));
        self.cluster_config.has_joint_majority(&acks)
    }

    /// The furthest index that members enough to decide have reached.
    pub fn find_majority_index(&self) -> (r: usize)
        requires
            self@.wf(),
        ensures
            r == self@.majority_index(),
    {
        let known = self.progress();
        let mut best: Option<usize> = None;
        let mut j: usize = 0;
        while j < known.len()
            invariant
                j <= known@.len(),
                known@ == self@.known_progress(),
                match best {
                    Some(b) => self@.replicated(b) && forall|k: int|
                        0 <= k < j && self@.replicated((#[trigger] known@[k]).1) ==> known@[k].1
                            <= b,
                    None => forall|k: int|
                        0 <= k < j ==> !self@.replicated((#[trigger] known@[k]).1),
                },
            decreases known@.len() - j,
        {
            let v: usize = known[j].1;
            assert(known@[j as int].1 == v);
            if self.decided_at(&known, v) {
                assert(self@.replicated(v));
                best = match best {
                    Some(b) => if v > b {
                        Some(v)
                    } else {
                        Some(b)
                    },
                    None => Some(v),
                };
            }
            j += 1;
        }
        proof {
            assert forall|w: usize| #[trigger] self@.replicated(w) implies match best {
                Some(b) => w <= b,
                None => false,
            } by {
                let k = choose|k: int| 0 <= k < known@.len() && (#[trigger] known@[k]).1 == w;
                assert(self@.replicated(known@[k].1));
            }
        }
        match best {
            Some(b) => {
                proof {
                    let m = self@.majority_index();
                    assert(self@.replicated(m));
                }
                b
            },
            None => self.commit_index,
        }
    }

    /// Commits what members enough to decide hold.
    fn advance_commit(&mut self, out: &mut Vec<Action>)
        requires
            old(self)@.wf(),
        ensures
            final(self)@ == old(self)@.committed(),
            final(out).deep_view() == old(out).deep_view() + old(self)@.commit_actions(),
            final(self)@.wf(),
            old(self)@.sane() ==> final(self)@.sane(),
            final(self).current_term == old(self).current_term,
            old(self)@.followed() ==> final(self)@.followed(),
    {
        proof {
            reveal(NodeView::committed);
            reveal(NodeView::commit_actions);
        }
        let ghost n0 = self@;
        let ghost said = out.deep_view();
        let m: usize = self.find_majority_index();
        if m > self.commit_index {
            let at: usize = m - self.last_included_index;
            if at < self.log.len() {
                assert(n0.entry(m as int) == self.log@[at as int]@);
                if self.log[at].term == self.current_term {
                    self.commit_index = m;
                    let ghost n1 = self@;
                    assert(n1 =~= NodeView { commit_index: m, ..n0 });
                    self.apply_logs(out);
                    return;
                }
            }
        }
        assert(out.deep_view() =~= said + n0.commit_actions());
    }

    /// Takes in an answer of the current term to a request to append.
    fn take_answer(&mut self, reply: AppendEntriesReply, out: &mut Vec<Action>)
        requires
            old(self)@.wf(),
            reply.match_index < usize::MAX,
        ensures
            final(self)@ == old(self)@.answered(reply),
            final(out).deep_view() == old(out).deep_view() + old(self)@.answered_actions(reply),
            final(self)@.wf(),
            old(self)@.sane() ==> final(self)@.sane(),
            old(self)@.followed() && (reply.success ==> reply.match_index
                <= old(self)@.last_index()) ==> final(self)@.followed(),
    {
        proof {
            reveal(NodeView::answered);
            reveal(NodeView::answered_actions);
        }
        let ghost n0 = self@;
        let ghost said = out.deep_view();
        match self.find_answering(reply.peer_id) {
            Some(i) => {
                if reply.success {
                    self.next_index.set(i, reply.match_index + 1);
                    self.match_index.set(i, reply.match_index);
                    let ghost n1 = self@;
                    assert(n1 =~= n0.matched_at(i as int, reply.match_index));
                    self.note_progress(reply.peer_id, reply.match_index);
                    self.ack_reads(reply.peer_id);
                    let ghost n3 = self@;
                    assert(n3.reads =~= n0.acked_by(reply.peer_id).reads);
                    self.check_read_indices(out);
                } else if self.next_index[i] > self.last_included_index && self.next_index[i]
                    - self.last_included_index > 1 {
                    let back: usize = self.next_index[i] - 1;
                    self.next_index.set(i, back);
                    assert(self@ =~= n0.backed_off(i as int));
                }
            },
            None => {},
        }
        assert(out.deep_view() =~= said + n0.answered_actions(reply));
    }

    /// Handles an answer to a request to append entries.
    pub fn handle_append_response(&mut self, reply: AppendEntriesReply, out: &mut Vec<Action>)
        requires
            old(self)@.wf(),
            reply.match_index < usize::MAX,
        ensures
            final(self)@ == old(self)@.append_answered(reply),
            final(out).deep_view() == old(out).deep_view() + old(self)@.append_answer_actions(
                reply,
            ),
            final(self)@.wf(),
            old(self)@.sane() ==> final(self)@.sane(),
            old(self)@.followed() && (reply.success ==> reply.match_index
                <= old(self)@.last_index()) ==> final(self)@.followed(),
    {
        let ghost n0 = self@;
        let ghost said = out.deep_view();
        if self.role == Role::Leader && reply.term == self.current_term {
            self.take_answer(reply, out);
            self.advance_commit(out);
            assert(out.deep_view() =~= said + n0.append_answer_actions(reply));
        } else if reply.term > self.current_term {
            self.step_down(reply.term, out);
        } else {
            assert(out.deep_view() =~= said + n0.append_answer_actions(reply));
        }
    }

    /// Records that a member that is catching up acknowledged `matched`.
    fn note_progress(&mut self, peer: usize, matched: usize)
        requires
            old(self)@.wf(),
        ensures
            final(self)@ == old(self)@.caught_up_to(peer, matched),
            final(self)@.wf(),
    {
        let ghost n0 = self@;
        let known: Option<CatchUpProgress> = match self.catch_up_progress.get(&peer) {
            Some(p) => Some(*p),
            None => None,
        };
        if let Some(p) = known {
            let mut p = p;
            p.update(matched);
            self.catch_up_progress.insert(peer, p);
        }
        assert(self@ =~= n0.caught_up_to(peer, matched));
    }

    /// Handles an answer to a snapshot.
    pub fn handle_snapshot_response(&mut self, reply: InstallSnapshotReply, out: &mut Vec<Action>)
        requires
            old(self)@.wf(),
            reply.last_included_index < usize::MAX,
        ensures
            final(self)@ == old(self)@.snapshot_answered(reply),
            final(out).deep_view() == old(out).deep_view() + old(self)@.snapshot_answer_actions(
                reply,
            ),
            final(self)@.wf(),
            old(self)@.sane() ==> final(self)@.sane(),
            old(self)@.followed() && reply.last_included_index <= old(self)@.last_index()
                ==> final(self)@.followed(),
    {
        let ghost n0 = self@;
        let ghost said = out.deep_view();
        if self.role == Role::Leader && reply.term == self.current_term {
            match self.find_answering(reply.peer_id) {
                Some(i) => {
                    self.next_index.set(i, reply.last_included_index + 1);
                    self.match_index.set(i, reply.last_included_index);
                    let ghost n1 = self@;
                    assert(n1 =~= n0.matched_at(i as int, reply.last_included_index));
                    self.ack_reads(reply.peer_id);
                    let ghost n2 = self@;
                    assert(n2.reads =~= n0.acked_by(reply.peer_id).reads);
                    self.check_read_indices(out);
                    assert(self@ =~= n0.snapshot_answered(reply));
                },
                None => {
                    assert(out.deep_view() =~= said + n0.snapshot_answer_actions(reply));
                },
            }
        } else if reply.term > self.current_term {
            self.step_down(reply.term, out);
        } else {
            assert(out.deep_view() =~= said + n0.snapshot_answer_actions(reply));
        }
    }
}

} // verus!
