//! What a leader sends to the members of its cluster.

use crate::raft::apply::emit;
use crate::raft::command::LogEntry;
use crate::raft::config::Role;
use crate::raft::node::{Action, ActionView, AppendEntriesArgs, AppendView, NodeView, RaftNode};
use crate::raft::order::{ids_of, sorted_entries, sorted_ids};
use crate::strmap::Dup;
use crate::text::position_of;
use vstd::prelude::*;

verus! {

broadcast use vstd::std_specs::hash::group_hash_axioms;

/// The first position of `t` in `list`.
pub open spec fn first_index(list: Seq<Seq<char>>, t: Seq<char>) -> int {
    choose|i: int|
        0 <= i < list.len() && list[i] == t && forall|j: int|
            0 <= j < i ==> (#[trigger] list[j]) != t
}

/// What stands in a list has a first position in it.
pub proof fn lemma_first_index(list: Seq<Seq<char>>, t: Seq<char>, k: int)
    requires
        0 <= k < list.len(),
        list[k] == t,
    ensures
        0 <= first_index(list, t) < list.len(),
        list[first_index(list, t)] == t,
    decreases k,
{
    if exists|j: int| 0 <= j < k && (#[trigger] list[j]) == t {
        let j = choose|j: int| 0 <= j < k && (#[trigger] list[j]) == t;
        lemma_first_index(list, t, j);
    }
}

impl NodeView {
    /// Everyone the leader replicates to: the voting members but itself, then
    /// the ones that are catching up, each group by ascending id. The flag
    /// tells who votes.
    pub open spec fn replicas(self) -> Seq<(Seq<char>, bool)> {
        self.member_addresses().map_values(|a: Seq<char>| (a, true)) + sorted_ids(
            self.non_voting.dom(),
        ).map_values(|k: usize| (self.non_voting[k]@, false))
    }

    /// Where the leader tracks the progress of a replica: a voting member
    /// where its address stands among the peers, anyone else by its place in
    /// the list.
    pub open spec fn slot(self, replica: (Seq<char>, bool), place: int) -> int {
        if replica.1 && self.peers.contains(replica.0) {
            first_index(self.peers, replica.0)
        } else {
            place
        }
    }

    /// What the leader sends to a replica tracked at `i`: the entries it
    /// lacks, or a snapshot where the log no longer holds them.
    pub open spec fn replication(self, peer: Seq<char>, i: int) -> ActionView {
        let next = self.next_index[i];
        if next <= self.last_included_index {
            ActionView::SendSnapshot {
                peer,
                term: self.current_term,
                leader_id: self.id,
                last_included_index: self.last_included_index,
                last_included_term: self.last_included_term,
            }
        } else {
            ActionView::SendAppend {
                peer,
                args: AppendView {
                    term: self.current_term,
                    leader_id: self.id,
                    prev_log_index: (next - 1) as usize,
                    prev_log_term: self.entry(next - 1).term,
                    entries: self.log.skip(next - self.last_included_index),
                    leader_commit: self.commit_index,
                    leader_address: self.client_address,
                },
            }
        }
    }

    /// What the leader sends to the first `n` replicas; those that it does not
    /// track are left out.
    pub open spec fn heartbeats_to(self, n: int) -> Seq<ActionView>
        decreases n,
    {
        if n <= 0 {
            Seq::empty()
        } else {
            let r = self.replicas()[n - 1];
            let i = self.slot(r, n - 1);
            if i < self.next_index.len() {
                self.heartbeats_to(n - 1).push(self.replication(r.0, i))
            } else {
                self.heartbeats_to(n - 1)
            }
        }
    }

    /// What the leader sends to all replicas.
    pub open spec fn heartbeats(self) -> Seq<ActionView> {
        self.heartbeats_to(self.replicas().len() as int)
    }
}

impl RaftNode {
    /// The message for a replica tracked at `i`.
    fn replicate(&self, peer: &String, i: usize) -> (a: Action)
        requires
            self@.wf(),
            i < self.next_index@.len(),
            self.next_index@[i as int] <= self.last_included_index + self.log@.len(),
        ensures
            a@ == self@.replication(peer@, i as int),
    {
        let next: usize = self.next_index[i];
        if next <= self.last_included_index {
            return Action::SendSnapshot {
                peer: peer.clone(),
                term: self.current_term,
                leader_id: self.id,
                last_included_index: self.last_included_index,
                last_included_term: self.last_included_term,
            };
        }
        let from: usize = next - self.last_included_index;
        let prev_log_term: u64 = self.log[from - 1].term;
        let mut entries: Vec<LogEntry> = Vec::new();
        let mut k: usize = from;
        let ghost want = self@.log.skip(from as int);
        assert(entries.deep_view() =~= want.take(0));
        while k < self.log.len()
            invariant
                from <= k <= self.log@.len(),
                want == self@.log.skip(from as int),
                entries.deep_view() == want.take(k - from),
            decreases self.log@.len() - k,
        {
            let e = self.log[k].dup();
            let ghost before = entries.deep_view();
            entries.push(e);
            k += 1;
            proof {
                assert(entries.deep_view() =~= before.push(e@));
                assert(want[k - 1 - from] == e@);
                assert(want.take(k - from) =~= want.take(k - 1 - from).push(want[k - 1 - from]));
            }
        }
        assert(want.take(k - from) =~= want);
        assert(self@.entry(next - 1) == self.log@[from - 1]@);
        Action::SendAppend {
            peer: peer.clone(),
            args: AppendEntriesArgs {
                term: self.current_term,
                leader_id: self.id,
                prev_log_index: next - 1,
                prev_log_term,
                entries,
                leader_commit: self.commit_index,
                leader_address: self.client_address.clone(),
            },
        }
    }

    /// Everyone the leader replicates to.
    fn list_replicas(&self) -> (r: Vec<(String, bool)>)
        ensures
            r.deep_view() == self@.replicas(),
    {
        let ghost n0 = self@;
        let all = self.cluster_config.all_members();
        let voting = sorted_entries(&all, Some(self.id));
        let joining = sorted_entries(&self.non_voting_members, None);
        let ghost rs = n0.replicas();
        proof {
            assert(voting@.len() == ids_of(voting@).len());
            assert(joining@.len() == ids_of(joining@).len());
            assert forall|j: int| 0 <= j < voting@.len() implies #[trigger] rs[j] == (
                voting@[j].1@,
                true,
            ) by {
                assert(ids_of(voting@)[j] == voting@[j].0);
            }
            assert forall|j: int| voting@.len() <= j < rs.len() implies #[trigger] rs[j] == (
                joining@[j - voting@.len()].1@,
                false,
            ) by {
                assert(ids_of(joining@)[j - voting@.len()] == joining@[j - voting@.len()].0);
            }
        }
        let mut r: Vec<(String, bool)> = Vec::new();
        let mut i: usize = 0;
        while i < voting.len()
            invariant
                i <= voting@.len(),
                rs.len() == voting@.len() + joining@.len(),
                forall|j: int|
                    0 <= j < voting@.len() ==> #[trigger] rs[j] == (voting@[j].1@, true),
                r@.len() == i,
                forall|j: int| 0 <= j < i ==> ((#[trigger] r@[j]).0@, r@[j].1) == rs[j],
            decreases voting@.len() - i,
        {
            r.push((voting[i].1.clone(), true));
            i += 1;
        }
        let ghost n = voting@.len() as int;
        let mut k: usize = 0;
        while k < joining.len()
            invariant
                k <= joining@.len(),
                rs.len() == n + joining@.len(),
                forall|j: int|
                    n <= j < rs.len() ==> #[trigger] rs[j] == (joining@[j - n].1@, false),
                r@.len() == n + k,
                forall|j: int| 0 <= j < r@.len() ==> ((#[trigger] r@[j]).0@, r@[j].1) == rs[j],
            decreases joining@.len() - k,
        {
            r.push((joining[k].1.clone(), false));
            k += 1;
        }
        proof {
            assert forall|j: int| 0 <= j < rs.len() implies r.deep_view()[j] == rs[j] by {
                assert((r@[j].0@, r@[j].1) == rs[j]);
            }
            assert(r.deep_view() =~= rs);
        }
        r
    }

    /// Where the progress of a replica is noted.
    fn find_slot(&self, addr: &String, voting: bool, place: usize) -> (i: usize)
        ensures
            i == self@.slot((addr@, voting), place as int),
    {
        if !voting {
            return place;
        }
        match position_of(&self.peers, addr.as_str()) {
            Some(i) => {
                proof {
                    let ps = self@.peers;
                    assert(ps[i as int] == addr@);
                    let f = first_index(ps, addr@);
                    assert(f == i) by {
                        if f < i {
                            assert(ps[f] != addr@);
                        }
                    }
                }
                i
            },
            None => place,
        }
    }

    /// Sends every replica what it lacks, or an empty heartbeat.
    #[verifier::spinoff_prover]
    #[verifier::rlimit(40)]
    pub fn send_heartbeats(&self, out: &mut Vec<Action>)
        requires
            self@.wf(),
            self@.followed(),
            self.role == Role::Leader,
        ensures
            final(out).deep_view() == old(out).deep_view() + self@.heartbeats(),
    {
        let ghost said = out.deep_view();
        let rs = self.list_replicas();
        let mut place: usize = 0;
        assert(out.deep_view() =~= said + self@.heartbeats_to(0));
        while place < rs.len()
            invariant
                place <= rs@.len(),
                self@.wf(),
                self@.followed(),
                self.role == Role::Leader,
                rs.deep_view() == self@.replicas(),
                out.deep_view() == said + self@.heartbeats_to(place as int),
            decreases rs@.len() - place,
        {
            let i: usize = self.find_slot(&rs[place].0, rs[place].1, place);
            assert(rs.deep_view()[place as int] == (rs@[place as int].0@, rs@[place as int].1));
            if i < self.next_index.len() {
                let a = self.replicate(&rs[place].0, i);
                emit(out, a);
            }
            place += 1;
            assert(out.deep_view() =~= said + self@.heartbeats_to(place as int));
        }
    }
}

} // verus!
