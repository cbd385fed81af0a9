//! What keeps a cluster going: votes that are given, entries that are taken,
//! sent on and committed, reads that are answered, snapshots that are
//! installed.

use crate::raft::append::{agree_up_to, agreement, lemma_agreement_exists};
use crate::raft::apply::{lemma_applied, read_answers, reads_waiting};
use crate::raft::changes::{lemma_ordered, lists_at};
use crate::raft::command::CommandView;
use crate::raft::config::{ConfigView, Role};
use crate::raft::drive::{initial_members, initial_node, peer_id, RpcView, SavedState};
use crate::raft::heartbeat::lemma_first_index;
use crate::raft::laws::{lemma_largest_replicated, lemma_leading_frame, lemma_taking_frame};
use crate::raft::leader::reached;
use crate::raft::network::{doubled, retry_delay, Call};
use crate::raft::node::{
    ActionView, AppendEntriesReply, AppendView, InstallSnapshotReply, NodeView, ReadView,
    RequestVoteArgs, RequestVoteReply, TimeoutNowArgs,
};
use crate::raft::order::sorted_ids;
use crate::raft::snapshot::InstallView;
use vstd::prelude::*;

verus! {

/// A node gives its vote exactly to a candidate whose term is not old, whose
/// log ends in a later term, or in the same one and no earlier, unless it has
/// given it to someone else in that term. The vote is noted, a newer term is
/// adopted as a follower, and the log stays.
pub proof fn law_votes_are_given(n: NodeView, a: RequestVoteArgs)
    requires
        n.wf(),
    ensures
        ({
            let m = n.voted(a);
            let last = n.log[n.log.len() - 1].term;
            let free = a.term > n.current_term || n.voted_for is None || n.voted_for == Some(
                a.candidate_id,
            );
            let complete = a.last_log_term > last || (a.last_log_term == last && a.last_log_index
                >= n.last_included_index + n.log.len() - 1);
            let granted = a.term >= n.current_term && free && complete;
            &&& n.reply_to(RpcView::RequestVote(a)) == RpcView::RequestVoteResponse(
                RequestVoteReply { term: m.current_term, vote_granted: granted, peer_id: n.id },
            )
            &&& granted ==> m.voted_for == Some(a.candidate_id)
            &&& !granted && a.term > n.current_term ==> m.voted_for is None
            &&& !granted && a.term <= n.current_term ==> m.voted_for == n.voted_for
            &&& m.current_term == if a.term > n.current_term {
                a.term
            } else {
                n.current_term
            }
            &&& a.term > n.current_term ==> m.role == Role::Follower && m.current_leader is None
            &&& a.term <= n.current_term ==> m.role == n.role && m.current_leader
                == n.current_leader
            &&& m.log == n.log
            &&& m.commit_index == n.commit_index
            &&& m.config == n.config
        }),
{
}

/// A node that stands for election does so in the next term, votes for itself,
/// and asks every peer for its vote, telling where its log ends; it is a
/// candidate unless it is the only member, and then it leads.
pub proof fn law_candidates_ask_everyone(n: NodeView, timeout_ms: u64, i: int)
    requires
        n.wf(),
        n.room(1),
        n.current_term < u64::MAX,
        1500 <= timeout_ms < 3000,
        0 <= i < n.peers.len(),
        n.config.everyone().len() != 1,
    ensures
        ({
            let m = n.elected_with(timeout_ms);
            &&& m.role == Role::Candidate
            &&& m.current_term == n.current_term + 1
            &&& m.voted_for == Some(n.id)
            &&& m.voters == Set::empty().insert(n.id)
            &&& m.votes_received == 1
            &&& m.log == n.log
            &&& m.election_timeout_ms == timeout_ms
            &&& n.election_actions(timeout_ms).contains(
                ActionView::SendVote {
                    peer: n.peers[i],
                    args: RequestVoteArgs {
                        term: (n.current_term + 1) as u64,
                        candidate_id: n.id,
                        last_log_index: (n.last_included_index + n.log.len() - 1) as usize,
                        last_log_term: n.log[n.log.len() - 1].term,
                    },
                },
            )
        }),
{
    let acts = n.election_actions(timeout_ms);
    let first = n.standing_actions();
    assert(acts[first.len() + i] == ActionView::SendVote {
        peer: n.peers[i],
        args: RequestVoteArgs {
            term: (n.current_term + 1) as u64,
            candidate_id: n.id,
            last_log_index: (n.last_included_index + n.log.len() - 1) as usize,
            last_log_term: n.log[n.log.len() - 1].term,
        },
    });
}

/// A member that is alone leads as soon as it stands for election.
pub proof fn law_alone_leads(n: NodeView, timeout_ms: u64)
    requires
        n.wf(),
        n.room(1),
        n.current_term < u64::MAX,
        1500 <= timeout_ms < 3000,
        n.config.everyone().len() == 1,
    ensures
        n.elected_with(timeout_ms).role == Role::Leader,
        n.elected_with(timeout_ms).current_term == n.current_term + 1,
        n.peers.len() == 0 && n.sane() ==> n.elected_with(timeout_ms).commit_index
            == n.last_included_index + n.log.len(),
{
    let s = NodeView { election_timeout_ms: timeout_ms, ..n.standing() };
    assert(s.wf());
    let e = s.enthroned();
    assert(e.log[0] == s.log[0]);
    lemma_leading_frame(s);
    let m = NodeView { commit_index: e.last_index() as usize, ..e };
    if e.peers.len() == 0 && e.last_index() > e.commit_index {
        assert(m.wf());
        lemma_applied(m);
    }
}

/// A candidate takes a vote of its term into account, once for each member,
/// and leads as soon as the members that voted for it can decide. A newer term
/// makes it a follower; any other answer changes nothing.
pub proof fn law_votes_make_leaders(n: NodeView, r: RequestVoteReply)
    requires
        n.wf(),
        n.room(1),
        n.votes_received < usize::MAX,
    ensures
        ({
            let m = n.vote_counted(r);
            let counts = n.role == Role::Candidate && r.term == n.current_term && r.vote_granted;
            &&& counts && n.config.decides(n.voters.insert(r.peer_id)) ==> m.role == Role::Leader
                && m.current_term == n.current_term && m.current_leader == Some(n.id)
            &&& counts && !n.config.decides(n.voters.insert(r.peer_id)) ==> {
                &&& m.role == Role::Candidate
                &&& m.voters == n.voters.insert(r.peer_id)
                &&& m.log == n.log
                &&& m.votes_received == if n.voters.contains(r.peer_id) {
                    n.votes_received as int
                } else {
                    n.votes_received + 1
                }
            }
            &&& !counts && r.term > n.current_term ==> m.role == Role::Follower && m.current_term
                == r.term && m.voted_for is None
            &&& !counts && r.term <= n.current_term ==> m == n
        }),
{
    if n.counts(r) {
        let v = n.with_vote(r);
        assert(v.wf());
        lemma_leading_frame(v);
        let e = v.enthroned();
        assert(e.log[0] == v.log[0]);
        let m = NodeView { commit_index: e.last_index() as usize, ..e };
        if e.peers.len() == 0 && e.last_index() > e.commit_index {
            assert(m.wf());
            lemma_applied(m);
        }
    }
}

/// A new leader assumes that each peer lacks nothing but what it will write
/// itself, knows nothing of what they hold beyond the snapshot, and opens its
/// term with an entry of its own.
pub proof fn law_new_leaders(n: NodeView, i: int)
    requires
        n.wf(),
        n.room(1),
        0 <= i < n.peers.len(),
    ensures
        n.leading().role == Role::Leader,
        n.leading().next_index.len() == n.peers.len(),
        n.leading().match_index.len() == n.peers.len(),
        n.leading().next_index[i] == n.last_included_index + n.log.len(),
        n.leading().match_index[i] == n.last_included_index,
        n.leading().log.len() == n.log.len() + 1,
        n.leading().log.last().term == n.current_term,
        n.leading().log.last().command is NoOp,
        n.leading().current_leader_address == Some(n.client_address),
{
}

/// A node that is told to stand for election does so at once, in the term after
/// the one it was told of, unless that one is old.
pub proof fn law_told_to_stand(n: NodeView, a: TimeoutNowArgs)
    requires
        a.term < u64::MAX,
    ensures
        a.term < n.current_term ==> n.timed_out_now(a) == n,
        a.term >= n.current_term ==> {
            let m = n.timed_out_now(a);
            &&& m.role == Role::Candidate
            &&& m.current_term == a.term + 1
            &&& m.voted_for == Some(n.id)
            &&& m.voters == Set::empty().insert(n.id)
            &&& m.log == n.log
        },
{
}

/// A follower takes entries exactly from a leader whose term is not old and
/// whose log agrees with its own at the entry before them. It then holds each
/// of them at its place, keeps what came before, and tells how far it agrees;
/// its commit index moves to that of the leader, as far as the entries reach,
/// and never back.
pub proof fn law_followers_take_entries(n: NodeView, a: AppendView, j: int)
    requires
        n.wf(),
        n.room(a.entries.len() as int),
        a.term >= n.current_term,
        n.last_included_index <= a.prev_log_index < n.last_included_index + n.log.len(),
        n.log[a.prev_log_index - n.last_included_index].term == a.prev_log_term,
    ensures
        ({
            let m = n.appended(a);
            let top = a.prev_log_index + a.entries.len();
            let known = if a.leader_commit < top {
                a.leader_commit as int
            } else {
                top
            };
            &&& n.reply_to(RpcView::AppendEntries(a)) == RpcView::AppendEntriesResponse(
                AppendEntriesReply {
                    term: a.term,
                    success: true,
                    match_index: top as usize,
                    peer_id: n.id,
                },
            )
            &&& m.current_term == a.term
            &&& m.last_included_index == n.last_included_index
            &&& m.last_included_index + m.log.len() > top
            &&& 0 <= j < a.entries.len() ==> m.log[a.prev_log_index + 1 + j
                - m.last_included_index].term == a.entries[j].term
            &&& 0 <= j <= a.prev_log_index - n.last_included_index ==> m.log[j] == n.log[j]
            &&& m.commit_index == if known > n.commit_index {
                known
            } else {
                n.commit_index as int
            }
        }),
{
    let f = NodeView {
        current_leader_address: Some(a.leader_address),
        ..n.following(a.term, a.leader_id)
    };
    assert(f.wf());
    assert(f.matches_prev(a));
    lemma_taking_frame(f, a);
    let p = n.append_pos(a);
    lemma_agreement_exists(n.log, p, a.entries, 0);
    let k = agreement(n.log, p, a.entries);
    assert(agree_up_to(n.log, p, a.entries, k));
    if 0 <= j < a.entries.len() && j < k {
        assert(n.log[p + j].term == a.entries[j].term);
    }
}

/// Entries that a follower does not hold yet come from the request: where its
/// own entry is of another term, or it has none, it holds the one that was
/// sent.
pub proof fn law_new_entries_are_the_leaders(n: NodeView, a: AppendView, j: int)
    requires
        n.wf(),
        n.room(a.entries.len() as int),
        a.term >= n.current_term,
        n.matches_prev(a),
        0 <= j < a.entries.len(),
        a.prev_log_index + 1 + j >= n.last_included_index + n.log.len() || n.log[a.prev_log_index + 1
            + j - n.last_included_index].term != a.entries[j].term,
    ensures
        n.appended(a).log[a.prev_log_index + 1 + j - n.last_included_index] == a.entries[j],
        n.appended(a).log.len() == a.prev_log_index + 1 + a.entries.len() - n.last_included_index,
{
    let f = NodeView {
        current_leader_address: Some(a.leader_address),
        ..n.following(a.term, a.leader_id)
    };
    assert(f.wf());
    lemma_taking_frame(f, a);
    let p = n.append_pos(a);
    lemma_agreement_exists(n.log, p, a.entries, 0);
    let k = agreement(n.log, p, a.entries);
    assert(agree_up_to(n.log, p, a.entries, k));
    if j < k {
        assert(n.log[p + j].term == a.entries[j].term);
    }
}

/// A request of an old term changes nothing and is refused. One of a current
/// leader whose log does not agree is refused too, with the log as it was; but
/// the node follows that leader.
pub proof fn law_followers_refuse(n: NodeView, a: AppendView)
    requires
        n.wf(),
    ensures
        a.term < n.current_term ==> n.appended(a) == n && n.reply_to(RpcView::AppendEntries(a))
            == RpcView::AppendEntriesResponse(
            AppendEntriesReply {
                term: n.current_term,
                success: false,
                match_index: 0,
                peer_id: n.id,
            },
        ),
        a.term >= n.current_term && !(n.last_included_index <= a.prev_log_index
            < n.last_included_index + n.log.len() && n.log[a.prev_log_index
            - n.last_included_index].term == a.prev_log_term) ==> {
            let m = n.appended(a);
            &&& m.log == n.log
            &&& m.commit_index == n.commit_index
            &&& m.role == Role::Follower
            &&& m.current_term == a.term
            &&& m.current_leader == Some(a.leader_id)
            &&& m.current_leader_address == Some(a.leader_address)
            &&& n.reply_to(RpcView::AppendEntries(a)) matches RpcView::AppendEntriesResponse(r)
            &&& !r.success
        },
{
}

/// Whoever takes entries follows the leader that sent them.
pub proof fn law_followers_know_their_leader(n: NodeView, a: AppendView)
    requires
        n.wf(),
        n.room(a.entries.len() as int),
        a.term >= n.current_term,
    ensures
        n.appended(a).role == Role::Follower,
        n.appended(a).current_leader == Some(a.leader_id),
        n.appended(a).current_leader_address == Some(a.leader_address),
        n.appended(a).voted_for == if a.term > n.current_term {
            None
        } else {
            n.voted_for
        },
{
    let f = NodeView {
        current_leader_address: Some(a.leader_address),
        ..n.following(a.term, a.leader_id)
    };
    if n.matches_prev(a) {
        assert(f.wf());
        let m = f.with_entries(a);
        lemma_agreement_exists(n.log, n.append_pos(a), a.entries, 0);
        assert(m.log[0] == n.log[0]);
        assert(m.wf());
        lemma_applied(m);
    }
}

/// What a leader knows of a member is noted where its address stands among the
/// peers.
pub proof fn law_where_progress_is_noted(n: NodeView, id: usize, i: int)
    requires
        n.peers.no_duplicates(),
        id != n.id,
        0 <= i < n.peers.len(),
        lists_at(n.config.everyone(), id, n.peers[i]),
    ensures
        n.slot_of(id) == Some(i),
        n.matched(id) == n.match_index[i],
{
    lemma_first_index(n.peers, n.peers[i], i);
    assert(n.peers.contains(n.peers[i]));
}

/// An answer of success tells the leader how far the member's log agrees: that
/// is noted, and the next entry to send is the one after it. After a refusal
/// the leader looks one entry further back, but not into the snapshot. What it
/// knows of other members stays.
pub proof fn law_leaders_note_progress(n: NodeView, r: AppendEntriesReply, i: int, k: int)
    requires
        n.wf(),
        n.peers.no_duplicates(),
        r.peer_id != n.id,
        0 <= i < n.peers.len(),
        lists_at(n.config.everyone(), r.peer_id, n.peers[i]),
        r.match_index < usize::MAX,
        0 <= k < n.next_index.len(),
        k != i,
    ensures
        ({
            let m = n.answered(r);
            &&& r.success ==> m.match_index[i] == r.match_index && m.next_index[i] == r.match_index
                + 1
            &&& !r.success ==> m.match_index[i] == n.match_index[i] && m.next_index[i]
                == if n.next_index[i] > n.last_included_index + 1 {
                n.next_index[i] - 1
            } else {
                n.next_index[i] as int
            }
            &&& m.match_index[k] == n.match_index[k]
            &&& m.next_index[k] == n.next_index[k]
            &&& m.log == n.log
            &&& m.commit_index == n.commit_index
            &&& m.peers == n.peers
            &&& r.success && n.catch_up.contains_key(r.peer_id) && r.match_index
                > n.catch_up[r.peer_id].match_index ==> m.catch_up[r.peer_id].match_index
                == r.match_index
        }),
{
    reveal(NodeView::answered);
    law_where_progress_is_noted(n, r.peer_id, i);
}

/// A snapshot that was taken counts as progress up to its last entry.
pub proof fn law_snapshots_count_as_progress(n: NodeView, r: InstallSnapshotReply, i: int)
    requires
        n.wf(),
        n.role == Role::Leader,
        r.term == n.current_term,
        n.peers.no_duplicates(),
        r.peer_id != n.id,
        0 <= i < n.peers.len(),
        lists_at(n.config.everyone(), r.peer_id, n.peers[i]),
        r.last_included_index < usize::MAX,
    ensures
        n.snapshot_answered(r).match_index[i] == r.last_included_index,
        n.snapshot_answered(r).next_index[i] == r.last_included_index + 1,
        n.snapshot_answered(r).log == n.log,
{
    law_where_progress_is_noted(n, r.peer_id, i);
}

/// An answer of a newer term makes a leader a follower of that term; one of an
/// older term changes nothing.
pub proof fn law_newer_terms_end_leadership(
    n: NodeView,
    r: AppendEntriesReply,
    s: InstallSnapshotReply,
)
    ensures
        r.term > n.current_term ==> n.append_answered(r).role == Role::Follower
            && n.append_answered(r).current_term == r.term && n.append_answered(r).voted_for is None,
        r.term < n.current_term ==> n.append_answered(r) == n,
        s.term > n.current_term ==> n.snapshot_answered(s).role == Role::Follower
            && n.snapshot_answered(s).current_term == s.term,
        s.term < n.current_term ==> n.snapshot_answered(s) == n,
{
}

/// The members that are known to hold the log up to `v`: the leader itself as
/// far as its log reaches, and every other member as far as it is known to.
pub proof fn law_who_holds_the_log(n: NodeView, v: usize, k: usize)
    requires
        n.wf(),
        n.config.everyone().dom().finite(),
    ensures
        reached(n.known_progress(), v).contains(k) <==> (k == n.id && v <= n.last_included_index
            + n.log.len() - 1) || (k != n.id && n.config.everyone().contains_key(k) && n.matched(k)
            >= v),
{
    let known = n.known_progress();
    let ids = n.config.everyone().dom().remove(n.id);
    lemma_ordered(ids);
    let q = sorted_ids(ids);
    if k != n.id && n.config.everyone().contains_key(k) && n.matched(k) >= v {
        assert(q.to_set().contains(k));
        let j = q.index_of(k);
        assert(known[j + 1] == (k, n.matched(k)));
    }
    if k == n.id && v <= n.last_index() {
        assert(known[0] == (n.id, n.last_index() as usize));
    }
    if reached(known, v).contains(k) {
        let j = choose|j: int|
            0 <= j < known.len() && (#[trigger] known[j]).0 == k && known[j].1 >= v;
        if j > 0 {
            assert(known[j] == (q[j - 1], n.matched(q[j - 1])));
            assert(q.to_set().contains(q[j - 1]));
            assert(ids.contains(q[j - 1]));
        } else {
            assert(known[0] == (n.id, n.last_index() as usize));
        }
    }
}

/// A leader commits what members enough to decide hold: where they hold the log
/// up to the end of some member's log, and all from there on is of the leader's
/// term, the commit index is at least there afterwards.
pub proof fn law_majorities_commit(n: NodeView, v: usize, k: usize)
    requires
        n.wf(),
        n.config.everyone().dom().finite(),
        n.config.decides(reached(n.known_progress(), v)),
        k == n.id ==> v == n.last_included_index + n.log.len() - 1,
        k != n.id ==> n.config.everyone().contains_key(k) && n.matched(k) == v,
        v > n.commit_index,
        forall|i: int|
            v - n.last_included_index <= i < n.log.len() ==> (#[trigger] n.log[i]).term
                == n.current_term,
        forall|m: usize|
            m != n.id && #[trigger] n.config.everyone().contains_key(m) ==> n.matched(m)
                <= n.last_included_index + n.log.len() - 1,
    ensures
        n.committed().commit_index >= v,
{
    reveal(NodeView::committed);
    let known = n.known_progress();
    let ids = n.config.everyone().dom().remove(n.id);
    lemma_ordered(ids);
    let q = sorted_ids(ids);
    if k == n.id {
        assert(known[0].1 == v);
    } else {
        assert(q.to_set().contains(k));
        let j = q.index_of(k);
        assert(known[j + 1].1 == v);
    }
    assert(n.replicated(v));
    lemma_largest_replicated(n);
    let m = n.majority_index();
    assert(n.replicated(m) && m >= v);
    let j = choose|j: int| 0 <= j < known.len() && (#[trigger] known[j]).1 == m;
    if j > 0 {
        assert(known[j] == (q[j - 1], n.matched(q[j - 1])));
        assert(q.to_set().contains(q[j - 1]));
        assert(ids.contains(q[j - 1]));
        assert(n.config.everyone().contains_key(q[j - 1]));
    } else {
        assert(known[0] == (n.id, n.last_index() as usize));
    }
    assert(n.holds(m as int));
    assert(n.entry(m as int).term == n.current_term) by {
        assert(n.log[m - n.last_included_index].term == n.current_term);
    }
    let c = NodeView { commit_index: m, ..n };
    assert(c.wf());
    lemma_applied(c);
}

/// A read that has its majority and whose index is applied is answered, under
/// its number and its index; any other one waits on, as it was.
pub proof fn law_ready_reads_are_answered(reads: Seq<ReadView>, last_applied: usize, j: int)
    requires
        0 <= j < reads.len(),
    ensures
        reads[j].majority_confirmed && last_applied >= reads[j].read_index ==> read_answers(
            reads,
            last_applied,
        ).contains(
            ActionView::ReadReady { request: reads[j].request, read_index: reads[j].read_index },
        ),
        !(reads[j].majority_confirmed && last_applied >= reads[j].read_index) ==> reads_waiting(
            reads,
            last_applied,
        ).contains(reads[j]),
    decreases reads.len(),
{
    let d = reads.drop_last();
    let a = read_answers(d, last_applied);
    let w = reads_waiting(d, last_applied);
    let now = read_answers(reads, last_applied);
    let left = reads_waiting(reads, last_applied);
    let x = ActionView::ReadReady { request: reads[j].request, read_index: reads[j].read_index };
    if j < d.len() {
        law_ready_reads_are_answered(d, last_applied, j);
        assert(d[j] == reads[j]);
        if a.contains(x) {
            let i = a.index_of(x);
            if now.len() == a.len() {
                assert(now[i] == x);
            } else {
                assert(now[i + 1] == x);
            }
        }
        if w.contains(reads[j]) {
            assert(left[w.index_of(reads[j])] == reads[j]);
        }
    } else {
        assert(reads[j] == reads.last());
        if reads[j].majority_confirmed && last_applied >= reads[j].read_index {
            assert(now[0] == x);
        } else {
            assert(left[w.len() as int] == reads[j]);
        }
    }
}

/// A read has the leader's own confirmation from the start; the acknowledgement
/// of a member in the read's term adds to it, and it has its majority once
/// those that acknowledged can decide.
pub proof fn law_reads_gather_acknowledgements(n: NodeView, request: u64, r: ReadView, peer: usize)
    ensures
        n.new_read(request).acks == Set::empty().insert(n.id),
        n.new_read(request).majority_confirmed <==> n.config.decides(Set::empty().insert(n.id)),
        n.new_read(request).request == request,
        r.term == n.current_term ==> {
            let m = n.acked_read(r, peer);
            &&& m.acks == r.acks.insert(peer)
            &&& m.majority_confirmed <==> r.majority_confirmed || n.config.decides(
                r.acks.insert(peer),
            )
            &&& m.read_index == r.read_index
            &&& m.request == r.request
            &&& m.term == r.term
        },
        r.term != n.current_term ==> n.acked_read(r, peer) == r,
{
}

/// A command that a leader takes goes to the end of its log, in its term; a
/// leader without peers commits it at once, and one with peers waits.
pub proof fn law_proposals_are_logged(n: NodeView, command: CommandView)
    requires
        n.wf(),
        n.room(1),
    ensures
        ({
            let m = n.proposed(command);
            &&& m.log.len() == n.log.len() + 1
            &&& m.log.drop_last() == n.log
            &&& m.log.last().term == n.current_term
            &&& m.log.last().command == command
            &&& n.peers.len() > 0 ==> m.commit_index == n.commit_index && m.last_applied
                == n.last_applied
            &&& n.peers.len() == 0 && n.sane() ==> m.commit_index == n.last_included_index
                + n.log.len() && m.last_applied == m.commit_index
        }),
{
    let c = n.with_command(command);
    assert(c.log.drop_last() =~= n.log);
    assert(c.log[0] == n.log[0]);
    if c.peers.len() == 0 && c.last_index() > c.commit_index {
        let m = NodeView { commit_index: c.last_index() as usize, ..c };
        assert(m.wf());
        lemma_applied(m);
    }
}

/// What a leader sends to a peer: the entries from the next one on, all of
/// them, with the index and the term of the entry before; or the snapshot, where
/// the log no longer holds what the peer lacks.
pub proof fn law_what_is_sent(n: NodeView, peer: Seq<char>, i: int)
    requires
        n.wf(),
        0 <= i < n.next_index.len(),
        n.next_index[i] <= n.last_included_index + n.log.len(),
    ensures
        n.next_index[i] <= n.last_included_index ==> n.replication(peer, i) == (
        ActionView::SendSnapshot {
            peer,
            term: n.current_term,
            leader_id: n.id,
            last_included_index: n.last_included_index,
            last_included_term: n.last_included_term,
        }),
        n.next_index[i] > n.last_included_index ==> {
            &&& n.replication(peer, i) matches ActionView::SendAppend { peer: p, args }
            &&& p == peer
            &&& args.term == n.current_term
            &&& args.leader_id == n.id
            &&& args.leader_commit == n.commit_index
            &&& args.leader_address == n.client_address
            &&& args.prev_log_index == n.next_index[i] - 1
            &&& args.prev_log_term == n.log[n.next_index[i] - 1 - n.last_included_index].term
            &&& args.entries.len() == n.last_included_index + n.log.len() - n.next_index[i]
            &&& forall|j: int|
                0 <= j < args.entries.len() ==> (#[trigger] args.entries[j])
                    == n.log[n.next_index[i] - n.last_included_index + j]
        },
{
}

proof fn lemma_sent(n: NodeView, m: int, r: int)
    requires
        0 <= r < m <= n.replicas().len(),
        n.slot(n.replicas()[r], r) < n.next_index.len(),
    ensures
        n.heartbeats_to(m).contains(n.replication(n.replicas()[r].0, n.slot(n.replicas()[r], r))),
    decreases m,
{
    let x = n.replication(n.replicas()[r].0, n.slot(n.replicas()[r], r));
    if r < m - 1 {
        lemma_sent(n, m - 1, r);
        let before = n.heartbeats_to(m - 1);
        assert(n.heartbeats_to(m)[before.index_of(x)] == x);
    } else {
        assert(n.heartbeats_to(m)[n.heartbeats_to(m).len() - 1] == x);
    }
}

/// A leader sends to every member that it talks to, at its address, what that
/// member lacks.
pub proof fn law_every_member_is_sent_to(n: NodeView, id: usize, i: int)
    requires
        n.wf(),
        n.peers.no_duplicates(),
        n.config.everyone().dom().finite(),
        id != n.id,
        0 <= i < n.peers.len(),
        lists_at(n.config.everyone(), id, n.peers[i]),
    ensures
        n.heartbeats().contains(n.replication(n.peers[i], i)),
{
    let all = n.config.everyone();
    let ids = all.dom().remove(n.id);
    lemma_ordered(ids);
    let q = sorted_ids(ids);
    assert(q.to_set().contains(id));
    let r = q.index_of(id);
    assert(n.member_addresses()[r] == n.peers[i]);
    assert(n.replicas()[r] == (n.peers[i], true));
    lemma_first_index(n.peers, n.peers[i], i);
    assert(n.peers.contains(n.peers[i]));
    assert(n.slot(n.replicas()[r], r) == i);
    lemma_sent(n, n.replicas().len() as int, r);
}

/// A snapshot is installed exactly if its leader is not outdated and it reaches
/// further than what is committed. The node then stands at the snapshot's last
/// entry, with the entries behind it if it agrees there, and with none
/// otherwise; and it follows the leader.
pub proof fn law_snapshots_are_installed(n: NodeView, a: InstallView, j: int)
    requires
        n.wf(),
        a.last_included_index < usize::MAX,
    ensures
        ({
            let m = n.installed(a);
            let at = a.last_included_index - n.last_included_index;
            let agrees = 0 <= at < n.log.len() && n.log[at].term == a.last_included_term;
            &&& a.term < n.current_term ==> m == n
            &&& a.term >= n.current_term ==> m.current_term == a.term && m.role == Role::Follower
                && m.current_leader == Some(a.leader_id)
            &&& a.term >= n.current_term && a.last_included_index > n.commit_index ==> {
                &&& m.last_included_index == a.last_included_index
                &&& m.last_included_term == a.last_included_term
                &&& m.commit_index == a.last_included_index
                &&& m.last_applied == a.last_included_index
                &&& m.log[0].term == a.last_included_term
                &&& agrees ==> m.log.len() == n.log.len() - at && (1 <= j < m.log.len() ==> m.log[j]
                    == n.log[at + j])
                &&& !agrees ==> m.log.len() == 1
            }
            &&& a.term >= n.current_term && a.last_included_index <= n.commit_index ==> m.log
                == n.log && m.commit_index == n.commit_index && m.last_included_index
                == n.last_included_index
        }),
{
}

/// A snapshot covers all that is applied and nothing else: the log keeps its
/// term there and all entries behind it.
pub proof fn law_compaction(n: NodeView, j: int)
    requires
        n.wf(),
        n.sane(),
    ensures
        ({
            let m = n.compacted();
            let at = n.last_applied - n.last_included_index;
            &&& m.last_included_index == n.last_applied
            &&& m.last_included_term == n.log[at].term
            &&& m.log[0].term == n.log[at].term
            &&& m.log.len() == n.log.len() - at
            &&& 1 <= j < m.log.len() ==> m.log[j] == n.log[at + j]
            &&& m.commit_index == n.commit_index
            &&& m.last_applied == n.last_applied
            &&& m.current_term == n.current_term
            &&& m.config == n.config
        }),
        n.overlong() <==> n.log.len() > 100 && n.last_applied > n.last_included_index,
{
}

/// All that is committed is applied in the end, and the log is then compacted
/// where it has more than a hundred entries.
pub proof fn law_settling(n: NodeView)
    requires
        n.wf(),
        n.sane(),
    ensures
        n.settled().last_applied == n.commit_index,
        n.settled().commit_index == n.commit_index,
        n.log.len() > 100 && n.commit_index > n.last_included_index
            ==> n.settled().last_included_index == n.commit_index,
        !(n.log.len() > 100 && n.commit_index > n.last_included_index) ==> n.settled().log == n.log,
{
    lemma_applied(n);
}

/// A node that has heard of no leader for longer than its timeout stands for
/// election; as long as it has not waited that long nothing happens; and a
/// leader stands for nothing, but tends to the members that change.
pub proof fn law_who_stands_for_election(n: NodeView, elapsed_ms: u64, timeout_ms: u64)
    requires
        n.current_term < u64::MAX,
        n.config.everyone().len() != 1,
    ensures
        n.role != Role::Leader && elapsed_ms > n.election_timeout_ms ==> n.acted(
            elapsed_ms,
            timeout_ms,
        ).role == Role::Candidate && n.acted(elapsed_ms, timeout_ms).current_term == n.current_term
            + 1 && n.acted(elapsed_ms, timeout_ms).election_timeout_ms == timeout_ms,
        n.role != Role::Leader && elapsed_ms <= n.election_timeout_ms ==> n.acted(
            elapsed_ms,
            timeout_ms,
        ) == n && n.acted_actions(elapsed_ms, timeout_ms).len() == 0,
        n.role == Role::Leader ==> n.acted(elapsed_ms, timeout_ms).role == Role::Leader
            && n.acted(elapsed_ms, timeout_ms).current_term == n.current_term,
{
}

/// A node starts as a follower, with the term and the vote that were saved, the
/// snapshot as the beginning of its log and the saved entries behind it; what
/// the snapshot covers is committed and applied.
pub proof fn law_start(
    id: usize,
    peers: Seq<String>,
    own: String,
    saved: SavedState,
    timeout_ms: u64,
    j: int,
)
    ensures
        ({
            let n = initial_node(id, peers, own, saved, timeout_ms);
            &&& n.id == id
            &&& n.role == Role::Follower
            &&& n.current_leader is None
            &&& n.election_timeout_ms == timeout_ms
            &&& n.client_address == own@
            &&& n.peers.len() == peers.len()
            &&& 0 <= j < peers.len() ==> n.peers[j] == peers[j]@
            &&& saved.snapshot matches Some((index, term)) ==> n.last_included_index == index
                && n.last_included_term == term
            &&& saved.snapshot is None ==> n.last_included_index == 0 && n.last_included_term == 0
            &&& n.commit_index == n.last_included_index
            &&& n.last_applied == n.last_included_index
            &&& n.log.len() == saved.entries@.len() + 1
            &&& n.log[0].term == n.last_included_term
            &&& 0 <= j < saved.entries@.len() ==> n.log[j + 1] == saved.entries@[j]@
            &&& saved.term is None ==> n.current_term == 0
            &&& saved.vote is None ==> n.voted_for is None
            &&& saved.config matches Some(c) ==> (c@ is Joint || exists|k: usize| #[trigger]
                c@->Simple_members.contains_key(k)) ==> n.config == c@
            &&& saved.config is None ==> n.config == (ConfigView::Simple {
                members: initial_members(id, peers, own),
                version: 0,
            })
            &&& saved.change is None ==> n.change is Idle
        }),
{
}

/// A node that starts for the first time knows itself under its own id and
/// address, and its peers in their order under the ids around it; nobody else
/// is a member.
pub proof fn law_first_members(id: usize, peers: Seq<String>, own: String, k: usize)
    requires
        peers.len() < usize::MAX,
    ensures
        ({
            let m = initial_members(id, peers, own);
            &&& m.contains_key(id) && m[id] == own
            &&& k < id && k < peers.len() ==> m.contains_key(k) && m[k] == peers[k as int]
            &&& k > id && k <= peers.len() ==> m.contains_key(k) && m[k] == peers[k - 1]
            &&& k != id && m.contains_key(k) ==> (k < id && k < peers.len()) || (k > id && k
                <= peers.len())
        }),
{
}

/// A call is tried again at most twice, a request to append once, and one to
/// stand for election never; each pause is twice the one before.
pub proof fn law_retries(call: Call, n: int)
    requires
        n >= 0,
    ensures
        call == Call::Vote || call == Call::Snapshot ==> call.tries() == 3 && call.first_pause()
            == 50,
        call == Call::Append ==> call.tries() == 2 && call.first_pause() == 20,
        call == Call::TimeoutNow ==> call.tries() == 1,
        doubled(call.first_pause(), n + 1) == 2 * doubled(call.first_pause(), n),
        doubled(call.first_pause(), 0) == call.first_pause(),
{
}

/// Word of a current leader, and a vote that is given, put off the next
/// election; an old leader does not.
pub proof fn law_what_puts_off_elections(
    n: NodeView,
    a: AppendView,
    v: RequestVoteArgs,
    i: InstallView,
)
    requires
        n.wf(),
    ensures
        n.append_actions(a).contains(ActionView::ResetElectionTimer) <== a.term >= n.current_term,
        a.term < n.current_term ==> n.append_actions(a).len() == 0,
        n.grants(v) ==> n.vote_actions(v).contains(ActionView::ResetElectionTimer),
        n.install_actions(i).contains(ActionView::ResetElectionTimer) <== i.term >= n.current_term,
        i.term < n.current_term ==> n.install_actions(i).len() == 0,
{
    if a.term >= n.current_term {
        let k = if a.term > n.current_term {
            2int
        } else {
            0int
        };
        assert(n.append_actions(a)[k] == ActionView::ResetElectionTimer);
    }
    if n.grants(v) {
        let acts = n.vote_actions(v);
        assert(acts[acts.len() - 1] == ActionView::ResetElectionTimer);
    }
    if i.term >= n.current_term {
        let k = if i.term > n.current_term {
            2int
        } else {
            0int
        };
        assert(n.install_actions(i)[k] == ActionView::ResetElectionTimer);
    }
}

/// A leader leaves the members alone where no change is under way; it proposes
/// the way to the new members once all that are being added are ready, and the
/// end of the change once the joint configuration is committed.
pub proof fn law_leaders_tend_to_changes(n: NodeView)
    requires
        n.wf(),
        n.room(2),
        n.config is Simple,
        n.config.number() < u64::MAX,
        n.sane(),
    ensures
        n.change is Idle || n.change is TransferringLeadership ==> n.tended() == n
            && n.tended_actions().len() == 0,
        n.change is AddingServers && (forall|k: usize| #[trigger]
            n.change->servers.contains_key(k) ==> n.change->servers[k].1.match_index
                >= n.commit_index && n.change->servers[k].1.rounds_caught_up >= 10) ==> {
            &&& n.tended().change is InJointConsensus
            &&& n.tended().log.len() == n.log.len() + 1
            &&& n.tended().log.last().term == n.current_term
        },
        n.change is InJointConsensus && n.change->joint_config_index <= n.commit_index ==> {
            &&& n.tended().log.len() == n.log.len() + 1
            &&& n.tended().log.last().term == n.current_term
            &&& n.tended().log.last().command is Membership
        },
        n.change is InJointConsensus && n.change->joint_config_index > n.commit_index
            ==> n.tended() == n,
{
}

/// A refusal tells the leader where to look: at the entry before those that it
/// sent where the terms there differ, and at the snapshot where the follower
/// has no entry there.
pub proof fn law_refusals_tell_where_to_look(n: NodeView, a: AppendView)
    requires
        n.wf(),
        a.term >= n.current_term,
    ensures
        a.prev_log_index > n.last_included_index && a.prev_log_index < n.last_included_index
            + n.log.len() && n.log[a.prev_log_index - n.last_included_index].term
            != a.prev_log_term ==> n.append_match(a) == a.prev_log_index,
        a.prev_log_index >= n.last_included_index + n.log.len() ==> n.append_match(a)
            == n.last_included_index,
        a.prev_log_index < n.last_included_index ==> n.append_match(a) == n.last_included_index,
{
}

/// A read that a leader takes waits behind the others until its majority is
/// there; one that has it at once is not kept waiting for it. The leader lets
/// every member confirm it.
pub proof fn law_reads_are_taken(n: NodeView, request: u64, id: usize, i: int)
    requires
        n.wf(),
        n.peers.no_duplicates(),
        n.config.everyone().dom().finite(),
        id != n.id,
        0 <= i < n.peers.len(),
        lists_at(n.config.everyone(), id, n.peers[i]),
    ensures
        !n.config.decides(Set::empty().insert(n.id)) ==> n.with_read(request).reads == n.reads.push(
            n.new_read(request),
        ),
        n.with_read(request).log == n.log,
        n.with_read(request).commit_index == n.commit_index,
        n.with_read(request).peers == n.peers,
        n.read_actions(request).contains(n.replication(n.peers[i], i)),
{
    let m = n.with_read(request);
    assert(m.wf());
    law_every_member_is_sent_to(m, id, i);
    let x = n.replication(n.peers[i], i);
    assert(m.replication(m.peers[i], i) == x);
    let beats = m.heartbeats();
    let acts = n.read_actions(request);
    let k = beats.index_of(x);
    assert(acts[acts.len() - beats.len() + k] == x);
}

/// A leader also sends to every server that is catching up, at its address,
/// what it lacks, by what is noted where its answers are noted.
pub proof fn law_joining_servers_are_sent_to(n: NodeView, id: usize)
    requires
        n.wf(),
        n.config.everyone().dom().finite(),
        n.non_voting.dom().finite(),
        n.non_voting.contains_key(id),
        n.next_index.len() >= n.config.everyone().dom().remove(n.id).len() + n.non_voting.len(),
    ensures
        id != n.id && !n.config.everyone().contains_key(id) ==> {
            &&& n.slot_of(id) is Some
            &&& 0 <= n.slot_of(id)->0 < n.next_index.len()
            &&& n.heartbeats().contains(n.replication(n.non_voting[id]@, n.slot_of(id)->0))
        },
{
    let ids = n.config.everyone().dom().remove(n.id);
    let joining = n.non_voting.dom();
    lemma_ordered(ids);
    lemma_ordered(joining);
    let q = sorted_ids(ids);
    let w = sorted_ids(joining);
    q.unique_seq_to_set();
    w.unique_seq_to_set();
    assert(w.to_set().contains(id));
    let k = w.index_of(id);
    let r = q.len() + k;
    assert(n.member_addresses().len() == q.len());
    assert(n.replicas()[r] == (n.non_voting[id]@, false));
    assert(n.slot(n.replicas()[r], r) == r);
    lemma_sent(n, n.replicas().len() as int, r);
    assert(n.heartbeats().contains(n.replication(n.non_voting[id]@, r)));
    assert(n.match_index.len() == n.next_index.len());
}

/// The answer to a read.
pub open spec fn answer_to(r: ReadView) -> ActionView {
    ActionView::ReadReady { request: r.request, read_index: r.read_index }
}

/// A read that waits for an entry to be applied, with its majority, is answered
/// when that entry is.
pub proof fn law_reads_are_answered_on_apply(n: NodeView, j: int)
    requires
        n.wf(),
        n.sane(),
        n.last_applied < n.commit_index,
        0 <= j < n.reads.len(),
        n.reads[j].majority_confirmed,
        n.reads[j].read_index <= n.last_applied + 1,
    ensures
        n.step_actions().contains(answer_to(n.reads[j])),
{
    let k = (n.last_applied + 1) as usize;
    let m = NodeView { last_applied: k, ..n };
    assert(m.holds(k as int));
    law_ready_reads_are_answered(n.reads, k, j);
    let a = read_answers(n.reads, k);
    let x = answer_to(n.reads[j]);
    let acts = n.step_actions();
    let i = a.index_of(x);
    assert(acts[acts.len() - a.len() + i] == x);
}

/// A read whose index is applied is answered as soon as those that acknowledge
/// the leader can decide: by an answer to a request to append, or to a
/// snapshot.
pub proof fn law_reads_are_answered_on_acknowledgement(
    n: NodeView,
    r: AppendEntriesReply,
    s: InstallSnapshotReply,
    i: int,
    j: int,
)
    requires
        n.wf(),
        n.role == Role::Leader,
        n.peers.no_duplicates(),
        r.term == n.current_term,
        r.success,
        s.term == n.current_term,
        s.peer_id == r.peer_id,
        r.peer_id != n.id,
        0 <= i < n.peers.len(),
        lists_at(n.config.everyone(), r.peer_id, n.peers[i]),
        0 <= j < n.reads.len(),
        n.reads[j].term == n.current_term,
        n.reads[j].majority_confirmed || n.config.decides(n.reads[j].acks.insert(r.peer_id)),
        n.reads[j].read_index <= n.last_applied,
    ensures
        n.append_answer_actions(r).contains(answer_to(n.reads[j])),
        n.snapshot_answer_actions(s).contains(answer_to(n.reads[j])),
{
    reveal(NodeView::answered_actions);
    law_where_progress_is_noted(n, r.peer_id, i);
    let m = n.acked_by(r.peer_id);
    let x = answer_to(n.reads[j]);
    assert(m.reads[j] == n.acked_read(n.reads[j], r.peer_id));
    assert(answer_to(m.reads[j]) == x);
    law_ready_reads_are_answered(m.reads, n.last_applied, j);
    let a = read_answers(m.reads, n.last_applied);
    let k = a.index_of(x);
    let acts = n.append_answer_actions(r);
    assert(acts[k] == x);
}

/// An acknowledgement reaches every read that waits: each of the leader's term
/// counts it, unless it is answered by it.
pub proof fn law_acknowledgements_reach_reads(
    n: NodeView,
    r: AppendEntriesReply,
    i: int,
    j: int,
)
    requires
        n.wf(),
        n.peers.no_duplicates(),
        r.success,
        r.peer_id != n.id,
        0 <= i < n.peers.len(),
        lists_at(n.config.everyone(), r.peer_id, n.peers[i]),
        0 <= j < n.reads.len(),
        n.reads[j].term == n.current_term,
        !n.reads[j].majority_confirmed,
        !n.config.decides(n.reads[j].acks.insert(r.peer_id)),
    ensures
        n.answered(r).reads.contains(
            ReadView { acks: n.reads[j].acks.insert(r.peer_id), ..n.reads[j] },
        ),
{
    reveal(NodeView::answered);
    law_where_progress_is_noted(n, r.peer_id, i);
    let m = n.acked_by(r.peer_id);
    let x = ReadView { acks: n.reads[j].acks.insert(r.peer_id), ..n.reads[j] };
    assert(m.reads[j] == n.acked_read(n.reads[j], r.peer_id));
    assert(m.reads[j] == x);
    law_ready_reads_are_answered(m.reads, n.last_applied, j);
    let w = n.matched_at(i, r.match_index).caught_up_to(r.peer_id, r.match_index).acked_by(
        r.peer_id,
    );
    assert(w.reads =~= m.reads);
}

/// What is answered to a snapshot, and to being told to stand for election: the
/// term, and how far the node is, or whether it does.
pub proof fn law_other_replies(n: NodeView, a: InstallView, t: TimeoutNowArgs)
    requires
        t.term < u64::MAX,
    ensures
        n.reply_to(RpcView::InstallSnapshot(a)) matches RpcView::InstallSnapshotResponse(r)
            && r.peer_id == n.id && r.term == (if a.term > n.current_term {
            a.term
        } else {
            n.current_term
        }) && r.last_included_index == (if a.term >= n.current_term && a.last_included_index
            > n.commit_index {
            a.last_included_index
        } else {
            n.last_included_index
        }),
        n.reply_to(RpcView::TimeoutNow(t)) matches RpcView::TimeoutNowResponse(r) && r.success == (
        t.term >= n.current_term) && r.term == (if t.term >= n.current_term {
            (t.term + 1) as u64
        } else {
            n.current_term
        }),
{
}

/// The pauses of a call that keeps failing: none before the first try, then each
/// twice as long as the one before, until it is given up.
pub proof fn law_pauses_double(call: Call, failed: u32, r: Option<u64>, next: Option<u64>)
    requires
        failed < u32::MAX,
        call_ensures(retry_delay, (call, failed), r),
        call_ensures(retry_delay, (call, (failed + 1) as u32), next),
    ensures
        failed == 0 ==> r == Some(0u64),
        failed == 0 && next is Some ==> next == Some(
            if call == Call::Append {
                20u64
            } else {
                50u64
            },
        ),
        failed > 0 && next is Some ==> r is Some && next->0 == 2 * r->0,
        failed >= 3 ==> r is None,
        r is None ==> next is None,
{
    reveal_with_fuel(doubled, 3);
}

} // verus!
