//! What a change of members does to a cluster, from the request to the last
//! entry of the change: who belongs to it afterwards, and at which address.

use crate::raft::command::{CommandView, MembershipView};
use crate::raft::config::{CatchUpProgress, ChangeView, ConfigView, Role, ServerRole};
use crate::raft::heartbeat::{first_index, lemma_first_index};
use crate::raft::node::NodeView;
use crate::raft::order::{ascending, lemma_sorted_ids, sorted_ids};
use vstd::prelude::*;

verus! {

/// Servers that a leader takes in catch up without a vote: neither the
/// configuration nor the log changes, each of them is noted with its address
/// as a server that is being added, and nobody else is.
pub proof fn law_joining_servers_do_not_vote(n: NodeView, servers: Map<usize, String>)
    requires
        n.wf(),
        n.add_error(servers) is None,
    ensures
        ({
            let m = n.with_joining(servers);
            &&& n.role == Role::Leader
            &&& n.change is Idle
            &&& servers.len() > 0
            &&& m.config == n.config
            &&& m.log == n.log
            &&& m.peers == n.peers
            &&& m.next_index.len() == n.next_index.len() + servers.len()
            &&& m.match_index.len() == n.match_index.len() + servers.len()
            &&& n.next_index.is_prefix_of(m.next_index)
            &&& n.match_index.is_prefix_of(m.match_index)
            &&& forall|i: int|
                n.next_index.len() <= i < m.next_index.len() ==> #[trigger] m.next_index[i]
                    == n.last_included_index + n.log.len()
            &&& forall|i: int|
                n.match_index.len() <= i < m.match_index.len() ==> #[trigger] m.match_index[i]
                    == n.last_included_index
            &&& m.current_term == n.current_term
            &&& m.role == n.role
            &&& m.commit_index == n.commit_index
            &&& m.change is AddingServers
            &&& m.change->started_at == n.monotonic_time
            &&& forall|k: usize|
                #![trigger servers.contains_key(k)]
                #![trigger m.change->servers.contains_key(k)]
                m.change->servers.contains_key(k) <==> servers.contains_key(k)
            &&& forall|k: usize| #[trigger]
                servers.contains_key(k) ==> {
                    &&& m.change->servers[k].0 == servers[k]
                    &&& m.change->servers[k].1.match_index == 0
                    &&& m.change->servers[k].1.rounds_caught_up == 0
                    &&& m.change->servers[k].1.added_at == n.monotonic_time
                    &&& m.non_voting.contains_key(k) && m.non_voting[k] == servers[k]
                    &&& m.server_roles.contains_key(k) && m.server_roles[k]
                        == ServerRole::NonVoting
                    &&& m.catch_up.contains_key(k) && m.catch_up[k].match_index == 0
                        && m.catch_up[k].rounds_caught_up == 0
                }
            &&& forall|k: usize|
                !servers.contains_key(k) ==> {
                    &&& #[trigger] m.non_voting.contains_key(k) == n.non_voting.contains_key(k)
                    &&& n.non_voting.contains_key(k) ==> m.non_voting[k] == n.non_voting[k]
                }
        }),
{
    let m = n.with_joining(servers);
    assert(n.next_index =~= m.next_index.take(n.next_index.len() as int));
    assert(n.match_index =~= m.match_index.take(n.match_index.len() as int));
}

/// A leader takes in servers exactly when it leads, no other change is under
/// way, there is somebody to add and none of them is a member already, in the
/// old list or in the new one.
pub proof fn law_who_may_join(n: NodeView, servers: Map<usize, String>)
    ensures
        n.add_error(servers) is None <==> {
            &&& n.role == Role::Leader
            &&& n.change is Idle
            &&& servers.len() > 0
            &&& forall|k: usize| #[trigger]
                servers.contains_key(k) ==> match n.config {
                    ConfigView::Simple { members, .. } => !members.contains_key(k),
                    ConfigView::Joint { old_members, new_members, .. } => {
                        !old_members.contains_key(k) && !new_members.contains_key(k)
                    },
                }
        },
{
    if n.role == Role::Leader && n.change is Idle && servers.len() > 0 {
        if n.add_error(servers) is None {
            assert forall|k: usize| #[trigger] servers.contains_key(k) implies match n.config {
                ConfigView::Simple { members, .. } => !members.contains_key(k),
                ConfigView::Joint { old_members, new_members, .. } => {
                    !old_members.contains_key(k) && !new_members.contains_key(k)
                },
            } by {
                assert(!n.clashes(servers, k));
            }
        } else {
            let k = choose|k: usize| #[trigger] n.clashes(servers, k);
            assert(n.clashes(servers, k));
            assert(servers.contains_key(k));
        }
    }
}

/// Servers that are being added get their vote exactly when each of them holds
/// everything that is committed and has kept up for ten rounds.
pub proof fn law_who_is_promoted(n: NodeView)
    ensures
        n.all_ready() <==> n.change is AddingServers && forall|k: usize| #[trigger]
            n.change->servers.contains_key(k) ==> n.change->servers[k].1.match_index
                >= n.commit_index && n.change->servers[k].1.rounds_caught_up >= 10,
{
}

/// Each acknowledgement of something new counts as one round of a server that
/// catches up; an old or repeated one counts for nothing.
pub proof fn law_rounds_count_progress(p: CatchUpProgress, m: usize)
    requires
        p.rounds_caught_up < usize::MAX,
    ensures
        m > p.match_index ==> p.advanced(m).match_index == m && p.advanced(m).rounds_caught_up
            == p.rounds_caught_up + 1,
        m <= p.match_index ==> p.advanced(m) == p,
        p.advanced(m).added_at == p.added_at,
{
}

/// When the servers that are being added are promoted, one entry of the
/// leader's term goes to the end of the log. It leads from the members as they
/// are to a list that holds every member with its address, every added server
/// with its address, and nobody else; the change aims at that very list.
pub proof fn law_promotion_adds(n: NodeView)
    requires
        n.wf(),
        n.room(1),
        n.config is Simple,
        n.config.number() < u64::MAX,
        n.change is AddingServers,
    ensures
        ({
            let m = n.promoted();
            let members = n.config->Simple_members;
            let added = n.change->servers;
            let e = m.log.last();
            &&& m.log.len() == n.log.len() + 1
            &&& m.log.drop_last() == n.log
            &&& e.term == n.current_term
            &&& e.command matches CommandView::Membership(
                MembershipView::BeginJointConsensus { old_members, new_members, version },
            )
            &&& old_members == members
            &&& version == n.config->Simple_version + 1
            &&& forall|k: usize| #[trigger]
                new_members.contains_key(k) <==> members.contains_key(k) || added.contains_key(k)
            &&& forall|k: usize| #[trigger]
                added.contains_key(k) ==> new_members[k] == added[k].0
            &&& forall|k: usize| #[trigger]
                members.contains_key(k) && !added.contains_key(k) ==> new_members[k] == members[k]
            &&& m.change is InJointConsensus
            &&& m.change->joint_config_index == n.last_included_index + n.log.len()
            &&& m.change->target_config == new_members
            &&& m.non_voting == Map::<usize, String>::empty()
            &&& m.catch_up == Map::<usize, CatchUpProgress>::empty()
            &&& m.config == n.config
            &&& m.peers == n.peers
            &&& m.role == n.role
            &&& m.current_term == n.current_term
            &&& m.commit_index == n.commit_index
        }),
{
    assert(n.promoted().log.drop_last() =~= n.log);
}

/// From the request on: servers that a leader took in and promotes join those
/// that are members already, each at the address that the request gave, and
/// nobody else comes in or goes.
pub proof fn law_add_servers(n: NodeView, servers: Map<usize, String>)
    requires
        n.wf(),
        n.room(1),
        n.config is Simple,
        n.config.number() < u64::MAX,
        n.add_error(servers) is None,
    ensures
        ({
            let members = n.config->Simple_members;
            let m = n.with_joining(servers).promoted();
            &&& m.log.len() == n.log.len() + 1
            &&& m.log.last().command matches CommandView::Membership(
                MembershipView::BeginJointConsensus { old_members, new_members, .. },
            )
            &&& old_members == members
            &&& forall|k: usize| #[trigger]
                new_members.contains_key(k) <==> members.contains_key(k) || servers.contains_key(
                    k,
                )
            &&& forall|k: usize| #[trigger]
                servers.contains_key(k) ==> !members.contains_key(k) && new_members[k]
                    == servers[k]
            &&& forall|k: usize| #[trigger]
                members.contains_key(k) ==> new_members[k] == members[k]
        }),
{
    law_who_may_join(n, servers);
}

/// A request to remove servers that leaves the leader in the cluster adds one
/// entry that leads from the members as they are to exactly those of them that
/// the request does not name, each at the address it had.
pub proof fn law_remove_servers(n: NodeView, ids: Seq<usize>)
    requires
        n.wf(),
        n.room(1),
        n.config.number() < u64::MAX,
        n.remove_error(ids) is None,
        !ids.contains(n.id),
    ensures
        n.config is Simple,
        ({
            let members = n.config->Simple_members;
            let m = n.removing(ids);
            &&& m.log.len() == n.log.len() + 1
            &&& m.log.drop_last() == n.log
            &&& m.log.last().term == n.current_term
            &&& m.log.last().command matches CommandView::Membership(
                MembershipView::BeginJointConsensus { old_members, new_members, version },
            )
            &&& old_members == members
            &&& version == n.config->Simple_version + 1
            &&& forall|k: usize| #[trigger]
                new_members.contains_key(k) <==> members.contains_key(k) && !ids.contains(k)
            &&& forall|k: usize| #[trigger]
                new_members.contains_key(k) ==> new_members[k] == members[k]
            &&& m.change is InJointConsensus
            &&& m.change->joint_config_index == n.last_included_index + n.log.len()
            &&& m.change->target_config == new_members
            &&& m.config == n.config
            &&& m.peers == n.peers
            &&& m.role == n.role
        }),
{
    assert(n.removing(ids).log.drop_last() =~= n.log);
    assert forall|k: usize| ids.to_set().contains(k) == #[trigger] ids.contains(k) by {}
}

/// The removal that follows a transfer of leadership is the same: exactly the
/// members that are not named stay.
pub proof fn law_remaining_members(n: NodeView, ids: Seq<usize>)
    requires
        n.wf(),
        n.room(1),
        n.config is Simple,
        n.config.number() < u64::MAX,
    ensures
        ({
            let members = n.config->Simple_members;
            let m = n.joint_begun(n.reduced(ids));
            &&& m.log.last().command matches CommandView::Membership(
                MembershipView::BeginJointConsensus { old_members, new_members, .. },
            )
            &&& old_members == members
            &&& forall|k: usize| #[trigger]
                new_members.contains_key(k) <==> members.contains_key(k) && !ids.contains(k)
            &&& forall|k: usize| #[trigger]
                new_members.contains_key(k) ==> new_members[k] == members[k]
            &&& m.change->target_config == new_members
        }),
{
    assert forall|k: usize| ids.to_set().contains(k) == #[trigger] ids.contains(k) by {}
}

/// A leader that is to be removed first hands leadership to a member that
/// stays, the one with the smallest id; it remembers whom to remove, and
/// neither its log nor its configuration changes.
pub proof fn law_leader_removal_transfers_first(n: NodeView, ids: Seq<usize>)
    requires
        n.wf(),
        n.remove_error(ids) is None,
        ids.contains(n.id),
    ensures
        ({
            let members = n.config->Simple_members;
            let m = n.removing(ids);
            &&& m.change matches ChangeView::TransferringLeadership {
                target_server,
                servers_to_remove,
            }
            &&& servers_to_remove == ids
            &&& target_server != n.id
            &&& members.contains_key(target_server)
            &&& !ids.contains(target_server)
            &&& forall|k: usize| #[trigger]
                members.contains_key(k) && !ids.contains(k) ==> target_server <= k
            &&& m.log == n.log
            &&& m.config == n.config
            &&& m.role == n.role
            &&& m.peers == n.peers
        }),
{
    let t = choose|t: usize| #[trigger]
        crate::raft::membership::is_successor(n.config->Simple_members, n.id, ids, t);
    assert(crate::raft::membership::is_successor(n.config->Simple_members, n.id, ids, t));
    assert(n.successor(ids) == t);
    assert forall|k: usize| #[trigger]
        n.config->Simple_members.contains_key(k) && !ids.contains(k) implies t <= k by {
        assert(k != n.id);
    }
}

/// The smallest of some numbers, of which there is one.
proof fn lemma_smallest(p: spec_fn(usize) -> bool, x: usize) -> (r: usize)
    requires
        p(x),
    ensures
        p(r),
        forall|k: usize| #[trigger] p(k) ==> r <= k,
    decreases x,
{
    if exists|k: usize| #[trigger] p(k) && k < x {
        let k = choose|k: usize| #[trigger] p(k) && k < x;
        lemma_smallest(p, k)
    } else {
        x
    }
}

/// A leader starts to remove servers exactly when it leads, no other change is
/// under way and no joint configuration is in force, somebody is named, fewer
/// are named than belong to the cluster, and, where it is named itself, some
/// other member is not.
pub proof fn law_who_may_be_removed(n: NodeView, ids: Seq<usize>)
    ensures
        n.remove_error(ids) is None <==> {
            &&& n.role == Role::Leader
            &&& n.change is Idle
            &&& n.config is Simple
            &&& 0 < ids.len() < n.config->Simple_members.len()
            &&& ids.contains(n.id) ==> exists|t: usize| #[trigger]
                n.config->Simple_members.contains_key(t) && t != n.id && !ids.contains(t)
        },
{
    let members = n.config->Simple_members;
    if exists|t: usize| #[trigger] members.contains_key(t) && t != n.id && !ids.contains(t) {
        let t = choose|t: usize| #[trigger]
            members.contains_key(t) && t != n.id && !ids.contains(t);
        let p = |k: usize| members.contains_key(k) && !ids.contains(k) && k != n.id;
        let r = lemma_smallest(p, t);
        assert forall|k: usize| #[trigger]
            members.contains_key(k) && !ids.contains(k) && k != n.id implies r <= k by {
            assert(p(k));
        }
        assert(crate::raft::membership::is_successor(members, n.id, ids, r));
    } else if exists|t: usize| #[trigger]
        crate::raft::membership::is_successor(members, n.id, ids, t) {
        let t = choose|t: usize| #[trigger]
            crate::raft::membership::is_successor(members, n.id, ids, t);
        assert(members.contains_key(t) && t != n.id && !ids.contains(t));
    }
}

/// A joint configuration is left once its entry is committed, by one more
/// entry of the leader's term that names the members the change aims at.
pub proof fn law_finalization(n: NodeView)
    requires
        n.wf(),
        n.room(1),
        n.config.number() < u64::MAX,
    ensures
        n.finalizes() <==> n.change is InJointConsensus && n.change->joint_config_index
            <= n.commit_index,
        n.change is InJointConsensus ==> {
            let m = n.finalizing();
            &&& m.log.len() == n.log.len() + 1
            &&& m.log.drop_last() == n.log
            &&& m.log.last().term == n.current_term
            &&& m.log.last().command matches CommandView::Membership(
                MembershipView::FinalizeConfiguration { new_members, version },
            )
            &&& new_members == n.change->target_config
            &&& version == n.config.number() + 1
            &&& m.config == n.config
            &&& m.change == n.change
        },
{
    assert(n.finalizing().log.drop_last() =~= n.log);
}

/// `members` lists the server `k` at `address`.
pub open spec fn lists_at(members: Map<usize, String>, k: usize, address: Seq<char>) -> bool {
    members.contains_key(k) && members[k]@ == address
}

/// `members` lists a server other than `own` at `address`.
pub open spec fn lists_other(members: Map<usize, String>, own: usize, address: Seq<char>) -> bool {
    exists|k: usize| k != own && #[trigger] lists_at(members, k, address)
}

/// The address of every other member is among the addresses, and no other one.
proof fn lemma_addresses(n: NodeView)
    requires
        n.config.everyone().dom().finite(),
    ensures
        n.member_addresses().len() == n.config.everyone().dom().remove(n.id).len(),
        forall|k: usize, a: Seq<char>| #[trigger]
            lists_at(n.config.everyone(), k, a) && k != n.id ==> n.member_addresses().contains(a),
        forall|i: int|
            0 <= i < n.member_addresses().len() ==> lists_other(
                n.config.everyone(),
                n.id,
                #[trigger] n.member_addresses()[i],
            ),
{
    let all = n.config.everyone();
    let ids = all.dom().remove(n.id);
    lemma_ordered(ids);
    let q = sorted_ids(ids);
    q.unique_seq_to_set();
    assert forall|k: usize, a: Seq<char>| #[trigger]
        lists_at(all, k, a) && k != n.id implies n.member_addresses().contains(a) by {
        assert(ids.contains(k));
        assert(q.to_set().contains(k));
        let i = q.index_of(k);
        assert(n.member_addresses()[i] == all[k]@);
    }
    assert forall|i: int| 0 <= i < n.member_addresses().len() implies lists_other(
        all,
        n.id,
        #[trigger] n.member_addresses()[i],
    ) by {
        assert(q.to_set().contains(q[i]));
        assert(ids.contains(q[i]));
        assert(lists_at(all, q[i], n.member_addresses()[i]));
    }
}

/// Every finite set of ids can be listed in ascending order.
pub proof fn lemma_ordered(s: Set<usize>)
    requires
        s.finite(),
    ensures
        ascending(sorted_ids(s)),
        sorted_ids(s).to_set() == s,
        sorted_ids(s).no_duplicates(),
    decreases s.len(),
{
    let q = lemma_listed(s);
    lemma_sorted_ids(q);
}

proof fn lemma_listed(s: Set<usize>) -> (q: Seq<usize>)
    requires
        s.finite(),
    ensures
        ascending(q),
        q.to_set() == s,
    decreases s.len(),
{
    if s.len() == 0 {
        let q = Seq::<usize>::empty();
        assert(q.to_set() =~= s);
        q
    } else {
        let x = s.choose();
        let p = |k: usize| s.contains(k);
        let least = lemma_smallest(p, x);
        assert(s.contains(least));
        let rest = lemma_listed(s.remove(least));
        let q = seq![least] + rest;
        assert forall|i: int, j: int| 0 <= i < j < q.len() implies q[i] < q[j] by {
            assert(rest.to_set().contains(rest[j - 1]));
            assert(s.contains(rest[j - 1]));
            assert(p(rest[j - 1]));
        }
        assert forall|k: usize| q.to_set().contains(k) == s.contains(k) by {
            if s.contains(k) && k != least {
                assert(rest.to_set().contains(k));
                let i = rest.index_of(k);
                assert(q[i + 1] == k);
            }
            if k == least {
                assert(q[0] == k);
            }
            if q.contains(k) && k != least {
                let i = q.index_of(k);
                assert(rest[i - 1] == k);
                assert(rest.to_set().contains(k));
            }
        }
        assert(q.to_set() =~= s);
        q
    }
}

/// A committed entry of a membership change puts exactly its lists in force,
/// and from then on the node talks to every other server of those lists and to
/// nobody else. The last entry of a change ends it.
pub proof fn law_committed_change_takes_hold(
    n: NodeView,
    old_members: Map<usize, String>,
    new_members: Map<usize, String>,
    version: u64,
)
    requires
        old_members.dom().finite(),
        new_members.dom().finite(),
    ensures
        ({
            let m = n.member_applied(
                MembershipView::BeginJointConsensus { old_members, new_members, version },
            );
            &&& m.config == (ConfigView::Joint { old_members, new_members, version })
            &&& forall|k: usize, a: Seq<char>| #[trigger]
                lists_at(new_members, k, a) && k != n.id ==> m.peers.contains(a)
            &&& forall|k: usize, a: Seq<char>| #[trigger]
                lists_at(old_members, k, a) && !new_members.contains_key(k) && k != n.id
                    ==> m.peers.contains(a)
            &&& forall|i: int|
                0 <= i < m.peers.len() ==> lists_other(new_members, n.id, #[trigger] m.peers[i])
                    || lists_other(old_members, n.id, m.peers[i])
            &&& m.change == n.change
            &&& m.log == n.log
            &&& m.role == n.role
        }),
        ({
            let m = n.member_applied(
                MembershipView::FinalizeConfiguration { new_members, version },
            );
            &&& m.config == (ConfigView::Simple { members: new_members, version })
            &&& forall|k: usize, a: Seq<char>| #[trigger]
                lists_at(new_members, k, a) && k != n.id ==> m.peers.contains(a)
            &&& forall|i: int|
                0 <= i < m.peers.len() ==> lists_other(new_members, n.id, #[trigger] m.peers[i])
            &&& m.peers.len() == new_members.dom().remove(n.id).len()
            &&& m.change is Idle
            &&& m.log == n.log
            &&& m.role == n.role
        }),
{
    let j = NodeView { config: ConfigView::Joint { old_members, new_members, version }, ..n };
    let f = NodeView { config: ConfigView::Simple { members: new_members, version }, ..n };
    let all = j.config.everyone();
    assert(all.dom() =~= old_members.dom().union(new_members.dom()));
    lemma_addresses(j);
    lemma_addresses(f);
    let m = n.member_applied(
        MembershipView::BeginJointConsensus { old_members, new_members, version },
    );
    assert(m.peers == j.member_addresses());
    assert forall|k: usize, a: Seq<char>| #[trigger]
        lists_at(new_members, k, a) && k != n.id implies m.peers.contains(a) by {
        assert(lists_at(all, k, a));
    }
    assert forall|k: usize, a: Seq<char>| #[trigger]
        lists_at(old_members, k, a) && !new_members.contains_key(k) && k != n.id implies
        m.peers.contains(a) by {
        assert(lists_at(all, k, a));
    }
    assert forall|i: int| 0 <= i < m.peers.len() implies lists_other(
        new_members,
        n.id,
        #[trigger] m.peers[i],
    ) || lists_other(old_members, n.id, m.peers[i]) by {
        assert(lists_other(all, n.id, j.member_addresses()[i]));
        let k = choose|k: usize| k != n.id && #[trigger] lists_at(all, k, m.peers[i]);
        assert(lists_at(new_members, k, m.peers[i]) || lists_at(old_members, k, m.peers[i]));
    }
}

/// What the leader knows of a peer survives a change of members: a peer that
/// stays keeps its progress, one that is new starts behind the whole log.
pub proof fn law_progress_survives_a_change(n: NodeView, cmd: MembershipView, i: int, j: int)
    requires
        n.wf(),
        cmd is BeginJointConsensus || cmd is FinalizeConfiguration,
        0 <= i < n.member_applied(cmd).peers.len(),
    ensures
        ({
            let m = n.member_applied(cmd);
            &&& m.next_index.len() == m.peers.len()
            &&& m.match_index.len() == m.peers.len()
            &&& (0 <= j < n.peers.len() && n.peers[j] == m.peers[i] && n.peers.no_duplicates())
                ==> m.next_index[i] == n.next_index[j] && m.match_index[i] == n.match_index[j]
            &&& !n.peers.contains(m.peers[i]) ==> m.next_index[i] == n.last_included_index
                + n.log.len() && m.match_index[i] == n.last_included_index
        }),
{
    let m = n.member_applied(cmd);
    if 0 <= j < n.peers.len() && n.peers[j] == m.peers[i] && n.peers.no_duplicates() {
        lemma_first_index(n.peers, m.peers[i], j);
        assert(n.peers.contains(m.peers[i]));
    }
}

/// An acknowledgement decides when more than half of the members gave it;
/// while two lists are in force, more than half of each.
pub proof fn law_what_decides(c: ConfigView, acks: Set<usize>)
    ensures
        c matches ConfigView::Simple { members, .. } ==> (c.decides(acks) <==> 2 * acks.intersect(
            members.dom(),
        ).len() > members.dom().len()),
        c matches ConfigView::Joint { old_members, new_members, .. } ==> (c.decides(acks) <==> 2
            * acks.intersect(old_members.dom()).len() > old_members.dom().len() && 2
            * acks.intersect(new_members.dom()).len() > new_members.dom().len()),
{
}

/// The members of a joint configuration are those of both lists; a server of
/// both is at its new address.
pub proof fn law_everyone(c: ConfigView, k: usize)
    ensures
        match c {
            ConfigView::Simple { members, .. } => c.everyone() == members,
            ConfigView::Joint { old_members, new_members, .. } => {
                &&& c.everyone().contains_key(k) <==> old_members.contains_key(k)
                    || new_members.contains_key(k)
                &&& new_members.contains_key(k) ==> c.everyone()[k] == new_members[k]
                &&& old_members.contains_key(k) && !new_members.contains_key(k)
                    ==> c.everyone()[k] == old_members[k]
            },
        },
{
}

/// Leadership is handed over only to a member that the leader talks to, and it
/// is given up only when that member holds the leader's whole log.
pub proof fn law_transfer_goes_to_a_peer(n: NodeView, target: usize, attempts: u32, i: int)
    requires
        n.wf(),
        n.peers.no_duplicates(),
        0 <= i < n.peers.len(),
        n.config.everyone().contains_key(target),
        n.peers[i] == n.config.everyone()[target]@,
    ensures
        first_index(n.peers, n.config.everyone()[target]@) == i,
        n.lags(i) <==> n.match_index[i] < n.last_included_index + n.log.len() - 1,
        n.transfer_error(target, attempts) is Some <==> n.match_index[i] < n.last_included_index
            + n.log.len() - 1 && attempts >= 50,
        n.abdicated().role == Role::Follower,
        n.abdicated().current_leader is None,
        n.abdicated().current_term == n.current_term,
        n.abdicated().log == n.log,
        n.abdicated().config == n.config,
{
    lemma_first_index(n.peers, n.peers[i], i);
    assert(n.peers.contains(n.peers[i]));
}

/// Leadership is never handed to a server that is no member, or that the
/// leader does not talk to.
pub proof fn law_transfer_refused(n: NodeView, target: usize, attempts: u32)
    requires
        !n.config.everyone().contains_key(target) || !n.peers.contains(
            n.config.everyone()[target]@,
        ),
    ensures
        n.transfer_error(target, attempts) is Some,
{
}

/// A single server that is added is talked to from then on, behind the others
/// and once; one that is removed by its place is talked to no longer. What is
/// known of every other peer stays with it.
pub proof fn law_single_servers(n: NodeView, id: usize, address: String, i: int)
    requires
        n.wf(),
        n.next_index.len() == n.peers.len(),
        0 <= i < n.peers.len(),
    ensures
        ({
            let m = n.member_applied(
                MembershipView::AddServer { server_id: id, server_address: address },
            );
            &&& m.peers.contains(address@)
            &&& n.peers.contains(address@) ==> m == n
            &&& !n.peers.contains(address@) ==> m.peers.len() == n.peers.len() + 1
                && m.next_index.last() == n.last_included_index + n.log.len()
                && m.match_index.last() == n.last_included_index
            &&& m.peers[i] == n.peers[i]
            &&& m.next_index[i] == n.next_index[i]
            &&& m.match_index[i] == n.match_index[i]
            &&& m.config == n.config
        }),
        ({
            let m = n.member_applied(MembershipView::RemoveServer { server_id: id });
            &&& id >= n.peers.len() ==> m == n
            &&& id < n.peers.len() ==> m.peers.len() == n.peers.len() - 1
            &&& id < n.peers.len() && i < id ==> m.peers[i] == n.peers[i] && m.next_index[i]
                == n.next_index[i] && m.match_index[i] == n.match_index[i]
            &&& id < n.peers.len() && i > id ==> m.peers[i - 1] == n.peers[i] && m.next_index[i - 1]
                == n.next_index[i] && m.match_index[i - 1] == n.match_index[i]
        }),
{
    let m = n.member_applied(MembershipView::AddServer { server_id: id, server_address: address });
    if !n.peers.contains(address@) {
        assert(m.peers[n.peers.len() as int] == address@);
    }
}

} // verus!
