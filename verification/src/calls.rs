//! What the functions of the library do when they are called: laws on the state
//! before a call, the state after it and what it returns.

use crate::master::admin::{LoadCounter, PrefixCount};
use crate::master::heal::{
    heal_under_replicated_blocks, repair_files, repair_orders, with_orders, Cluster,
};
use crate::master::repairs::{
    law_orders_wait_in_line, law_rebuild_names_its_sources, law_repair_covers_all_files, orders_for,
    waiting,
};
use crate::master::service::HeartbeatRequest;
use crate::master::state::{total_blocks, MasterState};
use crate::master::types::{BlockView, ChunkServerCommand, CommandType, FileView, OrderView};
use crate::raft::changes::{
    law_joining_servers_do_not_vote, law_promotion_adds, law_remove_servers,
    law_transfer_goes_to_a_peer, law_who_may_join, lists_at,
};
use crate::raft::command::{Command, CommandView, ConfigCommand, ConfigCommandView, MembershipView};
use crate::raft::config::Role;
use crate::raft::drive::{Event, EventReply};
use crate::raft::membership::{RemoveStep, TransferStep};
use crate::raft::node::{Action, ActionView, RaftNode, RequestVoteArgs, RequestVoteReply};
use crate::ranges::{law_merge, Ranges};
use crate::s3::audit::{AuditBuffer, AuditRecord};
use crate::s3::sts::{handle_sts, RoleRequest, StsFailure, StsQueryParams, StsSettings};
use crate::shards::{AppState, ConfigStateInner, ShardMapChange};
use std::collections::HashMap;
use vstd::prelude::*;

verus! {

/// Promoting the servers that are being added writes one entry whose new list
/// holds every member with its address, every added server with its address,
/// and nobody else.
pub proof fn law_promoting(n: &mut RaftNode, out: &mut Vec<Action>, r: Result<(), String>)
    requires
        old(n)@.wf(),
        old(n)@.room(1),
        old(n)@.config.number() < u64::MAX,
        old(n)@.change is AddingServers,
        old(n)@.config is Simple,
        call_ensures(RaftNode::promote_non_voting_members, (n, out), r),
    ensures
        r is Ok,
        ({
            let members = old(n)@.config->Simple_members;
            let added = old(n)@.change->servers;
            &&& final(n)@.log.last().command matches CommandView::Membership(
                MembershipView::BeginJointConsensus { old_members, new_members, .. },
            )
            &&& old_members == members
            &&& forall|k: usize| #[trigger]
                new_members.contains_key(k) <==> members.contains_key(k) || added.contains_key(k)
            &&& forall|k: usize| #[trigger]
                added.contains_key(k) ==> new_members[k] == added[k].0
            &&& forall|k: usize| #[trigger]
                members.contains_key(k) && !added.contains_key(k) ==> new_members[k] == members[k]
            &&& final(n)@.change->target_config == new_members
            &&& final(n)@.config == old(n)@.config
        }),
{
    law_promotion_adds(old(n)@);
}

/// Removing servers writes one entry whose new list holds exactly the members
/// that are not named, at their addresses, unless the leader itself is named:
/// then another member that is not named is to lead first, and nothing is
/// written.
pub proof fn law_removing(
    n: &mut RaftNode,
    ids: Vec<usize>,
    out: &mut Vec<Action>,
    r: Result<RemoveStep, String>,
)
    requires
        old(n)@.wf(),
        old(n)@.room(1),
        old(n)@.config.number() < u64::MAX,
        call_ensures(RaftNode::handle_remove_servers_request, (n, ids, out), r),
    ensures
        r is Err ==> final(n)@ == old(n)@,
        r == Ok::<RemoveStep, String>(RemoveStep::Joint) ==> {
            let members = old(n)@.config->Simple_members;
            &&& old(n)@.config is Simple
            &&& final(n)@.log.last().command matches CommandView::Membership(
                MembershipView::BeginJointConsensus { old_members, new_members, .. },
            )
            &&& old_members == members
            &&& forall|k: usize| #[trigger]
                new_members.contains_key(k) <==> members.contains_key(k) && !ids@.contains(k)
            &&& forall|k: usize| #[trigger]
                new_members.contains_key(k) ==> new_members[k] == members[k]
            &&& final(n)@.change->target_config == new_members
        },
        r matches Ok(RemoveStep::Transfer { target }) ==> {
            &&& ids@.contains(old(n)@.id)
            &&& !ids@.contains(target)
            &&& target != old(n)@.id
            &&& old(n)@.config->Simple_members.contains_key(target)
            &&& final(n)@.log == old(n)@.log
        },
{
    if r == Ok::<RemoveStep, String>(RemoveStep::Joint) {
        law_remove_servers(old(n)@, ids@);
    }
    if let Ok(RemoveStep::Transfer { target }) = r {
        crate::raft::changes::law_leader_removal_transfers_first(old(n)@, ids@);
    }
}

/// The order rebuilds a lost shard of the block from live holders: source `j` is
/// location `j` where that server is known and empty where it is not, and the
/// source of the shard itself is empty.
pub open spec fn rebuilds_from_holders(
    b: BlockView,
    o: OrderView,
    known: Set<Seq<char>>,
) -> bool {
    &&& o.block_id == b.block_id
    &&& o.ec_shard_sources.len() == b.locations.len()
    &&& 0 <= o.shard_index < b.locations.len()
    &&& o.ec_shard_sources[o.shard_index as int].len() == 0
    &&& forall|j: int|
        0 <= j < b.locations.len() && known.contains(b.locations[j]) ==> (
        #[trigger] o.ec_shard_sources[j]) == b.locations[j]
    &&& forall|j: int|
        0 <= j < b.locations.len() && !known.contains(b.locations[j]) ==> (
        #[trigger] o.ec_shard_sources[j]).len() == 0
}

/// One of the blocks of the files is rebuilt so by the order.
pub open spec fn rebuilds_some_block(
    files: Map<Seq<char>, FileView>,
    o: OrderView,
    known: Set<Seq<char>>,
) -> bool {
    exists|p: Seq<char>, k: int|
        0 <= k < files[p].blocks.len() && rebuilds_from_holders(
            #[trigger] files[p].blocks[k],
            o,
            known,
        )
}

/// Healing changes nothing but what waits. What waited still does, and every
/// order to rebuild a shard that comes to wait names the live holders of its
/// block's shards as sources, and nothing for the others.
pub proof fn law_healing(s: &mut MasterState, addr: Seq<char>, o: OrderView)
    requires
        call_ensures(heal_under_replicated_blocks, (s,), ()),
        o.command_type == CommandType::ReconstructEcShard,
        waiting(final(s)@.pending, addr).contains(o),
        !waiting(old(s)@.pending, addr).contains(o),
    ensures
        final(s)@.files == old(s)@.files,
        final(s)@.servers == old(s)@.servers,
        waiting(old(s)@.pending, addr).is_prefix_of(waiting(final(s)@.pending, addr)),
        rebuilds_some_block(old(s)@.files, o, old(s)@.servers.dom()),
{
    let cl = old(s).cluster();
    let files = old(s)@.files;
    let paths = old(s).files.key_seq();
    let orders = repair_files(cl, files, paths);
    law_orders_wait_in_line(old(s)@.pending, orders, addr, o);
    law_repair_covers_all_files(cl, files, paths, (addr, o));
    let (p, k) = choose|p: int, k: int|
        0 <= p < paths.len() && 0 <= k < files[paths[p]].blocks.len() && #[trigger]
        orders_for(cl, files, paths[p], k).contains((addr, o));
    let b = files[paths[p]].blocks[k];
    let all = repair_orders(cl, b);
    let i = all.index_of((addr, o));
    assert(all[i] == (addr, o));
    if b.ec_data_shards > 0 {
        law_rebuild_names_its_sources(cl, b, i);
        let known = old(s)@.servers.dom();
        assert forall|a: Seq<char>| cl.live.contains(a) == #[trigger] known.contains(a) by {}
        assert(rebuilds_from_holders(b, o, known));
    } else {
        crate::master::repairs::law_copies_make_three(cl, b);
    }
}

/// After a merge command the victim is no longer in the map of ranges, the other
/// shard is, and owns every path that either of them owned.
pub proof fn law_merging(
    c: &mut ConfigStateInner,
    cmd: ConfigCommand,
    known: Option<Vec<String>>,
    now: u64,
    r: Option<ShardMapChange>,
    before: Ranges,
    after: Ranges,
    victim: Seq<char>,
    retained: Seq<char>,
)
    requires
        call_ensures(ConfigStateInner::apply_command, (c, &cmd, known, now), r),
        cmd@ == (ConfigCommandView::MergeShard {
            victim_shard_id: victim,
            retained_shard_id: retained,
        }),
        before.wf(),
        victim != retained,
        before.peers.contains_key(retained),
        before.changed(r.deep_view(), after),
    ensures
        !after.peers.contains_key(victim),
        after.peers.contains_key(retained),
        forall|path: Seq<char>| !after.owns(victim, path),
        forall|path: Seq<char>|
            after.owns(retained, path) <==> before.owns(retained, path) || before.owns(
                victim,
                path,
            ),
        final(c).masters@ == old(c).masters@,
{
    law_merge(before, victim, retained, known.deep_view(), after);
}

/// A chunk server that reports is handed all that waited for it, and nothing
/// waits for it afterwards; for another server at least what waited still does.
pub proof fn law_reporting(
    s: &mut MasterState,
    req: HeartbeatRequest,
    now: u64,
    r: Vec<ChunkServerCommand>,
    o: OrderView,
    other: Seq<char>,
)
    requires
        call_ensures(MasterState::heartbeat, (s, req, now), r),
    ensures
        waiting(old(s)@.pending, req@.addr).is_prefix_of(r.deep_view()),
        !final(s)@.pending.contains_key(req@.addr),
        other != req@.addr ==> waiting(old(s)@.pending, other).is_prefix_of(
            waiting(final(s)@.pending, other),
        ),
        req@.bad_blocks.len() == 0 ==> r.deep_view() == waiting(old(s)@.pending, req@.addr),
        final(s)@.files == old(s)@.files,
        final(s)@.servers.contains_key(req@.addr),
        final(s)@.servers[req@.addr].last_heartbeat == now,
        final(s)@.servers[req@.addr].available_space == req.available_space,
        final(s)@.servers[req@.addr].used_space == req.used_space,
{
    let addr = req@.addr;
    let m = *old(s);
    let t = m.reported(req@, now);
    let p = old(s)@.pending;
    if req@.bad_blocks.len() > 0 {
        let live = if m@.servers.contains_key(addr) {
            m.chunk_servers.key_seq()
        } else {
            m.chunk_servers.key_seq().push(addr)
        };
        let orders = repair_files(Cluster { live, bad: t.bad }, m@.files, m.files.key_seq());
        assert(t.pending == with_orders(p, orders));
        law_orders_wait_in_line(p, orders, addr, o);
        law_orders_wait_in_line(p, orders, other, o);
    } else {
        assert(t.pending == p);
        assert(waiting(p, addr) =~= waiting(p, addr).take(waiting(p, addr).len() as int));
        assert(waiting(p, other) =~= waiting(p, other).take(waiting(p, other).len() as int));
    }
    assert(r.deep_view() =~= waiting(t.pending, addr));
    if other != addr {
        assert(waiting(final(s)@.pending, other) == waiting(t.pending, other));
    }
}

/// No record is lost in the buffer: what goes in waits behind what waited, or is
/// handed out with it once a batch is full.
pub proof fn law_buffering(
    b: &mut AuditBuffer,
    record: AuditRecord,
    r: Option<Vec<AuditRecord>>,
)
    requires
        call_ensures(AuditBuffer::receive, (b, record), r),
    ensures
        r is Some <==> old(b).records@.len() + 1 >= old(b).batch_size,
        r matches Some(x) ==> x@ == old(b).records@.push(record) && final(b).records@.len() == 0,
        r is None ==> final(b).records@ == old(b).records@.push(record),
{
}

/// What waits in the buffer is handed out when the time has come.
pub proof fn law_buffer_is_emptied(b: &mut AuditBuffer, r: Option<Vec<AuditRecord>>)
    requires
        call_ensures(AuditBuffer::tick, (b,), r),
    ensures
        final(b).records@.len() == 0,
        r matches Some(x) ==> x@ == old(b).records@,
        r is None <==> old(b).records@.len() == 0,
{
}

/// What waits in the buffer is handed out when the log closes, together with what
/// was still on its way.
pub proof fn law_buffer_is_closed(
    b: &mut AuditBuffer,
    rest: Vec<AuditRecord>,
    r: Option<Vec<AuditRecord>>,
)
    requires
        call_ensures(AuditBuffer::close, (b, rest), r),
    ensures
        final(b).records@.len() == 0,
        r matches Some(x) ==> x@ == old(b).records@ + rest@,
        r is None <==> old(b).records@.len() + rest@.len() == 0,
{
}

/// The load of a prefix is handed out once: what was counted, and nothing the
/// next time.
pub proof fn law_load_is_taken_once(c: &mut LoadCounter, prefix: &str, r: PrefixCount)
    requires
        call_ensures(LoadCounter::take, (c, prefix), r),
    ensures
        old(c).counts@.contains_key(prefix@) ==> r == old(c).counts@[prefix@]
            && final(c).counts@[prefix@].last_count == 0 && final(c).counts@[prefix@].last_bytes
            == 0,
        !old(c).counts@.contains_key(prefix@) ==> r.last_count == 0 && r.last_bytes == 0,
        forall|p: Seq<char>|
            p != prefix@ ==> #[trigger] final(c).counts@.contains_key(p)
                == old(c).counts@.contains_key(p) && (old(c).counts@.contains_key(p)
                ==> final(c).counts@[p] == old(c).counts@[p]),
{
}

/// Safe mode that is switched on stays on by hand and ends by hand; no file
/// changes.
pub proof fn law_switching_safe_mode(s: &mut MasterState, enter: bool, on: bool, now: u64)
    requires
        total_blocks(old(s)@.files) <= usize::MAX,
        call_ensures(MasterState::set_safe_mode, (s, enter), on),
    ensures
        on == enter,
        final(s)@.safe_mode == enter,
        final(s)@.manual == enter,
        final(s)@.files == old(s)@.files,
        final(s)@.servers == old(s)@.servers,
        !final(s)@.may_leave(now),
{
}

/// A command that a node is asked to take is logged by a leader, in its term and
/// at the end of its log; any other node changes nothing and names the leader
/// that it knows.
pub proof fn law_client_requests(
    n: &mut RaftNode,
    command: Command,
    out: &mut Vec<Action>,
    r: EventReply,
)
    requires
        old(n)@.wf(),
        old(n)@.room(1),
        call_ensures(RaftNode::handle_event, (n, (Event::ClientRequest { command }), out), r),
    ensures
        r is Accepted <==> old(n)@.role == Role::Leader,
        r is Accepted ==> {
            &&& final(n)@.log.len() == old(n)@.log.len() + 1
            &&& final(n)@.log.last().command == command@
            &&& final(n)@.log.last().term == old(n)@.current_term
        },
        old(n)@.role != Role::Leader ==> {
            &&& final(n)@ == old(n)@
            &&& final(out).deep_view() == old(out).deep_view()
            &&& r matches EventReply::NotLeader { leader_address }
            &&& leader_address.deep_view() == old(n)@.current_leader_address
        },
{
    if old(n)@.role == Role::Leader {
        crate::raft::progress::law_proposals_are_logged(old(n)@, command@);
    }
}

/// A node that gives its vote says so, and has noted it before; one that does not
/// has not.
pub proof fn law_voting(
    n: &mut RaftNode,
    a: RequestVoteArgs,
    out: &mut Vec<Action>,
    r: RequestVoteReply,
)
    requires
        old(n)@.wf(),
        call_ensures(RaftNode::handle_request_vote, (n, a, out), r),
    ensures
        r.vote_granted ==> final(n)@.voted_for == Some(a.candidate_id) && final(n)@.current_term
            == a.term,
        r.term == final(n)@.current_term,
        r.peer_id == old(n)@.id,
        final(n)@.log == old(n)@.log,
        old(n)@.voted_for matches Some(v) ==> v != a.candidate_id && a.term <= old(
            n,
        )@.current_term ==> !r.vote_granted,
{
}

/// A request for a role that goes on carries the token and the role that were
/// given.
pub proof fn law_asking_for_a_role(
    settings: StsSettings,
    params: StsQueryParams,
    r: Result<RoleRequest, StsFailure>,
)
    requires
        call_ensures(handle_sts, (settings, &params), r),
    ensures
        r matches Ok(q) ==> params@.web_identity_token == Some(q.token@) && params@.role_arn == Some(
            q.role_arn@,
        ) && settings.oidc_enabled && settings.sts_enabled && settings.iam_enabled && params@.action
            == Some("AssumeRoleWithWebIdentity"@),
{
}

/// A command of the configuration service does not touch the state of a shard,
/// nor the other way round; a change of members and an empty command touch
/// neither.
pub proof fn law_commands_go_to_their_state(
    s: &mut AppState,
    command: Command,
    known: Option<Vec<String>>,
    now: u64,
    r: Option<ShardMapChange>,
)
    requires
        call_ensures(AppState::apply_command, (s, &command, known, now), r),
    ensures
        *old(s) is Master && !(command@ is Master) ==> *final(s) == *old(s) && r is None,
        *old(s) is Config && !(command@ is Config) ==> *final(s) == *old(s) && r is None,
        command@ is Membership || command@ is NoOp ==> *final(s) == *old(s) && r is None,
        *old(s) is Master <==> *final(s) is Master,
{
}

/// Leadership is given up only to a member that the leader talks to and that is
/// known to hold the whole log: it is told to stand for election, at its address
/// and in the leader's term. As long as it lacks entries nothing changes.
pub proof fn law_handing_over(
    n: &mut RaftNode,
    target: usize,
    attempts: u32,
    out: &mut Vec<Action>,
    r: Result<TransferStep, String>,
    i: int,
)
    requires
        old(n)@.wf(),
        old(n)@.followed(),
        old(n)@.role == Role::Leader,
        old(n)@.peers.no_duplicates(),
        0 <= i < old(n)@.peers.len(),
        lists_at(old(n)@.config.everyone(), target, old(n)@.peers[i]),
        call_ensures(RaftNode::initiate_leader_transfer, (n, target, attempts, out), r),
    ensures
        r == Ok::<TransferStep, String>(TransferStep::Done) ==> {
            &&& old(n)@.match_index[i] >= old(n)@.last_included_index + old(n)@.log.len() - 1
            &&& final(n)@.role == Role::Follower
            &&& final(n)@.current_leader is None
            &&& final(n)@.log == old(n)@.log
            &&& final(n)@.current_term == old(n)@.current_term
            &&& final(out).deep_view().last() matches ActionView::SendTimeoutNow { peer, args }
            &&& peer == old(n)@.peers[i]
            &&& args.term == old(n)@.current_term
            &&& args.sender_id == old(n)@.id
        },
        r == Ok::<TransferStep, String>(TransferStep::Wait) ==> {
            &&& old(n)@.match_index[i] < old(n)@.last_included_index + old(n)@.log.len() - 1
            &&& final(n)@ == old(n)@
            &&& attempts < 50
        },
        r is Err ==> final(n)@ == old(n)@ && attempts >= 50 && old(n)@.match_index[i] < old(
            n,
        )@.last_included_index + old(n)@.log.len() - 1,
{
    law_transfer_goes_to_a_peer(old(n)@, target, attempts, i);
}

/// Servers that are to be added are taken in by a leader in no other change,
/// where none of them is a member: they are noted with their addresses and get
/// no vote. Otherwise nothing changes.
pub proof fn law_taking_in(
    n: &mut RaftNode,
    servers: HashMap<usize, String>,
    r: Result<(), String>,
    k: usize,
)
    requires
        old(n)@.wf(),
        call_ensures(RaftNode::handle_add_servers_request, (n, servers), r),
    ensures
        r is Err ==> final(n)@ == old(n)@,
        r is Ok ==> {
            &&& old(n)@.role == Role::Leader
            &&& old(n)@.change is Idle
            &&& final(n)@.config == old(n)@.config
            &&& final(n)@.log == old(n)@.log
            &&& final(n)@.change is AddingServers
            &&& final(n)@.change->servers.contains_key(k) <==> servers@.contains_key(k)
            &&& servers@.contains_key(k) ==> final(n)@.change->servers[k].0 == servers@[k]
                && !old(n)@.config.everyone().contains_key(k)
        },
{
    if r is Ok {
        law_joining_servers_do_not_vote(old(n)@, servers@);
        law_who_may_join(old(n)@, servers@);
    }
}

} // verus!
