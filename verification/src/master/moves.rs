//! What a rename does, from the request to the last command: within a shard
//! and from one shard to another.

use crate::master::rename::{
    commit_next, url_of, verdict_of, CrossView, PeerReply, RenameEventView, RenamePhase, RenamePlan,
    RenamePlanView, RenameStepView,
};
use crate::master::service::{Outcome, OutcomeView, Plan, PlanView, Route, RouteView, Status};
use crate::master::state::{MasterState, StateView};
use crate::master::transaction::{TxOpTypeView, TxState, TxTypeView};
use crate::master::types::FileView;
use crate::raft::command::{CommandView, MasterCommandView};
use vstd::prelude::*;

verus! {

/// Two files that differ in nothing but perhaps their paths.
pub open spec fn same_but_path(a: FileView, b: FileView) -> bool {
    &&& a.size == b.size
    &&& a.blocks == b.blocks
    &&& a.etag_md5 == b.etag_md5
    &&& a.created_at_ms == b.created_at_ms
    &&& a.ec_data_shards == b.ec_data_shards
    &&& a.ec_parity_shards == b.ec_parity_shards
    &&& a.last_access_ms == b.last_access_ms
    &&& a.access_count == b.access_count
    &&& a.moved_to_cold_at_ms == b.moved_to_cold_at_ms
}

/// `after` holds `before` but for what happened at `path`.
pub open spec fn alike_except(
    before: Map<Seq<char>, FileView>,
    after: Map<Seq<char>, FileView>,
    path: Seq<char>,
) -> bool {
    forall|p: Seq<char>|
        p != path ==> {
            &&& #[trigger] after.contains_key(p) == before.contains_key(p)
            &&& before.contains_key(p) ==> after[p] == before[p]
        }
}

/// How a rename begins, in full. It fails where another shard is responsible
/// for the source or safe mode is on; it is refused where there is no source
/// file; it is one command where the destination has no shard or belongs to
/// this one; and else it is a transaction between this shard and the other.
pub proof fn law_rename_begins(
    s: StateView,
    own: Seq<char>,
    source: RouteView,
    dest: RouteView,
    source_path: Seq<char>,
    dest_path: Seq<char>,
    tx_id: Seq<char>,
    now: u64,
)
    ensures
        ({
            let plan = s.rename_plan(own, source, dest, source_path, dest_path, tx_id, now);
            let elsewhere = source.shard is Some && source.shard->Some_0 != own;
            let apart = dest.shard is Some && dest.shard->Some_0 != own;
            if elsewhere || s.safe_mode {
                plan is Err
            } else if !s.files.contains_key(source_path) {
                plan matches Ok(RenamePlanView::Reply(a)) && !a.success
            } else if !apart {
                plan matches Ok(RenamePlanView::Local(c)) && c == CommandView::Master(
                    MasterCommandView::RenameFile { source_path, dest_path },
                )
            } else {
                plan matches Ok(RenamePlanView::Cross { .. })
            }
        }),
{
}

/// A rename that begins as a transaction between shards carries the metadata
/// of the source file, all of it but the path, and the path that was asked
/// for. Its record says the same: this shard deletes the source, the other
/// shard creates the destination with that very metadata.
pub proof fn law_cross_rename_carries_the_file(
    s: StateView,
    own: Seq<char>,
    source: RouteView,
    dest: RouteView,
    source_path: Seq<char>,
    dest_path: Seq<char>,
    tx_id: Seq<char>,
    now: u64,
    r: CrossView,
    c: CommandView,
)
    requires
        s.rename_plan(own, source, dest, source_path, dest_path, tx_id, now) == Ok::<
            RenamePlanView,
            crate::master::service::Failure,
        >(RenamePlanView::Cross { rename: r, command: c }),
    ensures
        s.files.contains_key(source_path),
        same_but_path(r.dest_metadata, s.files[source_path]),
        r.dest_metadata.path == dest_path,
        r.source_path == source_path,
        r.dest_path == dest_path,
        r.tx_id == tx_id,
        r.source_shard == own,
        dest.shard == Some(r.dest_shard),
        r.dest_shard != own,
        dest.peers is Some ==> r.dest_peers == dest.peers->Some_0,
        dest.peers is None ==> r.dest_peers.len() == 0,
        ({
            &&& c matches CommandView::Master(m)
            &&& m matches MasterCommandView::CreateTransactionRecord { record }
            &&& record.tx_id == tx_id
            &&& record.tx_type == (TxTypeView::Rename { source_path, dest_path })
            &&& record.state == TxState::Pending
            &&& record.timestamp == now
            &&& record.participants.len() == 2
            &&& record.participants[0] == own
            &&& record.participants[1] == r.dest_shard
            &&& record.operations.len() == 2
            &&& record.operations[0].shard_id == own
            &&& record.operations[0].op_type == (TxOpTypeView::Delete { path: source_path })
            &&& record.operations[1].shard_id == r.dest_shard
            &&& record.operations[1].op_type matches TxOpTypeView::Create { path, metadata }
            &&& path == dest_path
            &&& metadata == r.dest_metadata
            &&& metadata.path == dest_path
            &&& same_but_path(metadata, s.files[source_path])
        }),
{
}

/// The proposal of a step, if the step is one.
pub open spec fn proposal(step: RenameStepView) -> MasterCommandView {
    step->Propose_0
}

/// A rename between shards, from the request to its end on the side of the
/// source. Once recorded it asks the other shard to prepare. Where that shard
/// is prepared, the source file goes and no other file changes, the other
/// shard is told to commit, and the request is answered with success. Where it
/// is not, all files stay and the request is refused.
pub proof fn law_rename_at_the_source(
    s: StateView,
    own: Seq<char>,
    source: RouteView,
    dest: RouteView,
    source_path: Seq<char>,
    dest_path: Seq<char>,
    tx_id: Seq<char>,
    now: u64,
    r: CrossView,
    c: MasterCommandView,
    o: OutcomeView,
)
    requires
        s.rename_plan(own, source, dest, source_path, dest_path, tx_id, now) == Ok::<
            RenamePlanView,
            crate::master::service::Failure,
        >(RenamePlanView::Cross { rename: r, command: CommandView::Master(c) }),
    ensures
        ({
            let (p1, t1) = r.next(
                RenamePhase::Recording,
                RenameEventView::Proposal(OutcomeView::Done),
            );
            let (p2, t2) = r.next(p1, RenameEventView::Prepared { ok: true });
            let (p3, t3) = r.next(p2, RenameEventView::Proposal(o));
            let (p4, t4) = r.next(p3, RenameEventView::Proposal(o));
            let (p5, t5) = r.next(p4, RenameEventView::Proposal(o));
            let (p6, t6) = r.next(p5, RenameEventView::Notified);
            let s1 = s.after(c);
            let s2 = s1.after(proposal(t2));
            let s3 = s2.after(proposal(t3));
            let s4 = s3.after(proposal(t4));
            &&& t1 is Prepare
            &&& t2 is Propose && t3 is Propose && t4 is Propose
            &&& t5 is Commit
            &&& t6 matches RenameStepView::Reply(Ok(a)) && a.success
            &&& p6 == RenamePhase::Finished
            &&& s1.files == s.files
            &&& s2.files == s.files
            &&& !s3.files.contains_key(source_path)
            &&& alike_except(s.files, s3.files, source_path)
            &&& s4.files == s3.files
            &&& s1.txs[tx_id].state == TxState::Pending
            &&& s2.txs[tx_id].state == TxState::Prepared
            &&& s4.txs[tx_id].state == TxState::Committed
        }),
        ({
            let (p1, t1) = r.next(
                RenamePhase::Recording,
                RenameEventView::Proposal(OutcomeView::Done),
            );
            let (p2, t2) = r.next(p1, RenameEventView::Prepared { ok: false });
            let (p3, t3) = r.next(p2, RenameEventView::Proposal(o));
            let s1 = s.after(c);
            let s2 = s1.after(proposal(t2));
            &&& t2 is Propose
            &&& s2.files == s.files
            &&& s2.txs[tx_id].state == TxState::Aborted
            &&& t3 matches RenameStepView::Reply(Ok(a)) && !a.success
            &&& p3 == RenamePhase::Finished
        }),
        !(o is Done) ==> {
            let (p1, t1) = r.next(RenamePhase::Recording, RenameEventView::Proposal(o));
            &&& p1 == RenamePhase::Finished
            &&& t1 matches RenameStepView::Reply(a)
            &&& a is Ok ==> !a->Ok_0.success
        },
{
}

/// A rename between shards, on the side of the destination: the shard that is
/// named in the transaction refuses it where the destination exists already.
/// Otherwise it records first, changing no file, and the commit then puts the
/// source file under its new path, the same in all but the path, and touches
/// no other file.
pub proof fn law_rename_at_the_destination(
    s: StateView,
    own: Seq<char>,
    source: RouteView,
    dest: RouteView,
    source_path: Seq<char>,
    dest_path: Seq<char>,
    tx_id: Seq<char>,
    now: u64,
    r: CrossView,
    c: CommandView,
    d: StateView,
    there: RouteView,
    later: u64,
)
    requires
        s.rename_plan(own, source, dest, source_path, dest_path, tx_id, now) == Ok::<
            RenamePlanView,
            crate::master::service::Failure,
        >(RenamePlanView::Cross { rename: r, command: c }),
        there.shard is Some ==> there.shard->Some_0 == r.dest_shard,
    ensures
        ({
            let plan = d.prepare_plan(
                r.dest_shard,
                there,
                r.tx_id,
                r.dest_path,
                Some(r.dest_metadata),
                r.source_shard,
                later,
            );
            if d.files.contains_key(dest_path) {
                plan matches Ok(PlanView::Reply(a)) && !a.success
            } else {
                &&& plan matches Ok(PlanView::Propose(CommandView::Master(m)))
                &&& {
                    let d1 = d.after(m);
                    &&& d1.files == d.files
                    &&& d1.txs.contains_key(tx_id)
                    &&& d1.txs[tx_id].state == TxState::Prepared
                    &&& d1.txs[tx_id].timestamp == later
                    &&& d1.txs[tx_id].participants == seq![own, r.dest_shard]
                    &&& d1.commit_plan(tx_id) matches PlanView::Propose(CommandView::Master(k))
                    &&& {
                        let d2 = d1.after(k);
                        &&& d2.files.contains_key(dest_path)
                        &&& same_but_path(d2.files[dest_path], s.files[source_path])
                        &&& d2.files[dest_path].path == dest_path
                        &&& alike_except(d.files, d2.files, dest_path)
                    }
                }
            }
        }),
{
}

/// A rename within a shard, from the request to its command: the file is under
/// its new path, the same in all but the path, the old path is free where it is
/// another one, and no other file changes.
pub proof fn law_rename_within_a_shard(
    s: StateView,
    own: Seq<char>,
    source: RouteView,
    dest: RouteView,
    source_path: Seq<char>,
    dest_path: Seq<char>,
    tx_id: Seq<char>,
    now: u64,
    c: MasterCommandView,
    p: Seq<char>,
)
    requires
        s.rename_plan(own, source, dest, source_path, dest_path, tx_id, now) == Ok::<
            RenamePlanView,
            crate::master::service::Failure,
        >(RenamePlanView::Local(CommandView::Master(c))),
    ensures
        ({
            let f = s.after(c).files;
            &&& f.contains_key(dest_path)
            &&& same_but_path(f[dest_path], s.files[source_path])
            &&& f[dest_path].path == dest_path
            &&& source_path != dest_path ==> !f.contains_key(source_path)
            &&& p != source_path && p != dest_path ==> f.contains_key(p) == s.files.contains_key(p)
                && (s.files.contains_key(p) ==> f[p] == s.files[p])
        }),
{
}

/// A shard to which the destination of a rename does not belong does not
/// prepare it, and no shard commits a transaction that it does not know.
pub proof fn law_strange_transactions_are_refused(
    d: StateView,
    own: Seq<char>,
    there: RouteView,
    tx_id: Seq<char>,
    path: Seq<char>,
    metadata: Option<FileView>,
    coordinator: Seq<char>,
    now: u64,
)
    ensures
        there.shard is Some && there.shard->Some_0 != own ==> d.prepare_plan(
            own,
            there,
            tx_id,
            path,
            metadata,
            coordinator,
            now,
        ) is Err,
        !d.txs.contains_key(tx_id) ==> (d.commit_plan(tx_id) matches PlanView::Reply(a)
            && !a.success),
        d.txs.contains_key(tx_id) && d.txs[tx_id].operations.len() > 0 ==> (d.commit_plan(
            tx_id,
        ) matches PlanView::Propose(CommandView::Master(m)) && m
            matches MasterCommandView::ApplyTransactionOperation { tx_id: t, operation } && t
            == tx_id && operation == d.txs[tx_id].operations[0]),
{
}

/// The word of a server of the destination settles a preparation where it says
/// yes, or says no without naming a leader; where it names one, or could not be
/// reached, another server is asked.
pub proof fn law_whose_word_counts(r: PeerReply)
    ensures
        verdict_of(r) == Some(true) <==> (r matches PeerReply::Answered(a) && a.success),
        verdict_of(r) == Some(false) <==> (r matches PeerReply::Answered(a) && !a.success
            && a.leader_hint@.len() == 0),
{
}

/// An address is called with a scheme: its own, or `http`.
pub proof fn law_addresses_have_a_scheme(addr: Seq<char>, known: Seq<char>)
    ensures
        known.is_prefix_of(addr) ==> url_of(addr, known) == addr,
        !known.is_prefix_of(addr) ==> url_of(addr, known) == "http://"@ + addr,
{
}

/// A destination that is given no metadata prepares a file of which nothing is
/// known: without size, without blocks and without a policy.
pub proof fn law_nothing_known_of_the_file(
    d: StateView,
    own: Seq<char>,
    there: RouteView,
    tx_id: Seq<char>,
    path: Seq<char>,
    coordinator: Seq<char>,
    now: u64,
)
    requires
        there.shard is Some ==> there.shard->Some_0 == own,
        !d.files.contains_key(path),
    ensures
        ({
            &&& d.prepare_plan(own, there, tx_id, path, None, coordinator, now)
                matches Ok(PlanView::Propose(CommandView::Master(m)))
            &&& m matches MasterCommandView::CreateTransactionRecord { record }
            &&& record.operations.len() == 1
            &&& record.operations[0].shard_id == own
            &&& record.operations[0].op_type matches TxOpTypeView::Create { path: p, metadata }
            &&& p == path
            &&& metadata.size == 0
            &&& metadata.blocks.len() == 0
            &&& metadata.ec_data_shards == 0
            &&& metadata.ec_parity_shards == 0
        }),
{
}

/// What a rename hands out when it begins: for a destination in another shard a
/// transaction whose metadata is that of the source file, field by field, under
/// the new path, and a record that creates the destination with that very
/// metadata and deletes the source.
pub proof fn law_begun_rename_carries_the_file(
    m: MasterState,
    own: &str,
    source: Route,
    dest: Route,
    source_path: String,
    dest_path: String,
    tx_id: String,
    now: u64,
    r: Result<RenamePlan, Status>,
)
    requires
        call_ensures(
            MasterState::rename_as,
            (&m, own, &source, &dest, source_path, dest_path, tx_id, now),
            r,
        ),
    ensures
        r matches Ok(RenamePlan::Cross { rename, command }) ==> {
            &&& m@.files.contains_key(source_path@)
            &&& same_but_path(rename.dest_metadata@, m@.files[source_path@])
            &&& rename.dest_metadata@.path == dest_path@
            &&& rename.source_path@ == source_path@
            &&& rename.dest_path@ == dest_path@
            &&& rename.tx_id@ == tx_id@
            &&& rename.source_shard@ == own@
            &&& dest@.shard == Some(rename.dest_shard@)
            &&& command@ matches CommandView::Master(c)
            &&& c matches MasterCommandView::CreateTransactionRecord { record }
            &&& record.operations.len() == 2
            &&& record.operations[0].op_type == (TxOpTypeView::Delete { path: source_path@ })
            &&& record.operations[1].op_type == (TxOpTypeView::Create {
                path: dest_path@,
                metadata: rename.dest_metadata@,
            })
        },
{
    if let Ok(RenamePlan::Cross { rename, command }) = r {
        law_cross_rename_carries_the_file(
            m@,
            own@,
            source@,
            dest@,
            source_path@,
            dest_path@,
            tx_id@,
            now,
            rename@,
            command@,
        );
    }
}

/// A commit goes on once its operation was taken, by marking the transaction
/// committed; any other outcome is answered, and not with success.
pub proof fn law_commit_goes_on(tx_id: &str, outcome: Outcome, r: Result<Plan, Status>)
    requires
        call_ensures(commit_next, (tx_id, outcome), r),
    ensures
        outcome@ is Done ==> (r matches Ok(Plan::Propose(c)) && c@ == CommandView::Master(
            MasterCommandView::UpdateTransactionState {
                tx_id: tx_id@,
                new_state: TxState::Committed,
            },
        )),
        !(outcome@ is Done) ==> !(r matches Ok(Plan::Propose(_))),
        r matches Ok(Plan::Reply(a)) ==> !a.success,
{
}

} // verus!
