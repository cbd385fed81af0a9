//! What the metadata service promises as a whole.

use crate::master::admin::keyed_by_path;
use crate::master::allocate::{candidates, servers_needed, AllocationView};
use crate::master::apply::{new_block, new_file, share, size_sum, sized_blocks, with_batch};
use crate::master::heal::{
    good_copies, rebuild_orders, repair_orders, strangers, Cluster, REPLICATION_FACTOR,
};
use crate::master::rename::{
    awaited, prepared_record, CrossView, RenameEventView, RenamePhase, RenameStepView,
};
use crate::master::service::{Failure, PlanView, RouteView};
use crate::master::spread::{distinct, known, law_placement};
use crate::master::state::{MasterState, StateView};
use crate::master::transaction::{TxOpTypeView, TxState, TxView};
use crate::master::types::{BlockView, FileView};
use crate::raft::command::{CommandView, MasterCommandView};
use crate::text::text_le;
use vstd::prelude::*;

verus! {

proof fn lemma_sum_alike(blocks: Seq<BlockView>, q: int)
    requires
        forall|i: int| 0 <= i < blocks.len() ==> (#[trigger] blocks[i]).size == q,
    ensures
        size_sum(blocks) == q * blocks.len(),
    decreases blocks.len(),
{
    if blocks.len() > 0 {
        let d = blocks.drop_last();
        assert forall|i: int| 0 <= i < d.len() implies (#[trigger] d[i]).size == q by {
            assert(blocks[i].size == q);
        }
        lemma_sum_alike(d, q);
        assert(blocks[blocks.len() - 1].size == q);
        assert(q * blocks.len() == q * d.len() + q) by (nonlinear_arith)
            requires
                blocks.len() == d.len() + 1,
        ;
    } else {
        assert(q * 0 == 0);
    }
}

/// Once a file is complete, the sizes of its blocks add up to its size.
pub proof fn law_block_sizes_add_up(blocks: Seq<BlockView>, size: u64)
    requires
        blocks.len() > 0,
    ensures
        size_sum(sized_blocks(blocks, size)) == size,
{
    let n = blocks.len() as int;
    let q = size as int / n;
    let s = sized_blocks(blocks, size);
    assert(q * n <= size && 0 <= q) by (nonlinear_arith)
        requires
            q == size as int / n,
            n >= 1,
            0 <= size,
    ;
    assert(0 <= q * (n - 1) <= q * n && q <= q * n) by (nonlinear_arith)
        requires
            0 <= q,
            n >= 1,
    ;
    let d = s.drop_last();
    assert forall|i: int| 0 <= i < d.len() implies (#[trigger] d[i]).size == q by {
        assert(share(size, n, i) == q);
    }
    lemma_sum_alike(d, q);
    assert(s[n - 1].size == size - q * (n - 1));
}

/// A file that is created is found, empty; one that is deleted is not; and
/// neither touches any other file.
pub proof fn law_create_and_delete(
    s: StateView,
    path: Seq<char>,
    ec_data_shards: i32,
    ec_parity_shards: i32,
    other: Seq<char>,
)
    requires
        other != path,
    ensures
        ({
            let c = s.after(MasterCommandView::CreateFile { path, ec_data_shards, ec_parity_shards });
            let d = s.after(MasterCommandView::DeleteFile { path });
            &&& c.files.contains_key(path)
            &&& c.files[path] == new_file(path, ec_data_shards, ec_parity_shards)
            &&& !d.files.contains_key(path)
            &&& c.files.contains_key(other) == s.files.contains_key(other)
            &&& d.files.contains_key(other) == s.files.contains_key(other)
            &&& s.files.contains_key(other) ==> c.files[other] == s.files[other] && d.files[other]
                == s.files[other]
            &&& !s.files.contains_key(path) ==> c.after(
                MasterCommandView::DeleteFile { path },
            ) == s
        }),
{
    let c = s.after(MasterCommandView::CreateFile { path, ec_data_shards, ec_parity_shards });
    if !s.files.contains_key(path) {
        assert(c.after(MasterCommandView::DeleteFile { path }).files =~= s.files);
    }
}

/// A rename moves the metadata, all of it but the path, and touches no other
/// file; renaming back restores a state in which the destination was free and
/// the file knew its path.
pub proof fn law_rename_moves(
    s: StateView,
    source_path: Seq<char>,
    dest_path: Seq<char>,
    other: Seq<char>,
)
    requires
        s.files.contains_key(source_path),
        source_path != dest_path,
        other != source_path,
        other != dest_path,
    ensures
        ({
            let r = s.after(MasterCommandView::RenameFile { source_path, dest_path });
            let back = r.after(
                MasterCommandView::RenameFile { source_path: dest_path, dest_path: source_path },
            );
            &&& !r.files.contains_key(source_path)
            &&& r.files.contains_key(dest_path)
            &&& r.files[dest_path] == (FileView { path: dest_path, ..s.files[source_path] })
            &&& r.files.contains_key(other) == s.files.contains_key(other)
            &&& s.files.contains_key(other) ==> r.files[other] == s.files[other]
            &&& !s.files.contains_key(dest_path) && s.files[source_path].path == source_path
                ==> back == s
        }),
{
    let r = s.after(MasterCommandView::RenameFile { source_path, dest_path });
    let back = r.after(
        MasterCommandView::RenameFile { source_path: dest_path, dest_path: source_path },
    );
    if !s.files.contains_key(dest_path) && s.files[source_path].path == source_path {
        assert(back.files =~= s.files);
    }
}

/// The files after a batch: the last of the batch for a path, or else what was
/// there.
proof fn lemma_batch(files: Map<Seq<char>, FileView>, batch: Seq<FileView>, path: Seq<char>)
    ensures
        with_batch(files, batch).contains_key(path) == (files.contains_key(path) || exists|i: int|
            0 <= i < batch.len() && (#[trigger] batch[i]).path == path),
        with_batch(files, batch).contains_key(path) ==> {
            ||| files.contains_key(path) && with_batch(files, batch)[path] == files[path]
            ||| exists|i: int|
                0 <= i < batch.len() && (#[trigger] batch[i]).path == path && with_batch(
                    files,
                    batch,
                )[path] == batch[i]
        },
    decreases batch.len(),
{
    if batch.len() > 0 {
        let d = batch.drop_last();
        lemma_batch(files, d, path);
        if batch.last().path == path {
            assert(batch[batch.len() - 1].path == path);
        }
        if exists|i: int| 0 <= i < d.len() && (#[trigger] d[i]).path == path {
            let i = choose|i: int| 0 <= i < d.len() && (#[trigger] d[i]).path == path;
            assert(batch[i].path == path);
        }
        if exists|i: int| 0 <= i < batch.len() && (#[trigger] batch[i]).path == path {
            let i = choose|i: int| 0 <= i < batch.len() && (#[trigger] batch[i]).path == path;
            if i < d.len() {
                assert(d[i].path == path);
            }
        }
        if batch.last().path != path && with_batch(files, d).contains_key(path) && !(
        files.contains_key(path) && with_batch(files, d)[path] == files[path]) {
            let i = choose|i: int|
                0 <= i < d.len() && (#[trigger] d[i]).path == path && with_batch(files, d)[path]
                    == d[i];
            assert(batch[i] == d[i]);
        }
    }
}

/// A split keeps just the files before the split key, as they were; taking in
/// the files that it dropped restores all of them.
pub proof fn law_split_loses_nothing(
    s: StateView,
    split_key: Seq<char>,
    new_shard_id: Seq<char>,
    new_shard_peers: Seq<Seq<char>>,
    moved: Seq<FileView>,
)
    requires
        forall|i: int|
            0 <= i < moved.len() ==> s.files.contains_key((#[trigger] moved[i]).path)
                && s.files[moved[i].path] == moved[i],
        forall|p: Seq<char>| #[trigger]
            s.files.contains_key(p) && text_le(split_key, p) ==> exists|i: int|
                0 <= i < moved.len() && (#[trigger] moved[i]).path == p,
    ensures
        ({
            let r = s.after(
                MasterCommandView::SplitShard { split_key, new_shard_id, new_shard_peers },
            );
            &&& forall|p: Seq<char>| #[trigger]
                r.files.contains_key(p) == (s.files.contains_key(p) && !text_le(split_key, p))
            &&& forall|p: Seq<char>| #[trigger]
                r.files.contains_key(p) ==> r.files[p] == s.files[p]
            &&& r.after(MasterCommandView::IngestBatch { files: moved }) == s
        }),
{
    let r = s.after(MasterCommandView::SplitShard { split_key, new_shard_id, new_shard_peers });
    let b = r.after(MasterCommandView::IngestBatch { files: moved });
    assert forall|p: Seq<char>| #[trigger]
        b.files.contains_key(p) == s.files.contains_key(p) && (s.files.contains_key(p)
            ==> b.files[p] == s.files[p]) by {
        lemma_batch(r.files, moved, p);
        if exists|i: int| 0 <= i < moved.len() && (#[trigger] moved[i]).path == p {
            let i = choose|i: int| 0 <= i < moved.len() && (#[trigger] moved[i]).path == p;
            assert(s.files.contains_key(moved[i].path));
        }
    }
    assert(b.files =~= s.files);
}

/// Files stay under their own paths, whatever command comes, as long as what a
/// transaction creates is named as it is to be kept.
pub proof fn law_files_stay_under_their_paths(s: StateView, cmd: MasterCommandView)
    requires
        keyed_by_path(s.files),
        cmd matches MasterCommandView::ApplyTransactionOperation { operation, .. }
            ==> operation.op_type matches TxOpTypeView::Create { path, metadata } ==> metadata.path
            == path,
    ensures
        keyed_by_path(s.after(cmd).files),
{
    if let MasterCommandView::IngestBatch { files } = cmd {
        lemma_batch_keyed(s.files, files);
    }
}

proof fn lemma_batch_keyed(files: Map<Seq<char>, FileView>, batch: Seq<FileView>)
    requires
        keyed_by_path(files),
    ensures
        keyed_by_path(with_batch(files, batch)),
    decreases batch.len(),
{
    if batch.len() > 0 {
        lemma_batch_keyed(files, batch.drop_last());
    }
}

/// A rename across shards that goes through moves the metadata from one shard
/// to the other and touches nothing else: the destination takes in what the
/// transaction carries under its new path, and the source drops the file.
pub proof fn law_rename_across_shards(
    source: StateView,
    dest: StateView,
    own: Seq<char>,
    route: RouteView,
    r: CrossView,
    now: u64,
)
    requires
        route.foreign(own) is None,
        !dest.files.contains_key(r.dest_path),
    ensures
        ({
            let prepared = MasterCommandView::CreateTransactionRecord {
                record: prepared_record(
                    r.tx_id,
                    r.dest_path,
                    r.dest_metadata,
                    r.source_shard,
                    own,
                    now,
                ),
            };
            let d1 = dest.after(prepared);
            &&& dest.prepare_plan(
                own,
                route,
                r.tx_id,
                r.dest_path,
                Some(r.dest_metadata),
                r.source_shard,
                now,
            ) == Ok::<PlanView, Failure>(PlanView::Propose(CommandView::Master(prepared)))
            &&& d1.files == dest.files
            &&& d1.commit_plan(r.tx_id) matches PlanView::Propose(c) && c
                matches CommandView::Master(m) && d1.after(m).files == dest.files.insert(
                r.dest_path,
                r.dest_metadata,
            )
            &&& source.after(r.record(now)).after(r.mark(TxState::Prepared)).after(
                r.delete_source(),
            ).after(r.mark(TxState::Committed)).files == source.files.remove(r.source_path)
        }),
{
}

/// A rename across shards that is given up leaves all files as they were, on
/// both sides.
pub proof fn law_aborted_rename_changes_nothing(
    source: StateView,
    dest: StateView,
    r: CrossView,
    record: TxView,
    now: u64,
)
    ensures
        source.after(r.record(now)).after(r.mark(TxState::Aborted)).files == source.files,
        dest.after(MasterCommandView::CreateTransactionRecord { record }).after(
            MasterCommandView::UpdateTransactionState {
                tx_id: record.tx_id,
                new_state: TxState::Aborted,
            },
        ).after(MasterCommandView::DeleteTransactionRecord { tx_id: record.tx_id }).files
            == dest.files,
{
}

/// In safe mode no file is created, deleted or renamed.
pub proof fn law_safe_mode_blocks_writes(
    s: StateView,
    own: Seq<char>,
    route: RouteView,
    dest: RouteView,
    path: Seq<char>,
    dest_path: Seq<char>,
    ec_data_shards: i32,
    ec_parity_shards: i32,
    tx_id: Seq<char>,
    now: u64,
)
    requires
        s.safe_mode,
    ensures
        s.create_plan(own, route, path, ec_data_shards, ec_parity_shards) is Err,
        s.delete_plan(own, route, path) is Err,
        s.rename_plan(own, route, dest, path, dest_path, tx_id, now) is Err,
{
}

/// What is replicated: files, transactions and the prefixes being shuffled.
pub open spec fn same_log_state(a: StateView, b: StateView) -> bool {
    a.files == b.files && a.txs == b.txs && a.shuffling == b.shuffling
}

/// Replicas that apply the same commands agree on what is replicated, however
/// much else they know differs; and what else they know stays as it is.
pub proof fn law_replicas_agree(a: StateView, b: StateView, cmd: MasterCommandView)
    requires
        same_log_state(a, b),
    ensures
        same_log_state(a.after(cmd), b.after(cmd)),
        a.after(cmd).servers == a.servers,
        a.after(cmd).pending == a.pending,
        a.after(cmd).safe_mode == a.safe_mode,
        a.after(cmd).bad == a.bad,
{
}

impl StateView {
    /// The state after commands, in order.
    pub open spec fn after_all(self, commands: Seq<MasterCommandView>) -> StateView
        decreases commands.len(),
    {
        if commands.len() == 0 {
            self
        } else {
            self.after_all(commands.drop_last()).after(commands.last())
        }
    }
}

/// Replicas that begin alike and apply the same commands in the same order
/// stay alike.
pub proof fn law_replicas_stay_alike(
    a: StateView,
    b: StateView,
    commands: Seq<MasterCommandView>,
)
    requires
        same_log_state(a, b),
    ensures
        same_log_state(a.after_all(commands), b.after_all(commands)),
    decreases commands.len(),
{
    if commands.len() > 0 {
        let d = commands.drop_last();
        law_replicas_stay_alike(a, b, d);
        law_replicas_agree(a.after_all(d), b.after_all(d), commands.last());
    }
}

/// The block that is recorded is the one that was handed out.
pub proof fn law_allocated_block_is_recorded(s: StateView, path: Seq<char>, a: AllocationView)
    requires
        s.files.contains_key(path),
        a.ec_data_shards == s.files[path].ec_data_shards,
        a.ec_parity_shards == s.files[path].ec_parity_shards,
    ensures
        ({
            let r = s.after(
                MasterCommandView::AllocateBlock {
                    path,
                    block_id: a.block_id,
                    locations: a.locations,
                },
            );
            &&& r.files[path].blocks == s.files[path].blocks.push(
                new_block(a.block_id, a.locations, a.ec_data_shards, a.ec_parity_shards),
            )
            &&& forall|p: Seq<char>| p != path ==> #[trigger] r.files.contains_key(p)
                == s.files.contains_key(p)
            &&& forall|p: Seq<char>| p != path && #[trigger] s.files.contains_key(p)
                ==> r.files[p] == s.files[p]
        }),
{
}

/// A new block gets as many servers as it needs, each of them known and none
/// twice: a server for every shard of an erasure-coded file, three replicas of
/// any other, or as many as there are servers.
pub proof fn law_allocated_servers(
    s: MasterState,
    own: Seq<char>,
    route: RouteView,
    path: Seq<char>,
    block_id: Seq<char>,
)
    requires
        s.chunk_servers.key_seq().no_duplicates(),
        forall|k: Seq<char>| #[trigger]
            s.chunk_servers.key_seq().contains(k) ==> s@.servers.contains_key(k),
    ensures
        s.allocation(own, route, path, block_id) matches Ok(a) ==> {
            let n = s.chunk_servers.key_seq().len() as int;
            &&& a.locations.len() == servers_needed(s@.files[path], n)
            &&& 1 <= a.locations.len() <= n
            &&& a.locations.no_duplicates()
            &&& forall|i: int|
                0 <= i < a.locations.len() ==> s@.servers.contains_key(#[trigger] a.locations[i])
        },
{
    let ks = s.chunk_servers.key_seq();
    let c = candidates(s@.servers, ks);
    let m = servers_needed(s@.files[path], ks.len() as int);
    if let Ok(a) = s.allocation(own, route, path, block_id) {
        law_placement(c, m);
        assert(distinct(c));
        assert forall|i: int| 0 <= i < a.locations.len() implies s@.servers.contains_key(
            #[trigger] a.locations[i],
        ) by {
            assert(known(c, a.locations[i]));
            let j = choose|j: int| 0 <= j < c.len() && (#[trigger] c[j]).0 == a.locations[i];
            assert(ks.contains(ks[j]));
        }
    }
}

impl CrossView {
    /// The phase of a rename across shards after events, and the steps that it
    /// took.
    pub open spec fn ran(self, events: Seq<RenameEventView>) -> (RenamePhase, Seq<RenameStepView>)
        decreases events.len(),
    {
        if events.len() == 0 {
            (RenamePhase::Recording, Seq::empty())
        } else {
            let before = self.ran(events.drop_last());
            let next = self.next(before.0, events.last());
            (next.0, before.1.push(next.1))
        }
    }

    /// Each event is what the rename waits for when it comes.
    pub open spec fn in_turn(self, events: Seq<RenameEventView>) -> bool
        decreases events.len(),
    {
        events.len() == 0 || (self.in_turn(events.drop_last()) && awaited(
            self.ran(events.drop_last()).0,
            events.last(),
        ))
    }
}

/// The destination has said that it is prepared.
pub open spec fn agreed(events: Seq<RenameEventView>) -> bool {
    exists|i: int| 0 <= i < events.len() && #[trigger] events[i] == (RenameEventView::Prepared {
        ok: true,
    })
}

proof fn lemma_agreed_before(events: Seq<RenameEventView>)
    requires
        events.len() > 0,
        agreed(events.drop_last()),
    ensures
        agreed(events),
{
    let d = events.drop_last();
    let i = choose|i: int| 0 <= i < d.len() && #[trigger] d[i] == (RenameEventView::Prepared {
        ok: true,
    });
    assert(events[i] == d[i]);
}

/// A rename across shards loses no file: the source is removed, and the
/// destination told to commit, only after the destination said that it is
/// prepared.
pub proof fn law_source_goes_after_prepare(r: CrossView, events: Seq<RenameEventView>)
    requires
        r.in_turn(events),
    ensures
        r.ran(events).1.contains(RenameStepView::Propose(r.delete_source())) ==> agreed(events),
        r.ran(events).1.contains(RenameStepView::Commit) ==> agreed(events),
        match r.ran(events).0 {
            RenamePhase::MarkingPrepared | RenamePhase::Deleting | RenamePhase::MarkingCommitted
            | RenamePhase::Notifying => agreed(events),
            _ => true,
        },
    decreases events.len(),
{
    if events.len() > 0 {
        let d = events.drop_last();
        let before = r.ran(d);
        let now = r.ran(events);
        let step = now.1.last();
        law_source_goes_after_prepare(r, d);
        if agreed(d) {
            lemma_agreed_before(events);
        } else {
            assert(events[events.len() - 1] == events.last());
            let gone = RenameStepView::Propose(r.delete_source());
            assert(step != gone && !(step is Commit));
            if now.1.contains(gone) {
                let i = now.1.index_of(gone);
                assert(before.1[i] == gone);
            }
            if now.1.contains(RenameStepView::Commit) {
                let i = now.1.index_of(RenameStepView::Commit);
                assert(before.1[i] == RenameStepView::Commit);
            }
        }
    }
}

proof fn lemma_stranger(live: Seq<Seq<char>>, locs: Seq<Seq<char>>, i: int)
    requires
        0 <= i < strangers(live, locs).len(),
    ensures
        live.contains(strangers(live, locs)[i]),
        !locs.contains(strangers(live, locs)[i]),
    decreases live.len(),
{
    let d = live.drop_last();
    let s = strangers(d, locs);
    if i < s.len() {
        lemma_stranger(d, locs, i);
        assert(live[d.index_of(s[i])] == s[i]);
    } else {
        assert(live[live.len() - 1] == live.last());
    }
}

proof fn lemma_good_copy(cl: Cluster, block_id: Seq<char>, locs: Seq<Seq<char>>, i: int)
    requires
        0 <= i < good_copies(cl, block_id, locs).len(),
    ensures
        cl.live.contains(good_copies(cl, block_id, locs)[i]),
        locs.contains(good_copies(cl, block_id, locs)[i]),
        !cl.is_bad(block_id, good_copies(cl, block_id, locs)[i]),
    decreases locs.len(),
{
    let d = locs.drop_last();
    let g = good_copies(cl, block_id, d);
    if i < g.len() {
        lemma_good_copy(cl, block_id, d, i);
        assert(locs[d.index_of(g[i])] == g[i]);
    } else {
        assert(locs[locs.len() - 1] == locs.last());
    }
}

proof fn lemma_rebuild(live: Seq<Seq<char>>, b: BlockView, target: Seq<char>, n: int, i: int)
    requires
        0 <= n <= b.locations.len(),
        0 <= i < rebuild_orders(live, b, target, n).len(),
    ensures
        ({
            let o = rebuild_orders(live, b, target, n)[i];
            o.0 == target && o.1.target == target && o.1.block_id == b.block_id
        }),
    decreases n,
{
    if n > 0 && i < rebuild_orders(live, b, target, n - 1).len() {
        lemma_rebuild(live, b, target, n - 1, i);
    }
}

/// Every repair of a block goes to a live server that holds none of it, and is
/// ordered from a live server; and a copy is made only from a good one.
pub proof fn law_repairs_go_to_strangers(cl: Cluster, b: BlockView, i: int)
    requires
        0 <= i < repair_orders(cl, b).len(),
    ensures
        ({
            let o = repair_orders(cl, b)[i];
            &&& o.1.block_id == b.block_id
            &&& cl.live.contains(o.0)
            &&& cl.live.contains(o.1.target)
            &&& !b.locations.contains(o.1.target)
            &&& b.ec_data_shards <= 0 ==> b.locations.contains(o.0) && !cl.is_bad(b.block_id, o.0)
        }),
{
    let free = strangers(cl.live, b.locations);
    if b.ec_data_shards > 0 {
        lemma_stranger(cl.live, b.locations, 0);
        lemma_rebuild(cl.live, b, free[0], b.locations.len() as int, i);
    } else {
        lemma_stranger(cl.live, b.locations, i);
        lemma_good_copy(cl, b.block_id, b.locations, 0);
    }
}

/// A replicated block is never copied more often than its copies lack, and not
/// at all where enough are good or none is.
pub proof fn law_repairs_do_not_overshoot(cl: Cluster, b: BlockView)
    requires
        b.ec_data_shards <= 0,
    ensures
        ({
            let good = good_copies(cl, b.block_id, b.locations).len();
            let n = repair_orders(cl, b).len();
            &&& good >= REPLICATION_FACTOR || good == 0 ==> n == 0
            &&& good < REPLICATION_FACTOR ==> good + n <= REPLICATION_FACTOR
            &&& 0 < good < REPLICATION_FACTOR && strangers(cl.live, b.locations).len()
                >= REPLICATION_FACTOR - good ==> good + n == REPLICATION_FACTOR
        }),
{
}

} // verus!
