//! What the requests of clients and of chunk servers come to: which files
//! there are afterwards and what is known of them, where blocks are found, and
//! when safe mode ends.

use crate::master::heal::{repair_files, with_orders, Cluster};
use crate::master::moves::alike_except;
use crate::master::service::{
    access_command, complete_plan, locations_in, locations_of, new_server, read_failure, answer_of,
    under, with_bad, OutcomeView, PlanView, ReadOutcome, ReportView, RouteView, StatusCode,
};
use crate::master::state::{total_blocks, MasterState, StateView};
use crate::master::transaction::{TxOpTypeView, TxOpView, TxState, TxView};
use crate::master::types::{BlockView, FileView};
use crate::raft::command::{Command, CommandView, MasterCommandView};
use vstd::prelude::*;

verus! {

/// Another shard is responsible for the path.
pub open spec fn elsewhere(own: Seq<char>, route: RouteView) -> bool {
    route.shard is Some && route.shard->Some_0 != own
}

/// A request for a path of another shard is sent to the first server of that
/// shard; every other one is served here, and a write only outside safe mode.
pub proof fn law_who_serves(s: StateView, own: Seq<char>, route: RouteView)
    ensures
        route.foreign(own) is Some <==> elsewhere(own, route),
        elsewhere(own, route) ==> {
            &&& route.foreign(own)->Some_0.code == StatusCode::OutOfRange
            &&& route.peers is Some && route.peers->Some_0.len() > 0
                ==> route.foreign(own)->Some_0.message == "REDIRECT:"@ + route.peers->Some_0[0]
        },
        s.write_failure(own, route) is Some <==> elsewhere(own, route) || s.safe_mode,
        s.safe_mode && !elsewhere(own, route) ==> s.write_failure(own, route)->Some_0.code
            == StatusCode::Unavailable,
{
}

/// A file is created where this shard may write and there is none yet: it is
/// empty, has the policy that was asked for and no history, and no other file
/// changes. Where it exists already the request is refused.
pub proof fn law_create_request(
    s: StateView,
    own: Seq<char>,
    route: RouteView,
    path: Seq<char>,
    ec_data_shards: i32,
    ec_parity_shards: i32,
)
    ensures
        ({
            let plan = s.create_plan(own, route, path, ec_data_shards, ec_parity_shards);
            if elsewhere(own, route) || s.safe_mode {
                plan is Err
            } else if s.files.contains_key(path) {
                plan matches Ok(PlanView::Reply(a)) && !a.success
            } else {
                &&& plan matches Ok(PlanView::Propose(CommandView::Master(c)))
                &&& {
                    let r = s.after(c);
                    &&& r.files.contains_key(path)
                    &&& r.files[path].path == path
                    &&& r.files[path].size == 0
                    &&& r.files[path].blocks.len() == 0
                    &&& r.files[path].etag_md5.len() == 0
                    &&& r.files[path].created_at_ms == 0
                    &&& r.files[path].ec_data_shards == ec_data_shards
                    &&& r.files[path].ec_parity_shards == ec_parity_shards
                    &&& r.files[path].last_access_ms == 0
                    &&& r.files[path].access_count == 0
                    &&& r.files[path].moved_to_cold_at_ms == 0
                    &&& alike_except(s.files, r.files, path)
                }
            }
        }),
{
}

/// A file that exists is deleted where this shard may write, and no other file
/// changes. Where there is none the request is refused.
pub proof fn law_delete_request(s: StateView, own: Seq<char>, route: RouteView, path: Seq<char>)
    ensures
        ({
            let plan = s.delete_plan(own, route, path);
            if elsewhere(own, route) || s.safe_mode {
                plan is Err
            } else if !s.files.contains_key(path) {
                plan matches Ok(PlanView::Reply(a)) && !a.success
            } else {
                &&& plan matches Ok(PlanView::Propose(CommandView::Master(c)))
                &&& !s.after(c).files.contains_key(path)
                &&& alike_except(s.files, s.after(c).files, path)
            }
        }),
{
}

/// A file that is completed has the size that was reported, spread over its
/// blocks: all of them get the same share, rounded down, but for the last one,
/// which gets what is left. A tag or a time that is not given leaves the old
/// one. Nothing else about the file changes, no block moves, and no other file
/// changes; a file that is not there is not made.
pub proof fn law_complete_request(
    s: StateView,
    own: Seq<char>,
    route: RouteView,
    path: Seq<char>,
    size: u64,
    etag_md5: Seq<char>,
    created_at_ms: u64,
    i: int,
)
    ensures
        ({
            let plan = complete_plan(own, route, path, size, etag_md5, created_at_ms);
            &&& elsewhere(own, route) ==> plan is Err
            &&& !elsewhere(own, route) ==> {
                &&& plan matches Ok(PlanView::Propose(CommandView::Master(c)))
                &&& alike_except(s.files, s.after(c).files, path)
                &&& s.after(c).files.contains_key(path) == s.files.contains_key(path)
                &&& s.files.contains_key(path) ==> {
                    let f = s.files[path];
                    let g = s.after(c).files[path];
                    &&& g.path == f.path
                    &&& g.size == size
                    &&& g.etag_md5 == if etag_md5.len() > 0 {
                        etag_md5
                    } else {
                        f.etag_md5
                    }
                    &&& g.created_at_ms == if created_at_ms != 0 {
                        created_at_ms
                    } else {
                        f.created_at_ms
                    }
                    &&& g.ec_data_shards == f.ec_data_shards
                    &&& g.ec_parity_shards == f.ec_parity_shards
                    &&& g.last_access_ms == f.last_access_ms
                    &&& g.access_count == f.access_count
                    &&& g.moved_to_cold_at_ms == f.moved_to_cold_at_ms
                    &&& g.blocks.len() == f.blocks.len()
                    &&& 0 <= i < f.blocks.len() ==> {
                        let each = size as int / f.blocks.len() as int;
                        &&& g.blocks[i].block_id == f.blocks[i].block_id
                        &&& g.blocks[i].locations == f.blocks[i].locations
                        &&& g.blocks[i].checksum_crc32c == f.blocks[i].checksum_crc32c
                        &&& g.blocks[i].ec_data_shards == f.blocks[i].ec_data_shards
                        &&& g.blocks[i].ec_parity_shards == f.blocks[i].ec_parity_shards
                        &&& g.blocks[i].original_size == f.blocks[i].original_size
                        &&& i < f.blocks.len() - 1 ==> g.blocks[i].size == each
                        &&& i == f.blocks.len() - 1 ==> g.blocks[i].size == size - each * (
                        f.blocks.len() - 1)
                    }
                }
            }
        }),
{
    if 0 <= i < s.files[path].blocks.len() {
        let n = s.files[path].blocks.len() as int;
        let q = size as int / n;
        assert(0 <= q && q * n <= size) by (nonlinear_arith)
            requires
                q == size as int / n,
                n >= 1,
                0 <= size,
        ;
        assert(0 <= q * (n - 1) <= q * n && q <= q * n) by (nonlinear_arith)
            requires
                0 <= q,
                n >= 1,
        ;
    }
}

/// What a block that was allocated adds to its file: it comes last, under its
/// id and at its places, empty and with the policy of the file. The other
/// blocks and all else of the file stay, and so does every other file.
pub proof fn law_allocated_block_comes_last(
    s: StateView,
    path: Seq<char>,
    block_id: Seq<char>,
    locations: Seq<Seq<char>>,
)
    ensures
        ({
            let r = s.after(MasterCommandView::AllocateBlock { path, block_id, locations });
            &&& alike_except(s.files, r.files, path)
            &&& r.files.contains_key(path) == s.files.contains_key(path)
            &&& s.files.contains_key(path) ==> {
                let f = s.files[path];
                let g = r.files[path];
                let b = g.blocks.last();
                &&& g.blocks.len() == f.blocks.len() + 1
                &&& g.blocks.drop_last() == f.blocks
                &&& b.block_id == block_id
                &&& b.locations == locations
                &&& b.size == 0
                &&& b.original_size == 0
                &&& b.ec_data_shards == f.ec_data_shards
                &&& b.ec_parity_shards == f.ec_parity_shards
                &&& g == (FileView { blocks: g.blocks, ..f })
            }
        }),
{
    let r = s.after(MasterCommandView::AllocateBlock { path, block_id, locations });
    if s.files.contains_key(path) {
        assert(r.files[path].blocks.drop_last() =~= s.files[path].blocks);
    }
}

/// Reading a file is noted with its time and counted, being moved to cold
/// storage is noted with its time, and a conversion replaces policy and
/// blocks; nothing else about the file changes, no other file does, and no
/// file is made.
pub proof fn law_notes_on_files(
    s: StateView,
    path: Seq<char>,
    at: u64,
    ec_data_shards: i32,
    ec_parity_shards: i32,
    new_blocks: Seq<BlockView>,
)
    ensures
        ({
            let r = s.after(MasterCommandView::UpdateAccessStats { path, accessed_at_ms: at });
            let f = s.files[path];
            let g = r.files[path];
            &&& alike_except(s.files, r.files, path)
            &&& r.files.contains_key(path) == s.files.contains_key(path)
            &&& s.files.contains_key(path) ==> {
                &&& g.last_access_ms == at
                &&& f.access_count < u64::MAX ==> g.access_count == f.access_count + 1
                &&& g == (FileView {
                    last_access_ms: g.last_access_ms,
                    access_count: g.access_count,
                    ..f
                })
            }
        }),
        ({
            let r = s.after(MasterCommandView::MoveToCold { path, moved_at_ms: at });
            let f = s.files[path];
            let g = r.files[path];
            &&& alike_except(s.files, r.files, path)
            &&& r.files.contains_key(path) == s.files.contains_key(path)
            &&& s.files.contains_key(path) ==> g.moved_to_cold_at_ms == at && g == (FileView {
                moved_to_cold_at_ms: at,
                ..f
            })
        }),
        ({
            let r = s.after(
                MasterCommandView::ConvertToEc {
                    path,
                    ec_data_shards,
                    ec_parity_shards,
                    new_blocks,
                },
            );
            let f = s.files[path];
            let g = r.files[path];
            &&& alike_except(s.files, r.files, path)
            &&& r.files.contains_key(path) == s.files.contains_key(path)
            &&& s.files.contains_key(path) ==> {
                &&& g.ec_data_shards == ec_data_shards
                &&& g.ec_parity_shards == ec_parity_shards
                &&& g.blocks == new_blocks
                &&& g == (FileView { ec_data_shards, ec_parity_shards, blocks: new_blocks, ..f })
            }
        }),
{
}

/// Transactions come, change their state and go, each under its id, and touch
/// neither another transaction nor a file; an operation of a transaction makes
/// or removes the one file it names.
pub proof fn law_transactions_on_record(
    s: StateView,
    record: TxView,
    tx_id: Seq<char>,
    state: TxState,
    shard_id: Seq<char>,
    path: Seq<char>,
    metadata: FileView,
    other: Seq<char>,
)
    ensures
        ({
            let r = s.after(MasterCommandView::CreateTransactionRecord { record });
            &&& r.files == s.files
            &&& r.txs.contains_key(record.tx_id)
            &&& r.txs[record.tx_id] == record
            &&& other != record.tx_id ==> r.txs.contains_key(other) == s.txs.contains_key(other)
                && (s.txs.contains_key(other) ==> r.txs[other] == s.txs[other])
        }),
        ({
            let r = s.after(MasterCommandView::UpdateTransactionState { tx_id, new_state: state });
            &&& r.files == s.files
            &&& r.txs.contains_key(other) == s.txs.contains_key(other)
            &&& s.txs.contains_key(tx_id) ==> r.txs[tx_id].state == state && r.txs[tx_id] == (
            TxView { state, ..s.txs[tx_id] })
            &&& other != tx_id && s.txs.contains_key(other) ==> r.txs[other] == s.txs[other]
        }),
        ({
            let r = s.after(MasterCommandView::DeleteTransactionRecord { tx_id });
            &&& r.files == s.files
            &&& !r.txs.contains_key(tx_id)
            &&& other != tx_id ==> r.txs.contains_key(other) == s.txs.contains_key(other) && (
            s.txs.contains_key(other) ==> r.txs[other] == s.txs[other])
        }),
        ({
            let r = s.after(
                MasterCommandView::ApplyTransactionOperation {
                    tx_id,
                    operation: TxOpView {
                        shard_id,
                        op_type: TxOpTypeView::Create { path, metadata },
                    },
                },
            );
            &&& r.txs == s.txs
            &&& r.files.contains_key(path)
            &&& r.files[path] == metadata
            &&& alike_except(s.files, r.files, path)
        }),
        ({
            let r = s.after(
                MasterCommandView::ApplyTransactionOperation {
                    tx_id,
                    operation: TxOpView { shard_id, op_type: TxOpTypeView::Delete { path } },
                },
            );
            &&& r.txs == s.txs
            &&& !r.files.contains_key(path)
            &&& alike_except(s.files, r.files, path)
        }),
{
}

/// A replicated command changes files, transactions and prefixes alone; what
/// is known of chunk servers and of safe mode comes from reports.
pub proof fn law_commands_leave_servers_alone(s: StateView, cmd: MasterCommandView)
    ensures
        s.after(cmd).servers == s.servers,
        s.after(cmd).pending == s.pending,
        s.after(cmd).bad == s.bad,
        s.after(cmd).safe_mode == s.safe_mode,
        s.after(cmd).manual == s.manual,
        s.after(cmd).expected == s.expected,
        s.after(cmd).reported == s.reported,
        s.after(cmd).threshold == s.threshold,
        s.after(cmd).entered_at == s.entered_at,
        s.after(cmd).min_chunkservers == s.min_chunkservers,
        !(cmd is TriggerShuffle) && !(cmd is StopShuffle) ==> s.after(cmd).shuffling
            == s.shuffling,
        !(cmd is CreateTransactionRecord) && !(cmd is UpdateTransactionState) && !(cmd
            is DeleteTransactionRecord) ==> s.after(cmd).txs == s.txs,
        cmd is MergeShard || cmd is RegisterChunkServer ==> s.after(cmd) == s,
        cmd matches MasterCommandView::RenameFile { source_path, .. } ==> !s.files.contains_key(
            source_path,
        ) ==> s.after(cmd) == s,
{
}

/// A prefix that is to be shuffled is one from then on, until it is to be so no
/// longer; no other prefix changes.
pub proof fn law_shuffling_starts_and_stops(s: StateView, prefix: Seq<char>, other: Seq<char>)
    ensures
        s.after(MasterCommandView::TriggerShuffle { prefix }).shuffling.contains(prefix),
        !s.after(MasterCommandView::StopShuffle { prefix }).shuffling.contains(prefix),
        other != prefix ==> s.after(
            MasterCommandView::TriggerShuffle { prefix },
        ).shuffling.contains(other) == s.shuffling.contains(other),
        other != prefix ==> s.after(
            MasterCommandView::StopShuffle { prefix },
        ).shuffling.contains(other) == s.shuffling.contains(other),
        s.after(MasterCommandView::TriggerShuffle { prefix }).files == s.files,
        s.after(MasterCommandView::StopShuffle { prefix }).files == s.files,
{
}

/// The listing of a prefix holds just the paths that begin with it, none
/// twice.
pub proof fn law_listed_paths(paths: Seq<Seq<char>>, prefix: Seq<char>, p: Seq<char>)
    ensures
        under(paths, prefix).contains(p) <==> paths.contains(p) && prefix.is_prefix_of(p),
        paths.no_duplicates() ==> under(paths, prefix).no_duplicates(),
    decreases paths.len(),
{
    if paths.len() > 0 {
        let d = paths.drop_last();
        let r = under(d, prefix);
        let now = under(paths, prefix);
        let x = paths.last();
        law_listed_paths(d, prefix, p);
        law_listed_paths(d, prefix, x);
        assert(paths[paths.len() - 1] == x);
        if d.contains(p) {
            assert(paths[d.index_of(p)] == p);
        }
        if paths.contains(p) && p != x {
            assert(d[paths.index_of(p)] == p);
        }
        if r.contains(p) {
            assert(now[r.index_of(p)] == p);
        }
        if now.contains(p) && !r.contains(p) {
            let i = now.index_of(p);
            if i < r.len() {
                assert(r[i] == p);
            }
        }
        if prefix.is_prefix_of(x) {
            assert(now[r.len() as int] == x);
        }
        if paths.no_duplicates() {
            assert(d.no_duplicates());
            assert(!d.contains(x)) by {
                if d.contains(x) {
                    assert(paths[d.index_of(x)] == x);
                }
            }
        }
    } else {
        assert(!under(paths, prefix).contains(p));
        assert(!paths.contains(p));
    }
}

/// The file has a block with the id at the places.
pub open spec fn holds_at(f: FileView, id: Seq<char>, places: Seq<Seq<char>>) -> bool {
    exists|k: int|
        0 <= k < f.blocks.len() && (#[trigger] f.blocks[k]).block_id == id && f.blocks[k].locations
            == places
}

/// The file has a block with the id.
pub open spec fn holds_block(f: FileView, id: Seq<char>) -> bool {
    exists|k: int| 0 <= k < f.blocks.len() && (#[trigger] f.blocks[k]).block_id == id
}

proof fn lemma_locations_in(blocks: Seq<BlockView>, id: Seq<char>)
    ensures
        match locations_in(blocks, id) {
            Some(l) => exists|k: int|
                0 <= k < blocks.len() && (#[trigger] blocks[k]).block_id == id
                    && blocks[k].locations == l,
            None => forall|k: int|
                0 <= k < blocks.len() ==> (#[trigger] blocks[k]).block_id != id,
        },
    decreases blocks.len(),
{
    if blocks.len() > 0 {
        let d = blocks.drop_last();
        lemma_locations_in(d, id);
        assert(blocks[blocks.len() - 1] == blocks.last());
        if let Some(l) = locations_in(d, id) {
            let k = choose|k: int|
                0 <= k < d.len() && (#[trigger] d[k]).block_id == id && d[k].locations == l;
            assert(blocks[k] == d[k]);
        } else {
            assert forall|k: int| 0 <= k < blocks.len() && locations_in(blocks, id) is None implies (
            #[trigger] blocks[k]).block_id != id by {
                if k < d.len() {
                    assert(d[k] == blocks[k]);
                }
            }
        }
    }
}

/// The places of a block are those of a block of some file with its id; a
/// block is not found only if no file has it.
pub proof fn law_blocks_are_found(
    files: Map<Seq<char>, FileView>,
    paths: Seq<Seq<char>>,
    id: Seq<char>,
)
    ensures
        match locations_of(files, paths, id) {
            Some(l) => exists|p: int|
                0 <= p < paths.len() && holds_at(files[#[trigger] paths[p]], id, l),
            None => forall|p: int|
                0 <= p < paths.len() ==> !holds_block(files[#[trigger] paths[p]], id),
        },
    decreases paths.len(),
{
    if paths.len() > 0 {
        let d = paths.drop_last();
        law_blocks_are_found(files, d, id);
        lemma_locations_in(files[paths.last()].blocks, id);
        assert(paths[paths.len() - 1] == paths.last());
        if let Some(l) = locations_of(files, d, id) {
            let p = choose|p: int|
                0 <= p < d.len() && holds_at(files[#[trigger] d[p]], id, l);
            assert(paths[p] == d[p]);
        } else if locations_of(files, paths, id) is None {
            assert forall|p: int| 0 <= p < paths.len() implies !holds_block(
                files[#[trigger] paths[p]],
                id,
            ) by {
                if p < d.len() {
                    assert(d[p] == paths[p]);
                }
            }
        } else {
            assert(holds_at(files[paths[paths.len() - 1]], id, locations_of(files, paths, id)->0));
        }
    }
}

proof fn lemma_with_bad(
    bad: Map<Seq<char>, Set<Seq<char>>>,
    blocks: Seq<Seq<char>>,
    addr: Seq<char>,
    id: Seq<char>,
    a: Seq<char>,
)
    ensures
        is_known_bad(with_bad(bad, blocks, addr), id, a) <==> is_known_bad(bad, id, a) || (a == addr
            && blocks.contains(id)),
    decreases blocks.len(),
{
    if blocks.len() > 0 {
        let d = blocks.drop_last();
        lemma_with_bad(bad, d, addr, id, a);
        assert(blocks[blocks.len() - 1] == blocks.last());
        if d.contains(id) {
            assert(blocks[d.index_of(id)] == id);
        }
        if blocks.contains(id) && id != blocks.last() {
            assert(d[blocks.index_of(id)] == id);
        }
    } else {
        assert(!blocks.contains(id));
    }
}

/// The copy of a block on a server is known to be bad.
pub open spec fn is_known_bad(
    bad: Map<Seq<char>, Set<Seq<char>>>,
    id: Seq<char>,
    addr: Seq<char>,
) -> bool {
    bad.contains_key(id) && bad[id].contains(addr)
}

/// The report of a chunk server is taken in as it stands: its space and its
/// blocks are known from then on, at that time; it keeps its rack where it
/// names none. No other server and no file changes. The copies it reports bad
/// are known to be so beside those that were known, and where it reports none
/// nothing is repaired.
pub proof fn law_report_is_taken_in(
    m: MasterState,
    r: ReportView,
    now: u64,
    other: Seq<char>,
    id: Seq<char>,
)
    ensures
        ({
            let s = m.reported(r, now);
            let known = m@.servers.contains_key(r.addr);
            &&& s.files == m@.files
            &&& s.txs == m@.txs
            &&& s.servers.contains_key(r.addr)
            &&& s.servers[r.addr].last_heartbeat == now
            &&& s.servers[r.addr].used_space == r.used_space
            &&& s.servers[r.addr].available_space == r.available_space
            &&& s.servers[r.addr].chunk_count == r.chunk_count
            &&& r.rack_id.len() > 0 ==> s.servers[r.addr].rack_id == r.rack_id
            &&& r.rack_id.len() == 0 && known ==> s.servers[r.addr].rack_id
                == m@.servers[r.addr].rack_id
            &&& r.rack_id.len() == 0 && !known ==> s.servers[r.addr].rack_id.len() == 0
            &&& other != r.addr ==> s.servers.contains_key(other) == m@.servers.contains_key(other)
                && (m@.servers.contains_key(other) ==> s.servers[other] == m@.servers[other])
            &&& is_known_bad(s.bad, id, other) <==> is_known_bad(m@.bad, id, other) || (other
                == r.addr && r.bad_blocks.contains(id))
            &&& r.bad_blocks.len() == 0 ==> s.pending == m@.pending
        }),
{
    if r.bad_blocks.len() > 0 {
        lemma_with_bad(m@.bad, r.bad_blocks, r.addr, id, other);
    } else {
        assert(!r.bad_blocks.contains(id));
    }
}

/// Safe mode ends by itself only if it was not forced and a chunk server is
/// known for each that it waits for; then it does so when no block is expected,
/// when the reported share of the expected blocks reaches the threshold in
/// percent, or when it has lasted longer than a minute.
pub proof fn law_when_safe_mode_ends(s: StateView, now: u64)
    requires
        now >= s.entered_at,
    ensures
        s.may_leave(now) <==> {
            &&& s.safe_mode
            &&& !s.manual
            &&& s.servers.len() >= s.min_chunkservers
            &&& s.expected == 0 || 100 * s.reported >= s.threshold * s.expected || now
                - s.entered_at > 60_000
        },
        s.may_leave(now) ==> !s.released().safe_mode,
        s.released().files == s.files,
        s.released().servers == s.servers,
{
}

/// Safe mode begins with all blocks expected and none reported, and waits for
/// one chunk server and for 99 of a hundred blocks; it changes no file.
pub proof fn law_safe_mode_begins(s: StateView, now: u64)
    requires
        total_blocks(s.files) <= usize::MAX,
    ensures
        s.guarded(now).safe_mode,
        s.guarded(now).entered_at == now,
        !s.guarded(now).manual,
        s.guarded(now).reported == 0,
        s.guarded(now).expected == total_blocks(s.files),
        s.guarded(now).threshold == 99,
        s.guarded(now).min_chunkservers == 1,
        s.guarded(now).files == s.files,
        s.guarded(now).servers == s.servers,
        s.guarded(now).txs == s.txs,
{
}

/// Reported blocks add up, and safe mode ends with the report that suffices.
pub proof fn law_reports_add_up(s: StateView, count: usize, now: u64)
    requires
        s.reported + count <= usize::MAX,
        now >= s.entered_at,
    ensures
        s.with_reported(count, now).reported == s.reported + count,
        s.with_reported(count, now).files == s.files,
        s.with_reported(count, now).servers == s.servers,
        s.safe_mode && !s.with_reported(count, now).safe_mode <==> {
            &&& s.safe_mode
            &&& !s.manual
            &&& s.servers.len() >= s.min_chunkservers
            &&& s.expected == 0 || 100 * (s.reported + count) >= s.threshold * s.expected || now
                - s.entered_at > 60_000
        },
        !s.safe_mode ==> !s.with_reported(count, now).safe_mode,
{
}

/// In safe mode the report of a chunk server counts its blocks only the first
/// time; and a report never brings safe mode on.
pub proof fn law_first_report_counts(m: MasterState, r: ReportView, now: u64)
    requires
        m@.reported + r.chunk_count <= usize::MAX,
    ensures
        ({
            let s = m.reported(r, now);
            &&& s.reported == if m@.safe_mode && !m@.servers.contains_key(r.addr) {
                m@.reported + r.chunk_count
            } else {
                m@.reported as int
            }
            &&& s.safe_mode ==> m@.safe_mode
            &&& m@.safe_mode && m@.manual ==> s.safe_mode
            &&& s.expected == m@.expected
        }),
{
}

/// All blocks are counted: a file that is new adds its own, and no files have
/// none.
pub proof fn law_blocks_are_counted(
    files: Map<Seq<char>, FileView>,
    path: Seq<char>,
    f: FileView,
)
    requires
        files.dom().finite(),
        !files.contains_key(path),
    ensures
        total_blocks(Map::empty()) == 0,
        total_blocks(files.insert(path, f)) == total_blocks(files) + f.blocks.len(),
{
    let g = files.insert(path, f);
    let count = |n: nat, p: Seq<char>| n + files[p].blocks.len();
    let count2 = |n: nat, p: Seq<char>| n + g[p].blocks.len();
    let none = Map::<Seq<char>, FileView>::empty();
    vstd::set::fold::lemma_fold_empty::<Seq<char>, nat>(
        0,
        |n: nat, p: Seq<char>| n + none[p].blocks.len(),
    );
    assert(none.dom() =~= Set::<Seq<char>>::empty());
    lemma_same_count(files.dom(), count, count2, files, g);
    assert(g.dom() =~= files.dom().insert(path));
    vstd::set::fold::lemma_fold_insert::<Seq<char>, nat>(files.dom(), 0, count2, path);
}

proof fn lemma_same_count(
    s: Set<Seq<char>>,
    a: spec_fn(nat, Seq<char>) -> nat,
    b: spec_fn(nat, Seq<char>) -> nat,
    files: Map<Seq<char>, FileView>,
    g: Map<Seq<char>, FileView>,
)
    requires
        s.finite(),
        a == (|n: nat, p: Seq<char>| n + files[p].blocks.len()),
        b == (|n: nat, p: Seq<char>| n + g[p].blocks.len()),
        forall|p: Seq<char>| s.contains(p) ==> #[trigger] files[p] == g[p],
    ensures
        s.fold(0, a) == s.fold(0, b),
    decreases s.len(),
{
    if s.len() == 0 {
        assert(s =~= Set::<Seq<char>>::empty());
        vstd::set::fold::lemma_fold_empty::<Seq<char>, nat>(0, a);
        vstd::set::fold::lemma_fold_empty::<Seq<char>, nat>(0, b);
    } else {
        let x = s.choose();
        let t = s.remove(x);
        lemma_same_count(t, a, b, files, g);
        assert(s =~= t.insert(x));
        vstd::set::fold::lemma_fold_insert::<Seq<char>, nat>(t, 0, a, x);
        vstd::set::fold::lemma_fold_insert::<Seq<char>, nat>(t, 0, b, x);
        assert(files[x] == g[x]);
    }
}

/// A chunk server that registers has all its space and no blocks.
pub proof fn law_new_server_is_empty(now: u64, capacity: u64, rack_id: Seq<char>)
    ensures
        new_server(now, capacity, rack_id).last_heartbeat == now,
        new_server(now, capacity, rack_id).available_space == capacity,
        new_server(now, capacity, rack_id).used_space == 0,
        new_server(now, capacity, rack_id).chunk_count == 0,
        new_server(now, capacity, rack_id).rack_id == rack_id,
{
}

/// A proposal that went through is answered with success; one that met a node
/// that does not lead is not, and names the leader if it is known; one that was
/// lost fails.
pub proof fn law_answers_tell_the_outcome(o: OutcomeView, lost: Seq<char>)
    ensures
        (answer_of(o, lost) matches Ok(a) && a.success) <==> o is Done,
        o is NotLeader <==> (answer_of(o, lost) matches Ok(a) && !a.success),
        o matches OutcomeView::NotLeader { leader: Some(l) } ==> answer_of(o, lost)->Ok_0.leader_hint
            == l,
        answer_of(o, lost) is Err ==> answer_of(o, lost)->Err_0.code == StatusCode::Internal,
{
}

/// A read goes on only where it is known to be linearizable.
pub proof fn law_reads_go_on_when_ready(o: ReadOutcome)
    ensures
        read_failure(o) is None <==> o is Ready,
        o is NotLeader <==> (read_failure(o) is Some && read_failure(o)->0.code
            == StatusCode::FailedPrecondition),
{
}

/// Where a chunk server reports bad copies, all blocks are repaired as of the
/// servers that are known then, itself among them, and of the copies that are
/// known to be bad then.
pub proof fn law_bad_copies_are_repaired(m: MasterState, r: ReportView, now: u64) -> (cl: Cluster)
    requires
        r.bad_blocks.len() > 0,
        forall|a: Seq<char>| m@.servers.contains_key(a) <==> #[trigger]
            m.chunk_servers.key_seq().contains(a),
    ensures
        forall|a: Seq<char>| #[trigger]
            cl.live.contains(a) <==> m.reported(r, now).servers.contains_key(a),
        cl.bad == m.reported(r, now).bad,
        m.reported(r, now).pending == with_orders(
            m@.pending,
            repair_files(cl, m@.files, m.files.key_seq()),
        ),
{
    let s = m.reported(r, now);
    let ks = m.chunk_servers.key_seq();
    let live = if m@.servers.contains_key(r.addr) {
        ks
    } else {
        ks.push(r.addr)
    };
    assert forall|a: Seq<char>| #[trigger] live.contains(a) <==> s.servers.contains_key(a) by {
        if ks.contains(a) {
            assert(live[ks.index_of(a)] == a);
        }
        if a == r.addr && !m@.servers.contains_key(r.addr) {
            assert(live[ks.len() as int] == a);
        }
        if live.contains(a) && a != r.addr {
            assert(ks[live.index_of(a)] == a);
        }
    }
    Cluster { live, bad: s.bad }
}

/// The listing of a prefix keeps the order of the paths and lists each of those
/// that begin with the prefix, and no other.
pub proof fn law_listing_keeps_order(paths: Seq<Seq<char>>, prefix: Seq<char>)
    ensures
        under(paths, prefix) == paths.filter(|p: Seq<char>| prefix.is_prefix_of(p)),
    decreases paths.len(),
{
    reveal(Seq::filter);
    if paths.len() > 0 {
        law_listing_keeps_order(paths.drop_last(), prefix);
    } else {
        assert(under(paths, prefix) =~= paths.filter(|p: Seq<char>| prefix.is_prefix_of(p)));
    }
}

/// What is listed under a prefix are the paths of all files under it, and where
/// a block is told to be is where some file has it.
pub proof fn law_what_is_looked_up(
    m: MasterState,
    prefix: &str,
    listed: Vec<String>,
    block_id: &str,
    places: Option<Vec<String>>,
    p: Seq<char>,
)
    requires
        call_ensures(MasterState::list_files, (&m, prefix), listed),
        call_ensures(MasterState::get_block_locations, (&m, block_id), places),
        forall|a: Seq<char>| m@.files.contains_key(a) <==> #[trigger]
            m.files.key_seq().contains(a),
    ensures
        listed.deep_view().contains(p) <==> m@.files.contains_key(p) && prefix@.is_prefix_of(p),
        places matches Some(l) ==> exists|f: Seq<char>| #[trigger]
            m@.files.contains_key(f) && holds_at(m@.files[f], block_id@, l.deep_view()),
        places is None && m@.files.contains_key(p) ==> !holds_block(m@.files[p], block_id@),
{
    let ks = m.files.key_seq();
    law_listed_paths(ks, prefix@, p);
    law_blocks_are_found(m@.files, ks, block_id@);
    assert(ks.contains(p) == m@.files.contains_key(p));
    if let Some(l) = places {
        let i = choose|i: int|
            0 <= i < ks.len() && holds_at(m@.files[#[trigger] ks[i]], block_id@, l.deep_view());
        assert(ks.contains(ks[i]));
        assert(m@.files.contains_key(ks[i]));
    } else if m@.files.contains_key(p) {
        let i = ks.index_of(p);
        assert(!holds_block(m@.files[ks[i]], block_id@));
    }
}

/// A request for the metadata of a file that there is comes to count as an
/// access to it at that time.
pub proof fn law_accesses_are_noted(s: StateView, path: &str, now: u64, c: Command)
    requires
        call_ensures(access_command, (path, now), c),
        s.files.contains_key(path@),
        s.files[path@].access_count < u64::MAX,
    ensures
        c@ matches CommandView::Master(m) && s.after(m).files[path@].last_access_ms == now && s.after(
            m,
        ).files[path@].access_count == s.files[path@].access_count + 1 && alike_except(
            s.files,
            s.after(m).files,
            path@,
        ),
{
}

} // verus!
