//! What the upkeep of a shard decides: where new blocks go, which servers are
//! given up, which blocks move, which files go cold, and which transactions
//! end.

use crate::ids::{before_hyphen, is_hex, is_uuid};
use crate::master::allocate::{allocate_answer, candidates, AllocateBlockResponse, Allocation};
use crate::master::admin::{
    counted, directory, files_from, first_component, keyed_by_path, load_prefix, merge_partner,
    remove_plan, role_name, shuffle_after, split_command, up_to_slash, PrefixCount,
};
use crate::master::apply::with_batch;
use crate::master::laws::law_allocated_servers;
use crate::master::placement::{placement, rack_key, racks, ranked, spots};
use crate::master::requests::elsewhere;
use crate::master::scan::{
    abort_commands, emptiest_first, emptiest_last, forget_commands, fullest_first, fullest_last,
    movable_block, movable_in, survivors,
};
use crate::master::service::{Outcome, OutcomeView, PlanView, RouteView, Status, StatusCode};
use crate::master::spread::{
    distinct, law_placement, law_placement_prefers_space, law_placement_spreads, stands_in,
};
use crate::master::state::{MasterState, StateView};
use crate::master::tiering::{cold_orders, ec_commands, roomy, tiering_commands, tiering_orders};
use crate::master::transaction::{TxOpTypeView, TxState, TxView};
use crate::master::types::{BlockView, CommandType, FileMetadata, FileView, OrderView, StatusView};
use crate::raft::command::{CommandView, MasterCommandView, MembershipView};
use crate::raft::config::Role;
use crate::sorting::{in_order, lemma_sorted, sorted_texts};
use crate::text::{text_le, text_lt};
use vstd::prelude::*;
use vstd::string::*;

verus! {

/// A block is allocated for a file of this shard outside safe mode, where
/// there are servers: one for each shard of an erasure-coded file, and else
/// three, or as many as there are. The block gets the id and the policy.
pub proof fn law_what_is_allocated(
    s: MasterState,
    own: Seq<char>,
    route: RouteView,
    path: Seq<char>,
    block_id: Seq<char>,
)
    requires
        s.chunk_servers.key_seq().no_duplicates(),
        forall|k: Seq<char>| #[trigger]
            s.chunk_servers.key_seq().contains(k) ==> s@.servers.contains_key(k),
    ensures
        ({
            let r = s.allocation(own, route, path, block_id);
            let n = s.chunk_servers.key_seq().len() as int;
            let f = s@.files[path];
            let coded = f.ec_data_shards > 0 && f.ec_parity_shards > 0;
            if elsewhere(own, route) || s@.safe_mode {
                r is Err
            } else if !s@.files.contains_key(path) {
                r is Err && r->Err_0.code == StatusCode::NotFound
            } else if n == 0 || (coded && n < f.ec_data_shards + f.ec_parity_shards) {
                r is Err && r->Err_0.code == StatusCode::Unavailable
            } else {
                &&& r matches Ok(a)
                &&& a.block_id == block_id
                &&& a.ec_data_shards == f.ec_data_shards
                &&& a.ec_parity_shards == f.ec_parity_shards
                &&& a.locations.len() == if coded {
                    f.ec_data_shards + f.ec_parity_shards
                } else if n < 3 {
                    n
                } else {
                    3
                }
                &&& a.locations.no_duplicates()
            }
        }),
{
    law_allocated_servers(s, own, route, path, block_id);
}

/// The server at `addr` names the rack.
pub open spec fn names_rack(
    servers: Seq<(Seq<char>, StatusView)>,
    addr: Seq<char>,
    rack_id: Seq<char>,
) -> bool {
    exists|i: int|
        0 <= i < servers.len() && (#[trigger] servers[i]).0 == addr && servers[i].1.rack_id
            == rack_id
}

/// One of the chosen servers names the rack.
pub open spec fn has_one_of(
    chosen: Seq<Seq<char>>,
    servers: Seq<(Seq<char>, StatusView)>,
    rack_id: Seq<char>,
) -> bool {
    exists|k: int| 0 <= k < chosen.len() && names_rack(servers, #[trigger] chosen[k], rack_id)
}

/// No two chosen servers are in one rack as long as some rack has none: where
/// two of them name the same rack, one of the chosen names each rack that any
/// server names.
pub proof fn law_racks_are_used_evenly(
    servers: Seq<(Seq<char>, StatusView)>,
    n: int,
    i: int,
    j: int,
    rack: Seq<char>,
    k: int,
)
    requires
        n >= 0,
        distinct(servers),
        forall|m: int|
            0 <= m < servers.len() ==> !"__addr__"@.is_prefix_of(
                (#[trigger] servers[m]).1.rack_id,
            ),
        0 <= i < j < placement(servers, n).len(),
        rack.len() > 0,
        names_rack(servers, placement(servers, n)[i], rack),
        names_rack(servers, placement(servers, n)[j], rack),
        0 <= k < servers.len(),
        servers[k].1.rack_id.len() > 0,
    ensures
        has_one_of(placement(servers, n), servers, servers[k].1.rack_id),
{
    let p = placement(servers, n);
    let ks = racks(ranked(spots(servers)));
    law_placement_spreads(servers, n);
    law_placement(servers, n);
    let a = choose|a: int|
        0 <= a < servers.len() && (#[trigger] servers[a]).0 == p[i] && servers[a].1.rack_id == rack;
    let b = choose|b: int|
        0 <= b < servers.len() && (#[trigger] servers[b]).0 == p[j] && servers[b].1.rack_id == rack;
    if j < ks.len() {
        assert(stands_in(servers, p[i], ks[i]));
        assert(stands_in(servers, p[j], ks[j]));
        assert(ks[i] == rack);
        assert(ks[j] == rack);
        assert(false);
    }
    let want = servers[k].1.rack_id;
    assert(ks.contains(rack_key(servers[k].0, servers[k].1.rack_id)));
    let q = ks.index_of(want);
    assert(stands_in(servers, p[q], ks[q]));
    let c = choose|c: int|
        0 <= c < servers.len() && (#[trigger] servers[c]).0 == p[q] && rack_key(
            servers[c].0,
            servers[c].1.rack_id,
        ) == ks[q];
    if servers[c].1.rack_id.len() == 0 {
        let fake = "__addr__"@ + servers[c].0;
        assert("__addr__"@ =~= fake.take("__addr__"@.len() as int));
        assert("__addr__"@.is_prefix_of(want));
    }
    assert(names_rack(servers, p[q], want));
}

/// A chunk server is given up when nothing was heard of it for more than
/// fifteen seconds, and the orders that wait for it go with it. Every other
/// server stays, with what waits for it, and so do all files.
pub proof fn law_silent_servers_go(s: StateView, now: u64, a: Seq<char>)
    requires
        s.servers.contains_key(a) ==> now >= s.servers[a].last_heartbeat,
    ensures
        ({
            let r = s.without_dead(now);
            let silent = s.servers.contains_key(a) && now - s.servers[a].last_heartbeat > 15_000;
            &&& r.servers.contains_key(a) <==> s.servers.contains_key(a) && !silent
            &&& r.servers.contains_key(a) ==> r.servers[a] == s.servers[a]
            &&& r.pending.contains_key(a) <==> s.pending.contains_key(a) && !silent
            &&& r.pending.contains_key(a) ==> r.pending[a] == s.pending[a]
            &&& r.files == s.files
            &&& r.txs == s.txs
            &&& r.bad == s.bad
            &&& r.safe_mode == s.safe_mode
        }),
{
    let dead = Set::new(|x: Seq<char>| s.dead_at(x, now));
    assert(dead.contains(a) == s.dead_at(a, now));
}

/// The servers that are left are those that were heard of in time.
pub proof fn law_survivors(
    servers: Map<Seq<char>, StatusView>,
    keys: Seq<Seq<char>>,
    now: u64,
    a: Seq<char>,
)
    requires
        now >= servers[a].last_heartbeat,
    ensures
        survivors(servers, keys, now).contains(a) <==> keys.contains(a) && now
            - servers[a].last_heartbeat <= 15_000,
    decreases keys.len(),
{
    if keys.len() > 0 {
        let d = keys.drop_last();
        let r = survivors(servers, d, now);
        let all = survivors(servers, keys, now);
        law_survivors(servers, d, now, a);
        assert(keys[keys.len() - 1] == keys.last());
        if d.contains(a) {
            assert(keys[d.index_of(a)] == a);
        }
        if keys.contains(a) && a != keys.last() {
            assert(d[keys.index_of(a)] == a);
        }
        if r.contains(a) {
            assert(all[r.index_of(a)] == a);
        }
        if all.contains(a) && !r.contains(a) {
            let i = all.index_of(a);
            if i < r.len() {
                assert(r[i] == a);
            }
        }
        if all.len() > r.len() {
            assert(all[r.len() as int] == keys.last());
        }
    } else {
        assert(!keys.contains(a));
        assert(!survivors(servers, keys, now).contains(a));
    }
}

proof fn lemma_extremes(servers: Map<Seq<char>, StatusView>, keys: Seq<Seq<char>>)
    requires
        keys.len() > 0,
    ensures
        keys.contains(fullest_first(servers, keys)),
        keys.contains(fullest_last(servers, keys)),
        keys.contains(emptiest_first(servers, keys)),
        keys.contains(emptiest_last(servers, keys)),
        forall|i: int|
            0 <= i < keys.len() ==> {
                let x = servers[#[trigger] keys[i]].available_space;
                &&& servers[fullest_first(servers, keys)].available_space <= x
                &&& servers[fullest_last(servers, keys)].available_space <= x
                &&& servers[emptiest_first(servers, keys)].available_space >= x
                &&& servers[emptiest_last(servers, keys)].available_space >= x
            },
    decreases keys.len(),
{
    assert(keys[keys.len() - 1] == keys.last());
    if keys.len() > 1 {
        let d = keys.drop_last();
        lemma_extremes(servers, d);
        assert forall|x: Seq<char>| #[trigger] d.contains(x) implies keys.contains(x) by {
            assert(keys[d.index_of(x)] == x);
        }
        assert forall|i: int| 0 <= i < keys.len() implies {
            let x = servers[#[trigger] keys[i]].available_space;
            &&& servers[fullest_first(servers, keys)].available_space <= x
            &&& servers[fullest_last(servers, keys)].available_space <= x
            &&& servers[emptiest_first(servers, keys)].available_space >= x
            &&& servers[emptiest_last(servers, keys)].available_space >= x
        } by {
            if i < d.len() {
                assert(d[i] == keys[i]);
            }
        }
    } else {
        assert(keys[0] == keys.last());
    }
}

/// The file has a block with the id that is on `from` and not on `to`.
pub open spec fn can_move(f: FileView, id: Seq<char>, from: Seq<char>, to: Seq<char>) -> bool {
    exists|k: int|
        0 <= k < f.blocks.len() && (#[trigger] f.blocks[k]).block_id == id
            && f.blocks[k].locations.contains(from) && !f.blocks[k].locations.contains(to)
}

proof fn lemma_movable_block(blocks: Seq<BlockView>, from: Seq<char>, to: Seq<char>)
    ensures
        match movable_block(blocks, from, to) {
            Some(id) => exists|k: int|
                0 <= k < blocks.len() && (#[trigger] blocks[k]).block_id == id
                    && blocks[k].locations.contains(from) && !blocks[k].locations.contains(to),
            None => forall|k: int|
                0 <= k < blocks.len() ==> !((#[trigger] blocks[k]).locations.contains(from)
                    && !blocks[k].locations.contains(to)),
        },
    decreases blocks.len(),
{
    if blocks.len() > 0 {
        let d = blocks.drop_last();
        lemma_movable_block(d, from, to);
        assert(blocks[blocks.len() - 1] == blocks.last());
        if let Some(id) = movable_block(d, from, to) {
            let k = choose|k: int|
                0 <= k < d.len() && (#[trigger] d[k]).block_id == id && d[k].locations.contains(
                    from,
                ) && !d[k].locations.contains(to);
            assert(blocks[k] == d[k]);
        } else if movable_block(blocks, from, to) is None {
            assert forall|k: int| 0 <= k < blocks.len() implies !((
            #[trigger] blocks[k]).locations.contains(from) && !blocks[k].locations.contains(
                to,
            )) by {
                if k < d.len() {
                    assert(d[k] == blocks[k]);
                }
            }
        }
    }
}

/// A block that moves is one of a file under the prefix, held by the server it
/// leaves and not by the one it goes to. Where none moves there is no such
/// block.
pub proof fn law_what_moves(
    files: Map<Seq<char>, FileView>,
    paths: Seq<Seq<char>>,
    prefix: Seq<char>,
    from: Seq<char>,
    to: Seq<char>,
)
    ensures
        match movable_in(files, paths, prefix, from, to) {
            Some(id) => exists|p: int|
                0 <= p < paths.len() && prefix.is_prefix_of(files[#[trigger] paths[p]].path)
                    && can_move(files[paths[p]], id, from, to),
            None => forall|p: int, id: Seq<char>|
                0 <= p < paths.len() && prefix.is_prefix_of(files[paths[p]].path)
                    ==> !#[trigger] can_move(files[paths[p]], id, from, to),
        },
    decreases paths.len(),
{
    if paths.len() > 0 {
        let d = paths.drop_last();
        law_what_moves(files, d, prefix, from, to);
        let f = files[paths.last()];
        lemma_movable_block(f.blocks, from, to);
        assert(paths[paths.len() - 1] == paths.last());
        if let Some(id) = movable_in(files, d, prefix, from, to) {
            let p = choose|p: int|
                0 <= p < d.len() && prefix.is_prefix_of(files[#[trigger] d[p]].path) && can_move(
                    files[d[p]],
                    id,
                    from,
                    to,
                );
            assert(paths[p] == d[p]);
        } else if let Some(id) = movable_in(files, paths, prefix, from, to) {
            assert(can_move(files[paths[paths.len() - 1]], id, from, to));
        } else {
            assert forall|p: int, id: Seq<char>|
                0 <= p < paths.len() && prefix.is_prefix_of(
                    files[paths[p]].path,
                ) implies !#[trigger] can_move(files[paths[p]], id, from, to) by {
                if p < d.len() {
                    assert(d[p] == paths[p]);
                    assert(!can_move(files[d[p]], id, from, to));
                }
            }
        }
    }
}

/// The order is to copy a block of a file under the prefix from one server to
/// another that has none of it.
pub open spec fn copies_under(
    m: MasterState,
    prefix: Seq<char>,
    from: Seq<char>,
    o: OrderView,
) -> bool {
    exists|p: int|
        0 <= p < m.files.key_seq().len() && prefix.is_prefix_of(
            m@.files[#[trigger] m.files.key_seq()[p]].path,
        ) && can_move(m@.files[m.files.key_seq()[p]], o.block_id, from, o.target)
}

/// Balancing orders a copy of a block of the server with the least space for
/// the one with the most, which lacks it, and only where their space is more
/// than a hundred mebibytes apart. It orders none only where that is not so or
/// where no block can go.
pub proof fn law_balance(m: MasterState, k: Seq<char>)
    requires
        forall|a: Seq<char>| m@.servers.contains_key(a) <==> #[trigger]
            m.chunk_servers.key_seq().contains(a),
        m@.servers.contains_key(k),
    ensures
        match m.balance_order() {
            Some((from, o)) => {
                &&& m@.servers.contains_key(from)
                &&& m@.servers.contains_key(o.target)
                &&& o.command_type == CommandType::Replicate
                &&& m@.servers[from].available_space <= m@.servers[k].available_space
                &&& m@.servers[o.target].available_space >= m@.servers[k].available_space
                &&& m@.servers[o.target].available_space - m@.servers[from].available_space
                    > 100 * 1024 * 1024
                &&& copies_under(m, Seq::empty(), from, o)
            },
            None => true,
        },
{
    let ks = m.chunk_servers.key_seq();
    if m.balance_order() is Some {
        let full = fullest_first(m@.servers, ks);
        let empty = emptiest_last(m@.servers, ks);
        lemma_extremes(m@.servers, ks);
        law_what_moves(m@.files, m.files.key_seq(), Seq::empty(), full, empty);
        assert(ks.contains(k));
        assert(m@.servers[ks[ks.index_of(k)]].available_space == m@.servers[k].available_space);
    }
}

/// Balancing finds something to do wherever two servers are more than a
/// hundred mebibytes apart and a block is on every fuller one of such a pair
/// and not on the emptier.
pub proof fn law_balance_acts(m: MasterState, a: Seq<char>, b: Seq<char>)
    requires
        forall|x: Seq<char>| m@.servers.contains_key(x) <==> #[trigger]
            m.chunk_servers.key_seq().contains(x),
        m@.servers.contains_key(a),
        m@.servers.contains_key(b),
        m@.servers[b].available_space - m@.servers[a].available_space > 100 * 1024 * 1024,
        forall|from: Seq<char>, to: Seq<char>|
            m@.servers.contains_key(from) && m@.servers.contains_key(to) && from != to
                ==> #[trigger] movable_somewhere(m, from, to),
    ensures
        m.balance_order() is Some,
{
    let ks = m.chunk_servers.key_seq();
    assert(ks.contains(a) && ks.contains(b));
    let i = ks.index_of(a);
    let j = ks.index_of(b);
    assert(ks[i] == a && ks[j] == b);
    lemma_extremes(m@.servers, ks);
    let full = fullest_first(m@.servers, ks);
    let empty = emptiest_last(m@.servers, ks);
    law_what_moves(m@.files, m.files.key_seq(), Seq::empty(), full, empty);
    assert(movable_somewhere(m, full, empty));
    let (p, id) = choose|p: int, id: Seq<char>|
        0 <= p < m.files.key_seq().len() && #[trigger] can_move(
            m@.files[m.files.key_seq()[p]],
            id,
            full,
            empty,
        );
    let f = m@.files[m.files.key_seq()[p]];
    assert(Seq::<char>::empty().is_prefix_of(f.path));
}

/// Some block is on `from` and not on `to`.
pub open spec fn movable_somewhere(m: MasterState, from: Seq<char>, to: Seq<char>) -> bool {
    exists|p: int, id: Seq<char>|
        0 <= p < m.files.key_seq().len() && #[trigger] can_move(
            m@.files[m.files.key_seq()[p]],
            id,
            from,
            to,
        )
}

/// Shuffling a prefix orders a copy of a block under it of a server with the
/// least space for one with the most, which lacks it.
pub proof fn law_shuffle(m: MasterState, prefix: Seq<char>, k: Seq<char>)
    requires
        forall|a: Seq<char>| m@.servers.contains_key(a) <==> #[trigger]
            m.chunk_servers.key_seq().contains(a),
        m@.servers.contains_key(k),
    ensures
        match m.shuffle_order(prefix) {
            Some((from, o)) => {
                &&& m@.servers.contains_key(from)
                &&& m@.servers.contains_key(o.target)
                &&& o.command_type == CommandType::Replicate
                &&& m@.servers[from].available_space <= m@.servers[k].available_space
                &&& m@.servers[o.target].available_space >= m@.servers[k].available_space
                &&& copies_under(m, prefix, from, o)
            },
            None => true,
        },
{
    let ks = m.chunk_servers.key_seq();
    assert(ks.contains(k));
    let full = fullest_last(m@.servers, ks);
    let empty = emptiest_first(m@.servers, ks);
    lemma_extremes(m@.servers, ks);
    law_what_moves(m@.files, m.files.key_seq(), prefix, full, empty);
    assert(m@.servers[ks[ks.index_of(k)]].available_space == m@.servers[k].available_space);
}

/// Clean-up aborts just the transactions that are undecided for more than ten
/// seconds.
pub proof fn law_overdue_transactions_abort(
    txs: Map<Seq<char>, TxView>,
    ids: Seq<Seq<char>>,
    now: u64,
    id: Seq<char>,
)
    requires
        now >= txs[id].timestamp,
    ensures
        abort_commands(txs, ids, now).contains(
            MasterCommandView::UpdateTransactionState { tx_id: id, new_state: TxState::Aborted },
        ) <==> ids.contains(id) && (txs[id].state == TxState::Pending || txs[id].state
            == TxState::Prepared) && now - txs[id].timestamp > 10_000,
    decreases ids.len(),
{
    let all = abort_commands(txs, ids, now);
    let c = MasterCommandView::UpdateTransactionState { tx_id: id, new_state: TxState::Aborted };
    if ids.len() > 0 {
        let d = ids.drop_last();
        let r = abort_commands(txs, d, now);
        law_overdue_transactions_abort(txs, d, now, id);
        lemma_listed(ids, id);
        if all != r {
            assert(all.drop_last() =~= r);
        }
        lemma_pushed(r, all, c);
    } else {
        assert(!ids.contains(id));
        assert(!all.contains(c));
    }
}

/// Clean-up forgets just the transactions that were decided and began more than
/// an hour ago.
pub proof fn law_old_transactions_are_forgotten(
    txs: Map<Seq<char>, TxView>,
    ids: Seq<Seq<char>>,
    now: u64,
    id: Seq<char>,
)
    requires
        now >= txs[id].timestamp,
    ensures
        forget_commands(txs, ids, now).contains(
            MasterCommandView::DeleteTransactionRecord { tx_id: id },
        ) <==> ids.contains(id) && (txs[id].state == TxState::Committed || txs[id].state
            == TxState::Aborted) && now - txs[id].timestamp > 3_600_000,
    decreases ids.len(),
{
    let all = forget_commands(txs, ids, now);
    let c = MasterCommandView::DeleteTransactionRecord { tx_id: id };
    if ids.len() > 0 {
        let d = ids.drop_last();
        let r = forget_commands(txs, d, now);
        law_old_transactions_are_forgotten(txs, d, now, id);
        lemma_listed(ids, id);
        if all != r {
            assert(all.drop_last() =~= r);
        }
        lemma_pushed(r, all, c);
    } else {
        assert(!ids.contains(id));
        assert(!all.contains(c));
    }
}

/// Clean-up does nothing but abort and forget transactions that there are.
pub proof fn law_cleanup_does_nothing_else(
    txs: Map<Seq<char>, TxView>,
    ids: Seq<Seq<char>>,
    now: u64,
    i: int,
)
    ensures
        0 <= i < abort_commands(txs, ids, now).len() ==> (abort_commands(txs, ids, now)[i]
            matches MasterCommandView::UpdateTransactionState { tx_id, new_state } && new_state
            == TxState::Aborted && ids.contains(tx_id)),
        0 <= i < forget_commands(txs, ids, now).len() ==> (forget_commands(txs, ids, now)[i]
            matches MasterCommandView::DeleteTransactionRecord { tx_id } && ids.contains(tx_id)),
    decreases ids.len(),
{
    if ids.len() > 0 {
        let d = ids.drop_last();
        law_cleanup_does_nothing_else(txs, d, now, i);
        assert(ids[ids.len() - 1] == ids.last());
        assert forall|y: Seq<char>| #[trigger] d.contains(y) implies ids.contains(y) by {
            assert(ids[d.index_of(y)] == y);
        }
    }
}

/// What is in a list is in it without its last element, or is that element.
proof fn lemma_listed(ids: Seq<Seq<char>>, id: Seq<char>)
    requires
        ids.len() > 0,
    ensures
        ids.contains(id) <==> ids.drop_last().contains(id) || ids.last() == id,
{
    let d = ids.drop_last();
    if d.contains(id) {
        assert(ids[d.index_of(id)] == id);
    }
    if ids.last() == id {
        assert(ids[ids.len() - 1] == id);
    }
    if ids.contains(id) && ids.last() != id {
        assert(d[ids.index_of(id)] == id);
    }
}

/// What a list holds that is another one, or that one with one more.
proof fn lemma_pushed<T>(before: Seq<T>, now: Seq<T>, x: T)
    requires
        now =~= before || (now.len() == before.len() + 1 && now.drop_last() =~= before),
    ensures
        now.contains(x) <==> before.contains(x) || (now != before && now.last() == x),
{
    if now != before {
        if before.contains(x) {
            assert(now[before.index_of(x)] == now.drop_last()[before.index_of(x)]);
        }
        if now.last() == x {
            assert(now[now.len() - 1] == x);
        }
        if now.contains(x) {
            let i = now.index_of(x);
            if i < before.len() {
                assert(before[i] == now.drop_last()[i]);
            }
        }
    }
}

/// A transaction says that it creates a file exactly if one of its operations
/// does, and then with the metadata of such an operation; and it deletes a file
/// exactly if one of its operations does.
pub proof fn law_what_a_transaction_does(tx: TxView, path: Seq<char>, i: int)
    requires
        0 <= i < tx.operations.len(),
    ensures
        tx.operations[i].op_type matches TxOpTypeView::Create { path: p, .. } && p == path
            ==> tx.creates(path) && tx.created(path) is Some,
        tx.operations[i].op_type == (TxOpTypeView::Delete { path }) ==> tx.deletes(path),
        tx.created(path) matches Some(m) ==> creates_with(tx, path, m),
        tx.creates(path) <==> tx.created(path) is Some,
{
    if tx.creates(path) {
        let a = choose|a: int| 0 <= a < tx.operations.len() && #[trigger] tx.creates_at(a, path);
        lemma_first_creator(tx, path, a);
    }
    if tx.operations[i].op_type matches TxOpTypeView::Create { path: p, .. } && p == path {
        assert(tx.creates_at(i, path));
    }
}

/// One of the operations creates the file with the metadata.
pub open spec fn creates_with(tx: TxView, path: Seq<char>, m: FileView) -> bool {
    exists|i: int|
        0 <= i < tx.operations.len() && (#[trigger] tx.operations[i]).op_type == (
        TxOpTypeView::Create { path, metadata: m })
}

proof fn lemma_first_creator(tx: TxView, path: Seq<char>, at: int)
    requires
        0 <= at < tx.operations.len(),
        tx.creates_at(at, path),
    ensures
        tx.created(path) is Some,
        creates_with(tx, path, tx.created(path)->0),
    decreases at,
{
    if exists|j: int| 0 <= j < at && #[trigger] tx.creates_at(j, path) {
        let j = choose|j: int| 0 <= j < at && #[trigger] tx.creates_at(j, path);
        lemma_first_creator(tx, path, j);
    } else {
        assert(tx.creates(path));
        let i = choose|i: int|
            0 <= i < tx.operations.len() && #[trigger] tx.creates_at(i, path) && forall|j: int|
                0 <= j < i ==> !#[trigger] tx.creates_at(j, path);
        assert(0 <= at < tx.operations.len() && tx.creates_at(at, path) && forall|j: int|
            0 <= j < at ==> !#[trigger] tx.creates_at(j, path));
        assert(tx.creates_at(i, path));
        assert(tx.operations[i].op_type == (TxOpTypeView::Create {
            path,
            metadata: tx.operations[i].op_type->metadata,
        }));
    }
}

/// The file was read, longer ago than the threshold, and is neither cold nor
/// erasure-coded.
pub open spec fn is_cooling(f: FileView, now: u64, threshold_ms: u64) -> bool {
    &&& f.moved_to_cold_at_ms == 0
    &&& f.ec_data_shards == 0
    &&& f.last_access_ms > 0
    &&& now > f.last_access_ms + threshold_ms
}

/// Just the files that were read, longer ago than the threshold, and are
/// neither cold nor erasure-coded, are recorded as cold, at that time.
pub proof fn law_what_goes_cold(
    files: Map<Seq<char>, FileView>,
    paths: Seq<Seq<char>>,
    now: u64,
    threshold_ms: u64,
    c: MasterCommandView,
)
    ensures
        tiering_commands(files, paths, now, threshold_ms).contains(c) <==> exists|p: int|
            0 <= p < paths.len() && is_cooling(files[#[trigger] paths[p]], now, threshold_ms) && c
                == (MasterCommandView::MoveToCold {
                path: files[paths[p]].path,
                moved_at_ms: now,
            }),
    decreases paths.len(),
{
    let all = tiering_commands(files, paths, now, threshold_ms);
    if paths.len() > 0 {
        let d = paths.drop_last();
        let r = tiering_commands(files, d, now, threshold_ms);
        law_what_goes_cold(files, d, now, threshold_ms, c);
        assert(paths[paths.len() - 1] == paths.last());
        if all.len() != r.len() {
            assert(all.drop_last() =~= r);
        }
        lemma_pushed(r, all, c);
        if r.contains(c) {
            let p = choose|p: int|
                0 <= p < d.len() && is_cooling(files[#[trigger] d[p]], now, threshold_ms) && c == (
                MasterCommandView::MoveToCold { path: files[d[p]].path, moved_at_ms: now });
            assert(paths[p] == d[p]);
        }
        if exists|p: int|
            0 <= p < paths.len() && is_cooling(files[#[trigger] paths[p]], now, threshold_ms) && c
                == (MasterCommandView::MoveToCold {
                path: files[paths[p]].path,
                moved_at_ms: now,
            }) {
            let p = choose|p: int|
                0 <= p < paths.len() && is_cooling(files[#[trigger] paths[p]], now, threshold_ms)
                    && c == (MasterCommandView::MoveToCold {
                    path: files[paths[p]].path,
                    moved_at_ms: now,
                });
            if p < d.len() {
                assert(d[p] == paths[p]);
            } else {
                assert(all.last() == c);
            }
        }
    } else {
        assert(!all.contains(c));
    }
}

/// The order is to move a block of the file to cold storage, and goes to one of
/// the servers that hold it.
pub open spec fn cools(f: FileView, addr: Seq<char>, o: OrderView) -> bool {
    &&& o.command_type == CommandType::MoveToCold
    &&& o.target.len() == 0
    &&& o.shard_index == 0
    &&& o.ec_data_shards == 0
    &&& o.ec_parity_shards == 0
    &&& o.ec_shard_sources.len() == 0
    &&& o.original_block_size == 0
    &&& exists|k: int|
        0 <= k < f.blocks.len() && (#[trigger] f.blocks[k]).block_id == o.block_id
            && f.blocks[k].locations.contains(addr)
}

proof fn lemma_cold_orders(f: FileView, n: int, x: (Seq<char>, OrderView))
    requires
        0 <= n <= f.blocks.len(),
    ensures
        cold_orders(f.blocks.take(n)).contains(x) ==> cools(f, x.0, x.1),
        forall|k: int, a: Seq<char>|
            0 <= k < n && #[trigger] f.blocks[k].locations.contains(a) ==> told_to_cool(
                cold_orders(f.blocks.take(n)),
                a,
                f.blocks[k].block_id,
            ),
    decreases n,
{
    let t = f.blocks.take(n);
    if n > 0 {
        let d = f.blocks.take(n - 1);
        assert(t.drop_last() =~= d);
        let b = f.blocks[n - 1];
        assert(t.last() == b);
        lemma_cold_orders(f, n - 1, x);
        let r = cold_orders(d);
        let more = b.locations.map_values(
            |l: Seq<char>| (l, crate::master::tiering::cold_order(b.block_id)),
        );
        let all = cold_orders(t);
        assert(all == r + more);
        if all.contains(x) {
            let i = all.index_of(x);
            if i < r.len() {
                assert(r[i] == x);
            } else {
                assert(more[i - r.len()] == x);
                assert(b.locations[i - r.len()] == x.0);
            }
        }
        assert forall|k: int, a: Seq<char>|
            0 <= k < n && #[trigger] f.blocks[k].locations.contains(a) implies told_to_cool(
            all,
            a,
            f.blocks[k].block_id,
        ) by {
            if k < n - 1 {
                assert(told_to_cool(r, a, f.blocks[k].block_id));
                let i = choose|i: int|
                    0 <= i < r.len() && (#[trigger] r[i]).0 == a && r[i].1.command_type
                        == CommandType::MoveToCold && r[i].1.block_id == f.blocks[k].block_id;
                assert(all[i] == r[i]);
            } else {
                let j = b.locations.index_of(a);
                assert(more[j].0 == a);
                assert(all[r.len() + j] == more[j]);
            }
        }
    } else {
        assert(cold_orders(t).len() == 0);
    }
}

/// One of the orders tells the server to move the block to cold storage.
pub open spec fn told_to_cool(
    orders: Seq<(Seq<char>, OrderView)>,
    addr: Seq<char>,
    block_id: Seq<char>,
) -> bool {
    exists|i: int|
        0 <= i < orders.len() && (#[trigger] orders[i]).0 == addr && orders[i].1.command_type
            == CommandType::MoveToCold && orders[i].1.block_id == block_id
}

/// Every server that holds a block of a file that goes cold is told to move it,
/// and nobody else is told anything.
pub proof fn law_holders_are_told_to_cool(
    files: Map<Seq<char>, FileView>,
    paths: Seq<Seq<char>>,
    now: u64,
    threshold_ms: u64,
    x: (Seq<char>, OrderView),
)
    ensures
        tiering_orders(files, paths, now, threshold_ms).contains(x) ==> exists|p: int|
            0 <= p < paths.len() && is_cooling(files[#[trigger] paths[p]], now, threshold_ms)
                && cools(files[paths[p]], x.0, x.1),
        forall|p: int, k: int, a: Seq<char>|
            0 <= p < paths.len() && is_cooling(files[paths[p]], now, threshold_ms) && 0 <= k
                < files[paths[p]].blocks.len() && #[trigger]
            files[paths[p]].blocks[k].locations.contains(a) ==> told_to_cool(
                tiering_orders(files, paths, now, threshold_ms),
                a,
                files[paths[p]].blocks[k].block_id,
            ),
    decreases paths.len(),
{
    let all = tiering_orders(files, paths, now, threshold_ms);
    if paths.len() > 0 {
        let d = paths.drop_last();
        let r = tiering_orders(files, d, now, threshold_ms);
        let f = files[paths.last()];
        law_holders_are_told_to_cool(files, d, now, threshold_ms, x);
        assert(paths[paths.len() - 1] == paths.last());
        assert(f.blocks.take(f.blocks.len() as int) =~= f.blocks);
        lemma_cold_orders(f, f.blocks.len() as int, x);
        let more = if is_cooling(f, now, threshold_ms) {
            cold_orders(f.blocks)
        } else {
            Seq::empty()
        };
        assert(all =~= r + more);
        if all.contains(x) {
            let i = all.index_of(x);
            if i < r.len() {
                assert(r[i] == x);
                assert(r.contains(x));
                let p = choose|p: int|
                    0 <= p < d.len() && is_cooling(files[#[trigger] d[p]], now, threshold_ms)
                        && cools(files[d[p]], x.0, x.1);
                assert(paths[p] == d[p]);
            } else {
                assert(more[i - r.len()] == x);
                assert(cold_orders(f.blocks).contains(x));
                assert(cools(files[paths[paths.len() - 1]], x.0, x.1));
            }
        }
        assert forall|p: int, k: int, a: Seq<char>|
            0 <= p < paths.len() && is_cooling(files[paths[p]], now, threshold_ms) && 0 <= k
                < files[paths[p]].blocks.len() && #[trigger]
            files[paths[p]].blocks[k].locations.contains(a) implies told_to_cool(
            all,
            a,
            files[paths[p]].blocks[k].block_id,
        ) by {
            let id = files[paths[p]].blocks[k].block_id;
            if p < d.len() {
                assert(d[p] == paths[p]);
                assert(files[d[p]].blocks[k].locations.contains(a));
                assert(told_to_cool(r, a, id));
                let i = choose|i: int|
                    0 <= i < r.len() && (#[trigger] r[i]).0 == a && r[i].1.command_type
                        == CommandType::MoveToCold && r[i].1.block_id == id;
                assert(all[i] == r[i]);
            } else {
                assert(f.blocks[k].locations.contains(a));
                assert(told_to_cool(more, a, id));
                let i = choose|i: int|
                    0 <= i < more.len() && (#[trigger] more[i]).0 == a && more[i].1.command_type
                        == CommandType::MoveToCold && more[i].1.block_id == id;
                assert(all[r.len() + i] == more[i]);
            }
        }
    } else {
        assert(!all.contains(x));
    }
}

/// The file went cold, longer ago than the threshold, and is not erasure-coded.
pub open spec fn is_frozen(f: FileView, now: u64, threshold_ms: u64) -> bool {
    f.moved_to_cold_at_ms > 0 && f.ec_data_shards == 0 && now > f.moved_to_cold_at_ms
        + threshold_ms
}

/// The command converts the file to six data shards and three parity shards on
/// the servers: every block keeps its id, its size, its checksum and its
/// original size, and is on just those servers.
pub open spec fn converts(f: FileView, servers: Seq<Seq<char>>, c: MasterCommandView) -> bool {
    &&& c matches MasterCommandView::ConvertToEc {
        path,
        ec_data_shards,
        ec_parity_shards,
        new_blocks,
    }
    &&& path == f.path
    &&& ec_data_shards == 6
    &&& ec_parity_shards == 3
    &&& new_blocks.len() == f.blocks.len()
    &&& forall|k: int|
        0 <= k < f.blocks.len() ==> {
            &&& (#[trigger] new_blocks[k]).block_id == f.blocks[k].block_id
            &&& new_blocks[k].size == f.blocks[k].size
            &&& new_blocks[k].original_size == f.blocks[k].original_size
            &&& new_blocks[k].checksum_crc32c == f.blocks[k].checksum_crc32c
            &&& new_blocks[k].locations == servers
            &&& new_blocks[k].ec_data_shards == 6
            &&& new_blocks[k].ec_parity_shards == 3
        }
}

/// Just the files that went cold longer ago than the threshold and are not
/// erasure-coded are converted, each of them.
pub proof fn law_what_is_converted(
    files: Map<Seq<char>, FileView>,
    paths: Seq<Seq<char>>,
    servers: Seq<Seq<char>>,
    now: u64,
    threshold_ms: u64,
    c: MasterCommandView,
    q: int,
)
    ensures
        ec_commands(files, paths, servers, now, threshold_ms).contains(c) ==> exists|p: int|
            0 <= p < paths.len() && is_frozen(files[#[trigger] paths[p]], now, threshold_ms)
                && converts(files[paths[p]], servers, c),
        0 <= q < paths.len() && is_frozen(files[paths[q]], now, threshold_ms) ==> exists|i: int|
            0 <= i < ec_commands(files, paths, servers, now, threshold_ms).len() && converts(
                files[paths[q]],
                servers,
                #[trigger] ec_commands(files, paths, servers, now, threshold_ms)[i],
            ),
    decreases paths.len(),
{
    let all = ec_commands(files, paths, servers, now, threshold_ms);
    if paths.len() > 0 {
        let d = paths.drop_last();
        let r = ec_commands(files, d, servers, now, threshold_ms);
        let f = files[paths.last()];
        law_what_is_converted(files, d, servers, now, threshold_ms, c, q);
        assert(paths[paths.len() - 1] == paths.last());
        if all.len() != r.len() {
            assert(all.drop_last() =~= r);
        }
        lemma_pushed(r, all, c);
        if is_frozen(f, now, threshold_ms) {
            assert(converts(f, servers, all.last()));
            assert(all[all.len() - 1] == all.last());
        }
        if r.contains(c) {
            let p = choose|p: int|
                0 <= p < d.len() && is_frozen(files[#[trigger] d[p]], now, threshold_ms)
                    && converts(files[d[p]], servers, c);
            assert(paths[p] == d[p]);
        }
        if 0 <= q < d.len() && is_frozen(files[paths[q]], now, threshold_ms) {
            assert(d[q] == paths[q]);
            let i = choose|i: int|
                0 <= i < r.len() && converts(files[d[q]], servers, #[trigger] r[i]);
            assert(all[i] == r[i]);
        }
    } else {
        assert(!all.contains(c));
    }
}

proof fn lemma_roomy(servers: Map<Seq<char>, StatusView>, keys: Seq<Seq<char>>, a: Seq<char>)
    ensures
        roomy(servers, keys).contains(a) <==> keys.contains(a) && servers[a].available_space > 0,
    decreases keys.len(),
{
    let all = roomy(servers, keys);
    if keys.len() > 0 {
        let d = keys.drop_last();
        let r = roomy(servers, d);
        lemma_roomy(servers, d, a);
        assert(keys[keys.len() - 1] == keys.last());
        if all.len() != r.len() {
            assert(all.drop_last() =~= r);
        }
        lemma_pushed(r, all, a);
        if d.contains(a) {
            assert(keys[d.index_of(a)] == a);
        }
        if keys.contains(a) && a != keys.last() {
            assert(d[keys.index_of(a)] == a);
        }
    } else {
        assert(!keys.contains(a));
        assert(!all.contains(a));
    }
}

proof fn lemma_roomy_once(servers: Map<Seq<char>, StatusView>, keys: Seq<Seq<char>>)
    requires
        keys.no_duplicates(),
    ensures
        roomy(servers, keys).no_duplicates(),
    decreases keys.len(),
{
    if keys.len() > 0 {
        let d = keys.drop_last();
        let x = keys.last();
        lemma_roomy_once(servers, d);
        lemma_roomy(servers, d, x);
        if d.contains(x) {
            assert(keys[d.index_of(x)] == keys[keys.len() - 1]);
        }
    }
}

/// Converted blocks go to at most nine servers, no two of them the same, each of
/// them known and with space left, and to nine where so many have space; they
/// stand in the order of their addresses.
pub proof fn law_servers_for_conversion(m: MasterState, i: int)
    requires
        forall|a: Seq<char>| m@.servers.contains_key(a) <==> #[trigger]
            m.chunk_servers.key_seq().contains(a),
    ensures
        m.ec_servers().len() == if roomy(m@.servers, m.chunk_servers.key_seq()).len() < 9 {
            roomy(m@.servers, m.chunk_servers.key_seq()).len() as int
        } else {
            9
        },
        0 <= i < m.ec_servers().len() ==> m@.servers.contains_key(m.ec_servers()[i])
            && m@.servers[m.ec_servers()[i]].available_space > 0,
        m.chunk_servers.key_seq().no_duplicates() ==> m.ec_servers().no_duplicates(),
        in_order(m.ec_servers()),
{
    broadcast use vstd::seq_lib::group_to_multiset_ensures;

    let r = roomy(m@.servers, m.chunk_servers.key_seq());
    let s = sorted_texts(r);
    lemma_sorted(r);
    assert forall|a: int, b: int| 0 <= a < b < m.ec_servers().len() implies text_le(
        #[trigger] m.ec_servers()[a],
        #[trigger] m.ec_servers()[b],
    ) by {
        assert(m.ec_servers()[a] == s[a] && m.ec_servers()[b] == s[b]);
    }
    if m.chunk_servers.key_seq().no_duplicates() {
        lemma_roomy_once(m@.servers, m.chunk_servers.key_seq());
        r.lemma_multiset_has_no_duplicates();
        s.lemma_multiset_has_no_duplicates_conv();
        assert forall|a: int, b: int|
            0 <= a < m.ec_servers().len() && 0 <= b < m.ec_servers().len() && a
                != b implies m.ec_servers()[a] != m.ec_servers()[b] by {
            assert(m.ec_servers()[a] == s[a] && m.ec_servers()[b] == s[b]);
        }
    }
    if 0 <= i < m.ec_servers().len() {
        let a = m.ec_servers()[i];
        assert(s[i] == a);
        assert(s.contains(a));
        assert(s.to_multiset().count(a) > 0);
        assert(r.contains(a));
        lemma_roomy(m@.servers, m.chunk_servers.key_seq(), a);
    }
}

/// A server is removed only by the leader, and never the last one.
pub proof fn law_who_removes_servers(role: Role, peers: int, hint: Seq<char>, id: u32)
    ensures
        match remove_plan(role, peers, hint, id) {
            PlanView::Propose(c) => role == Role::Leader && peers != 0 && c
                == CommandView::Membership(MembershipView::RemoveServer { server_id: id as usize }),
            PlanView::Reply(a) => (role != Role::Leader || peers == 0) && !a.success && (role
                != Role::Leader ==> a.leader_hint == hint),
        },
{
}

/// The directory of a path is its beginning up to the last slash and with it;
/// a path without a slash has none.
pub proof fn law_directory(path: Seq<char>)
    ensures
        match directory(path) {
            Some(d) => {
                &&& d.len() > 0
                &&& d.is_prefix_of(path)
                &&& d.last() == '/'
                &&& forall|i: int| d.len() <= i < path.len() ==> path[i] != '/'
            },
            None => !path.contains('/'),
        },
    decreases path.len(),
{
    if path.len() > 0 && path.last() != '/' {
        law_directory(path.drop_last());
        if let Some(d) = directory(path.drop_last()) {
            assert(d =~= path.take(d.len() as int));
            assert forall|i: int| d.len() <= i < path.len() implies path[i] != '/' by {
                if i < path.len() - 1 {
                    assert(path.drop_last()[i] == path[i]);
                }
            }
        } else if path.contains('/') {
            let i = path.index_of('/');
            assert(path.drop_last()[i] == '/');
        }
    } else if path.len() > 0 {
        assert(path =~= path.take(path.len() as int));
    }
}

/// A batch of files that is taken in makes the directory of its first file one
/// to shuffle; an empty batch does not.
pub proof fn law_batch_is_shuffled(batch: Seq<FileView>)
    ensures
        shuffle_after(batch) matches Some(d) ==> batch.len() > 0 && d.is_prefix_of(batch[0].path)
            && d.last() == '/',
        shuffle_after(batch) is None <==> batch.len() == 0 || !batch[0].path.contains('/'),
{
    if batch.len() > 0 {
        law_directory(batch[0].path);
        if let Some(d) = directory(batch[0].path) {
            assert(batch[0].path[d.len() - 1] == d.last());
            assert(batch[0].path.contains('/'));
        }
    }
}

/// Of the files of a batch, the last one for a path stays under it; a path that
/// the batch does not name keeps what it had.
pub proof fn law_batch_is_taken_in(
    files: Map<Seq<char>, FileView>,
    batch: Seq<FileView>,
    path: Seq<char>,
    i: int,
)
    requires
        -1 <= i < batch.len(),
        i >= 0 ==> batch[i].path == path,
        forall|j: int| i < j < batch.len() ==> (#[trigger] batch[j]).path != path,
    ensures
        i >= 0 ==> with_batch(files, batch).contains_key(path) && with_batch(files, batch)[path]
            == batch[i],
        i < 0 ==> with_batch(files, batch).contains_key(path) == files.contains_key(path) && (
        files.contains_key(path) ==> with_batch(files, batch)[path] == files[path]),
    decreases batch.len(),
{
    if batch.len() > 0 && i < batch.len() - 1 {
        let d = batch.drop_last();
        assert(batch[batch.len() - 1].path != path);
        assert forall|j: int| i < j < d.len() implies (#[trigger] d[j]).path != path by {
            assert(batch[j].path != path);
        }
        law_batch_is_taken_in(files, d, path, i);
    }
}

proof fn lemma_up_to_slash(c: Seq<char>, rest: Seq<char>)
    requires
        !c.contains('/'),
        rest.len() == 0 || rest[0] == '/',
    ensures
        up_to_slash(c + rest) == c,
    decreases c.len(),
{
    let s = c + rest;
    if c.len() == 0 {
        assert(s =~= rest);
        assert(up_to_slash(s) =~= c);
    } else {
        let t = c.drop_first();
        assert(c.contains(c[0]));
        assert(s[0] == c[0]);
        assert(s.drop_first() =~= t + rest);
        assert forall|i: int| 0 <= i < t.len() implies t[i] != '/' by {
            assert(c.contains(c[i + 1]));
        }
        lemma_up_to_slash(t, rest);
        assert(seq![c[0]] + t =~= c);
    }
}

/// The load of a path counts for its first component, between slashes.
pub proof fn law_load_counts_for_the_first_component(c: Seq<char>, rest: Seq<char>)
    requires
        c.len() > 0,
        !c.contains('/'),
        rest.len() == 0 || rest[0] == '/',
    ensures
        load_prefix("/"@ + c + rest) == "/"@ + c + "/"@,
        load_prefix("/"@) == "/"@,
{
    reveal_strlit("/");
    let p = "/"@ + c + rest;
    assert(p.drop_first() =~= c + rest);
    assert(c.contains(c[0]));
    assert((c + rest)[0] == c[0]);
    lemma_up_to_slash(c, rest);
    reveal_with_fuel(first_component, 2);
    assert(first_component(p) == c);
    assert("/"@.drop_first() =~= Seq::<char>::empty());
    assert(first_component("/"@).len() == 0);
}

/// Requests and bytes of a prefix add up.
pub proof fn law_load_adds_up(c: PrefixCount, bytes: u64)
    ensures
        c.last_count < u64::MAX ==> counted(Some(c), bytes).last_count == c.last_count + 1,
        c.last_bytes + bytes <= u64::MAX ==> counted(Some(c), bytes).last_bytes == c.last_bytes
            + bytes,
        counted(None, bytes).last_count == 1,
        counted(None, bytes).last_bytes == bytes,
{
}

proof fn lemma_first_group(id: Seq<char>, i: int)
    requires
        is_uuid(id),
        0 <= i <= 8,
    ensures
        before_hyphen(id.skip(i)) == id.subrange(i, 8),
    decreases 8 - i,
{
    let s = id.skip(i);
    if i < 8 {
        lemma_first_group(id, i + 1);
        assert(is_hex(id[i]));
        assert(s[0] == id[i]);
        assert(s.drop_first() =~= id.skip(i + 1));
        assert(seq![id[i]] + id.subrange(i + 1, 8) =~= id.subrange(i, 8));
    } else {
        assert(id[8] == '-');
        assert(s[0] == id[8]);
        assert(id.subrange(8, 8) =~= Seq::<char>::empty());
    }
}

/// A shard is split at the prefix, and the new shard has a name of its own that
/// begins with the name of the shard.
pub proof fn law_split_at_the_prefix(shard_id: Seq<char>, prefix: Seq<char>, id: Seq<char>)
    ensures
        split_command(shard_id, prefix, id) matches CommandView::Master(m) && m
            matches MasterCommandView::SplitShard { split_key, new_shard_id, new_shard_peers }
            && split_key == prefix && (shard_id + "-split-"@).is_prefix_of(new_shard_id)
            && new_shard_peers.len() == 0 && (is_uuid(id) ==> new_shard_id == shard_id + "-split-"@
            + id.subrange(0, 8)),
{
    if is_uuid(id) {
        lemma_first_group(id, 0);
        assert(id.skip(0) =~= id);
    }
    let begin = shard_id + "-split-"@;
    let whole = begin + before_hyphen(id);
    assert(begin =~= whole.take(begin.len() as int));
}

/// Of the servers that a new block goes to, the first has the most space of all.
pub proof fn law_where_blocks_go(
    s: MasterState,
    own: Seq<char>,
    route: RouteView,
    path: Seq<char>,
    block_id: Seq<char>,
    k: Seq<char>,
)
    requires
        s.chunk_servers.key_seq().no_duplicates(),
        forall|a: Seq<char>| #[trigger]
            s.chunk_servers.key_seq().contains(a) <==> s@.servers.contains_key(a),
        s@.servers.contains_key(k),
        s.allocation(own, route, path, block_id) is Ok,
    ensures
        ({
            let a = s.allocation(own, route, path, block_id)->Ok_0;
            &&& a.locations.len() > 0
            &&& s@.servers[a.locations[0]].available_space >= s@.servers[k].available_space
        }),
{
    let ks = s.chunk_servers.key_seq();
    let c = candidates(s@.servers, ks);
    let a = s.allocation(own, route, path, block_id)->Ok_0;
    law_allocated_servers(s, own, route, path, block_id);
    assert(ks.contains(k));
    let i = ks.index_of(k);
    assert(c[i] == (k, s@.servers[k]));
    law_placement_prefers_space(c, a.locations.len() as int);
    let m = crate::master::allocate::servers_needed(s@.files[path], ks.len() as int);
    assert(a.locations == placement(c, m));
    let j = choose|j: int|
        0 <= j < c.len() && (#[trigger] c[j]).0 == placement(c, m)[0] && forall|q: int|
            0 <= q < c.len() ==> (#[trigger] c[q]).1.available_space <= c[j].1.available_space;
    assert(c[j] == (ks[j], s@.servers[ks[j]]));
}

/// Two servers of one block name the same rack only where each rack that any
/// server names has one of the block's servers, and where every server that
/// names no rack has the block.
pub proof fn law_blocks_spread_over_racks(
    s: MasterState,
    own: Seq<char>,
    route: RouteView,
    path: Seq<char>,
    block_id: Seq<char>,
    i: int,
    j: int,
    k: Seq<char>,
)
    requires
        s.chunk_servers.key_seq().no_duplicates(),
        forall|a: Seq<char>| #[trigger]
            s.chunk_servers.key_seq().contains(a) <==> s@.servers.contains_key(a),
        forall|a: Seq<char>| #[trigger]
            s@.servers.contains_key(a) ==> !"__addr__"@.is_prefix_of(s@.servers[a].rack_id),
        s@.servers.contains_key(k),
        s.allocation(own, route, path, block_id) matches Ok(a) && 0 <= i < j < a.locations.len()
            && s@.servers[a.locations[i]].rack_id.len() > 0 && s@.servers[a.locations[i]].rack_id
            == s@.servers[a.locations[j]].rack_id,
    ensures
        ({
            let a = s.allocation(own, route, path, block_id)->Ok_0;
            let rack = s@.servers[k].rack_id;
            &&& rack.len() == 0 ==> a.locations.contains(k)
            &&& rack.len() > 0 ==> exists|q: int|
                0 <= q < a.locations.len() && s@.servers[#[trigger] a.locations[q]].rack_id == rack
        }),
{
    let ks = s.chunk_servers.key_seq();
    let c = candidates(s@.servers, ks);
    let a = s.allocation(own, route, path, block_id)->Ok_0;
    let m = crate::master::allocate::servers_needed(s@.files[path], ks.len() as int);
    law_allocated_servers(s, own, route, path, block_id);
    let p = placement(c, m);
    assert(a.locations == p);
    assert(distinct(c));
    assert forall|q: int| 0 <= q < c.len() implies !"__addr__"@.is_prefix_of(
        (#[trigger] c[q]).1.rack_id,
    ) by {
        assert(c[q] == (ks[q], s@.servers[ks[q]]));
        assert(ks.contains(ks[q]));
    }
    let rack = s@.servers[p[i]].rack_id;
    let x = ks.index_of(p[i]);
    let y = ks.index_of(p[j]);
    assert(ks.contains(p[i]) && ks.contains(p[j]));
    assert(c[x] == (p[i], s@.servers[p[i]]));
    assert(c[y] == (p[j], s@.servers[p[j]]));
    assert(names_rack(c, p[i], rack));
    assert(names_rack(c, p[j], rack));
    let z = ks.index_of(k);
    assert(ks.contains(k));
    assert(c[z] == (k, s@.servers[k]));
    if s@.servers[k].rack_id.len() > 0 {
        law_racks_are_used_evenly(c, m, i, j, rack, z);
        let want = s@.servers[k].rack_id;
        let q = choose|q: int| 0 <= q < p.len() && names_rack(c, #[trigger] p[q], want);
        let b = choose|b: int|
            0 <= b < c.len() && (#[trigger] c[b]).0 == p[q] && c[b].1.rack_id == want;
        assert(c[b] == (ks[b], s@.servers[ks[b]]));
        assert(s@.servers[a.locations[q]].rack_id == want);
    } else {
        law_servers_without_rack_come_first(c, m, i, j, rack, z);
        assert(p.contains(k));
    }
}

/// Where two chosen servers name the same rack, every server that names none
/// was chosen: such a server counts as a rack of its own.
pub proof fn law_servers_without_rack_come_first(
    servers: Seq<(Seq<char>, StatusView)>,
    n: int,
    i: int,
    j: int,
    rack: Seq<char>,
    k: int,
)
    requires
        n >= 0,
        distinct(servers),
        forall|m: int|
            0 <= m < servers.len() ==> !"__addr__"@.is_prefix_of(
                (#[trigger] servers[m]).1.rack_id,
            ),
        0 <= i < j < placement(servers, n).len(),
        rack.len() > 0,
        names_rack(servers, placement(servers, n)[i], rack),
        names_rack(servers, placement(servers, n)[j], rack),
        0 <= k < servers.len(),
        servers[k].1.rack_id.len() == 0,
    ensures
        placement(servers, n).contains(servers[k].0),
{
    let p = placement(servers, n);
    let ks = racks(ranked(spots(servers)));
    law_placement_spreads(servers, n);
    law_placement(servers, n);
    let a = choose|a: int|
        0 <= a < servers.len() && (#[trigger] servers[a]).0 == p[i] && servers[a].1.rack_id == rack;
    let b = choose|b: int|
        0 <= b < servers.len() && (#[trigger] servers[b]).0 == p[j] && servers[b].1.rack_id == rack;
    if j < ks.len() {
        assert(stands_in(servers, p[i], ks[i]));
        assert(stands_in(servers, p[j], ks[j]));
        assert(ks[i] == rack);
        assert(ks[j] == rack);
        assert(false);
    }
    let want = "__addr__"@ + servers[k].0;
    assert(ks.contains(rack_key(servers[k].0, servers[k].1.rack_id)));
    let q = ks.index_of(want);
    assert(stands_in(servers, p[q], ks[q]));
    let c = choose|c: int|
        0 <= c < servers.len() && (#[trigger] servers[c]).0 == p[q] && rack_key(
            p[q],
            servers[c].1.rack_id,
        ) == ks[q];
    if servers[c].1.rack_id.len() == 0 {
        assert("__addr__"@ + p[q] == want);
        assert(p[q] =~= servers[k].0) by {
            assert((("__addr__"@ + p[q]).skip("__addr__"@.len() as int)) =~= p[q]);
            assert(want.skip("__addr__"@.len() as int) =~= servers[k].0);
        }
    } else {
        assert("__addr__"@ =~= want.take("__addr__"@.len() as int));
        assert("__addr__"@.is_prefix_of(servers[c].1.rack_id));
    }
}

/// The servers that are left keep their order, each once.
pub proof fn law_survivors_keep_order(
    servers: Map<Seq<char>, StatusView>,
    keys: Seq<Seq<char>>,
    now: u64,
)
    requires
        forall|i: int|
            0 <= i < keys.len() ==> now >= servers[#[trigger] keys[i]].last_heartbeat,
    ensures
        survivors(servers, keys, now) == keys.filter(
            |a: Seq<char>| now - servers[a].last_heartbeat <= 15_000,
        ),
    decreases keys.len(),
{
    reveal(Seq::filter);
    let p = |a: Seq<char>| now - servers[a].last_heartbeat <= 15_000;
    if keys.len() > 0 {
        let d = keys.drop_last();
        assert(keys[keys.len() - 1] == keys.last());
        assert forall|i: int| 0 <= i < d.len() implies now >= servers[
            #[trigger] d[i]].last_heartbeat by {
            assert(keys[i] == d[i]);
        }
        law_survivors_keep_order(servers, d, now);
    } else {
        assert(survivors(servers, keys, now) =~= keys.filter(p));
    }
}

/// Every transaction that is to be aborted is so by one command, and every one
/// that is to be forgotten by one.
pub proof fn law_cleanup_acts_once(txs: Map<Seq<char>, TxView>, ids: Seq<Seq<char>>, now: u64)
    requires
        forall|i: int| 0 <= i < ids.len() ==> now >= txs[#[trigger] ids[i]].timestamp,
    ensures
        abort_commands(txs, ids, now) == ids.filter(
            |id: Seq<char>|
                (txs[id].state == TxState::Pending || txs[id].state == TxState::Prepared) && now
                    - txs[id].timestamp > 10_000,
        ).map_values(
            |id: Seq<char>|
                MasterCommandView::UpdateTransactionState {
                    tx_id: id,
                    new_state: TxState::Aborted,
                },
        ),
        forget_commands(txs, ids, now) == ids.filter(
            |id: Seq<char>|
                (txs[id].state == TxState::Committed || txs[id].state == TxState::Aborted) && now
                    - txs[id].timestamp > 3_600_000,
        ).map_values(|id: Seq<char>| MasterCommandView::DeleteTransactionRecord { tx_id: id }),
    decreases ids.len(),
{
    reveal(Seq::filter);
    let p = |id: Seq<char>|
        (txs[id].state == TxState::Pending || txs[id].state == TxState::Prepared) && now
            - txs[id].timestamp > 10_000;
    let q = |id: Seq<char>|
        (txs[id].state == TxState::Committed || txs[id].state == TxState::Aborted) && now
            - txs[id].timestamp > 3_600_000;
    let f = |id: Seq<char>|
        MasterCommandView::UpdateTransactionState { tx_id: id, new_state: TxState::Aborted };
    let g = |id: Seq<char>| MasterCommandView::DeleteTransactionRecord { tx_id: id };
    if ids.len() > 0 {
        let d = ids.drop_last();
        let x = ids.last();
        assert(ids[ids.len() - 1] == x);
        assert forall|i: int| 0 <= i < d.len() implies now >= txs[
            #[trigger] d[i]].timestamp by {
            assert(ids[i] == d[i]);
        }
        law_cleanup_acts_once(txs, d, now);
        assert(d.filter(p).push(x).map_values(f) =~= d.filter(p).map_values(f).push(f(x)));
        assert(d.filter(q).push(x).map_values(g) =~= d.filter(q).map_values(g).push(g(x)));
    } else {
        assert(abort_commands(txs, ids, now) =~= ids.filter(p).map_values(f));
        assert(forget_commands(txs, ids, now) =~= ids.filter(q).map_values(g));
    }
}

/// The files that go cold are recorded each once, in the order of their paths.
pub proof fn law_files_go_cold_once(
    files: Map<Seq<char>, FileView>,
    paths: Seq<Seq<char>>,
    now: u64,
    threshold_ms: u64,
)
    ensures
        tiering_commands(files, paths, now, threshold_ms) == paths.filter(
            |p: Seq<char>| is_cooling(files[p], now, threshold_ms),
        ).map_values(
            |p: Seq<char>|
                MasterCommandView::MoveToCold { path: files[p].path, moved_at_ms: now },
        ),
    decreases paths.len(),
{
    reveal(Seq::filter);
    let p = |x: Seq<char>| is_cooling(files[x], now, threshold_ms);
    let f = |x: Seq<char>| MasterCommandView::MoveToCold { path: files[x].path, moved_at_ms: now };
    if paths.len() > 0 {
        let d = paths.drop_last();
        let x = paths.last();
        law_files_go_cold_once(files, d, now, threshold_ms);
        assert(d.filter(p).push(x).map_values(f) =~= d.filter(p).map_values(f).push(f(x)));
    } else {
        assert(tiering_commands(files, paths, now, threshold_ms) =~= paths.filter(p).map_values(f));
    }
}

/// As many files are converted as are due.
pub proof fn law_files_are_converted_once(
    files: Map<Seq<char>, FileView>,
    paths: Seq<Seq<char>>,
    servers: Seq<Seq<char>>,
    now: u64,
    threshold_ms: u64,
)
    ensures
        ec_commands(files, paths, servers, now, threshold_ms).len() == paths.filter(
            |p: Seq<char>| is_frozen(files[p], now, threshold_ms),
        ).len(),
    decreases paths.len(),
{
    reveal(Seq::filter);
    if paths.len() > 0 {
        law_files_are_converted_once(files, paths.drop_last(), servers, now, threshold_ms);
    }
}

/// Shuffling finds something to do wherever two servers have different space
/// and a block under the prefix is on one of any two servers and not on the
/// other.
pub proof fn law_shuffle_acts(m: MasterState, prefix: Seq<char>, a: Seq<char>, b: Seq<char>)
    requires
        forall|x: Seq<char>| m@.servers.contains_key(x) <==> #[trigger]
            m.chunk_servers.key_seq().contains(x),
        m@.servers.contains_key(a),
        m@.servers.contains_key(b),
        m@.servers[a].available_space < m@.servers[b].available_space,
        forall|from: Seq<char>, to: Seq<char>|
            m@.servers.contains_key(from) && m@.servers.contains_key(to) && from != to
                ==> #[trigger] movable_under(m, prefix, from, to),
    ensures
        m.shuffle_order(prefix) is Some,
{
    let ks = m.chunk_servers.key_seq();
    assert(ks.contains(a) && ks.contains(b));
    let i = ks.index_of(a);
    let j = ks.index_of(b);
    assert(ks[i] == a && ks[j] == b);
    lemma_extremes(m@.servers, ks);
    let full = fullest_last(m@.servers, ks);
    let empty = emptiest_first(m@.servers, ks);
    assert(full != empty) by {
        assert(m@.servers[full].available_space <= m@.servers[ks[i]].available_space);
        assert(m@.servers[empty].available_space >= m@.servers[ks[j]].available_space);
    }
    law_what_moves(m@.files, m.files.key_seq(), prefix, full, empty);
    assert(movable_under(m, prefix, full, empty));
    let (p, id) = choose|p: int, id: Seq<char>|
        0 <= p < m.files.key_seq().len() && prefix.is_prefix_of(
            m@.files[m.files.key_seq()[p]].path,
        ) && #[trigger] can_move(m@.files[m.files.key_seq()[p]], id, full, empty);
    assert(can_move(m@.files[m.files.key_seq()[p]], id, full, empty));
}

/// Some block of a file under the prefix is on `from` and not on `to`.
pub open spec fn movable_under(
    m: MasterState,
    prefix: Seq<char>,
    from: Seq<char>,
    to: Seq<char>,
) -> bool {
    exists|p: int, id: Seq<char>|
        0 <= p < m.files.key_seq().len() && prefix.is_prefix_of(
            m@.files[m.files.key_seq()[p]].path,
        ) && #[trigger] can_move(m@.files[m.files.key_seq()[p]], id, from, to)
}

/// Roles are reported by their names.
pub proof fn law_role_names()
    ensures
        role_name(Role::Leader) == "Leader"@,
        role_name(Role::Follower) == "Follower"@,
        role_name(Role::Candidate) == "Candidate"@,
{
}

/// A block is handed out exactly where its allocation was taken, at the places
/// where it was allocated; a node that does not lead names the leader instead.
pub proof fn law_blocks_are_handed_out(
    a: Allocation,
    outcome: Outcome,
    r: Result<AllocateBlockResponse, Status>,
)
    requires
        call_ensures(allocate_answer, (a, outcome), r),
    ensures
        (r matches Ok(x) && x.block is Some) <==> outcome@ is Done,
        r matches Ok(x) ==> x.block matches Some(b) ==> b@.block_id == a@.block_id && b@.locations
            == a@.locations && x.chunk_server_addresses.deep_view() == a@.locations
            && b@.ec_data_shards == a@.ec_data_shards && b@.ec_parity_shards
            == a@.ec_parity_shards,
        outcome@ is NotLeader <==> (r matches Ok(x) && x.block is None),
        outcome@ matches OutcomeView::NotLeader { leader: Some(l) } ==> r->Ok_0.leader_hint@ == l,
{
}

/// A shard merges with the one before it, or else with the one after it.
pub proof fn law_whom_a_shard_merges_with(
    before: Option<String>,
    after: Option<String>,
    r: Option<String>,
)
    requires
        call_ensures(merge_partner, (before, after), r),
    ensures
        r is Some <==> before is Some || after is Some,
        before is Some ==> r == before,
        before is None ==> r == after,
{
}

/// What a split moves elsewhere are all files at or behind its key, each with
/// its metadata, and no other.
pub proof fn law_what_a_split_moves(
    m: MasterState,
    key: &str,
    r: Vec<FileMetadata>,
    p: Seq<char>,
    i: int,
)
    requires
        call_ensures(MasterState::metadata_from, (&m, key), r),
        keyed_by_path(m@.files),
        forall|a: Seq<char>| m@.files.contains_key(a) <==> #[trigger]
            m.files.key_seq().contains(a),
    ensures
        m@.files.contains_key(p) && !text_lt(p, key@) ==> exists|j: int|
            0 <= j < r@.len() && (#[trigger] r.deep_view()[j]).path == p,
        0 <= i < r@.len() ==> m@.files.contains_key(r.deep_view()[i].path)
            && m@.files[r.deep_view()[i].path] == r.deep_view()[i],
        0 <= i < r@.len() ==> !text_lt(r.deep_view()[i].path, key@),
{
    if 0 <= i < r@.len() {
        let ks = m.files.key_seq();
        let k = lemma_from_key(m@.files, ks, key@, i);
        assert(ks.contains(ks[k]));
    }
}

proof fn lemma_from_key(
    files: Map<Seq<char>, FileView>,
    paths: Seq<Seq<char>>,
    key: Seq<char>,
    i: int,
) -> (k: int)
    requires
        0 <= i < files_from(files, paths, key).len(),
    ensures
        0 <= k < paths.len(),
        !text_lt(paths[k], key),
        files_from(files, paths, key)[i] == files[paths[k]],
    decreases paths.len(),
{
    let d = paths.drop_last();
    let r = files_from(files, d, key);
    if i < r.len() {
        lemma_from_key(files, d, key, i)
    } else {
        paths.len() - 1
    }
}

} // verus!
