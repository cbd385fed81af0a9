//! What repair orders: which shards are rebuilt and from where, which copies
//! are made and how many, and where the orders wait.

use crate::master::heal::{
    good_copies, live_count, rebuild_orders, repair_blocks, repair_files, repair_orders, strangers,
    with_orders, Cluster,
};
use crate::master::types::{BlockView, CommandType, FileView, OrderView};
use vstd::prelude::*;

verus! {

/// The places of `locs` whose server is alive.
pub open spec fn live_places(live: Seq<Seq<char>>, locs: Seq<Seq<char>>) -> Set<int> {
    Set::new(|j: int| 0 <= j < locs.len() && live.contains(locs[j]))
}

/// The places of `locs` whose server is alive and whose copy is not known to
/// be bad.
pub open spec fn sound_places(cl: Cluster, block_id: Seq<char>, locs: Seq<Seq<char>>) -> Set<int> {
    Set::new(
        |j: int|
            0 <= j < locs.len() && cl.live.contains(locs[j]) && !(cl.bad.contains_key(block_id)
                && cl.bad[block_id].contains(locs[j])),
    )
}

/// The places of `live` whose server holds nothing of the block.
pub open spec fn free_places(live: Seq<Seq<char>>, locs: Seq<Seq<char>>) -> Set<int> {
    Set::new(|j: int| 0 <= j < live.len() && !locs.contains(live[j]))
}

proof fn lemma_live_places(live: Seq<Seq<char>>, locs: Seq<Seq<char>>)
    ensures
        live_places(live, locs).finite(),
        live_places(live, locs).len() == live_count(live, locs),
    decreases locs.len(),
{
    let all = live_places(live, locs);
    if locs.len() == 0 {
        assert(all =~= Set::<int>::empty());
    } else {
        let d = locs.drop_last();
        lemma_live_places(live, d);
        let last = locs.len() - 1;
        if live.contains(locs.last()) {
            assert(all =~= live_places(live, d).insert(last));
        } else {
            assert(all =~= live_places(live, d));
        }
    }
}

proof fn lemma_sound_places(cl: Cluster, block_id: Seq<char>, locs: Seq<Seq<char>>)
    ensures
        sound_places(cl, block_id, locs).finite(),
        sound_places(cl, block_id, locs).len() == good_copies(cl, block_id, locs).len(),
        good_copies(cl, block_id, locs).len() > 0 ==> exists|j: int|
            sound_places(cl, block_id, locs).contains(j) && #[trigger] locs[j] == good_copies(
                cl,
                block_id,
                locs,
            )[0],
    decreases locs.len(),
{
    let all = sound_places(cl, block_id, locs);
    if locs.len() == 0 {
        assert(all =~= Set::<int>::empty());
    } else {
        let d = locs.drop_last();
        let g = good_copies(cl, block_id, d);
        lemma_sound_places(cl, block_id, d);
        let last = locs.len() - 1;
        if cl.live.contains(locs.last()) && !cl.is_bad(block_id, locs.last()) {
            assert(all =~= sound_places(cl, block_id, d).insert(last));
            if g.len() == 0 {
                assert(locs[last] == good_copies(cl, block_id, locs)[0]);
            }
        } else {
            assert(all =~= sound_places(cl, block_id, d));
        }
        if g.len() > 0 {
            let j = choose|j: int|
                sound_places(cl, block_id, d).contains(j) && #[trigger] d[j] == g[0];
            assert(all.contains(j));
            assert(locs[j] == d[j]);
        }
    }
}

proof fn lemma_free_places(live: Seq<Seq<char>>, locs: Seq<Seq<char>>)
    ensures
        free_places(live, locs).finite(),
        free_places(live, locs).len() == strangers(live, locs).len(),
        forall|i: int|
            0 <= i < strangers(live, locs).len() ==> live.contains(
                #[trigger] strangers(live, locs)[i],
            ) && !locs.contains(strangers(live, locs)[i]),
        live.no_duplicates() ==> strangers(live, locs).no_duplicates(),
    decreases live.len(),
{
    let all = free_places(live, locs);
    if live.len() == 0 {
        assert(all =~= Set::<int>::empty());
    } else {
        let d = live.drop_last();
        let s = strangers(d, locs);
        lemma_free_places(d, locs);
        let last = live.len() - 1;
        assert(live[last] == live.last());
        assert forall|i: int| 0 <= i < s.len() implies live.contains(#[trigger] s[i]) by {
            assert(live[d.index_of(s[i])] == s[i]);
        }
        if locs.contains(live.last()) {
            assert(all =~= free_places(d, locs));
        } else {
            assert(all =~= free_places(d, locs).insert(last));
        }
        if live.no_duplicates() {
            assert(d.no_duplicates());
            assert forall|i: int| 0 <= i < s.len() implies #[trigger] s[i] != live.last() by {
                assert(live[d.index_of(s[i])] == s[i]);
            }
        }
    }
}

/// What rebuilding the first `n` shards orders: one order for each lost one
/// among them, in their order.
proof fn lemma_rebuilt(live: Seq<Seq<char>>, b: BlockView, target: Seq<char>, n: int)
    requires
        0 <= n <= b.locations.len() <= i32::MAX,
    ensures
        forall|i: int|
            0 <= i < rebuild_orders(live, b, target, n).len() ==> {
                let o = #[trigger] rebuild_orders(live, b, target, n)[i];
                &&& o.0 == target
                &&& 0 <= o.1.shard_index < n
                &&& !live.contains(b.locations[o.1.shard_index as int])
                &&& o.1 == crate::master::heal::rebuild_order(
                    live,
                    b,
                    o.1.shard_index as int,
                    target,
                )
            },
        forall|i: int, j: int|
            0 <= i < j < rebuild_orders(live, b, target, n).len() ==> (
            #[trigger] rebuild_orders(live, b, target, n)[i]).1.shard_index < (
            #[trigger] rebuild_orders(live, b, target, n)[j]).1.shard_index,
        forall|k: int|
            0 <= k < n && !live.contains(#[trigger] b.locations[k]) ==> rebuilds(
                rebuild_orders(live, b, target, n),
                k,
            ),
    decreases n,
{
    if n > 0 {
        let rest = rebuild_orders(live, b, target, n - 1);
        let all = rebuild_orders(live, b, target, n);
        lemma_rebuilt(live, b, target, n - 1);
        assert forall|k: int| 0 <= k < n && !live.contains(#[trigger] b.locations[k]) implies
            rebuilds(all, k) by {
            if k < n - 1 {
                assert(rebuilds(rest, k));
                let i = choose|i: int|
                    0 <= i < rest.len() && (#[trigger] rest[i]).1.shard_index == k;
                assert(all[i].1.shard_index == k);
            } else {
                assert(all[all.len() - 1].1.shard_index == k);
            }
        }
    }
}

/// One of the orders is for the shard `k`.
pub open spec fn rebuilds(orders: Seq<(Seq<char>, OrderView)>, k: int) -> bool {
    exists|i: int| 0 <= i < orders.len() && (#[trigger] orders[i]).1.shard_index == k
}

/// An order to rebuild a shard of an erasure-coded block names a shard whose
/// holder is gone. It says where each shard can be read: source `j` is the
/// block's location `j` where that server is alive, and empty where it is not,
/// so the source of the shard itself is empty. At least as many sources as the
/// block has data shards are live holders. The order goes to the server that
/// is to hold the shard, which is alive and holds nothing of the block, and
/// carries the block's own layout and size.
pub proof fn law_rebuild_names_its_sources(cl: Cluster, b: BlockView, i: int)
    requires
        b.ec_data_shards > 0,
        0 <= i < repair_orders(cl, b).len(),
    ensures
        ({
            let (addr, o) = repair_orders(cl, b)[i];
            &&& o.command_type == CommandType::ReconstructEcShard
            &&& o.block_id == b.block_id
            &&& o.ec_data_shards == b.ec_data_shards
            &&& o.ec_parity_shards == b.ec_parity_shards
            &&& o.original_block_size == b.original_size
            &&& addr == o.target
            &&& cl.live.contains(o.target)
            &&& !b.locations.contains(o.target)
            &&& 0 <= o.shard_index < b.locations.len()
            &&& !cl.live.contains(b.locations[o.shard_index as int])
            &&& o.ec_shard_sources.len() == b.locations.len()
            &&& o.ec_shard_sources[o.shard_index as int].len() == 0
            &&& forall|j: int|
                0 <= j < b.locations.len() && cl.live.contains(b.locations[j]) ==> (
                #[trigger] o.ec_shard_sources[j]) == b.locations[j]
            &&& forall|j: int|
                0 <= j < b.locations.len() && !cl.live.contains(b.locations[j]) ==> (
                #[trigger] o.ec_shard_sources[j]).len() == 0
            &&& exists|held: Set<int>|
                {
                    &&& #[trigger] held.finite()
                    &&& held.len() >= b.ec_data_shards
                    &&& forall|j: int| #[trigger]
                        held.contains(j) ==> 0 <= j < b.locations.len() && cl.live.contains(
                            o.ec_shard_sources[j],
                        ) && o.ec_shard_sources[j] == b.locations[j]
                }
        }),
{
    let free = strangers(cl.live, b.locations);
    lemma_free_places(cl.live, b.locations);
    lemma_live_places(cl.live, b.locations);
    lemma_rebuilt(cl.live, b, free[0], b.locations.len() as int);
    let o = rebuild_orders(cl.live, b, free[0], b.locations.len() as int)[i].1;
    let held = live_places(cl.live, b.locations);
    assert(held.finite() && held.len() >= b.ec_data_shards);
    assert forall|j: int| #[trigger] held.contains(j) implies 0 <= j < b.locations.len()
        && cl.live.contains(o.ec_shard_sources[j]) && o.ec_shard_sources[j] == b.locations[j] by {
        assert(cl.live.contains(b.locations[j]));
    }
}

/// Where every shard has its place, at least as many of them are left as there
/// are data shards and some live server holds nothing of the block, each lost
/// shard is rebuilt, and by one order only. Else nothing is rebuilt.
pub proof fn law_every_lost_shard_is_rebuilt(cl: Cluster, b: BlockView, k: int)
    requires
        b.ec_data_shards > 0,
        b.locations.len() <= i32::MAX,
        0 <= k < b.locations.len(),
    ensures
        ({
            let orders = repair_orders(cl, b);
            let able = b.ec_data_shards + b.ec_parity_shards == b.locations.len() && live_places(
                cl.live,
                b.locations,
            ).len() >= b.ec_data_shards && exists|s: Seq<char>| #[trigger]
                cl.live.contains(s) && !b.locations.contains(s);
            &&& !able ==> orders.len() == 0
            &&& able && !cl.live.contains(b.locations[k]) ==> rebuilds(orders, k)
            &&& cl.live.contains(b.locations[k]) ==> !rebuilds(orders, k)
            &&& forall|i: int, j: int|
                0 <= i < j < orders.len() ==> (#[trigger] orders[i]).1.shard_index < (
                #[trigger] orders[j]).1.shard_index
        }),
{
    let free = strangers(cl.live, b.locations);
    let orders = repair_orders(cl, b);
    lemma_free_places(cl.live, b.locations);
    lemma_live_places(cl.live, b.locations);
    lemma_rebuilt(cl.live, b, free[0], b.locations.len() as int);
    if exists|s: Seq<char>| #[trigger] cl.live.contains(s) && !b.locations.contains(s) {
        let s = choose|s: Seq<char>| #[trigger] cl.live.contains(s) && !b.locations.contains(s);
        let j = cl.live.index_of(s);
        assert(free_places(cl.live, b.locations).contains(j));
        if free.len() == 0 {
            assert(free_places(cl.live, b.locations) =~= Set::<int>::empty());
        }
    } else if free.len() > 0 {
        assert(cl.live.contains(free[0]) && !b.locations.contains(free[0]));
    }
}

/// A replicated block is copied from a live server whose copy is good to live
/// servers that hold none of it. Copies are ordered until there are three good
/// ones, as far as there are servers; none is ordered where there are three
/// already, or where none is left to copy from.
pub proof fn law_copies_make_three(cl: Cluster, b: BlockView)
    requires
        b.ec_data_shards <= 0,
    ensures
        ({
            let orders = repair_orders(cl, b);
            let good = sound_places(cl, b.block_id, b.locations).len() as int;
            let free = free_places(cl.live, b.locations).len() as int;
            &&& orders.len() == if good == 0 || good >= 3 {
                0
            } else if free < 3 - good {
                free
            } else {
                3 - good
            }
            &&& forall|i: int|
                0 <= i < orders.len() ==> {
                    let o = #[trigger] orders[i];
                    &&& o.1.command_type == CommandType::Replicate
                    &&& o.1.block_id == b.block_id
                    &&& o.1.ec_data_shards == 0
                    &&& o.1.ec_parity_shards == 0
                    &&& o.1.shard_index == -1
                    &&& o.1.ec_shard_sources.len() == 0
                    &&& cl.live.contains(o.1.target)
                    &&& !b.locations.contains(o.1.target)
                    &&& cl.live.contains(o.0)
                    &&& b.locations.contains(o.0)
                    &&& !(cl.bad.contains_key(b.block_id) && cl.bad[b.block_id].contains(o.0))
                }
            &&& cl.live.no_duplicates() ==> forall|i: int, j: int|
                0 <= i < j < orders.len() ==> (#[trigger] orders[i]).1.target != (
                #[trigger] orders[j]).1.target
        }),
{
    let free = strangers(cl.live, b.locations);
    let good = good_copies(cl, b.block_id, b.locations);
    lemma_free_places(cl.live, b.locations);
    lemma_sound_places(cl, b.block_id, b.locations);
    if good.len() > 0 {
        let j = choose|j: int|
            sound_places(cl, b.block_id, b.locations).contains(j) && #[trigger] b.locations[j]
                == good[0];
        assert(b.locations.contains(good[0]));
    }
}

/// Repair looks at every block of every file, and orders nothing else: the
/// orders are those of the single blocks.
pub proof fn law_repair_covers_all_files(
    cl: Cluster,
    files: Map<Seq<char>, FileView>,
    paths: Seq<Seq<char>>,
    order: (Seq<char>, OrderView),
)
    ensures
        repair_files(cl, files, paths).contains(order) <==> exists|p: int, k: int|
            0 <= p < paths.len() && 0 <= k < files[paths[p]].blocks.len() && #[trigger]
            orders_for(cl, files, paths[p], k).contains(order),
    decreases paths.len(),
{
    if paths.len() > 0 {
        let d = paths.drop_last();
        law_repair_covers_all_files(cl, files, d, order);
        let head = repair_files(cl, files, d);
        let blocks = files[paths.last()].blocks;
        let tail = repair_blocks(cl, blocks);
        lemma_blocks(cl, blocks, order);
        let all = head + tail;
        assert(all.contains(order) <==> head.contains(order) || tail.contains(order)) by {
            if head.contains(order) {
                assert(all[head.index_of(order)] == order);
            }
            if tail.contains(order) {
                assert(all[head.len() + tail.index_of(order)] == order);
            }
        }
        if head.contains(order) {
            let (p, k) = choose|p: int, k: int|
                0 <= p < d.len() && 0 <= k < files[d[p]].blocks.len() && #[trigger]
                orders_for(cl, files, d[p], k).contains(order);
            assert(orders_for(cl, files, paths[p], k).contains(order));
        }
        if tail.contains(order) {
            let k = choose|k: int|
                0 <= k < blocks.len() && #[trigger] repair_orders(cl, blocks[k]).contains(order);
            assert(orders_for(cl, files, paths[paths.len() - 1], k).contains(order));
        }
        if exists|p: int, k: int|
            0 <= p < paths.len() && 0 <= k < files[paths[p]].blocks.len() && #[trigger]
            orders_for(cl, files, paths[p], k).contains(order) {
            let (p, k) = choose|p: int, k: int|
                0 <= p < paths.len() && 0 <= k < files[paths[p]].blocks.len() && #[trigger]
                orders_for(cl, files, paths[p], k).contains(order);
            if p < d.len() {
                assert(orders_for(cl, files, d[p], k).contains(order));
            } else {
                assert(repair_orders(cl, blocks[k]).contains(order));
            }
        }
    }
}

/// The orders that repair block `k` of a file.
pub open spec fn orders_for(
    cl: Cluster,
    files: Map<Seq<char>, FileView>,
    path: Seq<char>,
    k: int,
) -> Seq<(Seq<char>, OrderView)> {
    repair_orders(cl, files[path].blocks[k])
}

proof fn lemma_blocks(cl: Cluster, blocks: Seq<BlockView>, order: (Seq<char>, OrderView))
    ensures
        repair_blocks(cl, blocks).contains(order) <==> exists|k: int|
            0 <= k < blocks.len() && #[trigger] repair_orders(cl, blocks[k]).contains(order),
    decreases blocks.len(),
{
    if blocks.len() > 0 {
        let d = blocks.drop_last();
        lemma_blocks(cl, d, order);
        let head = repair_blocks(cl, d);
        let tail = repair_orders(cl, blocks.last());
        let all = head + tail;
        if head.contains(order) {
            assert(all[head.index_of(order)] == order);
            let k = choose|k: int|
                0 <= k < d.len() && #[trigger] repair_orders(cl, d[k]).contains(order);
            assert(repair_orders(cl, blocks[k]).contains(order));
        }
        if tail.contains(order) {
            assert(all[head.len() + tail.index_of(order)] == order);
            assert(repair_orders(cl, blocks[blocks.len() - 1]).contains(order));
        }
        if exists|k: int|
            0 <= k < blocks.len() && #[trigger] repair_orders(cl, blocks[k]).contains(order) {
            let k = choose|k: int|
                0 <= k < blocks.len() && #[trigger] repair_orders(cl, blocks[k]).contains(order);
            if k < d.len() {
                assert(repair_orders(cl, d[k]).contains(order));
            }
        }
    }
}

/// What waits for a server, if anything does.
pub open spec fn waiting(pending: Map<Seq<char>, Seq<OrderView>>, addr: Seq<char>) -> Seq<
    OrderView,
> {
    if pending.contains_key(addr) {
        pending[addr]
    } else {
        Seq::empty()
    }
}

/// Orders that are queued wait behind those that were there, each for the
/// server it is meant for and for nobody else.
pub proof fn law_orders_wait_in_line(
    pending: Map<Seq<char>, Seq<OrderView>>,
    orders: Seq<(Seq<char>, OrderView)>,
    addr: Seq<char>,
    order: OrderView,
)
    ensures
        waiting(pending, addr).is_prefix_of(waiting(with_orders(pending, orders), addr)),
        waiting(with_orders(pending, orders), addr).contains(order) <==> waiting(
            pending,
            addr,
        ).contains(order) || orders.contains((addr, order)),
        pending.contains_key(addr) ==> with_orders(pending, orders).contains_key(addr),
    decreases orders.len(),
{
    if orders.len() > 0 {
        let d = orders.drop_last();
        law_orders_wait_in_line(pending, d, addr, order);
        let before = waiting(with_orders(pending, d), addr);
        let now = waiting(with_orders(pending, orders), addr);
        let old_ones = waiting(pending, addr);
        let last = orders.last();
        assert(orders[orders.len() - 1] == last);
        if last.0 == addr {
            assert(now =~= before.push(last.1));
            assert(now[before.len() as int] == last.1);
        } else {
            assert(now == before);
        }
        if before.contains(order) {
            assert(now[before.index_of(order)] == order);
        }
        if now.contains(order) && !before.contains(order) {
            let i = now.index_of(order);
            if i < before.len() {
                assert(before[i] == order);
            }
            assert(last == (addr, order));
        }
        if d.contains((addr, order)) {
            assert(orders[d.index_of((addr, order))] == (addr, order));
        }
        if orders.contains((addr, order)) && !d.contains((addr, order)) {
            let i = orders.index_of((addr, order));
            if i < d.len() {
                assert(d[i] == (addr, order));
            }
            assert(now.contains(order));
        }
        assert(old_ones.is_prefix_of(now)) by {
            assert(old_ones =~= now.take(old_ones.len() as int));
        }
    } else {
        assert(waiting(pending, addr) =~= waiting(with_orders(pending, orders), addr));
        assert(!orders.contains((addr, order)));
    }
}

/// What waits for a server after more was queued is what waited before, and
/// behind it the orders that are meant for it, each once and in their order.
pub proof fn law_each_order_waits_once(
    pending: Map<Seq<char>, Seq<OrderView>>,
    orders: Seq<(Seq<char>, OrderView)>,
    addr: Seq<char>,
)
    ensures
        waiting(with_orders(pending, orders), addr) == waiting(pending, addr) + orders.filter(
            |x: (Seq<char>, OrderView)| x.0 == addr,
        ).map_values(|x: (Seq<char>, OrderView)| x.1),
    decreases orders.len(),
{
    reveal(Seq::filter);
    let p = |x: (Seq<char>, OrderView)| x.0 == addr;
    let f = |x: (Seq<char>, OrderView)| x.1;
    let before = waiting(pending, addr);
    if orders.len() > 0 {
        let d = orders.drop_last();
        law_each_order_waits_once(pending, d, addr);
        let r = d.filter(p);
        let last = orders.last();
        if p(last) {
            assert(orders.filter(p) == r.push(last));
            assert(r.push(last).map_values(f) =~= r.map_values(f).push(last.1));
            assert(before + r.map_values(f).push(last.1) =~= (before + r.map_values(f)).push(
                last.1,
            ));
        } else {
            assert(orders.filter(p) == r);
        }
    } else {
        assert(orders.filter(p).map_values(f) =~= Seq::<OrderView>::empty());
        assert(before + Seq::<OrderView>::empty() =~= before);
    }
}

} // verus!
