//! Repairing blocks that have lost copies or shards.

use crate::master::state::{MasterState, StateView};
use crate::master::types::{
    BlockInfo, BlockView, ChunkServerCommand, CommandType, FileView, OrderView,
};
use crate::strmap::{Dup, StrMap};
use crate::text::lists;
use vstd::prelude::*;

verus! {

/// Copies that a block should have.
pub const REPLICATION_FACTOR: usize = 3;

/// What repair goes by: the servers that are alive, in an order of preference,
/// and the bad copies that are known.
pub struct Cluster {
    pub live: Seq<Seq<char>>,
    pub bad: Map<Seq<char>, Set<Seq<char>>>,
}

impl Cluster {
    /// The server at `addr` holds a bad copy of the block.
    pub open spec fn is_bad(self, block_id: Seq<char>, addr: Seq<char>) -> bool {
        self.bad.contains_key(block_id) && self.bad[block_id].contains(addr)
    }
}

/// The locations that are alive and hold a good copy.
pub open spec fn good_copies(cl: Cluster, block_id: Seq<char>, locs: Seq<Seq<char>>) -> Seq<
    Seq<char>,
>
    decreases locs.len(),
{
    if locs.len() == 0 {
        Seq::empty()
    } else {
        let rest = good_copies(cl, block_id, locs.drop_last());
        if cl.live.contains(locs.last()) && !cl.is_bad(block_id, locs.last()) {
            rest.push(locs.last())
        } else {
            rest
        }
    }
}

/// The servers that do not hold the block yet.
pub open spec fn strangers(live: Seq<Seq<char>>, locs: Seq<Seq<char>>) -> Seq<Seq<char>>
    decreases live.len(),
{
    if live.len() == 0 {
        Seq::empty()
    } else {
        let rest = strangers(live.drop_last(), locs);
        if locs.contains(live.last()) {
            rest
        } else {
            rest.push(live.last())
        }
    }
}

/// How many of the locations are alive.
pub open spec fn live_count(live: Seq<Seq<char>>, locs: Seq<Seq<char>>) -> nat
    decreases locs.len(),
{
    if locs.len() == 0 {
        0
    } else {
        live_count(live, locs.drop_last()) + if live.contains(locs.last()) {
            1nat
        } else {
            0nat
        }
    }
}

/// Where the shards can be read: the address of a live holder, or nothing.
pub open spec fn shard_sources(live: Seq<Seq<char>>, locs: Seq<Seq<char>>) -> Seq<Seq<char>> {
    locs.map_values(
        |l: Seq<char>|
            if live.contains(l) {
                l
            } else {
                Seq::empty()
            },
    )
}

/// An order to copy a block to `target`.
pub open spec fn copy_order(block_id: Seq<char>, target: Seq<char>) -> OrderView {
    OrderView {
        command_type: CommandType::Replicate,
        block_id,
        target,
        shard_index: -1i32,
        ec_data_shards: 0,
        ec_parity_shards: 0,
        ec_shard_sources: Seq::empty(),
        original_block_size: 0,
    }
}

/// An order to rebuild shard `i` of a block on `target`.
pub open spec fn rebuild_order(
    live: Seq<Seq<char>>,
    b: BlockView,
    i: int,
    target: Seq<char>,
) -> OrderView {
    OrderView {
        command_type: CommandType::ReconstructEcShard,
        block_id: b.block_id,
        target,
        shard_index: i as i32,
        ec_data_shards: b.ec_data_shards,
        ec_parity_shards: b.ec_parity_shards,
        ec_shard_sources: shard_sources(live, b.locations),
        original_block_size: b.original_size,
    }
}

/// The orders that rebuild the lost ones among the first `n` shards.
pub open spec fn rebuild_orders(
    live: Seq<Seq<char>>,
    b: BlockView,
    target: Seq<char>,
    n: int,
) -> Seq<(Seq<char>, OrderView)>
    decreases n,
{
    if n <= 0 {
        Seq::empty()
    } else {
        let rest = rebuild_orders(live, b, target, n - 1);
        if live.contains(b.locations[n - 1]) {
            rest
        } else {
            rest.push((target, rebuild_order(live, b, n - 1, target)))
        }
    }
}

/// The block has a holder for each of its shards.
pub open spec fn shards_complete(b: BlockView) -> bool {
    b.ec_data_shards + b.ec_parity_shards == b.locations.len() && b.locations.len() <= i32::MAX
}

/// The orders that repair a block, each with the server that gets it. Lost
/// shards are rebuilt while enough are left, on the first server that holds
/// none; lost copies are made good from the first good copy, on the first
/// servers that have none.
pub open spec fn repair_orders(cl: Cluster, b: BlockView) -> Seq<(Seq<char>, OrderView)> {
    let free = strangers(cl.live, b.locations);
    if b.ec_data_shards > 0 {
        if shards_complete(b) && live_count(cl.live, b.locations) >= b.ec_data_shards && free.len()
            > 0 {
            rebuild_orders(cl.live, b, free[0], b.locations.len() as int)
        } else {
            Seq::empty()
        }
    } else {
        let good = good_copies(cl, b.block_id, b.locations);
        if good.len() == 0 || good.len() >= REPLICATION_FACTOR {
            Seq::empty()
        } else {
            let needed = REPLICATION_FACTOR - good.len();
            let n = if free.len() < needed {
                free.len() as int
            } else {
                needed as int
            };
            Seq::new(n as nat, |i: int| (good[0], copy_order(b.block_id, free[i])))
        }
    }
}

/// The orders that repair blocks, one after the other.
pub open spec fn repair_blocks(cl: Cluster, blocks: Seq<BlockView>) -> Seq<(Seq<char>, OrderView)>
    decreases blocks.len(),
{
    if blocks.len() == 0 {
        Seq::empty()
    } else {
        repair_blocks(cl, blocks.drop_last()) + repair_orders(cl, blocks.last())
    }
}

/// The orders that repair the files with the given paths.
pub open spec fn repair_files(
    cl: Cluster,
    files: Map<Seq<char>, FileView>,
    paths: Seq<Seq<char>>,
) -> Seq<(Seq<char>, OrderView)>
    decreases paths.len(),
{
    if paths.len() == 0 {
        Seq::empty()
    } else {
        repair_files(cl, files, paths.drop_last()) + repair_blocks(cl, files[paths.last()].blocks)
    }
}

/// The waiting orders with one more for `addr`.
pub open spec fn with_order(
    pending: Map<Seq<char>, Seq<OrderView>>,
    addr: Seq<char>,
    order: OrderView,
) -> Map<Seq<char>, Seq<OrderView>> {
    let waiting = if pending.contains_key(addr) {
        pending[addr]
    } else {
        Seq::empty()
    };
    pending.insert(addr, waiting.push(order))
}

/// The waiting orders after more were queued, in order.
pub open spec fn with_orders(
    pending: Map<Seq<char>, Seq<OrderView>>,
    orders: Seq<(Seq<char>, OrderView)>,
) -> Map<Seq<char>, Seq<OrderView>>
    decreases orders.len(),
{
    if orders.len() == 0 {
        pending
    } else {
        with_order(with_orders(pending, orders.drop_last()), orders.last().0, orders.last().1)
    }
}

/// An order and the server that gets it.
#[derive(Debug)]
pub struct Order {
    pub addr: String,
    pub command: ChunkServerCommand,
}

impl View for Order {
    type V = (Seq<char>, OrderView);

    open spec fn view(&self) -> (Seq<char>, OrderView) {
        (self.addr@, self.command@)
    }
}

impl DeepView for Order {
    type V = (Seq<char>, OrderView);

    open spec fn deep_view(&self) -> (Seq<char>, OrderView) {
        self.view()
    }
}

/// The keys of a map in the order in which it walks them.
pub fn keys_of<V: DeepView>(m: &StrMap<V>) -> (r: Vec<String>)
    ensures
        r.deep_view() == m.key_seq(),
        r.deep_view().no_duplicates(),
        m@.dom().finite(),
        forall|k: Seq<char>| m@.contains_key(k) <==> #[trigger] r.deep_view().contains(k),
{
    let n: usize = m.len();
    let ghost ks = m.key_seq();
    let mut r: Vec<String> = Vec::new();
    let mut i: usize = 0;
    assert(r.deep_view() =~= ks.take(0));
    while i < n
        invariant
            i <= n,
            n == ks.len(),
            ks == m.key_seq(),
            r.deep_view() == ks.take(i as int),
        decreases n - i,
    {
        let ghost rv = r.deep_view();
        r.push(m.key_at(i).clone());
        i += 1;
        proof {
            assert(r.deep_view() =~= rv.push(ks[i as int - 1]));
            assert(ks.take(i as int) =~= ks.take(i as int - 1).push(ks[i as int - 1]));
        }
    }
    assert(ks.take(n as int) =~= ks);
    r
}

/// The servers that do not hold the block yet.
fn find_strangers(live: &Vec<String>, locs: &Vec<String>) -> (r: Vec<String>)
    ensures
        r.deep_view() == strangers(live.deep_view(), locs.deep_view()),
{
    let ghost lv = live.deep_view();
    let mut r: Vec<String> = Vec::new();
    let mut i: usize = 0;
    assert(lv.take(0) =~= Seq::<Seq<char>>::empty());
    assert(r.deep_view() =~= Seq::<Seq<char>>::empty());
    while i < live.len()
        invariant
            i <= live@.len(),
            lv == live.deep_view(),
            r.deep_view() == strangers(lv.take(i as int), locs.deep_view()),
        decreases live@.len() - i,
    {
        let ghost rv = r.deep_view();
        proof {
            assert(lv.take(i as int + 1).drop_last() =~= lv.take(i as int));
            assert(lv.take(i as int + 1).last() == lv[i as int]);
        }
        if !lists(locs, live[i].as_str()) {
            r.push(live[i].clone());
            assert(r.deep_view() =~= rv.push(lv[i as int]));
        }
        i += 1;
    }
    assert(lv.take(lv.len() as int) =~= lv);
    r
}

impl MasterState {
    /// What repair goes by: every known chunk server is alive.
    pub open spec fn cluster(&self) -> Cluster {
        Cluster { live: self.chunk_servers.key_seq(), bad: self@.bad }
    }

    /// The locations that are alive and hold a good copy.
    fn find_good_copies(&self, block: &BlockInfo) -> (r: Vec<String>)
        requires
            forall|k: Seq<char>|
                self.chunk_servers@.contains_key(k) <==> #[trigger] self.chunk_servers.key_seq().contains(
                    k,
                ),
        ensures
            r.deep_view() == good_copies(self.cluster(), block@.block_id, block@.locations),
    {
        let ghost locs = block@.locations;
        let mut r: Vec<String> = Vec::new();
        let mut i: usize = 0;
        assert(locs.take(0) =~= Seq::<Seq<char>>::empty());
        assert(r.deep_view() =~= Seq::<Seq<char>>::empty());
        while i < block.locations.len()
            invariant
                i <= block.locations@.len(),
                locs == block@.locations,
                forall|k: Seq<char>|
                    self.chunk_servers@.contains_key(k)
                        <==> #[trigger] self.chunk_servers.key_seq().contains(k),
                r.deep_view() == good_copies(self.cluster(), block@.block_id, locs.take(i as int)),
            decreases block.locations@.len() - i,
        {
            let ghost rv = r.deep_view();
            let loc = &block.locations[i];
            proof {
                assert(locs.take(i as int + 1).drop_last() =~= locs.take(i as int));
                assert(locs.take(i as int + 1).last() == locs[i as int]);
                assert(locs[i as int] == loc@);
            }
            let bad = match self.bad_block_locations.get(block.block_id.as_str()) {
                Some(set) => set.contains(loc.as_str()),
                None => false,
            };
            if self.chunk_servers.contains_key(loc.as_str()) && !bad {
                r.push(loc.clone());
                assert(r.deep_view() =~= rv.push(loc@));
            }
            i += 1;
        }
        assert(locs.take(locs.len() as int) =~= locs);
        r
    }

    /// How many of the locations are alive.
    fn count_live(&self, locs: &Vec<String>) -> (n: usize)
        requires
            forall|k: Seq<char>|
                self.chunk_servers@.contains_key(k) <==> #[trigger] self.chunk_servers.key_seq().contains(
                    k,
                ),
        ensures
            n == live_count(self.chunk_servers.key_seq(), locs.deep_view()),
    {
        let ghost lv = locs.deep_view();
        let mut n: usize = 0;
        let mut i: usize = 0;
        assert(lv.take(0) =~= Seq::<Seq<char>>::empty());
        while i < locs.len()
            invariant
                i <= locs@.len(),
                n <= i,
                lv == locs.deep_view(),
                forall|k: Seq<char>|
                    self.chunk_servers@.contains_key(k)
                        <==> #[trigger] self.chunk_servers.key_seq().contains(k),
                n == live_count(self.chunk_servers.key_seq(), lv.take(i as int)),
            decreases locs@.len() - i,
        {
            proof {
                assert(lv.take(i as int + 1).drop_last() =~= lv.take(i as int));
                assert(lv.take(i as int + 1).last() == lv[i as int]);
                assert(lv[i as int] == locs@[i as int]@);
            }
            if self.chunk_servers.contains_key(locs[i].as_str()) {
                n += 1;
            }
            i += 1;
        }
        assert(lv.take(lv.len() as int) =~= lv);
        n
    }

    /// Where the shards can be read.
    fn list_sources(&self, locs: &Vec<String>) -> (r: Vec<String>)
        requires
            forall|k: Seq<char>|
                self.chunk_servers@.contains_key(k) <==> #[trigger] self.chunk_servers.key_seq().contains(
                    k,
                ),
        ensures
            r.deep_view() == shard_sources(self.chunk_servers.key_seq(), locs.deep_view()),
    {
        let mut r: Vec<String> = Vec::new();
        let mut i: usize = 0;
        let ghost want = shard_sources(self.chunk_servers.key_seq(), locs.deep_view());
        while i < locs.len()
            invariant
                i <= locs@.len(),
                want == shard_sources(self.chunk_servers.key_seq(), locs.deep_view()),
                forall|k: Seq<char>|
                    self.chunk_servers@.contains_key(k)
                        <==> #[trigger] self.chunk_servers.key_seq().contains(k),
                r@.len() == i,
                forall|j: int| 0 <= j < i ==> (#[trigger] r@[j])@ == want[j],
            decreases locs@.len() - i,
        {
            let s = if self.chunk_servers.contains_key(locs[i].as_str()) {
                locs[i].clone()
            } else {
                String::new()
            };
            assert(s@ =~= want[i as int]) by {
                assert(locs.deep_view()[i as int] == locs@[i as int]@);
                assert(self.chunk_servers.key_seq().contains(locs@[i as int]@)
                    == self.chunk_servers@.contains_key(locs@[i as int]@));
            }
            r.push(s);
            i += 1;
        }
        assert(r.deep_view() =~= want);
        r
    }

    /// The orders that rebuild the lost shards of a block.
    fn plan_rebuild(&self, block: &BlockInfo, live: &Vec<String>) -> (r: Vec<Order>)
        requires
            live.deep_view() == self.chunk_servers.key_seq(),
            forall|k: Seq<char>|
                self.chunk_servers@.contains_key(k) <==> #[trigger] self.chunk_servers.key_seq().contains(
                    k,
                ),
            block.ec_data_shards > 0,
        ensures
            r.deep_view() == repair_orders(self.cluster(), block@),
    {
        let ghost lv = live.deep_view();
        let ghost b = block@;
        let mut r: Vec<Order> = Vec::new();
        assert(r.deep_view() =~= Seq::<(Seq<char>, OrderView)>::empty());
        let total: i64 = block.ec_data_shards as i64 + block.ec_parity_shards as i64;
        let n: usize = block.locations.len();
        if total < 0 || total > i32::MAX as i64 || n as u64 != total as u64 {
            return r;
        }
        let alive: usize = self.count_live(&block.locations);
        if (alive as u64) < block.ec_data_shards as u64 {
            return r;
        }
        let free = find_strangers(live, &block.locations);
        if free.len() == 0 {
            return r;
        }
        let target = &free[0];
        assert(free.deep_view()[0] == target@);
        let mut i: usize = 0;
        while i < n
            invariant
                i <= n,
                n == block.locations@.len(),
                n <= i32::MAX,
                lv == self.chunk_servers.key_seq(),
                b == block@,
                forall|k: Seq<char>|
                    self.chunk_servers@.contains_key(k)
                        <==> #[trigger] self.chunk_servers.key_seq().contains(k),
                r.deep_view() == rebuild_orders(lv, b, target@, i as int),
            decreases n - i,
        {
            let ghost rv = r.deep_view();
            assert(b.locations[i as int] == block.locations@[i as int]@);
            if !self.chunk_servers.contains_key(block.locations[i].as_str()) {
                let sources = self.list_sources(&block.locations);
                let o = Order {
                    addr: target.clone(),
                    command: ChunkServerCommand {
                        command_type: CommandType::ReconstructEcShard,
                        block_id: block.block_id.clone(),
                        target_chunk_server_address: target.clone(),
                        shard_index: i as i32,
                        ec_data_shards: block.ec_data_shards,
                        ec_parity_shards: block.ec_parity_shards,
                        ec_shard_sources: sources,
                        original_block_size: block.original_size,
                    },
                };
                assert(o@ == (target@, rebuild_order(lv, b, i as int, target@)));
                r.push(o);
                assert(r.deep_view() =~= rv.push(o@));
            }
            i += 1;
        }
        r
    }

    /// The orders that make good the lost copies of a block.
    fn plan_copies(&self, block: &BlockInfo, live: &Vec<String>) -> (r: Vec<Order>)
        requires
            live.deep_view() == self.chunk_servers.key_seq(),
            forall|k: Seq<char>|
                self.chunk_servers@.contains_key(k) <==> #[trigger] self.chunk_servers.key_seq().contains(
                    k,
                ),
            block.ec_data_shards <= 0,
        ensures
            r.deep_view() == repair_orders(self.cluster(), block@),
    {
        let ghost want = repair_orders(self.cluster(), block@);
        let mut r: Vec<Order> = Vec::new();
        assert(r.deep_view() =~= Seq::<(Seq<char>, OrderView)>::empty());
        let good = self.find_good_copies(block);
        if good.len() == 0 || good.len() >= REPLICATION_FACTOR {
            return r;
        }
        let needed: usize = REPLICATION_FACTOR - good.len();
        let source = &good[0];
        let free = find_strangers(live, &block.locations);
        assert(good.deep_view()[0] == source@);
        let mut i: usize = 0;
        while i < needed && i < free.len()
            invariant
                i <= needed,
                i <= free@.len(),
                free.deep_view() == strangers(live.deep_view(), block@.locations),
                want.len() == if free@.len() < needed {
                    free@.len() as int
                } else {
                    needed as int
                },
                forall|j: int|
                    0 <= j < want.len() ==> (#[trigger] want[j]) == (
                        source@,
                        copy_order(block@.block_id, free.deep_view()[j]),
                    ),
                r@.len() == i,
                forall|j: int| 0 <= j < i ==> (#[trigger] r@[j])@ == want[j],
            decreases needed - i,
        {
            let o = Order {
                addr: source.clone(),
                command: ChunkServerCommand {
                    command_type: CommandType::Replicate,
                    block_id: block.block_id.clone(),
                    target_chunk_server_address: free[i].clone(),
                    shard_index: -1,
                    ec_data_shards: 0,
                    ec_parity_shards: 0,
                    ec_shard_sources: Vec::new(),
                    original_block_size: 0,
                },
            };
            assert(o@.1 =~= copy_order(block@.block_id, free.deep_view()[i as int]));
            assert(o@ == want[i as int]);
            r.push(o);
            i += 1;
        }
        assert(r.deep_view() =~= want);
        r
    }

    /// Queues an order.
    pub fn queue(&mut self, addr: &str, command: ChunkServerCommand)
        ensures
            final(self)@ == (StateView {
                pending: with_order(old(self)@.pending, addr@, command@),
                ..old(self)@
            }),
            final(self).chunk_servers == old(self).chunk_servers,
            final(self).files == old(self).files,
    {
        let ghost before = self@;
        let mut waiting: Vec<ChunkServerCommand> = match self.pending_commands.get(addr) {
            Some(w) => w.dup(),
            None => Vec::new(),
        };
        let ghost w0 = waiting.deep_view();
        proof {
            if !before.pending.contains_key(addr@) {
                assert(w0 =~= Seq::<OrderView>::empty());
            }
        }
        waiting.push(command);
        assert(waiting.deep_view() =~= w0.push(command@));
        self.pending_commands.insert(addr.to_owned(), waiting);
        assert(self@ =~= (StateView {
            pending: with_order(before.pending, addr@, command@),
            ..before
        }));
    }

    /// Queues orders one after the other.
    pub fn queue_all(&mut self, orders: Vec<Order>)
        ensures
            final(self)@ == (StateView {
                pending: with_orders(old(self)@.pending, orders.deep_view()),
                ..old(self)@
            }),
            final(self).chunk_servers == old(self).chunk_servers,
            final(self).files == old(self).files,
    {
        let ghost before = self@;
        let ghost os = orders.deep_view();
        let mut i: usize = 0;
        assert(os.take(0) =~= Seq::<(Seq<char>, OrderView)>::empty());
        while i < orders.len()
            invariant
                i <= orders@.len(),
                os == orders.deep_view(),
                self@ == (StateView {
                    pending: with_orders(before.pending, os.take(i as int)),
                    ..before
                }),
                self.chunk_servers == old(self).chunk_servers,
                self.files == old(self).files,
            decreases orders@.len() - i,
        {
            let c = orders[i].command.dup();
            self.queue(orders[i].addr.as_str(), c);
            i += 1;
            proof {
                assert(os.take(i as int).drop_last() =~= os.take(i as int - 1));
                assert(os.take(i as int).last() == os[i as int - 1]);
            }
        }
        assert(os.take(os.len() as int) =~= os);
    }

    /// The orders that repair blocks.
    fn plan_blocks(&self, blocks: &Vec<BlockInfo>, live: &Vec<String>, out: &mut Vec<Order>)
        requires
            live.deep_view() == self.chunk_servers.key_seq(),
            forall|k: Seq<char>|
                self.chunk_servers@.contains_key(k) <==> #[trigger] self.chunk_servers.key_seq().contains(
                    k,
                ),
        ensures
            final(out).deep_view() == old(out).deep_view() + repair_blocks(
                self.cluster(),
                blocks.deep_view(),
            ),
    {
        let ghost said = out.deep_view();
        let ghost bs = blocks.deep_view();
        let ghost cl = self.cluster();
        let mut i: usize = 0;
        assert(bs.take(0) =~= Seq::<BlockView>::empty());
        assert(out.deep_view() =~= said + repair_blocks(cl, bs.take(0)));
        while i < blocks.len()
            invariant
                i <= blocks@.len(),
                bs == blocks.deep_view(),
                cl == self.cluster(),
                live.deep_view() == self.chunk_servers.key_seq(),
                forall|k: Seq<char>|
                    self.chunk_servers@.contains_key(k)
                        <==> #[trigger] self.chunk_servers.key_seq().contains(k),
                out.deep_view() == said + repair_blocks(cl, bs.take(i as int)),
            decreases blocks@.len() - i,
        {
            let mut more = if blocks[i].ec_data_shards > 0 {
                self.plan_rebuild(&blocks[i], live)
            } else {
                self.plan_copies(&blocks[i], live)
            };
            let ghost mv = more.deep_view();
            let ghost ov = out.deep_view();
            out.append(&mut more);
            i += 1;
            proof {
                assert(out.deep_view() =~= ov + mv);
                assert(bs.take(i as int).drop_last() =~= bs.take(i as int - 1));
                assert(bs.take(i as int).last() == bs[i as int - 1]);
                assert(out.deep_view() =~= said + repair_blocks(cl, bs.take(i as int)));
            }
        }
        assert(bs.take(bs.len() as int) =~= bs);
    }

    /// Queues the orders that repair all blocks of all files.
    pub fn repair(&mut self)
        ensures
            final(self)@ == (StateView {
                pending: with_orders(
                    old(self)@.pending,
                    repair_files(old(self).cluster(), old(self)@.files, old(self).files.key_seq()),
                ),
                ..old(self)@
            }),
            final(self).chunk_servers == old(self).chunk_servers,
            final(self).files == old(self).files,
            forall|a: Seq<char>| #[trigger]
                old(self).cluster().live.contains(a) <==> old(self)@.servers.contains_key(a),
            old(self).cluster().live.no_duplicates(),
            old(self).cluster().bad == old(self)@.bad,
    {
        let live = keys_of(&self.chunk_servers);
        let n: usize = self.files.len();
        let ghost ks = self.files.key_seq();
        let ghost cl = self.cluster();
        let mut orders: Vec<Order> = Vec::new();
        let mut i: usize = 0;
        assert(ks.take(0) =~= Seq::<Seq<char>>::empty());
        assert(orders.deep_view() =~= repair_files(cl, self@.files, ks.take(0)));
        while i < n
            invariant
                i <= n,
                n == ks.len(),
                ks == self.files.key_seq(),
                *self == *old(self),
                cl == self.cluster(),
                live.deep_view() == self.chunk_servers.key_seq(),
                forall|k: Seq<char>|
                    self.chunk_servers@.contains_key(k)
                        <==> #[trigger] self.chunk_servers.key_seq().contains(k),
                orders.deep_view() == repair_files(cl, self@.files, ks.take(i as int)),
            decreases n - i,
        {
            proof {
                assert(ks.take(i as int + 1).drop_last() =~= ks.take(i as int));
                assert(ks.take(i as int + 1).last() == ks[i as int]);
            }
            self.plan_blocks(&self.files.val_at(i).blocks, &live, &mut orders);
            i += 1;
        }
        assert(ks.take(ks.len() as int) =~= ks);
        self.queue_all(orders);
    }
}

/// Schedule replication commands for all blocks with fewer live replicas than REPLICATION_FACTOR.
/// Considers both dead chunk servers and known-bad block locations.
pub fn heal_under_replicated_blocks(state: &mut MasterState)
    ensures
        final(state)@ == (StateView {
            pending: with_orders(
                old(state)@.pending,
                repair_files(old(state).cluster(), old(state)@.files, old(state).files.key_seq()),
            ),
            ..old(state)@
        }),
        final(state).chunk_servers == old(state).chunk_servers,
        final(state).files == old(state).files,
        forall|a: Seq<char>| #[trigger]
            old(state).cluster().live.contains(a) <==> old(state)@.servers.contains_key(a),
        old(state).cluster().live.no_duplicates(),
        old(state).cluster().bad == old(state)@.bad,
{
    state.repair();
}

} // verus!
