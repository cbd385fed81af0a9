//! Cold storage and erasure coding: which files go there, and how.

use crate::master::heal::{with_orders, Order};
use crate::master::scan::{EC_DATA, EC_PARITY, EC_TOTAL};
use crate::master::state::{MasterState, StateView};
use crate::master::types::{
    BlockInfo, BlockView, ChunkServerCommand, CommandType, FileView, OrderView, StatusView,
};
use crate::raft::command::{MasterCommand, MasterCommandView};
use crate::sorting::{sort_texts, sorted_texts};
use crate::strmap::Dup;
use vstd::prelude::*;

verus! {

/// Milliseconds from `then` to `now`; none if `then` is later.
pub open spec fn since(now: u64, then: u64) -> int {
    if now >= then {
        now - then
    } else {
        0
    }
}

/// A file that goes to cold storage at time `now`: it is still hot and plain,
/// and was last read longer ago than the threshold.
pub open spec fn goes_cold(f: FileView, now: u64, threshold_ms: u64) -> bool {
    &&& f.moved_to_cold_at_ms == 0
    &&& f.ec_data_shards == 0
    &&& f.last_access_ms > 0
    &&& since(now, f.last_access_ms) > threshold_ms
}

/// A file that is converted to erasure coding at time `now`: it is cold and
/// plain, and went cold longer ago than the threshold.
pub open spec fn goes_ec(f: FileView, now: u64, threshold_ms: u64) -> bool {
    &&& f.moved_to_cold_at_ms > 0
    &&& f.ec_data_shards == 0
    &&& since(now, f.moved_to_cold_at_ms) > threshold_ms
}

/// An order to move a block to cold storage.
pub open spec fn cold_order(block_id: Seq<char>) -> OrderView {
    OrderView {
        command_type: CommandType::MoveToCold,
        block_id,
        target: Seq::empty(),
        shard_index: 0,
        ec_data_shards: 0,
        ec_parity_shards: 0,
        ec_shard_sources: Seq::empty(),
        original_block_size: 0,
    }
}

/// Orders for every holder of every block to move it to cold storage.
pub open spec fn cold_orders(blocks: Seq<BlockView>) -> Seq<(Seq<char>, OrderView)>
    decreases blocks.len(),
{
    if blocks.len() == 0 {
        Seq::empty()
    } else {
        let b = blocks.last();
        cold_orders(blocks.drop_last()) + b.locations.map_values(
            |l: Seq<char>| (l, cold_order(b.block_id)),
        )
    }
}

/// The orders that move the files that go cold.
pub open spec fn tiering_orders(
    files: Map<Seq<char>, FileView>,
    paths: Seq<Seq<char>>,
    now: u64,
    threshold_ms: u64,
) -> Seq<(Seq<char>, OrderView)>
    decreases paths.len(),
{
    if paths.len() == 0 {
        Seq::empty()
    } else {
        let rest = tiering_orders(files, paths.drop_last(), now, threshold_ms);
        let f = files[paths.last()];
        if goes_cold(f, now, threshold_ms) {
            rest + cold_orders(f.blocks)
        } else {
            rest
        }
    }
}

/// The commands that record which files went cold.
pub open spec fn tiering_commands(
    files: Map<Seq<char>, FileView>,
    paths: Seq<Seq<char>>,
    now: u64,
    threshold_ms: u64,
) -> Seq<MasterCommandView>
    decreases paths.len(),
{
    if paths.len() == 0 {
        Seq::empty()
    } else {
        let rest = tiering_commands(files, paths.drop_last(), now, threshold_ms);
        let f = files[paths.last()];
        if goes_cold(f, now, threshold_ms) {
            rest.push(MasterCommandView::MoveToCold { path: f.path, moved_at_ms: now })
        } else {
            rest
        }
    }
}

/// The servers that have any space left, in order.
pub open spec fn roomy(servers: Map<Seq<char>, StatusView>, keys: Seq<Seq<char>>) -> Seq<Seq<char>>
    decreases keys.len(),
{
    if keys.len() == 0 {
        Seq::empty()
    } else {
        let rest = roomy(servers, keys.drop_last());
        if servers[keys.last()].available_space > 0 {
            rest.push(keys.last())
        } else {
            rest
        }
    }
}

/// A block in its erasure-coded form on the given servers.
pub open spec fn ec_block(b: BlockView, servers: Seq<Seq<char>>) -> BlockView {
    BlockView {
        locations: servers,
        ec_data_shards: EC_DATA,
        ec_parity_shards: EC_PARITY,
        ..b
    }
}

/// The commands that convert the files that are due.
pub open spec fn ec_commands(
    files: Map<Seq<char>, FileView>,
    paths: Seq<Seq<char>>,
    servers: Seq<Seq<char>>,
    now: u64,
    threshold_ms: u64,
) -> Seq<MasterCommandView>
    decreases paths.len(),
{
    if paths.len() == 0 {
        Seq::empty()
    } else {
        let rest = ec_commands(files, paths.drop_last(), servers, now, threshold_ms);
        let f = files[paths.last()];
        if goes_ec(f, now, threshold_ms) {
            rest.push(
                MasterCommandView::ConvertToEc {
                    path: f.path,
                    ec_data_shards: EC_DATA,
                    ec_parity_shards: EC_PARITY,
                    new_blocks: f.blocks.map_values(|b: BlockView| ec_block(b, servers)),
                },
            )
        } else {
            rest
        }
    }
}

fn age(now: u64, then: u64) -> (r: u64)
    ensures
        r == since(now, then),
{
    now.saturating_sub(then)
}

/// Adds the orders that move the blocks of a file to cold storage.
fn plan_cold(blocks: &Vec<BlockInfo>, out: &mut Vec<Order>)
    ensures
        final(out).deep_view() == old(out).deep_view() + cold_orders(blocks.deep_view()),
{
    let ghost said = out.deep_view();
    let ghost bs = blocks.deep_view();
    let mut i: usize = 0;
    assert(bs.take(0) =~= Seq::<BlockView>::empty());
    assert(out.deep_view() =~= said + cold_orders(bs.take(0)));
    while i < blocks.len()
        invariant
            i <= blocks@.len(),
            bs == blocks.deep_view(),
            out.deep_view() == said + cold_orders(bs.take(i as int)),
        decreases blocks@.len() - i,
    {
        let ghost told = out.deep_view();
        let ghost b = bs[i as int];
        let ghost more = b.locations.map_values(|l: Seq<char>| (l, cold_order(b.block_id)));
        let mut j: usize = 0;
        assert(out.deep_view() =~= told + more.take(0));
        while j < blocks[i].locations.len()
            invariant
                i < blocks@.len(),
                bs == blocks.deep_view(),
                b == bs[i as int],
                j <= blocks@[i as int].locations@.len(),
                more == b.locations.map_values(|l: Seq<char>| (l, cold_order(b.block_id))),
                out.deep_view() == told + more.take(j as int),
            decreases blocks@[i as int].locations@.len() - j,
        {
            let ghost ov = out.deep_view();
            let o = Order {
                addr: blocks[i].locations[j].clone(),
                command: ChunkServerCommand {
                    command_type: CommandType::MoveToCold,
                    block_id: blocks[i].block_id.clone(),
                    target_chunk_server_address: String::new(),
                    shard_index: 0,
                    ec_data_shards: 0,
                    ec_parity_shards: 0,
                    ec_shard_sources: Vec::new(),
                    original_block_size: 0,
                },
            };
            proof {
                assert(b == blocks@[i as int]@);
                assert(o@.1 =~= cold_order(b.block_id));
                assert(b.locations[j as int] == o@.0);
                assert(o@ == more[j as int]);
                assert(more.take(j as int + 1) =~= more.take(j as int).push(o@));
            }
            out.push(o);
            j += 1;
            assert(out.deep_view() =~= ov.push(o@));
            assert(out.deep_view() =~= told + more.take(j as int));
        }
        i += 1;
        proof {
            assert(more.take(more.len() as int) =~= more);
            assert(bs.take(i as int).drop_last() =~= bs.take(i as int - 1));
            assert(bs.take(i as int).last() == b);
            assert(out.deep_view() =~= said + cold_orders(bs.take(i as int)));
        }
    }
    assert(bs.take(bs.len() as int) =~= bs);
}

impl MasterState {
    /// Tiering: queues the orders that move files to cold storage that were
    /// not read for `threshold_secs`, and returns the commands that record it.
    pub fn scan_tiering(&mut self, now: u64, threshold_secs: u64) -> (r: Vec<MasterCommand>)
        requires
            threshold_secs * 1000 <= u64::MAX,
        ensures
            r.deep_view() == tiering_commands(
                old(self)@.files,
                old(self).files.key_seq(),
                now,
                (threshold_secs * 1000) as u64,
            ),
            final(self)@ == (StateView {
                pending: with_orders(
                    old(self)@.pending,
                    tiering_orders(
                        old(self)@.files,
                        old(self).files.key_seq(),
                        now,
                        (threshold_secs * 1000) as u64,
                    ),
                ),
                ..old(self)@
            }),
    {
        let threshold_ms: u64 = threshold_secs * 1000;
        let n: usize = self.files.len();
        let ghost ks = self.files.key_seq();
        let ghost fs = self@.files;
        let mut orders: Vec<Order> = Vec::new();
        let mut r: Vec<MasterCommand> = Vec::new();
        let mut i: usize = 0;
        assert(ks.take(0) =~= Seq::<Seq<char>>::empty());
        assert(orders.deep_view() =~= Seq::<(Seq<char>, OrderView)>::empty());
        assert(r.deep_view() =~= Seq::<MasterCommandView>::empty());
        while i < n
            invariant
                i <= n,
                n == ks.len(),
                ks == self.files.key_seq(),
                fs == self.files@,
                *self == *old(self),
                orders.deep_view() == tiering_orders(fs, ks.take(i as int), now, threshold_ms),
                r.deep_view() == tiering_commands(fs, ks.take(i as int), now, threshold_ms),
            decreases n - i,
        {
            proof {
                assert(ks.take(i as int + 1).drop_last() =~= ks.take(i as int));
                assert(ks.take(i as int + 1).last() == ks[i as int]);
            }
            let f = self.files.val_at(i);
            if f.moved_to_cold_at_ms == 0 && f.ec_data_shards == 0 && f.last_access_ms > 0 && age(
                now,
                f.last_access_ms,
            ) > threshold_ms {
                plan_cold(&f.blocks, &mut orders);
                let ghost rv = r.deep_view();
                let c = MasterCommand::MoveToCold { path: f.path.clone(), moved_at_ms: now };
                r.push(c);
                assert(r.deep_view() =~= rv.push(c@));
            }
            i += 1;
        }
        assert(ks.take(ks.len() as int) =~= ks);
        self.queue_all(orders);
        r
    }

    /// The servers that have any space left.
    fn list_roomy(&self) -> (r: Vec<String>)
        ensures
            r.deep_view() == roomy(self@.servers, self.chunk_servers.key_seq()),
    {
        let n: usize = self.chunk_servers.len();
        let ghost ks = self.chunk_servers.key_seq();
        let ghost sv = self@.servers;
        let mut r: Vec<String> = Vec::new();
        let mut i: usize = 0;
        assert(ks.take(0) =~= Seq::<Seq<char>>::empty());
        assert(r.deep_view() =~= Seq::<Seq<char>>::empty());
        while i < n
            invariant
                i <= n,
                n == ks.len(),
                ks == self.chunk_servers.key_seq(),
                sv == self.chunk_servers@,
                r.deep_view() == roomy(sv, ks.take(i as int)),
            decreases n - i,
        {
            let ghost rv = r.deep_view();
            proof {
                assert(ks.take(i as int + 1).drop_last() =~= ks.take(i as int));
                assert(ks.take(i as int + 1).last() == ks[i as int]);
            }
            if self.chunk_servers.val_at(i).available_space > 0 {
                r.push(self.chunk_servers.key_at(i).clone());
                assert(r.deep_view() =~= rv.push(ks[i as int]));
            }
            i += 1;
        }
        assert(ks.take(ks.len() as int) =~= ks);
        r
    }

    /// The servers for the shards of a converted block: those with space left,
    /// in dictionary order, as many as are needed.
    pub open spec fn ec_servers(&self) -> Seq<Seq<char>> {
        crate::master::placement::first_n(
            sorted_texts(roomy(self@.servers, self.chunk_servers.key_seq())),
            EC_TOTAL as int,
        )
    }

    /// Erasure coding: the commands that convert files that went cold more
    /// than `threshold_secs` ago; none where too few servers have space.
    pub fn scan_ec_conversion(&self, now: u64, threshold_secs: u64) -> (r: Vec<MasterCommand>)
        requires
            threshold_secs * 1000 <= u64::MAX,
        ensures
            r.deep_view() == if self.ec_servers().len() < EC_TOTAL {
                Seq::empty()
            } else {
                ec_commands(
                    self@.files,
                    self.files.key_seq(),
                    self.ec_servers(),
                    now,
                    (threshold_secs * 1000) as u64,
                )
            },
    {
        let threshold_ms: u64 = threshold_secs * 1000;
        let open = self.list_roomy();
        let mut servers = sort_texts(&open);
        let ghost sorted = servers.deep_view();
        servers.truncate(EC_TOTAL);
        proof {
            assert(servers.deep_view() =~= crate::master::placement::first_n(
                sorted,
                EC_TOTAL as int,
            ));
        }
        let mut r: Vec<MasterCommand> = Vec::new();
        assert(r.deep_view() =~= Seq::<MasterCommandView>::empty());
        if servers.len() < EC_TOTAL {
            return r;
        }
        let ghost se = servers.deep_view();
        let n: usize = self.files.len();
        let ghost ks = self.files.key_seq();
        let ghost fs = self@.files;
        let mut i: usize = 0;
        assert(ks.take(0) =~= Seq::<Seq<char>>::empty());
        while i < n
            invariant
                i <= n,
                n == ks.len(),
                ks == self.files.key_seq(),
                fs == self.files@,
                se == servers.deep_view(),
                r.deep_view() == ec_commands(fs, ks.take(i as int), se, now, threshold_ms),
            decreases n - i,
        {
            proof {
                assert(ks.take(i as int + 1).drop_last() =~= ks.take(i as int));
                assert(ks.take(i as int + 1).last() == ks[i as int]);
            }
            let f = self.files.val_at(i);
            if f.moved_to_cold_at_ms > 0 && f.ec_data_shards == 0 && age(
                now,
                f.moved_to_cold_at_ms,
            ) > threshold_ms {
                let new_blocks = convert_blocks(&f.blocks, &servers);
                let ghost rv = r.deep_view();
                let c = MasterCommand::ConvertToEc {
                    path: f.path.clone(),
                    ec_data_shards: EC_DATA,
                    ec_parity_shards: EC_PARITY,
                    new_blocks,
                };
                r.push(c);
                assert(r.deep_view() =~= rv.push(c@));
            }
            i += 1;
        }
        assert(ks.take(ks.len() as int) =~= ks);
        r
    }
}

/// The blocks of a file in their erasure-coded form.
fn convert_blocks(blocks: &Vec<BlockInfo>, servers: &Vec<String>) -> (r: Vec<BlockInfo>)
    ensures
        r.deep_view() == blocks.deep_view().map_values(
            |b: BlockView| ec_block(b, servers.deep_view()),
        ),
{
    let ghost se = servers.deep_view();
    let ghost want = blocks.deep_view().map_values(|b: BlockView| ec_block(b, se));
    let mut r: Vec<BlockInfo> = Vec::new();
    let mut i: usize = 0;
    while i < blocks.len()
        invariant
            i <= blocks@.len(),
            se == servers.deep_view(),
            want == blocks.deep_view().map_values(|b: BlockView| ec_block(b, se)),
            r@.len() == i,
            forall|j: int| 0 <= j < i ==> (#[trigger] r@[j])@ == want[j],
        decreases blocks@.len() - i,
    {
        let b = BlockInfo {
            block_id: blocks[i].block_id.clone(),
            size: blocks[i].size,
            locations: servers.dup(),
            checksum_crc32c: blocks[i].checksum_crc32c,
            ec_data_shards: EC_DATA,
            ec_parity_shards: EC_PARITY,
            original_size: blocks[i].original_size,
        };
        assert(blocks.deep_view()[i as int] == blocks@[i as int]@);
        assert(b@ == want[i as int]);
        r.push(b);
        i += 1;
    }
    assert(r.deep_view() =~= want);
    r
}

} // verus!
