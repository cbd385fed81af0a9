//! Periodic work on the state: dead servers, balance, shuffling, transaction
//! cleanup, cold storage and erasure coding.

use crate::clock::{elapsed, millis_between};
use crate::master::heal::{copy_order, repair_files, with_order, with_orders, Cluster};
use crate::master::state::{MasterState, StateView};
use crate::master::transaction::{TxState, TxView};
use crate::master::types::{
    BlockInfo, BlockView, ChunkServerCommand, CommandType, FileView, OrderView, StatusView,
};
use crate::raft::command::{MasterCommand, MasterCommandView};
use crate::text::{lists, starts_with};
use vstd::prelude::*;

verus! {

/// Silence after which a chunk server counts as dead, in milliseconds.
pub const DEAD_AFTER_MS: u64 = 15_000;

/// Difference in free space that is worth moving a block, in bytes.
pub const IMBALANCE_BYTES: u64 = 104_857_600;

/// Data shards of a converted block.
pub const EC_DATA: i32 = 6;

/// Parity shards of a converted block.
pub const EC_PARITY: i32 = 3;

/// Servers that a converted block needs.
pub const EC_TOTAL: usize = 9;

/// The server has been silent for too long at time `now`.
pub open spec fn is_dead(s: StatusView, now: u64) -> bool {
    elapsed(now, s.last_heartbeat) > DEAD_AFTER_MS
}

/// The servers that are not dead, in order.
pub open spec fn survivors(
    servers: Map<Seq<char>, StatusView>,
    keys: Seq<Seq<char>>,
    now: u64,
) -> Seq<Seq<char>>
    decreases keys.len(),
{
    if keys.len() == 0 {
        Seq::empty()
    } else if is_dead(servers[keys.last()], now) {
        survivors(servers, keys.drop_last(), now)
    } else {
        survivors(servers, keys.drop_last(), now).push(keys.last())
    }
}

impl StateView {
    /// A known server is dead at time `now`.
    pub open spec fn dead_at(self, addr: Seq<char>, now: u64) -> bool {
        self.servers.contains_key(addr) && is_dead(self.servers[addr], now)
    }

    /// The state without the servers that are dead, and without the orders
    /// that wait for them.
    pub open spec fn without_dead(self, now: u64) -> StateView {
        let dead = Set::new(|a: Seq<char>| self.dead_at(a, now));
        StateView {
            servers: self.servers.remove_keys(dead),
            pending: self.pending.remove_keys(dead),
            ..self
        }
    }
}

proof fn lemma_remove_survivor(
    servers: Map<Seq<char>, StatusView>,
    keys: Seq<Seq<char>>,
    now: u64,
    k: Seq<char>,
)
    requires
        keys.no_duplicates(),
        keys.contains(k),
        is_dead(servers[k], now),
    ensures
        survivors(servers, keys.remove(keys.index_of(k)), now) == survivors(servers, keys, now),
        keys.remove(keys.index_of(k)).no_duplicates(),
    decreases keys.len(),
{
    let i = keys.index_of(k);
    let r = keys.remove(i);
    if i == keys.len() - 1 {
        assert(r =~= keys.drop_last());
    } else {
        let d = keys.drop_last();
        assert(d[i] == k);
        assert(d.contains(k));
        let j = d.index_of(k);
        assert(keys[j] == k);
        assert(j == i);
        lemma_remove_survivor(servers, d, now, k);
        assert(r.drop_last() =~= d.remove(i));
        assert(r.last() == keys.last());
    }
}

/// With no dead ones left, the survivors are everyone.
proof fn lemma_all_survive(servers: Map<Seq<char>, StatusView>, keys: Seq<Seq<char>>, now: u64)
    requires
        forall|i: int| 0 <= i < keys.len() ==> !is_dead(servers[#[trigger] keys[i]], now),
    ensures
        survivors(servers, keys, now) == keys,
    decreases keys.len(),
{
    if keys.len() > 0 {
        assert(keys[keys.len() - 1] == keys.last());
        assert forall|i: int| 0 <= i < keys.drop_last().len() implies !is_dead(
            servers[#[trigger] keys.drop_last()[i]],
            now,
        ) by {
            assert(keys[i] == keys.drop_last()[i]);
        }
        lemma_all_survive(servers, keys.drop_last(), now);
        assert(keys =~= keys.drop_last().push(keys.last()));
    } else {
        assert(keys =~= Seq::empty());
    }
}

proof fn lemma_survivors_same(
    a: Map<Seq<char>, StatusView>,
    b: Map<Seq<char>, StatusView>,
    keys: Seq<Seq<char>>,
    now: u64,
)
    requires
        forall|i: int| 0 <= i < keys.len() ==> a[#[trigger] keys[i]] == b[keys[i]],
    ensures
        survivors(a, keys, now) == survivors(b, keys, now),
    decreases keys.len(),
{
    if keys.len() > 0 {
        assert(keys[keys.len() - 1] == keys.last());
        assert forall|i: int| 0 <= i < keys.drop_last().len() implies a[
            #[trigger] keys.drop_last()[i]] == b[keys.drop_last()[i]] by {
            assert(keys[i] == keys.drop_last()[i]);
        }
        lemma_survivors_same(a, b, keys.drop_last(), now);
    }
}

impl MasterState {
    /// The dead server that comes first in the walk order.
    fn find_dead(&self, now: u64) -> (r: Option<String>)
        ensures
            match r {
                Some(a) => self@.dead_at(a@, now) && self.chunk_servers.key_seq().contains(a@),
                None => forall|a: Seq<char>| !#[trigger] self@.dead_at(a, now),
            },
            self.chunk_servers.key_seq().no_duplicates(),
            self@.servers.dom().finite(),
            forall|k: Seq<char>|
                self@.servers.contains_key(k) <==> #[trigger] self.chunk_servers.key_seq().contains(
                    k,
                ),
    {
        let n: usize = self.chunk_servers.len();
        let ghost ks = self.chunk_servers.key_seq();
        let mut i: usize = 0;
        while i < n
            invariant
                i <= n,
                n == ks.len(),
                ks == self.chunk_servers.key_seq(),
                ks.no_duplicates(),
                self@.servers.dom().finite(),
                forall|k: Seq<char>| self@.servers.contains_key(k) <==> #[trigger] ks.contains(k),
                forall|j: int| 0 <= j < i ==> !self@.dead_at(#[trigger] ks[j], now),
            decreases n - i,
        {
            let s = self.chunk_servers.val_at(i);
            if millis_between(now, s.last_heartbeat) > DEAD_AFTER_MS {
                assert(ks.contains(ks[i as int]));
                return Some(self.chunk_servers.key_at(i).clone());
            }
            i += 1;
        }
        proof {
            assert forall|a: Seq<char>| !#[trigger] self@.dead_at(a, now) by {
                if self@.servers.contains_key(a) {
                    assert(ks.contains(a));
                    assert(!self@.dead_at(ks[ks.index_of(a)], now));
                }
            }
        }
        None
    }

    /// Removes chunk servers that haven't sent a heartbeat in 15 seconds, and
    /// repairs what they held. Tells how many there were.
    pub fn remove_dead_servers(&mut self, now: u64) -> (count: usize)
        ensures
            count == old(self)@.servers.len() - old(self)@.without_dead(now).servers.len(),
            (count == 0) == (forall|a: Seq<char>| !#[trigger] old(self)@.dead_at(a, now)),
            count == 0 ==> final(self)@ == old(self)@,
            count > 0 ==> final(self)@ == (StateView {
                pending: with_orders(
                    old(self)@.without_dead(now).pending,
                    repair_files(
                        Cluster {
                            live: survivors(
                                old(self)@.servers,
                                old(self).chunk_servers.key_seq(),
                                now,
                            ),
                            bad: old(self)@.bad,
                        },
                        old(self)@.files,
                        old(self).files.key_seq(),
                    ),
                ),
                ..old(self)@.without_dead(now)
            }),
    {
        let ghost s0 = self@;
        let ghost k0 = self.chunk_servers.key_seq();
        let ghost gone = Set::new(|a: Seq<char>| s0.dead_at(a, now));
        let ghost mut taken: Set<Seq<char>> = Set::empty();
        let total: usize = self.chunk_servers.len();
        let mut next = self.find_dead(now);
        proof {
            assert(s0.servers.remove_keys(taken) =~= s0.servers);
            assert(s0.pending.remove_keys(taken) =~= s0.pending);
        }
        loop
            invariant
                self@ == (StateView {
                    servers: s0.servers.remove_keys(taken),
                    pending: s0.pending.remove_keys(taken),
                    ..s0
                }),
                self.files == old(self).files,
                gone == Set::new(|a: Seq<char>| s0.dead_at(a, now)),
                taken.finite(),
                taken.subset_of(gone),
                taken.len() == s0.servers.len() - self@.servers.len(),
                s0.servers.dom().finite(),
                self@.servers.dom().finite(),
                self.chunk_servers.key_seq().no_duplicates(),
                survivors(s0.servers, self.chunk_servers.key_seq(), now) == survivors(
                    s0.servers,
                    k0,
                    now,
                ),
                forall|k: Seq<char>|
                    self@.servers.contains_key(k)
                        <==> #[trigger] self.chunk_servers.key_seq().contains(k),
                match next {
                    Some(a) => self@.dead_at(a@, now) && self.chunk_servers.key_seq().contains(a@),
                    None => forall|a: Seq<char>| !#[trigger] self@.dead_at(a, now),
                },
            ensures
                forall|a: Seq<char>| !#[trigger] self@.dead_at(a, now),
            decreases self@.servers.len(),
        {
            let addr = match next {
                Some(a) => a,
                None => {
                    break;
                },
            };
            let ghost s1 = self@;
            let ghost k1 = self.chunk_servers.key_seq();
            proof {
                assert(s1.servers[addr@] == s0.servers[addr@]);
                lemma_remove_survivor(s0.servers, k1, now, addr@);
            }
            self.chunk_servers.remove(addr.as_str());
            self.pending_commands.remove(addr.as_str());
            proof {
                taken = taken.insert(addr@);
                assert(self@.servers =~= s0.servers.remove_keys(taken));
                assert(self@.pending =~= s0.pending.remove_keys(taken));
                assert(self@ =~= (StateView {
                    servers: s0.servers.remove_keys(taken),
                    pending: s0.pending.remove_keys(taken),
                    ..s0
                }));
                assert(self@.servers.dom() =~= s1.servers.dom().remove(addr@));
            }
            next = self.find_dead(now);
        }
        proof {
            assert(taken =~= gone) by {
                assert forall|a: Seq<char>| gone.contains(a) implies taken.contains(a) by {
                    if !taken.contains(a) {
                        assert(self@.dead_at(a, now));
                    }
                }
            }
            assert(self@ =~= s0.without_dead(now));
            if taken.len() == 0 {
                assert(taken =~= Set::empty());
                assert(self@ =~= s0);
                assert forall|a: Seq<char>| !#[trigger] s0.dead_at(a, now) by {
                    assert(!gone.contains(a));
                }
            } else {
                let a = taken.choose();
                assert(gone.contains(a));
                assert(s0.dead_at(a, now));
            }
        }
        let count: usize = total - self.chunk_servers.len();
        if count > 0 {
            proof {
                let ks = self.chunk_servers.key_seq();
                assert forall|i: int| 0 <= i < ks.len() implies !is_dead(
                    s0.servers[#[trigger] ks[i]],
                    now,
                ) by {
                    assert(ks.contains(ks[i]));
                    assert(!self@.dead_at(ks[i], now));
                }
                lemma_all_survive(s0.servers, ks, now);
            }
            self.repair();
        }
        count
    }
}

/// The server with the least free space, the first of them.
pub open spec fn fullest_first(servers: Map<Seq<char>, StatusView>, keys: Seq<Seq<char>>) -> Seq<
    char,
>
    decreases keys.len(),
{
    if keys.len() <= 1 {
        keys[0]
    } else {
        let f = fullest_first(servers, keys.drop_last());
        if servers[keys.last()].available_space < servers[f].available_space {
            keys.last()
        } else {
            f
        }
    }
}

/// The server with the least free space, the last of them.
pub open spec fn fullest_last(servers: Map<Seq<char>, StatusView>, keys: Seq<Seq<char>>) -> Seq<
    char,
>
    decreases keys.len(),
{
    if keys.len() <= 1 {
        keys[0]
    } else {
        let f = fullest_last(servers, keys.drop_last());
        if servers[keys.last()].available_space <= servers[f].available_space {
            keys.last()
        } else {
            f
        }
    }
}

/// The server with the most free space, the first of them.
pub open spec fn emptiest_first(servers: Map<Seq<char>, StatusView>, keys: Seq<Seq<char>>) -> Seq<
    char,
>
    decreases keys.len(),
{
    if keys.len() <= 1 {
        keys[0]
    } else {
        let e = emptiest_first(servers, keys.drop_last());
        if servers[keys.last()].available_space > servers[e].available_space {
            keys.last()
        } else {
            e
        }
    }
}

/// The server with the most free space, the last of them.
pub open spec fn emptiest_last(servers: Map<Seq<char>, StatusView>, keys: Seq<Seq<char>>) -> Seq<
    char,
>
    decreases keys.len(),
{
    if keys.len() <= 1 {
        keys[0]
    } else {
        let e = emptiest_last(servers, keys.drop_last());
        if servers[keys.last()].available_space >= servers[e].available_space {
            keys.last()
        } else {
            e
        }
    }
}

/// The block is on `from` and not on `to`.
pub open spec fn movable(b: BlockView, from: Seq<char>, to: Seq<char>) -> bool {
    b.locations.contains(from) && !b.locations.contains(to)
}

/// The id of the first block that can move from `from` to `to`.
pub open spec fn movable_block(blocks: Seq<BlockView>, from: Seq<char>, to: Seq<char>) -> Option<
    Seq<char>,
>
    decreases blocks.len(),
{
    if blocks.len() == 0 {
        None
    } else {
        match movable_block(blocks.drop_last(), from, to) {
            Some(b) => Some(b),
            None => if movable(blocks.last(), from, to) {
                Some(blocks.last().block_id)
            } else {
                None
            },
        }
    }
}

/// The id of the first block of the files under `prefix` that can move from
/// `from` to `to`.
pub open spec fn movable_in(
    files: Map<Seq<char>, FileView>,
    paths: Seq<Seq<char>>,
    prefix: Seq<char>,
    from: Seq<char>,
    to: Seq<char>,
) -> Option<Seq<char>>
    decreases paths.len(),
{
    if paths.len() == 0 {
        None
    } else {
        let f = files[paths.last()];
        match movable_in(files, paths.drop_last(), prefix, from, to) {
            Some(b) => Some(b),
            None => if prefix.is_prefix_of(f.path) {
                movable_block(f.blocks, from, to)
            } else {
                None
            },
        }
    }
}

/// How far the free space of two servers is apart is worth a move.
pub open spec fn lopsided(full: StatusView, empty: StatusView) -> bool {
    empty.available_space - full.available_space > IMBALANCE_BYTES
}

fn find_movable(blocks: &Vec<BlockInfo>, from: &str, to: &str) -> (r: Option<String>)
    ensures
        match r {
            Some(b) => movable_block(blocks.deep_view(), from@, to@) == Some(b@),
            None => movable_block(blocks.deep_view(), from@, to@) is None,
        },
{
    let ghost bs = blocks.deep_view();
    let mut r: Option<String> = None;
    let mut i: usize = 0;
    assert(bs.take(0) =~= Seq::<BlockView>::empty());
    while i < blocks.len()
        invariant
            i <= blocks@.len(),
            bs == blocks.deep_view(),
            match r {
                Some(b) => movable_block(bs.take(i as int), from@, to@) == Some(b@),
                None => movable_block(bs.take(i as int), from@, to@) is None,
            },
        decreases blocks@.len() - i,
    {
        proof {
            assert(bs.take(i as int + 1).drop_last() =~= bs.take(i as int));
            assert(bs.take(i as int + 1).last() == bs[i as int]);
            assert(bs[i as int] == blocks@[i as int]@);
        }
        if r.is_none() && lists(&blocks[i].locations, from) && !lists(&blocks[i].locations, to) {
            r = Some(blocks[i].block_id.clone());
        }
        i += 1;
    }
    assert(bs.take(bs.len() as int) =~= bs);
    r
}

/// An order to copy a block to `target`.
fn copy_command(block_id: String, target: &str) -> (r: ChunkServerCommand)
    ensures
        r@ == copy_order(block_id@, target@),
{
    let r = ChunkServerCommand {
        command_type: CommandType::Replicate,
        block_id,
        target_chunk_server_address: target.to_owned(),
        shard_index: -1,
        ec_data_shards: 0,
        ec_parity_shards: 0,
        ec_shard_sources: Vec::new(),
        original_block_size: 0,
    };
    assert(r@ =~= copy_order(block_id@, target@));
    r
}

impl MasterState {
    /// The first block under `prefix` that can move from `from` to `to`.
    fn find_movable_in(&self, prefix: &str, from: &str, to: &str) -> (r: Option<String>)
        ensures
            match r {
                Some(b) => movable_in(
                    self@.files,
                    self.files.key_seq(),
                    prefix@,
                    from@,
                    to@,
                ) == Some(b@),
                None => movable_in(
                    self@.files,
                    self.files.key_seq(),
                    prefix@,
                    from@,
                    to@,
                ) is None,
            },
    {
        let n: usize = self.files.len();
        let ghost ks = self.files.key_seq();
        let ghost fs = self@.files;
        let mut r: Option<String> = None;
        let mut i: usize = 0;
        assert(ks.take(0) =~= Seq::<Seq<char>>::empty());
        while i < n
            invariant
                i <= n,
                n == ks.len(),
                ks == self.files.key_seq(),
                fs == self.files@,
                match r {
                    Some(b) => movable_in(fs, ks.take(i as int), prefix@, from@, to@) == Some(b@),
                    None => movable_in(fs, ks.take(i as int), prefix@, from@, to@) is None,
                },
            decreases n - i,
        {
            proof {
                assert(ks.take(i as int + 1).drop_last() =~= ks.take(i as int));
                assert(ks.take(i as int + 1).last() == ks[i as int]);
            }
            let f = self.files.val_at(i);
            if r.is_none() && starts_with(f.path.as_str(), prefix) {
                r = find_movable(&f.blocks, from, to);
            }
            i += 1;
        }
        assert(ks.take(ks.len() as int) =~= ks);
        r
    }

    /// The positions of the fullest and the emptiest server, for balancing:
    /// the first with the least and the last with the most free space.
    fn extremes_for_balance(&self) -> (r: (usize, usize))
        requires
            self.chunk_servers.key_seq().len() >= 1,
        ensures
            r.0 < self.chunk_servers.key_seq().len(),
            r.1 < self.chunk_servers.key_seq().len(),
            self.chunk_servers.key_seq()[r.0 as int] == fullest_first(
                self@.servers,
                self.chunk_servers.key_seq(),
            ),
            self.chunk_servers.key_seq()[r.1 as int] == emptiest_last(
                self@.servers,
                self.chunk_servers.key_seq(),
            ),
    {
        let n: usize = self.chunk_servers.len();
        let ghost ks = self.chunk_servers.key_seq();
        let ghost sv = self@.servers;
        let mut full: usize = 0;
        let mut empty: usize = 0;
        let mut i: usize = 1;
        assert(ks.take(1)[0] == ks[0]);
        while i < n
            invariant
                1 <= i <= n,
                n == ks.len(),
                ks == self.chunk_servers.key_seq(),
                sv == self.chunk_servers@,
                full < i,
                empty < i,
                ks[full as int] == fullest_first(sv, ks.take(i as int)),
                ks[empty as int] == emptiest_last(sv, ks.take(i as int)),
            decreases n - i,
        {
            proof {
                assert(ks.take(i as int + 1).drop_last() =~= ks.take(i as int));
                assert(ks.take(i as int + 1).last() == ks[i as int]);
            }
            let space: u64 = self.chunk_servers.val_at(i).available_space;
            if space < self.chunk_servers.val_at(full).available_space {
                full = i;
            }
            if space >= self.chunk_servers.val_at(empty).available_space {
                empty = i;
            }
            i += 1;
        }
        assert(ks.take(ks.len() as int) =~= ks);
        (full, empty)
    }

    /// The positions of the fullest and the emptiest server, for shuffling:
    /// the last with the least and the first with the most free space.
    fn extremes_for_shuffle(&self) -> (r: (usize, usize))
        requires
            self.chunk_servers.key_seq().len() >= 1,
        ensures
            r.0 < self.chunk_servers.key_seq().len(),
            r.1 < self.chunk_servers.key_seq().len(),
            self.chunk_servers.key_seq()[r.0 as int] == fullest_last(
                self@.servers,
                self.chunk_servers.key_seq(),
            ),
            self.chunk_servers.key_seq()[r.1 as int] == emptiest_first(
                self@.servers,
                self.chunk_servers.key_seq(),
            ),
    {
        let n: usize = self.chunk_servers.len();
        let ghost ks = self.chunk_servers.key_seq();
        let ghost sv = self@.servers;
        let mut full: usize = 0;
        let mut empty: usize = 0;
        let mut i: usize = 1;
        assert(ks.take(1)[0] == ks[0]);
        while i < n
            invariant
                1 <= i <= n,
                n == ks.len(),
                ks == self.chunk_servers.key_seq(),
                sv == self.chunk_servers@,
                full < i,
                empty < i,
                ks[full as int] == fullest_last(sv, ks.take(i as int)),
                ks[empty as int] == emptiest_first(sv, ks.take(i as int)),
            decreases n - i,
        {
            proof {
                assert(ks.take(i as int + 1).drop_last() =~= ks.take(i as int));
                assert(ks.take(i as int + 1).last() == ks[i as int]);
            }
            let space: u64 = self.chunk_servers.val_at(i).available_space;
            if space <= self.chunk_servers.val_at(full).available_space {
                full = i;
            }
            if space > self.chunk_servers.val_at(empty).available_space {
                empty = i;
            }
            i += 1;
        }
        assert(ks.take(ks.len() as int) =~= ks);
        (full, empty)
    }

    /// What balancing orders: a copy of a block of the fullest server on the
    /// emptiest one, if their free space is far enough apart.
    pub open spec fn balance_order(&self) -> Option<(Seq<char>, OrderView)> {
        let ks = self.chunk_servers.key_seq();
        let full = fullest_first(self@.servers, ks);
        let empty = emptiest_last(self@.servers, ks);
        if ks.len() < 2 || !lopsided(self@.servers[full], self@.servers[empty]) {
            None
        } else {
            match movable_in(self@.files, self.files.key_seq(), Seq::empty(), full, empty) {
                Some(b) => Some((full, copy_order(b, empty))),
                None => None,
            }
        }
    }

    /// Moves towards balance: orders a copy of a block of the fullest server
    /// on the emptiest one. Tells whether it did.
    pub fn balance(&mut self) -> (r: bool)
        ensures
            match old(self).balance_order() {
                Some(o) => r && final(self)@ == (StateView {
                    pending: with_order(old(self)@.pending, o.0, o.1),
                    ..old(self)@
                }),
                None => !r && *final(self) == *old(self),
            },
    {
        if self.chunk_servers.len() < 2 {
            return false;
        }
        let (full, empty) = self.extremes_for_balance();
        let low: u64 = self.chunk_servers.val_at(full).available_space;
        let high: u64 = self.chunk_servers.val_at(empty).available_space;
        if high <= low || high - low <= IMBALANCE_BYTES {
            return false;
        }
        let from = self.chunk_servers.key_at(full).clone();
        let to = self.chunk_servers.key_at(empty).clone();
        let none = String::new();
        match self.find_movable_in(none.as_str(), from.as_str(), to.as_str()) {
            Some(b) => {
                self.queue(from.as_str(), copy_command(b, to.as_str()));
                true
            },
            None => false,
        }
    }

    /// What shuffling a prefix orders: a copy of a block under it of the
    /// fullest server on the emptiest one.
    pub open spec fn shuffle_order(&self, prefix: Seq<char>) -> Option<(Seq<char>, OrderView)> {
        let ks = self.chunk_servers.key_seq();
        let full = fullest_last(self@.servers, ks);
        let empty = emptiest_first(self@.servers, ks);
        match movable_in(self@.files, self.files.key_seq(), prefix, full, empty) {
            Some(b) => Some((full, copy_order(b, empty))),
            None => None,
        }
    }

    /// Shuffles the data under a prefix by one block. Tells whether shuffling
    /// is over, because no block is left to move.
    pub fn shuffle(&mut self, prefix: &str) -> (stop: bool)
        requires
            old(self)@.servers.len() >= 1,
        ensures
            match old(self).shuffle_order(prefix@) {
                Some(o) => !stop && final(self)@ == (StateView {
                    pending: with_order(old(self)@.pending, o.0, o.1),
                    ..old(self)@
                }),
                None => stop && *final(self) == *old(self),
            },
    {
        let n: usize = self.chunk_servers.len();
        let (full, empty) = self.extremes_for_shuffle();
        let from = self.chunk_servers.key_at(full).clone();
        let to = self.chunk_servers.key_at(empty).clone();
        match self.find_movable_in(prefix, from.as_str(), to.as_str()) {
            Some(b) => {
                self.queue(from.as_str(), copy_command(b, to.as_str()));
                false
            },
            None => true,
        }
    }

    /// The prefixes to shuffle now; none as long as fewer than two chunk
    /// servers are known.
    pub fn prefixes_to_shuffle(&self) -> (r: Vec<String>)
        ensures
            r.deep_view() == if self@.servers.len() < 2 {
                Seq::empty()
            } else {
                self.shuffling_prefixes.item_seq()
            },
    {
        let mut r: Vec<String> = Vec::new();
        if self.chunk_servers.len() < 2 {
            assert(r.deep_view() =~= Seq::<Seq<char>>::empty());
            return r;
        }
        let n: usize = self.shuffling_prefixes.len();
        let ghost ps = self.shuffling_prefixes.item_seq();
        let mut i: usize = 0;
        while i < n
            invariant
                i <= n,
                n == ps.len(),
                ps == self.shuffling_prefixes.item_seq(),
                r@.len() == i,
                forall|j: int| 0 <= j < i ==> (#[trigger] r@[j])@ == ps[j],
            decreases n - i,
        {
            r.push(self.shuffling_prefixes.item_at(i).clone());
            i += 1;
        }
        assert(r.deep_view() =~= ps);
        r
    }
}

/// An undecided transaction that has taken too long at time `now`.
pub open spec fn overdue(tx: TxView, now: u64) -> bool {
    (tx.state == TxState::Pending || tx.state == TxState::Prepared) && tx.timed_out(now)
}

/// A decided transaction that can be forgotten at time `now`.
pub open spec fn forgettable(tx: TxView, now: u64) -> bool {
    (tx.state == TxState::Committed || tx.state == TxState::Aborted) && tx.stale(now)
}

/// The commands that abort what is overdue, in order.
pub open spec fn abort_commands(txs: Map<Seq<char>, TxView>, ids: Seq<Seq<char>>, now: u64) -> Seq<
    MasterCommandView,
>
    decreases ids.len(),
{
    if ids.len() == 0 {
        Seq::empty()
    } else {
        let rest = abort_commands(txs, ids.drop_last(), now);
        if overdue(txs[ids.last()], now) {
            rest.push(
                MasterCommandView::UpdateTransactionState {
                    tx_id: ids.last(),
                    new_state: TxState::Aborted,
                },
            )
        } else {
            rest
        }
    }
}

/// The commands that forget what can be forgotten, in order.
pub open spec fn forget_commands(
    txs: Map<Seq<char>, TxView>,
    ids: Seq<Seq<char>>,
    now: u64,
) -> Seq<MasterCommandView>
    decreases ids.len(),
{
    if ids.len() == 0 {
        Seq::empty()
    } else {
        let rest = forget_commands(txs, ids.drop_last(), now);
        if forgettable(txs[ids.last()], now) {
            rest.push(MasterCommandView::DeleteTransactionRecord { tx_id: ids.last() })
        } else {
            rest
        }
    }
}

impl MasterState {
    /// The commands that clean up transactions at time `now`: overdue ones are
    /// aborted, then old decided ones are forgotten.
    pub fn transaction_cleanup(&self, now: u64) -> (r: Vec<MasterCommand>)
        ensures
            r.deep_view() == abort_commands(
                self@.txs,
                self.transaction_records.key_seq(),
                now,
            ) + forget_commands(self@.txs, self.transaction_records.key_seq(), now),
    {
        let n: usize = self.transaction_records.len();
        let ghost ks = self.transaction_records.key_seq();
        let ghost txs = self@.txs;
        let mut aborts: Vec<MasterCommand> = Vec::new();
        let mut deletes: Vec<MasterCommand> = Vec::new();
        let mut i: usize = 0;
        assert(ks.take(0) =~= Seq::<Seq<char>>::empty());
        assert(aborts.deep_view() =~= Seq::<MasterCommandView>::empty());
        assert(deletes.deep_view() =~= Seq::<MasterCommandView>::empty());
        while i < n
            invariant
                i <= n,
                n == ks.len(),
                ks == self.transaction_records.key_seq(),
                txs == self.transaction_records@,
                aborts.deep_view() == abort_commands(txs, ks.take(i as int), now),
                deletes.deep_view() == forget_commands(txs, ks.take(i as int), now),
            decreases n - i,
        {
            proof {
                assert(ks.take(i as int + 1).drop_last() =~= ks.take(i as int));
                assert(ks.take(i as int + 1).last() == ks[i as int]);
            }
            let ghost av = aborts.deep_view();
            let ghost dv = deletes.deep_view();
            let record = self.transaction_records.val_at(i);
            let open = record.state == TxState::Pending || record.state == TxState::Prepared;
            if open {
                if record.timed_out_at(now) {
                    let c = MasterCommand::UpdateTransactionState {
                        tx_id: self.transaction_records.key_at(i).clone(),
                        new_state: TxState::Aborted,
                    };
                    aborts.push(c);
                    assert(aborts.deep_view() =~= av.push(c@));
                }
            } else if record.stale_at(now) {
                let c = MasterCommand::DeleteTransactionRecord {
                    tx_id: self.transaction_records.key_at(i).clone(),
                };
                deletes.push(c);
                assert(deletes.deep_view() =~= dv.push(c@));
            }
            i += 1;
        }
        assert(ks.take(ks.len() as int) =~= ks);
        let ghost av = aborts.deep_view();
        let ghost dv = deletes.deep_view();
        aborts.append(&mut deletes);
        assert(aborts.deep_view() =~= av + dv);
        aborts
    }
}

} // verus!
