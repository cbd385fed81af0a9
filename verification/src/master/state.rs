//! The state of the metadata service, and its safe mode.

use crate::clock::{elapsed, millis_between, now_millis};
use crate::master::transaction::{TransactionRecord, TxView};
use crate::master::types::{
    ChunkServerCommand, ChunkServerStatus, FileMetadata, FileView, OrderView, StatusView,
};
use crate::strmap::{StrMap, StrSet};
use vstd::prelude::*;

verus! {

/// Chunk servers that have to be known before safe mode ends.
pub const SAFE_MODE_MIN_CHUNKSERVERS: usize = 1;

/// Percentage of blocks that have to be reported before safe mode ends.
pub const SAFE_MODE_THRESHOLD: u32 = 99;

/// Longest stay in safe mode, in milliseconds.
pub const SAFE_MODE_TIMEOUT_MS: u64 = 60_000;

/// State of the metadata service of a shard.
#[derive(Debug)]
pub struct MasterState {
    /// Metadata for files: path -> metadata
    pub files: StrMap<FileMetadata>,
    /// Transaction records for cross-shard operations: tx_id -> record
    pub transaction_records: StrMap<TransactionRecord>,
    /// Prefixes currently undergoing background data shuffling
    pub shuffling_prefixes: StrSet,
    /// ChunkServer status (local state only): address -> status
    pub chunk_servers: StrMap<ChunkServerStatus>,
    /// Pending commands for ChunkServers (local state only): address -> commands
    pub pending_commands: StrMap<Vec<ChunkServerCommand>>,
    /// Safe Mode: cluster is in safe mode until enough blocks are reported
    pub safe_mode: bool,
    /// Timestamp when safe mode was entered (millis since epoch)
    pub safe_mode_entered_at: u64,
    /// Expected minimum number of ChunkServers before exiting safe mode
    pub safe_mode_min_chunkservers: usize,
    /// Total blocks known from metadata
    pub expected_block_count: usize,
    /// Number of blocks reported by ChunkServers
    pub reported_block_count: usize,
    /// Safe mode threshold (percentage of blocks that must be reported, 0-100)
    pub safe_mode_threshold: u32,
    /// Whether safe mode was manually forced
    pub safe_mode_manual: bool,
    /// Blocks known to be corrupted on specific ChunkServers (local state
    /// only): block_id -> addresses with a bad copy
    pub bad_block_locations: StrMap<StrSet>,
}

/// What the state of the metadata service stands for.
#[verifier::ext_equal]
pub struct StateView {
    pub files: Map<Seq<char>, FileView>,
    pub txs: Map<Seq<char>, TxView>,
    pub shuffling: Set<Seq<char>>,
    pub servers: Map<Seq<char>, StatusView>,
    pub pending: Map<Seq<char>, Seq<OrderView>>,
    pub safe_mode: bool,
    pub entered_at: u64,
    pub min_chunkservers: usize,
    pub expected: usize,
    pub reported: usize,
    pub threshold: u32,
    pub manual: bool,
    pub bad: Map<Seq<char>, Set<Seq<char>>>,
}

impl View for MasterState {
    type V = StateView;

    open spec fn view(&self) -> StateView {
        StateView {
            files: self.files@,
            txs: self.transaction_records@,
            shuffling: self.shuffling_prefixes@,
            servers: self.chunk_servers@,
            pending: self.pending_commands@,
            safe_mode: self.safe_mode,
            entered_at: self.safe_mode_entered_at,
            min_chunkservers: self.safe_mode_min_chunkservers,
            expected: self.expected_block_count,
            reported: self.reported_block_count,
            threshold: self.safe_mode_threshold,
            manual: self.safe_mode_manual,
            bad: self.bad_block_locations@,
        }
    }
}

/// The blocks of the files with the given paths, counted.
pub open spec fn block_count(files: Map<Seq<char>, FileView>, paths: Seq<Seq<char>>) -> nat
    decreases paths.len(),
{
    if paths.len() == 0 {
        0
    } else {
        block_count(files, paths.drop_last()) + files[paths.last()].blocks.len()
    }
}

/// All blocks of all files, counted.
pub open spec fn total_blocks(files: Map<Seq<char>, FileView>) -> nat {
    files.dom().fold(0, |n: nat, p: Seq<char>| n + files[p].blocks.len())
}

impl StateView {
    /// Safe mode may end at time `now`: it was not forced, enough chunk
    /// servers are known, and enough blocks are reported or it has lasted too
    /// long.
    pub open spec fn may_leave(self, now: u64) -> bool {
        &&& self.safe_mode
        &&& !self.manual
        &&& self.servers.len() >= self.min_chunkservers
        &&& self.expected == 0 || self.reported * 100 >= self.threshold * self.expected || elapsed(
            now,
            self.entered_at,
        ) > SAFE_MODE_TIMEOUT_MS
    }

    /// The state once safe mode has begun at time `now`.
    pub open spec fn guarded(self, now: u64) -> StateView {
        StateView {
            safe_mode: true,
            entered_at: now,
            min_chunkservers: SAFE_MODE_MIN_CHUNKSERVERS,
            threshold: SAFE_MODE_THRESHOLD,
            expected: total_blocks(self.files) as usize,
            reported: 0,
            manual: false,
            ..self
        }
    }

    /// The state once safe mode has ended.
    pub open spec fn released(self) -> StateView {
        if self.safe_mode {
            StateView { safe_mode: false, manual: false, ..self }
        } else {
            self
        }
    }

    /// The state after `count` more blocks were reported at time `now`.
    pub open spec fn with_reported(self, count: usize, now: u64) -> StateView {
        let s = StateView { reported: (self.reported + count) as usize, ..self };
        if s.may_leave(now) {
            s.released()
        } else {
            s
        }
    }
}

impl Default for MasterState {
    /// A state without files, servers and transactions, outside safe mode.
    fn default() -> (r: Self)
        ensures
            r@ == (StateView {
                files: Map::empty(),
                txs: Map::empty(),
                shuffling: Set::empty(),
                servers: Map::empty(),
                pending: Map::empty(),
                safe_mode: false,
                entered_at: 0,
                min_chunkservers: 0,
                expected: 0,
                reported: 0,
                threshold: 0,
                manual: false,
                bad: Map::empty(),
            }),
    {
        MasterState {
            files: StrMap::new(),
            transaction_records: StrMap::new(),
            shuffling_prefixes: StrSet::new(),
            chunk_servers: StrMap::new(),
            pending_commands: StrMap::new(),
            safe_mode: false,
            safe_mode_entered_at: 0,
            safe_mode_min_chunkservers: 0,
            expected_block_count: 0,
            reported_block_count: 0,
            safe_mode_threshold: 0,
            safe_mode_manual: false,
            bad_block_locations: StrMap::new(),
        }
    }
}

/// Counting along a list without repetitions counts every file once.
proof fn lemma_block_count(files: Map<Seq<char>, FileView>, paths: Seq<Seq<char>>)
    requires
        paths.no_duplicates(),
    ensures
        block_count(files, paths) == paths.to_set().fold(
            0,
            |n: nat, p: Seq<char>| n + files[p].blocks.len(),
        ),
    decreases paths.len(),
{
    let f = |n: nat, p: Seq<char>| n + files[p].blocks.len();
    if paths.len() == 0 {
        assert(paths.to_set() =~= Set::empty());
        vstd::set::fold::lemma_fold_empty::<Seq<char>, nat>(0, f);
    } else {
        let rest = paths.drop_last();
        let last = paths.last();
        lemma_block_count(files, rest);
        assert forall|x: Seq<char>| paths.to_set().contains(x) == rest.to_set().insert(
            last,
        ).contains(x) by {
            if rest.contains(x) {
                assert(paths[rest.index_of(x)] == x);
            }
            if paths.contains(x) && x != last {
                assert(rest[paths.index_of(x)] == x);
            }
            if x == last {
                assert(paths[paths.len() - 1] == x);
            }
        }
        assert(paths.to_set() =~= rest.to_set().insert(last));
        assert(!rest.to_set().contains(last)) by {
            if rest.contains(last) {
                assert(paths[rest.index_of(last)] == paths[paths.len() - 1]);
            }
        }
        vstd::seq_lib::seq_to_set_is_finite(rest);
        vstd::set::fold::lemma_fold_insert::<Seq<char>, nat>(rest.to_set(), 0, f, last);
    }
}

proof fn lemma_block_count_grows(files: Map<Seq<char>, FileView>, paths: Seq<Seq<char>>, i: int)
    requires
        0 <= i <= paths.len(),
    ensures
        block_count(files, paths.take(i)) <= block_count(files, paths),
    decreases paths.len(),
{
    if i == paths.len() {
        assert(paths.take(i) =~= paths);
    } else {
        assert(paths.drop_last().take(i) =~= paths.take(i));
        lemma_block_count_grows(files, paths.drop_last(), i);
    }
}

impl MasterState {
    /// Count total blocks across all files
    pub fn count_total_blocks(&self) -> (n: usize)
        requires
            total_blocks(self@.files) <= usize::MAX,
        ensures
            n == total_blocks(self@.files),
    {
        let count: usize = self.files.len();
        let ghost ks = self.files.key_seq();
        let ghost files = self@.files;
        proof {
            lemma_block_count(files, ks);
        }
        let mut n: usize = 0;
        let mut i: usize = 0;
        assert(ks.take(0) =~= Seq::<Seq<char>>::empty());
        while i < count
            invariant
                i <= count,
                count == ks.len(),
                ks == self.files.key_seq(),
                files == self.files@,
                block_count(files, ks) <= usize::MAX,
                n == block_count(files, ks.take(i as int)),
            decreases count - i,
        {
            proof {
                lemma_block_count_grows(files, ks, i as int + 1);
                assert(ks.take(i as int + 1).drop_last() =~= ks.take(i as int));
                assert(ks.take(i as int + 1).last() == ks[i as int]);
            }
            n += self.files.val_at(i).blocks.len();
            i += 1;
        }
        assert(ks.take(ks.len() as int) =~= ks);
        n
    }

    /// Begins safe mode at time `now`.
    pub fn enter_safe_mode_at(&mut self, now: u64)
        requires
            total_blocks(old(self)@.files) <= usize::MAX,
        ensures
            final(self)@ == old(self)@.guarded(now),
    {
        let ghost before = self@;
        self.safe_mode = true;
        self.safe_mode_entered_at = now;
        self.safe_mode_min_chunkservers = SAFE_MODE_MIN_CHUNKSERVERS;
        self.safe_mode_threshold = SAFE_MODE_THRESHOLD;
        self.expected_block_count = self.count_total_blocks();
        self.reported_block_count = 0;
        self.safe_mode_manual = false;
        assert(self@ =~= before.guarded(now));
    }

    /// Initialize safe mode on startup
    pub fn enter_safe_mode(&mut self)
        requires
            total_blocks(old(self)@.files) <= usize::MAX,
        ensures
            final(self)@ == old(self)@.guarded(final(self).safe_mode_entered_at),
    {
        let now: u64 = now_millis();
        self.enter_safe_mode_at(now);
    }

    /// Check if safe mode should be exited automatically at time `now`
    pub fn should_exit_safe_mode_at(&self, now: u64) -> (r: bool)
        ensures
            r == self@.may_leave(now),
    {
        if self.safe_mode_manual {
            return false;
        }
        if !self.safe_mode {
            return false;
        }
        if self.chunk_servers.len() < self.safe_mode_min_chunkservers {
            return false;
        }
        if self.expected_block_count == 0 {
            return true;
        }
        let reported: u128 = self.reported_block_count as u128 * 100;
        let threshold: u128 = self.safe_mode_threshold as u128;
        let expected: u128 = self.expected_block_count as u128;
        assert(threshold * expected <= 0xffff_ffff * 0xffff_ffff_ffff_ffff) by (nonlinear_arith)
            requires
                threshold <= 0xffff_ffff,
                expected <= 0xffff_ffff_ffff_ffff,
        ;
        if reported >= threshold * expected {
            return true;
        }
        millis_between(now, self.safe_mode_entered_at) > SAFE_MODE_TIMEOUT_MS
    }

    /// Check if safe mode should be exited automatically
    pub fn should_exit_safe_mode(&self) -> (r: bool)
        ensures
            exists|now: u64| r == #[trigger] self@.may_leave(now),
    {
        let now: u64 = now_millis();
        self.should_exit_safe_mode_at(now)
    }

    /// Exit safe mode
    pub fn exit_safe_mode(&mut self)
        ensures
            final(self)@ == old(self)@.released(),
            final(self).files == old(self).files,
            final(self).chunk_servers == old(self).chunk_servers,
    {
        let ghost before = self@;
        if self.safe_mode {
            self.safe_mode = false;
            self.safe_mode_manual = false;
        }
        assert(self@ =~= before.released());
    }

    /// Force enter safe mode (manual)
    pub fn force_enter_safe_mode(&mut self)
        requires
            total_blocks(old(self)@.files) <= usize::MAX,
        ensures
            final(self)@ == (StateView {
                manual: true,
                ..old(self)@.guarded(final(self).safe_mode_entered_at)
            }),
    {
        self.enter_safe_mode();
        self.safe_mode_manual = true;
    }

    /// Force exit safe mode (manual)
    pub fn force_exit_safe_mode(&mut self)
        ensures
            final(self)@ == (StateView { manual: false, safe_mode: false, ..old(self)@ }),
    {
        let ghost before = self@;
        self.safe_mode_manual = false;
        self.exit_safe_mode();
        assert(self@ =~= (StateView { manual: false, safe_mode: false, ..before }));
    }

    /// Check if in safe mode
    pub fn is_in_safe_mode(&self) -> (r: bool)
        ensures
            r == self@.safe_mode,
    {
        self.safe_mode
    }

    /// Update reported block count from a heartbeat at time `now`
    pub fn update_reported_blocks_at(&mut self, block_count: usize, now: u64)
        requires
            old(self).reported_block_count + block_count <= usize::MAX,
        ensures
            final(self)@ == old(self)@.with_reported(block_count, now),
            final(self).files == old(self).files,
            final(self).chunk_servers == old(self).chunk_servers,
    {
        let ghost before = self@;
        self.reported_block_count += block_count;
        assert(self@ =~= (StateView {
            reported: (before.reported + block_count) as usize,
            ..before
        }));
        if self.should_exit_safe_mode_at(now) {
            self.exit_safe_mode();
        }
    }

    /// Update reported block count from heartbeat
    pub fn update_reported_blocks(&mut self, block_count: usize)
        requires
            old(self).reported_block_count + block_count <= usize::MAX,
        ensures
            exists|now: u64| final(self)@ == #[trigger] old(self)@.with_reported(block_count, now),
    {
        let now: u64 = now_millis();
        self.update_reported_blocks_at(block_count, now);
    }
}

} // verus!
