//! Applying replicated commands to the state of the metadata service.

use crate::master::state::{MasterState, StateView};
use crate::master::transaction::{TxOpType, TxOpTypeView, TxOperation, TxView};
use crate::master::types::{BlockInfo, BlockView, FileMetadata, FileView};
use crate::raft::command::{MasterCommand, MasterCommandView};
use crate::strmap::Dup;
use crate::text::{text_before, text_le};
use vstd::prelude::*;

verus! {

/// A file as it is created: empty, with its erasure-coding policy.
pub open spec fn new_file(path: Seq<char>, ec_data_shards: i32, ec_parity_shards: i32) -> FileView {
    FileView {
        path,
        size: 0,
        blocks: Seq::empty(),
        etag_md5: Seq::empty(),
        created_at_ms: 0,
        ec_data_shards,
        ec_parity_shards,
        last_access_ms: 0,
        access_count: 0,
        moved_to_cold_at_ms: 0,
    }
}

/// A block as it is allocated for a file with the given policy.
pub open spec fn new_block(
    block_id: Seq<char>,
    locations: Seq<Seq<char>>,
    ec_data_shards: i32,
    ec_parity_shards: i32,
) -> BlockView {
    BlockView {
        block_id,
        size: 0,
        locations,
        checksum_crc32c: 0,
        ec_data_shards,
        ec_parity_shards,
        original_size: 0,
    }
}

/// The size of block `i` of `n` blocks that hold `size` bytes: all alike, but
/// for the last one, which takes what remains.
pub open spec fn share(size: u64, n: int, i: int) -> int {
    if i < n - 1 {
        size as int / n
    } else {
        size - (size as int / n) * (n - 1)
    }
}

/// The blocks of a file of `size` bytes.
pub open spec fn sized_blocks(blocks: Seq<BlockView>, size: u64) -> Seq<BlockView> {
    Seq::new(
        blocks.len(),
        |i: int| BlockView { size: share(size, blocks.len() as int, i) as u64, ..blocks[i] },
    )
}

/// The sizes of blocks, added up.
pub open spec fn size_sum(blocks: Seq<BlockView>) -> int
    decreases blocks.len(),
{
    if blocks.len() == 0 {
        0
    } else {
        size_sum(blocks.drop_last()) + blocks.last().size
    }
}

/// The files after a batch of metadata was taken in, later ones replacing
/// earlier ones.
pub open spec fn with_batch(
    files: Map<Seq<char>, FileView>,
    batch: Seq<FileView>,
) -> Map<Seq<char>, FileView>
    decreases batch.len(),
{
    if batch.len() == 0 {
        files
    } else {
        with_batch(files, batch.drop_last()).insert(batch.last().path, batch.last())
    }
}

/// The files that stay when everything from `split_key` on goes elsewhere.
pub open spec fn below(files: Map<Seq<char>, FileView>, split_key: Seq<char>) -> Map<
    Seq<char>,
    FileView,
> {
    files.restrict(Set::new(|k: Seq<char>| !text_le(split_key, k)))
}

impl FileView {
    /// The file once it is complete.
    pub open spec fn completed(
        self,
        size: u64,
        etag_md5: Option<Seq<char>>,
        created_at_ms: Option<u64>,
    ) -> FileView {
        FileView {
            size,
            blocks: sized_blocks(self.blocks, size),
            etag_md5: match etag_md5 {
                Some(e) => e,
                None => self.etag_md5,
            },
            created_at_ms: match created_at_ms {
                Some(t) => t,
                None => self.created_at_ms,
            },
            ..self
        }
    }

    /// The file after one more access.
    pub open spec fn accessed(self, at: u64) -> FileView {
        FileView {
            last_access_ms: at,
            access_count: if self.access_count == u64::MAX {
                0
            } else {
                (self.access_count + 1) as u64
            },
            ..self
        }
    }
}

impl StateView {
    /// The state with a file replaced, if it exists.
    pub open spec fn with_file(self, path: Seq<char>, f: FileView) -> StateView {
        if self.files.contains_key(path) {
            StateView { files: self.files.insert(path, f), ..self }
        } else {
            self
        }
    }

    /// The state after an operation of a transaction.
    pub open spec fn operated(self, op: TxOpTypeView) -> StateView {
        match op {
            TxOpTypeView::Delete { path } => StateView { files: self.files.remove(path), ..self },
            TxOpTypeView::Create { path, metadata } => StateView {
                files: self.files.insert(path, metadata),
                ..self
            },
        }
    }

    /// The state after a replicated command.
    pub open spec fn after(self, cmd: MasterCommandView) -> StateView {
        match cmd {
            MasterCommandView::CreateFile { path, ec_data_shards, ec_parity_shards } => StateView {
                files: self.files.insert(path, new_file(path, ec_data_shards, ec_parity_shards)),
                ..self
            },
            MasterCommandView::DeleteFile { path } => StateView {
                files: self.files.remove(path),
                ..self
            },
            MasterCommandView::AllocateBlock { path, block_id, locations } => {
                let f = self.files[path];
                self.with_file(
                    path,
                    FileView {
                        blocks: f.blocks.push(
                            new_block(block_id, locations, f.ec_data_shards, f.ec_parity_shards),
                        ),
                        ..f
                    },
                )
            },
            MasterCommandView::RegisterChunkServer { address } => self,
            MasterCommandView::RenameFile { source_path, dest_path } => {
                if self.files.contains_key(source_path) {
                    StateView {
                        files: self.files.remove(source_path).insert(
                            dest_path,
                            FileView { path: dest_path, ..self.files[source_path] },
                        ),
                        ..self
                    }
                } else {
                    self
                }
            },
            MasterCommandView::CreateTransactionRecord { record } => StateView {
                txs: self.txs.insert(record.tx_id, record),
                ..self
            },
            MasterCommandView::UpdateTransactionState { tx_id, new_state } => {
                if self.txs.contains_key(tx_id) {
                    StateView {
                        txs: self.txs.insert(
                            tx_id,
                            TxView { state: new_state, ..self.txs[tx_id] },
                        ),
                        ..self
                    }
                } else {
                    self
                }
            },
            MasterCommandView::ApplyTransactionOperation { tx_id, operation } => self.operated(
                operation.op_type,
            ),
            MasterCommandView::DeleteTransactionRecord { tx_id } => StateView {
                txs: self.txs.remove(tx_id),
                ..self
            },
            MasterCommandView::SplitShard { split_key, new_shard_id, new_shard_peers } => {
                StateView { files: below(self.files, split_key), ..self }
            },
            MasterCommandView::MergeShard { victim_shard_id } => self,
            MasterCommandView::IngestBatch { files } => StateView {
                files: with_batch(self.files, files),
                ..self
            },
            MasterCommandView::TriggerShuffle { prefix } => StateView {
                shuffling: self.shuffling.insert(prefix),
                ..self
            },
            MasterCommandView::CompleteFile { path, size, etag_md5, created_at_ms } => {
                self.with_file(path, self.files[path].completed(size, etag_md5, created_at_ms))
            },
            MasterCommandView::StopShuffle { prefix } => StateView {
                shuffling: self.shuffling.remove(prefix),
                ..self
            },
            MasterCommandView::UpdateAccessStats { path, accessed_at_ms } => self.with_file(
                path,
                self.files[path].accessed(accessed_at_ms),
            ),
            MasterCommandView::MoveToCold { path, moved_at_ms } => self.with_file(
                path,
                FileView { moved_to_cold_at_ms: moved_at_ms, ..self.files[path] },
            ),
            MasterCommandView::ConvertToEc {
                path,
                ec_data_shards,
                ec_parity_shards,
                new_blocks,
            } => self.with_file(
                path,
                FileView {
                    ec_data_shards,
                    ec_parity_shards,
                    blocks: new_blocks,
                    ..self.files[path]
                },
            ),
        }
    }
}

/// What a list of `n` blocks shares fits and adds up.
proof fn lemma_share(size: u64, n: int)
    requires
        n >= 1,
    ensures
        0 <= size as int / n <= size,
        0 <= (size as int / n) * (n - 1) <= size,
{
    let q = size as int / n;
    assert(q * n <= size && 0 <= q) by (nonlinear_arith)
        requires
            q == size as int / n,
            n >= 1,
            0 <= size,
    ;
    assert(0 <= q * (n - 1) <= q * n && q <= q * n) by (nonlinear_arith)
        requires
            0 <= q,
            n >= 1,
    ;
}

/// Distributes the size of a file over its blocks.
fn size_blocks(blocks: &mut Vec<BlockInfo>, size: u64)
    ensures
        final(blocks).deep_view() == sized_blocks(old(blocks).deep_view(), size),
{
    let ghost before = blocks.deep_view();
    let n: usize = blocks.len();
    if n == 0 {
        assert(blocks.deep_view() =~= sized_blocks(before, size));
        return;
    }
    proof {
        lemma_share(size, n as int);
    }
    let each: u64 = size / n as u64;
    let last: u64 = size - each * (n - 1) as u64;
    let mut i: usize = 0;
    while i < n
        invariant
            i <= n,
            n == before.len(),
            n >= 1,
            blocks@.len() == n,
            each == size as int / n as int,
            last == size - each * (n - 1),
            forall|j: int|
                0 <= j < i ==> (#[trigger] blocks@[j])@ == sized_blocks(before, size)[j],
            forall|j: int| i <= j < n ==> (#[trigger] blocks@[j])@ == before[j],
        decreases n - i,
    {
        let mut b = blocks[i].dup();
        assert(b@ == before[i as int]);
        b.size = if i < n - 1 {
            each
        } else {
            last
        };
        assert(b@ == sized_blocks(before, size)[i as int]);
        blocks.set(i, b);
        i += 1;
    }
    assert(blocks.deep_view() =~= sized_blocks(before, size));
}

impl MasterState {
    /// The metadata of a file, to be changed and put back.
    fn file_copy(&self, path: &str) -> (r: Option<FileMetadata>)
        ensures
            match r {
                Some(f) => self@.files.contains_key(path@) && f@ == self@.files[path@],
                None => !self@.files.contains_key(path@),
            },
    {
        match self.files.get(path) {
            Some(f) => Some(f.dup()),
            None => None,
        }
    }

    /// Takes in a batch of file metadata.
    fn ingest(&mut self, batch: &Vec<FileMetadata>)
        ensures
            final(self)@ == (StateView {
                files: with_batch(old(self)@.files, batch.deep_view()),
                ..old(self)@
            }),
    {
        let ghost before = self@;
        let ghost b = batch.deep_view();
        let mut i: usize = 0;
        assert(b.take(0) =~= Seq::<FileView>::empty());
        while i < batch.len()
            invariant
                i <= batch@.len(),
                b == batch.deep_view(),
                self@ == (StateView { files: with_batch(before.files, b.take(i as int)), ..before }),
            decreases batch@.len() - i,
        {
            let f = batch[i].dup();
            self.files.insert(batch[i].path.clone(), f);
            i += 1;
            proof {
                assert(b.take(i as int).drop_last() =~= b.take(i as int - 1));
                assert(b.take(i as int).last() == b[i as int - 1]);
                assert(self@.files == with_batch(before.files, b.take(i as int)));
                assert(self@ =~= (StateView {
                    files: with_batch(before.files, b.take(i as int)),
                    ..before
                }));
            }
        }
        assert(b.take(b.len() as int) =~= b);
    }

    /// Drops every file from `split_key` on.
    fn cut(&mut self, split_key: &str)
        ensures
            final(self)@ == (StateView { files: below(old(self)@.files, split_key@), ..old(self)@ }),
    {
        let ghost before = self@;
        let n: usize = self.files.len();
        let ghost ks = self.files.key_seq();
        let mut moved: Vec<String> = Vec::new();
        let mut i: usize = 0;
        while i < n
            invariant
                i <= n,
                n == ks.len(),
                ks == self.files.key_seq(),
                self@ == before,
                forall|j: int|
                    0 <= j < moved@.len() ==> text_le(split_key@, (#[trigger] moved@[j])@),
                forall|j: int|
                    0 <= j < i && text_le(split_key@, #[trigger] ks[j])
                        ==> moved.deep_view().contains(ks[j]),
            decreases n - i,
        {
            let k = self.files.key_at(i);
            let ghost mv = moved.deep_view();
            if !text_before(k.as_str(), split_key) {
                moved.push(k.clone());
                proof {
                    assert(moved.deep_view() =~= mv.push(ks[i as int]));
                    assert(moved.deep_view()[mv.len() as int] == ks[i as int]);
                }
            }
            proof {
                assert forall|j: int|
                    0 <= j < i + 1 && text_le(
                        split_key@,
                        #[trigger] ks[j],
                    ) implies moved.deep_view().contains(ks[j]) by {
                    if j < i {
                        let p = mv.index_of(ks[j]);
                        assert(moved.deep_view()[p] == ks[j]);
                    }
                }
            }
            i += 1;
        }
        let ghost mv = moved.deep_view();
        let mut j: usize = 0;
        assert(self@.files =~= before.files.remove_keys(mv.take(0).to_set()));
        while j < moved.len()
            invariant
                j <= moved@.len(),
                mv == moved.deep_view(),
                self@ == (StateView {
                    files: before.files.remove_keys(mv.take(j as int).to_set()),
                    ..before
                }),
            decreases moved@.len() - j,
        {
            self.files.remove(moved[j].as_str());
            proof {
                crate::raft::membership::lemma_take_contains(mv, j as int);
                assert forall|x: Seq<char>|
                    mv.take(j as int + 1).to_set().contains(x) == (mv.take(
                        j as int,
                    ).to_set().contains(x) || x == mv[j as int]) by {
                    assert(mv.take(j as int + 1).contains(x) == (mv.take(j as int).contains(x) || x
                        == mv[j as int]));
                }
                assert(self@.files =~= before.files.remove_keys(mv.take(j as int + 1).to_set()));
                assert(self@ =~= (StateView {
                    files: before.files.remove_keys(mv.take(j as int + 1).to_set()),
                    ..before
                }));
            }
            j += 1;
        }
        proof {
            assert(mv.take(mv.len() as int) =~= mv);
            assert forall|x: Seq<char>| before.files.contains_key(x) implies mv.contains(x)
                == text_le(split_key@, x) by {
                assert(ks.contains(x));
                let p = ks.index_of(x);
                if mv.contains(x) {
                    let q = mv.index_of(x);
                    assert(moved@[q]@ == x);
                }
                if text_le(split_key@, ks[p]) {
                    assert(mv.contains(ks[p]));
                }
            }
            assert(self@.files =~= below(before.files, split_key@));
        }
    }

    /// Applies an operation of a committed transaction.
    fn operate(&mut self, operation: &TxOperation)
        ensures
            final(self)@ == old(self)@.operated(operation@.op_type),
    {
        let ghost before = self@;
        match &operation.op_type {
            TxOpType::Delete { path } => {
                self.files.remove(path.as_str());
            },
            TxOpType::Create { path, metadata } => {
                self.files.insert(path.clone(), metadata.dup());
            },
        }
        assert(self@ =~= before.operated(operation@.op_type));
    }

    /// Applies a replicated command.
    pub fn apply_command(&mut self, cmd: &MasterCommand)
        ensures
            final(self)@ == old(self)@.after(cmd@),
    {
        let ghost before = self@;
        match cmd {
            MasterCommand::CreateFile { path, ec_data_shards, ec_parity_shards } => {
                let f = FileMetadata {
                    path: path.clone(),
                    size: 0,
                    blocks: Vec::new(),
                    etag_md5: String::new(),
                    created_at_ms: 0,
                    ec_data_shards: *ec_data_shards,
                    ec_parity_shards: *ec_parity_shards,
                    last_access_ms: 0,
                    access_count: 0,
                    moved_to_cold_at_ms: 0,
                };
                assert(f@ =~= new_file(path@, *ec_data_shards, *ec_parity_shards));
                self.files.insert(path.clone(), f);
            },
            MasterCommand::DeleteFile { path } => {
                self.files.remove(path.as_str());
            },
            MasterCommand::AllocateBlock { path, block_id, locations } => {
                if let Some(f) = self.file_copy(path.as_str()) {
                    let mut f = f;
                    let ghost f0 = f@;
                    let b = BlockInfo {
                        block_id: block_id.clone(),
                        size: 0,
                        locations: locations.dup(),
                        checksum_crc32c: 0,
                        ec_data_shards: f.ec_data_shards,
                        ec_parity_shards: f.ec_parity_shards,
                        original_size: 0,
                    };
                    f.blocks.push(b);
                    assert(f@.blocks =~= f0.blocks.push(b@));
                    self.files.insert(path.clone(), f);
                }
            },
            MasterCommand::RegisterChunkServer { address: _ } => {},
            MasterCommand::RenameFile { source_path, dest_path } => {
                if let Some(f) = self.files.remove(source_path.as_str()) {
                    let mut f = f;
                    f.path = dest_path.clone();
                    self.files.insert(dest_path.clone(), f);
                }
            },
            MasterCommand::CreateTransactionRecord { record } => {
                self.transaction_records.insert(record.tx_id.clone(), record.dup());
            },
            MasterCommand::UpdateTransactionState { tx_id, new_state } => {
                let copy = match self.transaction_records.get(tx_id.as_str()) {
                    Some(r) => Some(r.dup()),
                    None => None,
                };
                if let Some(r) = copy {
                    let mut r = r;
                    r.state = *new_state;
                    self.transaction_records.insert(tx_id.clone(), r);
                }
            },
            MasterCommand::ApplyTransactionOperation { tx_id: _, operation } => {
                self.operate(operation);
            },
            MasterCommand::DeleteTransactionRecord { tx_id } => {
                self.transaction_records.remove(tx_id.as_str());
            },
            MasterCommand::SplitShard { split_key, .. } => {
                self.cut(split_key.as_str());
            },
            MasterCommand::MergeShard { victim_shard_id: _ } => {},
            MasterCommand::IngestBatch { files } => {
                self.ingest(files);
            },
            MasterCommand::TriggerShuffle { prefix } => {
                self.shuffling_prefixes.insert(prefix.clone());
            },
            MasterCommand::CompleteFile { path, size, etag_md5, created_at_ms } => {
                if let Some(f) = self.file_copy(path.as_str()) {
                    let mut f = f;
                    f.size = *size;
                    size_blocks(&mut f.blocks, *size);
                    if let Some(e) = etag_md5 {
                        f.etag_md5 = e.clone();
                    }
                    if let Some(t) = created_at_ms {
                        f.created_at_ms = *t;
                    }
                    self.files.insert(path.clone(), f);
                }
            },
            MasterCommand::StopShuffle { prefix } => {
                self.shuffling_prefixes.remove(prefix.as_str());
            },
            MasterCommand::UpdateAccessStats { path, accessed_at_ms } => {
                if let Some(f) = self.file_copy(path.as_str()) {
                    let mut f = f;
                    f.last_access_ms = *accessed_at_ms;
                    f.access_count = f.access_count.wrapping_add(1);
                    self.files.insert(path.clone(), f);
                }
            },
            MasterCommand::MoveToCold { path, moved_at_ms } => {
                if let Some(f) = self.file_copy(path.as_str()) {
                    let mut f = f;
                    f.moved_to_cold_at_ms = *moved_at_ms;
                    self.files.insert(path.clone(), f);
                }
            },
            MasterCommand::ConvertToEc { path, ec_data_shards, ec_parity_shards, new_blocks } => {
                if let Some(f) = self.file_copy(path.as_str()) {
                    let mut f = f;
                    f.ec_data_shards = *ec_data_shards;
                    f.ec_parity_shards = *ec_parity_shards;
                    f.blocks = new_blocks.dup();
                    self.files.insert(path.clone(), f);
                }
            },
        }
        assert(self@ =~= before.after(cmd@));
    }
}

} // verus!
