//! Records of operations that span shards.

use crate::clock::{elapsed, millis_between, now_millis};
use crate::master::types::{FileMetadata, FileView};
use crate::strmap::Dup;
use crate::text::text_eq;
use vstd::prelude::*;

verus! {

/// Transaction state for cross-shard operations (Google Spanner style)
#[derive(Debug, Clone, Copy, PartialEq, Eq, Structural)]
pub enum TxState {
    /// Transaction started but not yet prepared
    Pending,
    /// All participants have validated and are ready to commit
    Prepared,
    /// Transaction has been committed successfully
    Committed,
    /// Transaction has been aborted
    Aborted,
}

/// Type of cross-shard transaction
#[derive(Debug, Clone, PartialEq)]
pub enum TransactionType {
    /// Rename operation (cross-shard file move)
    Rename { source_path: String, dest_path: String },
}

/// Type of operation
#[derive(Debug, Clone, PartialEq)]
pub enum TxOpType {
    /// Delete a file
    Delete { path: String },
    /// Create a file with metadata
    Create { path: String, metadata: FileMetadata },
}

/// Individual operation within a transaction
#[derive(Debug, Clone, PartialEq)]
pub struct TxOperation {
    /// Target shard ID for this operation
    pub shard_id: String,
    /// Operation type
    pub op_type: TxOpType,
}

/// Transaction Record for tracking cross-shard operations
#[derive(Debug, Clone, PartialEq)]
pub struct TransactionRecord {
    /// Unique transaction ID (UUID)
    pub tx_id: String,
    /// Type of transaction
    pub tx_type: TransactionType,
    /// Current state of the transaction
    pub state: TxState,
    /// Timestamp when transaction started (millis since epoch)
    pub timestamp: u64,
    /// List of participating shard IDs
    pub participants: Vec<String>,
    /// Operations to be performed on each shard
    pub operations: Vec<TxOperation>,
}

/// What the type of a transaction stands for.
pub enum TxTypeView {
    Rename { source_path: Seq<char>, dest_path: Seq<char> },
}

/// What the type of an operation stands for.
pub enum TxOpTypeView {
    Delete { path: Seq<char> },
    Create { path: Seq<char>, metadata: FileView },
}

/// What an operation of a transaction stands for.
pub struct TxOpView {
    pub shard_id: Seq<char>,
    pub op_type: TxOpTypeView,
}

/// What a transaction record stands for.
#[verifier::ext_equal]
pub struct TxView {
    pub tx_id: Seq<char>,
    pub tx_type: TxTypeView,
    pub state: TxState,
    pub timestamp: u64,
    pub participants: Seq<Seq<char>>,
    pub operations: Seq<TxOpView>,
}

impl View for TransactionType {
    type V = TxTypeView;

    open spec fn view(&self) -> TxTypeView {
        match self {
            TransactionType::Rename { source_path, dest_path } => TxTypeView::Rename {
                source_path: source_path@,
                dest_path: dest_path@,
            },
        }
    }
}

impl View for TxOpType {
    type V = TxOpTypeView;

    open spec fn view(&self) -> TxOpTypeView {
        match self {
            TxOpType::Delete { path } => TxOpTypeView::Delete { path: path@ },
            TxOpType::Create { path, metadata } => TxOpTypeView::Create {
                path: path@,
                metadata: metadata@,
            },
        }
    }
}

impl View for TxOperation {
    type V = TxOpView;

    open spec fn view(&self) -> TxOpView {
        TxOpView { shard_id: self.shard_id@, op_type: self.op_type@ }
    }
}

impl DeepView for TxOperation {
    type V = TxOpView;

    open spec fn deep_view(&self) -> TxOpView {
        self.view()
    }
}

impl View for TransactionRecord {
    type V = TxView;

    open spec fn view(&self) -> TxView {
        TxView {
            tx_id: self.tx_id@,
            tx_type: self.tx_type@,
            state: self.state,
            timestamp: self.timestamp,
            participants: self.participants.deep_view(),
            operations: self.operations.deep_view(),
        }
    }
}

impl DeepView for TransactionRecord {
    type V = TxView;

    open spec fn deep_view(&self) -> TxView {
        self.view()
    }
}

impl Dup for TxOperation {
    fn dup(&self) -> (r: Self) {
        let op_type = match &self.op_type {
            TxOpType::Delete { path } => TxOpType::Delete { path: path.clone() },
            TxOpType::Create { path, metadata } => TxOpType::Create {
                path: path.clone(),
                metadata: metadata.dup(),
            },
        };
        TxOperation { shard_id: self.shard_id.clone(), op_type }
    }
}

impl Dup for TransactionRecord {
    fn dup(&self) -> (r: Self) {
        let tx_type = match &self.tx_type {
            TransactionType::Rename { source_path, dest_path } => TransactionType::Rename {
                source_path: source_path.clone(),
                dest_path: dest_path.clone(),
            },
        };
        TransactionRecord {
            tx_id: self.tx_id.clone(),
            tx_type,
            state: self.state,
            timestamp: self.timestamp,
            participants: self.participants.dup(),
            operations: self.operations.dup(),
        }
    }
}

/// The record of a rename across shards: the source shard deletes, then the
/// destination shard creates with the metadata of the source.
pub open spec fn rename_record(
    tx_id: Seq<char>,
    source_path: Seq<char>,
    dest_path: Seq<char>,
    source_shard: Seq<char>,
    dest_shard: Seq<char>,
    source_metadata: FileView,
    timestamp: u64,
) -> TxView {
    TxView {
        tx_id,
        tx_type: TxTypeView::Rename { source_path, dest_path },
        state: TxState::Pending,
        timestamp,
        participants: seq![source_shard, dest_shard],
        operations: seq![
            TxOpView { shard_id: source_shard, op_type: TxOpTypeView::Delete { path: source_path } },
            TxOpView {
                shard_id: dest_shard,
                op_type: TxOpTypeView::Create { path: dest_path, metadata: source_metadata },
            },
        ],
    }
}

/// How long a transaction may stay undecided, in milliseconds.
pub const TX_TIMEOUT_MS: u64 = 10_000;

/// How long a transaction record is kept, in milliseconds.
pub const TX_RETENTION_MS: u64 = 3_600_000;

impl TxView {
    /// The transaction deletes `path`.
    pub open spec fn deletes(self, path: Seq<char>) -> bool {
        exists|i: int|
            0 <= i < self.operations.len() && (#[trigger] self.operations[i]).op_type == (
            TxOpTypeView::Delete { path })
    }

    /// Operation `i` creates `path`.
    pub open spec fn creates_at(self, i: int, path: Seq<char>) -> bool {
        self.operations[i].op_type matches TxOpTypeView::Create { path: p, .. } && p == path
    }

    /// The transaction creates `path`.
    pub open spec fn creates(self, path: Seq<char>) -> bool {
        exists|i: int| 0 <= i < self.operations.len() && #[trigger] self.creates_at(i, path)
    }

    /// The metadata with which the first operation that creates `path` does so.
    pub open spec fn created(self, path: Seq<char>) -> Option<FileView> {
        if self.creates(path) {
            let i = choose|i: int|
                0 <= i < self.operations.len() && #[trigger] self.creates_at(i, path) && forall|
                    j: int,
                |
                    0 <= j < i ==> !#[trigger] self.creates_at(j, path);
            Some(self.operations[i].op_type->metadata)
        } else {
            None
        }
    }

    /// Undecided for longer than a transaction may be, at time `now`.
    pub open spec fn timed_out(self, now: u64) -> bool {
        elapsed(now, self.timestamp) > TX_TIMEOUT_MS
    }

    /// Old enough to be forgotten, at time `now`.
    pub open spec fn stale(self, now: u64) -> bool {
        elapsed(now, self.timestamp) > TX_RETENTION_MS
    }
}

impl TransactionRecord {
    /// The record of a rename that started at `timestamp`.
    pub fn new_rename_at(
        tx_id: String,
        source_path: String,
        dest_path: String,
        source_shard: String,
        dest_shard: String,
        source_metadata: FileMetadata,
        timestamp: u64,
    ) -> (r: Self)
        ensures
            r@ == rename_record(
                tx_id@,
                source_path@,
                dest_path@,
                source_shard@,
                dest_shard@,
                source_metadata@,
                timestamp,
            ),
    {
        let tx_type = TransactionType::Rename {
            source_path: source_path.clone(),
            dest_path: dest_path.clone(),
        };
        let participants = vec![source_shard.clone(), dest_shard.clone()];
        let operations = vec![
            TxOperation {
                shard_id: source_shard,
                op_type: TxOpType::Delete { path: source_path },
            },
            TxOperation {
                shard_id: dest_shard,
                op_type: TxOpType::Create { path: dest_path, metadata: source_metadata },
            },
        ];
        let r = TransactionRecord {
            tx_id,
            tx_type,
            state: TxState::Pending,
            timestamp,
            participants,
            operations,
        };
        proof {
            let want = rename_record(
                tx_id@,
                source_path@,
                dest_path@,
                source_shard@,
                dest_shard@,
                source_metadata@,
                timestamp,
            );
            assert(r@.participants =~= want.participants);
            assert(r@.operations =~= want.operations);
        }
        r
    }

    /// Create a new transaction record for a rename operation
    pub fn new_rename(
        tx_id: String,
        source_path: String,
        dest_path: String,
        source_shard: String,
        dest_shard: String,
        source_metadata: FileMetadata,
    ) -> (r: Self)
        ensures
            r@ == rename_record(
                tx_id@,
                source_path@,
                dest_path@,
                source_shard@,
                dest_shard@,
                source_metadata@,
                r.timestamp,
            ),
    {
        let now: u64 = now_millis();
        Self::new_rename_at(
            tx_id,
            source_path,
            dest_path,
            source_shard,
            dest_shard,
            source_metadata,
            now,
        )
    }

    /// Check if this transaction deletes the specified file
    pub fn deletes_file(&self, path: &str) -> (r: bool)
        ensures
            r == self@.deletes(path@),
    {
        let mut i: usize = 0;
        while i < self.operations.len()
            invariant
                i <= self.operations.len(),
                forall|j: int|
                    0 <= j < i ==> (#[trigger] self@.operations[j]).op_type != (
                    TxOpTypeView::Delete { path: path@ }),
            decreases self.operations.len() - i,
        {
            if let TxOpType::Delete { path: p } = &self.operations[i].op_type {
                if text_eq(p.as_str(), path) {
                    assert(self@.operations[i as int].op_type == (TxOpTypeView::Delete {
                        path: path@,
                    }));
                    return true;
                }
            }
            i += 1;
        }
        false
    }

    /// Check if this transaction creates the specified file
    pub fn creates_file(&self, path: &str) -> (r: bool)
        ensures
            r == self@.creates(path@),
    {
        let mut i: usize = 0;
        while i < self.operations.len()
            invariant
                i <= self.operations.len(),
                forall|j: int| 0 <= j < i ==> !#[trigger] self@.creates_at(j, path@),
            decreases self.operations.len() - i,
        {
            if let TxOpType::Create { path: p, .. } = &self.operations[i].op_type {
                if text_eq(p.as_str(), path) {
                    assert(self@.creates_at(i as int, path@));
                    return true;
                }
            }
            i += 1;
        }
        false
    }

    /// Get metadata for a file created by this transaction
    pub fn get_created_metadata(&self, path: &str) -> (r: Option<FileMetadata>)
        ensures
            match r {
                Some(m) => self@.created(path@) == Some(m@),
                None => self@.created(path@) is None,
            },
    {
        let mut i: usize = 0;
        while i < self.operations.len()
            invariant
                i <= self.operations.len(),
                forall|j: int| 0 <= j < i ==> !#[trigger] self@.creates_at(j, path@),
            decreases self.operations.len() - i,
        {
            if let TxOpType::Create { path: p, metadata } = &self.operations[i].op_type {
                if text_eq(p.as_str(), path) {
                    proof {
                        assert(self@.creates_at(i as int, path@));
                        let k = choose|k: int|
                            0 <= k < self@.operations.len() && #[trigger] self@.creates_at(k, path@)
                                && forall|j: int| 0 <= j < k ==> !#[trigger] self@.creates_at(j, path@);
                        assert(k == i);
                    }
                    return Some(metadata.dup());
                }
            }
            i += 1;
        }
        None
    }

    /// Whether the transaction has timed out at time `now` (10 second timeout)
    pub fn timed_out_at(&self, now: u64) -> (r: bool)
        ensures
            r == self@.timed_out(now),
    {
        millis_between(now, self.timestamp) > TX_TIMEOUT_MS
    }

    /// Whether the record can be garbage collected at time `now` (1 hour)
    pub fn stale_at(&self, now: u64) -> (r: bool)
        ensures
            r == self@.stale(now),
    {
        millis_between(now, self.timestamp) > TX_RETENTION_MS
    }

    /// Check if transaction has timed out (10 second timeout)
    pub fn is_timed_out(&self) -> (r: bool)
        ensures
            exists|now: u64| r == #[trigger] self@.timed_out(now),
    {
        let now: u64 = now_millis();
        self.timed_out_at(now)
    }

    /// Check if transaction is stale and can be garbage collected (1 hour)
    pub fn is_stale(&self) -> (r: bool)
        ensures
            exists|now: u64| r == #[trigger] self@.stale(now),
    {
        let now: u64 = now_millis();
        self.stale_at(now)
    }
}

} // verus!
