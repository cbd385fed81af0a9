//! Commands that the log replicates.

use crate::master::transaction::{TransactionRecord, TxOpView, TxOperation, TxState, TxView};
use crate::master::types::{BlockInfo, BlockView, FileMetadata, FileView};
use crate::raft::config::ids_dup;
use crate::strmap::{Dup, StrMap};
use std::collections::HashMap;
use vstd::prelude::*;

verus! {

broadcast use vstd::std_specs::hash::group_hash_axioms;

/// Commands for Raft cluster membership changes
#[derive(Debug)]
pub enum MembershipCommand {
    /// Add a new server to the Raft cluster (legacy single-phase)
    AddServer {
        /// Server ID (typically the node index)
        server_id: usize,
        /// Server address (HTTP endpoint for Raft RPC)
        server_address: String,
    },
    /// Remove a server from the Raft cluster (legacy single-phase)
    RemoveServer {
        /// Server ID to remove
        server_id: usize,
    },
    /// Add multiple servers to the cluster (new multi-server support)
    AddServers {
        /// Servers to add (server_id -> address)
        servers: HashMap<usize, String>,
    },
    /// Remove multiple servers from the cluster (new multi-server support)
    RemoveServers {
        /// Server IDs to remove
        server_ids: Vec<usize>,
    },
    /// Internal: Transition from C-old to C-old,new (joint consensus)
    BeginJointConsensus {
        old_members: HashMap<usize, String>,
        new_members: HashMap<usize, String>,
        version: u64,
    },
    /// Internal: Transition from C-old,new to C-new (finalize)
    FinalizeConfiguration { new_members: HashMap<usize, String>, version: u64 },
}

/// Commands on the metadata of a shard
#[derive(Debug)]
pub enum MasterCommand {
    CreateFile { path: String, ec_data_shards: i32, ec_parity_shards: i32 },
    DeleteFile { path: String },
    AllocateBlock { path: String, block_id: String, locations: Vec<String> },
    RegisterChunkServer { address: String },
    /// Same-shard rename operation (no transaction record needed)
    RenameFile { source_path: String, dest_path: String },
    /// Create a new transaction record (state = Pending or Prepared)
    CreateTransactionRecord { record: TransactionRecord },
    /// Update transaction state (Pending -> Prepared -> Committed/Aborted)
    UpdateTransactionState { tx_id: String, new_state: TxState },
    /// Apply transaction operation (create/delete file as part of transaction)
    ApplyTransactionOperation { tx_id: String, operation: TxOperation },
    /// Delete transaction record (for garbage collection)
    DeleteTransactionRecord { tx_id: String },
    SplitShard { split_key: String, new_shard_id: String, new_shard_peers: Vec<String> },
    MergeShard { victim_shard_id: String },
    /// Ingest a batch of file metadata (for shard transfers)
    IngestBatch { files: Vec<FileMetadata> },
    /// Trigger background data shuffling for a prefix
    TriggerShuffle { prefix: String },
    /// Finalize file (update size)
    CompleteFile {
        path: String,
        size: u64,
        etag_md5: Option<String>,
        created_at_ms: Option<u64>,
    },
    /// Stop background data shuffling for a prefix
    StopShuffle { prefix: String },
    /// Record an access to a file
    UpdateAccessStats { path: String, accessed_at_ms: u64 },
    /// Mark a file as moved to cold storage
    MoveToCold { path: String, moved_at_ms: u64 },
    /// Replace the blocks of a file by erasure-coded ones
    ConvertToEc {
        path: String,
        ec_data_shards: i32,
        ec_parity_shards: i32,
        new_blocks: Vec<BlockInfo>,
    },
}

/// Commands on the map of shards
#[derive(Debug)]
pub enum ConfigCommand {
    AddShard { shard_id: String, peers: Vec<String> },
    RemoveShard { shard_id: String },
    SplitShard {
        shard_id: String,
        split_key: String,
        new_shard_id: String,
        new_shard_peers: Vec<String>,
    },
    MergeShard { victim_shard_id: String, retained_shard_id: String },
    RebalanceShard { old_key: String, new_key: String },
    RegisterMaster { address: String, shard_id: String },
    ShardHeartbeat {
        address: String,
        /// Request rate of each prefix, as the bits of a binary64 number
        rps_per_prefix: StrMap<u64>,
    },
}

/// A command of the replicated log
#[derive(Debug)]
pub enum Command {
    Master(MasterCommand),
    Config(ConfigCommand),
    Membership(MembershipCommand),
    NoOp,
}

/// An entry of the replicated log
#[derive(Debug)]
pub struct LogEntry {
    pub term: u64,
    pub command: Command,
}

/// What a membership command stands for.
pub enum MembershipView {
    AddServer { server_id: usize, server_address: String },
    RemoveServer { server_id: usize },
    AddServers { servers: Map<usize, String> },
    RemoveServers { server_ids: Seq<usize> },
    BeginJointConsensus {
        old_members: Map<usize, String>,
        new_members: Map<usize, String>,
        version: u64,
    },
    FinalizeConfiguration { new_members: Map<usize, String>, version: u64 },
}

/// What a command on the metadata of a shard stands for.
pub enum MasterCommandView {
    CreateFile { path: Seq<char>, ec_data_shards: i32, ec_parity_shards: i32 },
    DeleteFile { path: Seq<char> },
    AllocateBlock { path: Seq<char>, block_id: Seq<char>, locations: Seq<Seq<char>> },
    RegisterChunkServer { address: Seq<char> },
    RenameFile { source_path: Seq<char>, dest_path: Seq<char> },
    CreateTransactionRecord { record: TxView },
    UpdateTransactionState { tx_id: Seq<char>, new_state: TxState },
    ApplyTransactionOperation { tx_id: Seq<char>, operation: TxOpView },
    DeleteTransactionRecord { tx_id: Seq<char> },
    SplitShard { split_key: Seq<char>, new_shard_id: Seq<char>, new_shard_peers: Seq<Seq<char>> },
    MergeShard { victim_shard_id: Seq<char> },
    IngestBatch { files: Seq<FileView> },
    TriggerShuffle { prefix: Seq<char> },
    CompleteFile {
        path: Seq<char>,
        size: u64,
        etag_md5: Option<Seq<char>>,
        created_at_ms: Option<u64>,
    },
    StopShuffle { prefix: Seq<char> },
    UpdateAccessStats { path: Seq<char>, accessed_at_ms: u64 },
    MoveToCold { path: Seq<char>, moved_at_ms: u64 },
    ConvertToEc {
        path: Seq<char>,
        ec_data_shards: i32,
        ec_parity_shards: i32,
        new_blocks: Seq<BlockView>,
    },
}

/// What a command on the map of shards stands for.
pub enum ConfigCommandView {
    AddShard { shard_id: Seq<char>, peers: Seq<Seq<char>> },
    RemoveShard { shard_id: Seq<char> },
    SplitShard {
        shard_id: Seq<char>,
        split_key: Seq<char>,
        new_shard_id: Seq<char>,
        new_shard_peers: Seq<Seq<char>>,
    },
    MergeShard { victim_shard_id: Seq<char>, retained_shard_id: Seq<char> },
    RebalanceShard { old_key: Seq<char>, new_key: Seq<char> },
    RegisterMaster { address: Seq<char>, shard_id: Seq<char> },
    ShardHeartbeat { address: Seq<char>, rps_per_prefix: Map<Seq<char>, u64> },
}

/// What a command of the log stands for.
pub enum CommandView {
    Master(MasterCommandView),
    Config(ConfigCommandView),
    Membership(MembershipView),
    NoOp,
}

/// What an entry of the log stands for.
pub struct EntryView {
    pub term: u64,
    pub command: CommandView,
}

impl View for MembershipCommand {
    type V = MembershipView;

    open spec fn view(&self) -> MembershipView {
        match self {
            MembershipCommand::AddServer { server_id, server_address } => {
                MembershipView::AddServer {
                    server_id: *server_id,
                    server_address: *server_address,
                }
            },
            MembershipCommand::RemoveServer { server_id } => MembershipView::RemoveServer {
                server_id: *server_id,
            },
            MembershipCommand::AddServers { servers } => MembershipView::AddServers {
                servers: servers@,
            },
            MembershipCommand::RemoveServers { server_ids } => MembershipView::RemoveServers {
                server_ids: server_ids@,
            },
            MembershipCommand::BeginJointConsensus { old_members, new_members, version } => {
                MembershipView::BeginJointConsensus {
                    old_members: old_members@,
                    new_members: new_members@,
                    version: *version,
                }
            },
            MembershipCommand::FinalizeConfiguration { new_members, version } => {
                MembershipView::FinalizeConfiguration {
                    new_members: new_members@,
                    version: *version,
                }
            },
        }
    }
}

impl MembershipCommand {
    pub fn dup(&self) -> (r: Self)
        ensures
            r@ == self@,
    {
        match self {
            MembershipCommand::AddServer { server_id, server_address } => {
                MembershipCommand::AddServer {
                    server_id: *server_id,
                    server_address: server_address.clone(),
                }
            },
            MembershipCommand::RemoveServer { server_id } => MembershipCommand::RemoveServer {
                server_id: *server_id,
            },
            MembershipCommand::AddServers { servers } => MembershipCommand::AddServers {
                servers: servers.clone(),
            },
            MembershipCommand::RemoveServers { server_ids } => MembershipCommand::RemoveServers {
                server_ids: ids_dup(server_ids),
            },
            MembershipCommand::BeginJointConsensus { old_members, new_members, version } => {
                MembershipCommand::BeginJointConsensus {
                    old_members: old_members.clone(),
                    new_members: new_members.clone(),
                    version: *version,
                }
            },
            MembershipCommand::FinalizeConfiguration { new_members, version } => {
                MembershipCommand::FinalizeConfiguration {
                    new_members: new_members.clone(),
                    version: *version,
                }
            },
        }
    }
}

impl View for MasterCommand {
    type V = MasterCommandView;

    open spec fn view(&self) -> MasterCommandView {
        match self {
            MasterCommand::CreateFile { path, ec_data_shards, ec_parity_shards } => {
                MasterCommandView::CreateFile {
                    path: path@,
                    ec_data_shards: *ec_data_shards,
                    ec_parity_shards: *ec_parity_shards,
                }
            },
            MasterCommand::DeleteFile { path } => MasterCommandView::DeleteFile { path: path@ },
            MasterCommand::AllocateBlock { path, block_id, locations } => {
                MasterCommandView::AllocateBlock {
                    path: path@,
                    block_id: block_id@,
                    locations: locations.deep_view(),
                }
            },
            MasterCommand::RegisterChunkServer { address } => {
                MasterCommandView::RegisterChunkServer { address: address@ }
            },
            MasterCommand::RenameFile { source_path, dest_path } => MasterCommandView::RenameFile {
                source_path: source_path@,
                dest_path: dest_path@,
            },
            MasterCommand::CreateTransactionRecord { record } => {
                MasterCommandView::CreateTransactionRecord { record: record@ }
            },
            MasterCommand::UpdateTransactionState { tx_id, new_state } => {
                MasterCommandView::UpdateTransactionState { tx_id: tx_id@, new_state: *new_state }
            },
            MasterCommand::ApplyTransactionOperation { tx_id, operation } => {
                MasterCommandView::ApplyTransactionOperation {
                    tx_id: tx_id@,
                    operation: operation@,
                }
            },
            MasterCommand::DeleteTransactionRecord { tx_id } => {
                MasterCommandView::DeleteTransactionRecord { tx_id: tx_id@ }
            },
            MasterCommand::SplitShard { split_key, new_shard_id, new_shard_peers } => {
                MasterCommandView::SplitShard {
                    split_key: split_key@,
                    new_shard_id: new_shard_id@,
                    new_shard_peers: new_shard_peers.deep_view(),
                }
            },
            MasterCommand::MergeShard { victim_shard_id } => MasterCommandView::MergeShard {
                victim_shard_id: victim_shard_id@,
            },
            MasterCommand::IngestBatch { files } => MasterCommandView::IngestBatch {
                files: files.deep_view(),
            },
            MasterCommand::TriggerShuffle { prefix } => MasterCommandView::TriggerShuffle {
                prefix: prefix@,
            },
            MasterCommand::CompleteFile { path, size, etag_md5, created_at_ms } => {
                MasterCommandView::CompleteFile {
                    path: path@,
                    size: *size,
                    etag_md5: etag_md5.deep_view(),
                    created_at_ms: *created_at_ms,
                }
            },
            MasterCommand::StopShuffle { prefix } => MasterCommandView::StopShuffle {
                prefix: prefix@,
            },
            MasterCommand::UpdateAccessStats { path, accessed_at_ms } => {
                MasterCommandView::UpdateAccessStats {
                    path: path@,
                    accessed_at_ms: *accessed_at_ms,
                }
            },
            MasterCommand::MoveToCold { path, moved_at_ms } => MasterCommandView::MoveToCold {
                path: path@,
                moved_at_ms: *moved_at_ms,
            },
            MasterCommand::ConvertToEc { path, ec_data_shards, ec_parity_shards, new_blocks } => {
                MasterCommandView::ConvertToEc {
                    path: path@,
                    ec_data_shards: *ec_data_shards,
                    ec_parity_shards: *ec_parity_shards,
                    new_blocks: new_blocks.deep_view(),
                }
            },
        }
    }
}

impl DeepView for MasterCommand {
    type V = MasterCommandView;

    open spec fn deep_view(&self) -> MasterCommandView {
        self.view()
    }
}

/// The same text, if there is one.
pub fn text_option_dup(o: &Option<String>) -> (r: Option<String>)
    ensures
        r.deep_view() == o.deep_view(),
{
    match o {
        Some(s) => Some(s.clone()),
        None => None,
    }
}

impl MasterCommand {
    pub fn dup(&self) -> (r: Self)
        ensures
            r@ == self@,
    {
        match self {
            MasterCommand::CreateFile { path, ec_data_shards, ec_parity_shards } => {
                MasterCommand::CreateFile {
                    path: path.clone(),
                    ec_data_shards: *ec_data_shards,
                    ec_parity_shards: *ec_parity_shards,
                }
            },
            MasterCommand::DeleteFile { path } => MasterCommand::DeleteFile { path: path.clone() },
            MasterCommand::AllocateBlock { path, block_id, locations } => {
                MasterCommand::AllocateBlock {
                    path: path.clone(),
                    block_id: block_id.clone(),
                    locations: locations.dup(),
                }
            },
            MasterCommand::RegisterChunkServer { address } => {
                MasterCommand::RegisterChunkServer { address: address.clone() }
            },
            MasterCommand::RenameFile { source_path, dest_path } => MasterCommand::RenameFile {
                source_path: source_path.clone(),
                dest_path: dest_path.clone(),
            },
            MasterCommand::CreateTransactionRecord { record } => {
                MasterCommand::CreateTransactionRecord { record: record.dup() }
            },
            MasterCommand::UpdateTransactionState { tx_id, new_state } => {
                MasterCommand::UpdateTransactionState {
                    tx_id: tx_id.clone(),
                    new_state: *new_state,
                }
            },
            MasterCommand::ApplyTransactionOperation { tx_id, operation } => {
                MasterCommand::ApplyTransactionOperation {
                    tx_id: tx_id.clone(),
                    operation: operation.dup(),
                }
            },
            MasterCommand::DeleteTransactionRecord { tx_id } => {
                MasterCommand::DeleteTransactionRecord { tx_id: tx_id.clone() }
            },
            MasterCommand::SplitShard { split_key, new_shard_id, new_shard_peers } => {
                MasterCommand::SplitShard {
                    split_key: split_key.clone(),
                    new_shard_id: new_shard_id.clone(),
                    new_shard_peers: new_shard_peers.dup(),
                }
            },
            MasterCommand::MergeShard { victim_shard_id } => MasterCommand::MergeShard {
                victim_shard_id: victim_shard_id.clone(),
            },
            MasterCommand::IngestBatch { files } => MasterCommand::IngestBatch {
                files: files.dup(),
            },
            MasterCommand::TriggerShuffle { prefix } => MasterCommand::TriggerShuffle {
                prefix: prefix.clone(),
            },
            MasterCommand::CompleteFile { path, size, etag_md5, created_at_ms } => {
                MasterCommand::CompleteFile {
                    path: path.clone(),
                    size: *size,
                    etag_md5: text_option_dup(etag_md5),
                    created_at_ms: *created_at_ms,
                }
            },
            MasterCommand::StopShuffle { prefix } => MasterCommand::StopShuffle {
                prefix: prefix.clone(),
            },
            MasterCommand::UpdateAccessStats { path, accessed_at_ms } => {
                MasterCommand::UpdateAccessStats {
                    path: path.clone(),
                    accessed_at_ms: *accessed_at_ms,
                }
            },
            MasterCommand::MoveToCold { path, moved_at_ms } => MasterCommand::MoveToCold {
                path: path.clone(),
                moved_at_ms: *moved_at_ms,
            },
            MasterCommand::ConvertToEc { path, ec_data_shards, ec_parity_shards, new_blocks } => {
                MasterCommand::ConvertToEc {
                    path: path.clone(),
                    ec_data_shards: *ec_data_shards,
                    ec_parity_shards: *ec_parity_shards,
                    new_blocks: new_blocks.dup(),
                }
            },
        }
    }
}

impl View for ConfigCommand {
    type V = ConfigCommandView;

    open spec fn view(&self) -> ConfigCommandView {
        match self {
            ConfigCommand::AddShard { shard_id, peers } => ConfigCommandView::AddShard {
                shard_id: shard_id@,
                peers: peers.deep_view(),
            },
            ConfigCommand::RemoveShard { shard_id } => ConfigCommandView::RemoveShard {
                shard_id: shard_id@,
            },
            ConfigCommand::SplitShard { shard_id, split_key, new_shard_id, new_shard_peers } => {
                ConfigCommandView::SplitShard {
                    shard_id: shard_id@,
                    split_key: split_key@,
                    new_shard_id: new_shard_id@,
                    new_shard_peers: new_shard_peers.deep_view(),
                }
            },
            ConfigCommand::MergeShard { victim_shard_id, retained_shard_id } => {
                ConfigCommandView::MergeShard {
                    victim_shard_id: victim_shard_id@,
                    retained_shard_id: retained_shard_id@,
                }
            },
            ConfigCommand::RebalanceShard { old_key, new_key } => {
                ConfigCommandView::RebalanceShard { old_key: old_key@, new_key: new_key@ }
            },
            ConfigCommand::RegisterMaster { address, shard_id } => {
                ConfigCommandView::RegisterMaster { address: address@, shard_id: shard_id@ }
            },
            ConfigCommand::ShardHeartbeat { address, rps_per_prefix } => {
                ConfigCommandView::ShardHeartbeat {
                    address: address@,
                    rps_per_prefix: rps_per_prefix@,
                }
            },
        }
    }
}

impl ConfigCommand {
    pub fn dup(&self) -> (r: Self)
        ensures
            r@ == self@,
    {
        match self {
            ConfigCommand::AddShard { shard_id, peers } => ConfigCommand::AddShard {
                shard_id: shard_id.clone(),
                peers: peers.dup(),
            },
            ConfigCommand::RemoveShard { shard_id } => ConfigCommand::RemoveShard {
                shard_id: shard_id.clone(),
            },
            ConfigCommand::SplitShard { shard_id, split_key, new_shard_id, new_shard_peers } => {
                ConfigCommand::SplitShard {
                    shard_id: shard_id.clone(),
                    split_key: split_key.clone(),
                    new_shard_id: new_shard_id.clone(),
                    new_shard_peers: new_shard_peers.dup(),
                }
            },
            ConfigCommand::MergeShard { victim_shard_id, retained_shard_id } => {
                ConfigCommand::MergeShard {
                    victim_shard_id: victim_shard_id.clone(),
                    retained_shard_id: retained_shard_id.clone(),
                }
            },
            ConfigCommand::RebalanceShard { old_key, new_key } => ConfigCommand::RebalanceShard {
                old_key: old_key.clone(),
                new_key: new_key.clone(),
            },
            ConfigCommand::RegisterMaster { address, shard_id } => ConfigCommand::RegisterMaster {
                address: address.clone(),
                shard_id: shard_id.clone(),
            },
            ConfigCommand::ShardHeartbeat { address, rps_per_prefix } => {
                ConfigCommand::ShardHeartbeat {
                    address: address.clone(),
                    rps_per_prefix: rps_per_prefix.dup(),
                }
            },
        }
    }
}

impl View for Command {
    type V = CommandView;

    open spec fn view(&self) -> CommandView {
        match self {
            Command::Master(c) => CommandView::Master(c@),
            Command::Config(c) => CommandView::Config(c@),
            Command::Membership(c) => CommandView::Membership(c@),
            Command::NoOp => CommandView::NoOp,
        }
    }
}

impl Command {
    pub fn dup(&self) -> (r: Self)
        ensures
            r@ == self@,
    {
        match self {
            Command::Master(c) => Command::Master(c.dup()),
            Command::Config(c) => Command::Config(c.dup()),
            Command::Membership(c) => Command::Membership(c.dup()),
            Command::NoOp => Command::NoOp,
        }
    }
}

impl View for LogEntry {
    type V = EntryView;

    open spec fn view(&self) -> EntryView {
        EntryView { term: self.term, command: self.command@ }
    }
}

impl DeepView for LogEntry {
    type V = EntryView;

    open spec fn deep_view(&self) -> EntryView {
        self.view()
    }
}

impl Dup for LogEntry {
    fn dup(&self) -> (r: Self) {
        LogEntry { term: self.term, command: self.command.dup() }
    }
}

} // verus!
