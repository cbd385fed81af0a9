//! Files, blocks, chunk servers and the commands sent to them.

use crate::strmap::Dup;
use vstd::prelude::*;

verus! {

/// A block of a file and the chunk servers that hold it.
#[derive(Debug, Clone, PartialEq)]
pub struct BlockInfo {
    pub block_id: String,
    pub size: u64,
    /// Replica holders; for an erasure-coded block, the holder of each shard.
    pub locations: Vec<String>,
    pub checksum_crc32c: u32,
    pub ec_data_shards: i32,
    pub ec_parity_shards: i32,
    pub original_size: u64,
}

/// What a block stands for.
#[verifier::ext_equal]
pub struct BlockView {
    pub block_id: Seq<char>,
    pub size: u64,
    pub locations: Seq<Seq<char>>,
    pub checksum_crc32c: u32,
    pub ec_data_shards: i32,
    pub ec_parity_shards: i32,
    pub original_size: u64,
}

impl View for BlockInfo {
    type V = BlockView;

    open spec fn view(&self) -> BlockView {
        BlockView {
            block_id: self.block_id@,
            size: self.size,
            locations: self.locations.deep_view(),
            checksum_crc32c: self.checksum_crc32c,
            ec_data_shards: self.ec_data_shards,
            ec_parity_shards: self.ec_parity_shards,
            original_size: self.original_size,
        }
    }
}

impl DeepView for BlockInfo {
    type V = BlockView;

    open spec fn deep_view(&self) -> BlockView {
        self.view()
    }
}

impl Dup for BlockInfo {
    fn dup(&self) -> (r: Self) {
        BlockInfo {
            block_id: self.block_id.clone(),
            size: self.size,
            locations: self.locations.dup(),
            checksum_crc32c: self.checksum_crc32c,
            ec_data_shards: self.ec_data_shards,
            ec_parity_shards: self.ec_parity_shards,
            original_size: self.original_size,
        }
    }
}

/// Metadata of a file.
#[derive(Debug, Clone, PartialEq)]
pub struct FileMetadata {
    pub path: String,
    pub size: u64,
    pub blocks: Vec<BlockInfo>,
    pub etag_md5: String,
    pub created_at_ms: u64,
    pub ec_data_shards: i32,
    pub ec_parity_shards: i32,
    pub last_access_ms: u64,
    pub access_count: u64,
    pub moved_to_cold_at_ms: u64,
}

/// What the metadata of a file stands for.
#[verifier::ext_equal]
pub struct FileView {
    pub path: Seq<char>,
    pub size: u64,
    pub blocks: Seq<BlockView>,
    pub etag_md5: Seq<char>,
    pub created_at_ms: u64,
    pub ec_data_shards: i32,
    pub ec_parity_shards: i32,
    pub last_access_ms: u64,
    pub access_count: u64,
    pub moved_to_cold_at_ms: u64,
}

impl View for FileMetadata {
    type V = FileView;

    open spec fn view(&self) -> FileView {
        FileView {
            path: self.path@,
            size: self.size,
            blocks: self.blocks.deep_view(),
            etag_md5: self.etag_md5@,
            created_at_ms: self.created_at_ms,
            ec_data_shards: self.ec_data_shards,
            ec_parity_shards: self.ec_parity_shards,
            last_access_ms: self.last_access_ms,
            access_count: self.access_count,
            moved_to_cold_at_ms: self.moved_to_cold_at_ms,
        }
    }
}

impl DeepView for FileMetadata {
    type V = FileView;

    open spec fn deep_view(&self) -> FileView {
        self.view()
    }
}

impl Dup for FileMetadata {
    fn dup(&self) -> (r: Self) {
        FileMetadata {
            path: self.path.clone(),
            size: self.size,
            blocks: self.blocks.dup(),
            etag_md5: self.etag_md5.clone(),
            created_at_ms: self.created_at_ms,
            ec_data_shards: self.ec_data_shards,
            ec_parity_shards: self.ec_parity_shards,
            last_access_ms: self.last_access_ms,
            access_count: self.access_count,
            moved_to_cold_at_ms: self.moved_to_cold_at_ms,
        }
    }
}

/// State of a chunk server, as it last reported it.
#[derive(Debug, Clone, PartialEq)]
pub struct ChunkServerStatus {
    pub last_heartbeat: u64,
    pub used_space: u64,
    pub available_space: u64,
    pub chunk_count: u64,
    pub rack_id: String,
}

/// What the state of a chunk server stands for.
pub struct StatusView {
    pub last_heartbeat: u64,
    pub used_space: u64,
    pub available_space: u64,
    pub chunk_count: u64,
    pub rack_id: Seq<char>,
}

impl View for ChunkServerStatus {
    type V = StatusView;

    open spec fn view(&self) -> StatusView {
        StatusView {
            last_heartbeat: self.last_heartbeat,
            used_space: self.used_space,
            available_space: self.available_space,
            chunk_count: self.chunk_count,
            rack_id: self.rack_id@,
        }
    }
}

impl DeepView for ChunkServerStatus {
    type V = StatusView;

    open spec fn deep_view(&self) -> StatusView {
        self.view()
    }
}

impl Dup for ChunkServerStatus {
    fn dup(&self) -> (r: Self) {
        ChunkServerStatus {
            last_heartbeat: self.last_heartbeat,
            used_space: self.used_space,
            available_space: self.available_space,
            chunk_count: self.chunk_count,
            rack_id: self.rack_id.clone(),
        }
    }
}

/// What a chunk server is told to do.
#[derive(Debug, Clone, Copy, PartialEq, Eq, Structural)]
pub enum CommandType {
    /// Copy a block to the target server
    Replicate,
    /// Rebuild a shard of an erasure-coded block on the target server
    ReconstructEcShard,
    /// Move a block to cold storage
    MoveToCold,
}

/// A command queued for a chunk server.
#[derive(Debug, Clone, PartialEq)]
pub struct ChunkServerCommand {
    pub command_type: CommandType,
    pub block_id: String,
    pub target_chunk_server_address: String,
    pub shard_index: i32,
    pub ec_data_shards: i32,
    pub ec_parity_shards: i32,
    pub ec_shard_sources: Vec<String>,
    pub original_block_size: u64,
}

/// What a command for a chunk server stands for.
#[verifier::ext_equal]
pub struct OrderView {
    pub command_type: CommandType,
    pub block_id: Seq<char>,
    pub target: Seq<char>,
    pub shard_index: i32,
    pub ec_data_shards: i32,
    pub ec_parity_shards: i32,
    pub ec_shard_sources: Seq<Seq<char>>,
    pub original_block_size: u64,
}

impl View for ChunkServerCommand {
    type V = OrderView;

    open spec fn view(&self) -> OrderView {
        OrderView {
            command_type: self.command_type,
            block_id: self.block_id@,
            target: self.target_chunk_server_address@,
            shard_index: self.shard_index,
            ec_data_shards: self.ec_data_shards,
            ec_parity_shards: self.ec_parity_shards,
            ec_shard_sources: self.ec_shard_sources.deep_view(),
            original_block_size: self.original_block_size,
        }
    }
}

impl DeepView for ChunkServerCommand {
    type V = OrderView;

    open spec fn deep_view(&self) -> OrderView {
        self.view()
    }
}

impl Dup for ChunkServerCommand {
    fn dup(&self) -> (r: Self) {
        ChunkServerCommand {
            command_type: self.command_type,
            block_id: self.block_id.clone(),
            target_chunk_server_address: self.target_chunk_server_address.clone(),
            shard_index: self.shard_index,
            ec_data_shards: self.ec_data_shards,
            ec_parity_shards: self.ec_parity_shards,
            ec_shard_sources: self.ec_shard_sources.dup(),
            original_block_size: self.original_block_size,
        }
    }
}

} // verus!
