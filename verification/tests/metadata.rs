// Transactions, placement, healing and tiering of the metadata service.

use dfs::master::heal::heal_under_replicated_blocks;
use dfs::master::placement::select_servers_rack_aware;
use dfs::master::service::{access_command, Route};
use dfs::master::state::MasterState;
use dfs::master::transaction::{TransactionRecord, TransactionType, TxOpType, TxState};
use dfs::master::types::{
    BlockInfo, ChunkServerCommand, ChunkServerStatus, CommandType, FileMetadata,
};
use dfs::raft::command::Command;
use dfs::strmap::StrSet;

#[test]
fn test_tx_state_equality() {
    assert_eq!(TxState::Pending, TxState::Pending);
    assert_eq!(TxState::Prepared, TxState::Prepared);
    assert_eq!(TxState::Committed, TxState::Committed);
    assert_eq!(TxState::Aborted, TxState::Aborted);
    assert_ne!(TxState::Pending, TxState::Committed);
}

#[test]
fn test_transaction_record_new_rename() {
    let metadata = FileMetadata {
        path: "/source/file.txt".to_string(),
        size: 1024,
        blocks: vec![],
        etag_md5: "".into(),
        created_at_ms: 0,
        ec_data_shards: 0,
        ec_parity_shards: 0,
        last_access_ms: 0,
        access_count: 0,
        moved_to_cold_at_ms: 0,
    };

    let tx_record = TransactionRecord::new_rename(
        "test-tx-id".to_string(),
        "/source/file.txt".to_string(),
        "/dest/file.txt".to_string(),
        "shard-1".to_string(),
        "shard-2".to_string(),
        metadata,
    );

    assert_eq!(tx_record.tx_id, "test-tx-id");
    assert_eq!(tx_record.state, TxState::Pending);
    assert_eq!(tx_record.participants.len(), 2);
    assert_eq!(tx_record.participants[0], "shard-1");
    assert_eq!(tx_record.participants[1], "shard-2");
    assert_eq!(tx_record.operations.len(), 2);

    // First operation should be DELETE
    match &tx_record.operations[0].op_type {
        TxOpType::Delete { path } => assert_eq!(path, "/source/file.txt"),
        _ => panic!("Expected Delete operation"),
    }

    // Second operation should be CREATE
    match &tx_record.operations[1].op_type {
        TxOpType::Create { path, metadata: _ } => assert_eq!(path, "/dest/file.txt"),
        _ => panic!("Expected Create operation"),
    }
}

#[test]
fn test_transaction_record_deletes_file() {
    let metadata = FileMetadata {
        path: "/source/file.txt".to_string(),
        size: 1024,
        blocks: vec![],
        etag_md5: "".into(),
        created_at_ms: 0,
        ec_data_shards: 0,
        ec_parity_shards: 0,
        last_access_ms: 0,
        access_count: 0,
        moved_to_cold_at_ms: 0,
    };

    let tx_record = TransactionRecord::new_rename(
        "test-tx-id".to_string(),
        "/source/file.txt".to_string(),
        "/dest/file.txt".to_string(),
        "shard-1".to_string(),
        "shard-2".to_string(),
        metadata,
    );

    assert!(tx_record.deletes_file("/source/file.txt"));
    assert!(!tx_record.deletes_file("/other/file.txt"));
}

#[test]
fn test_transaction_record_creates_file() {
    let metadata = FileMetadata {
        path: "/source/file.txt".to_string(),
        size: 1024,
        blocks: vec![],
        etag_md5: "".into(),
        created_at_ms: 0,
        ec_data_shards: 0,
        ec_parity_shards: 0,
        last_access_ms: 0,
        access_count: 0,
        moved_to_cold_at_ms: 0,
    };

    let tx_record = TransactionRecord::new_rename(
        "test-tx-id".to_string(),
        "/source/file.txt".to_string(),
        "/dest/file.txt".to_string(),
        "shard-1".to_string(),
        "shard-2".to_string(),
        metadata,
    );

    assert!(tx_record.creates_file("/dest/file.txt"));
    assert!(!tx_record.creates_file("/other/file.txt"));
}

#[test]
fn test_transaction_record_get_created_metadata() {
    let metadata = FileMetadata {
        path: "/dest/file.txt".to_string(),
        size: 1024,
        blocks: vec![BlockInfo {
            block_id: "block-1".to_string(),
            size: 1024,
            locations: vec!["chunk1:50052".to_string()],
            checksum_crc32c: 0,
            ec_data_shards: 0,
            ec_parity_shards: 0,
            original_size: 0,
        }],
        etag_md5: "".into(),
        created_at_ms: 0,
        ec_data_shards: 0,
        ec_parity_shards: 0,
        last_access_ms: 0,
        access_count: 0,
        moved_to_cold_at_ms: 0,
    };

    let tx_record = TransactionRecord::new_rename(
        "test-tx-id".to_string(),
        "/source/file.txt".to_string(),
        "/dest/file.txt".to_string(),
        "shard-1".to_string(),
        "shard-2".to_string(),
        metadata.clone(),
    );

    let created_meta = tx_record.get_created_metadata("/dest/file.txt");
    assert!(created_meta.is_some());
    let created_meta = created_meta.unwrap();
    assert_eq!(created_meta.size, 1024);
    assert_eq!(created_meta.blocks.len(), 1);

    let not_found = tx_record.get_created_metadata("/other/file.txt");
    assert!(not_found.is_none());
}

#[test]
fn test_transaction_type_rename() {
    let tx_type = TransactionType::Rename {
        source_path: "/source/file.txt".to_string(),
        dest_path: "/dest/file.txt".to_string(),
    };

    match tx_type {
        TransactionType::Rename {
            source_path,
            dest_path,
        } => {
            assert_eq!(source_path, "/source/file.txt");
            assert_eq!(dest_path, "/dest/file.txt");
        }
    }
}

#[test]
fn test_master_state_default() {
    let state = MasterState::default();
    assert!(state.files.is_empty());
    assert!(state.transaction_records.is_empty());
    assert!(state.chunk_servers.is_empty());
    assert!(state.pending_commands.is_empty());
}

#[test]
fn test_master_state_with_transaction_records() {
    let mut state = MasterState::default();

    let metadata = FileMetadata {
        path: "/test.txt".to_string(),
        size: 100,
        blocks: vec![],
        etag_md5: "".into(),
        created_at_ms: 0,
        ec_data_shards: 0,
        ec_parity_shards: 0,
        last_access_ms: 0,
        access_count: 0,
        moved_to_cold_at_ms: 0,
    };

    let tx_record = TransactionRecord::new_rename(
        "tx-1".to_string(),
        "/source.txt".to_string(),
        "/dest.txt".to_string(),
        "shard-1".to_string(),
        "shard-2".to_string(),
        metadata,
    );

    state
        .transaction_records
        .insert("tx-1".to_string(), tx_record);

    assert_eq!(state.transaction_records.len(), 1);
    assert!(state.transaction_records.contains_key("tx-1"));

    let record = state.transaction_records.get("tx-1").unwrap();
    assert_eq!(record.state, TxState::Pending);
}

#[test]
fn test_heal_under_replicated_blocks_schedules_replication() {
    let mut state = MasterState::default();
    let now = 9_999_999_999_999u64;
    for addr in ["cs1:50055", "cs2:50056", "cs3:50057"] {
        state.chunk_servers.insert(
            addr.to_string(),
            ChunkServerStatus {
                last_heartbeat: now,
                used_space: 0,
                available_space: 1_000_000,
                chunk_count: 1,
                rack_id: String::new(),
            },
        );
    }
    state.files.insert(
        "/test/file".to_string(),
        FileMetadata {
            path: "/test/file".to_string(),
            size: 100,
            blocks: vec![BlockInfo {
                block_id: "block-1".to_string(),
                size: 100,
                locations: vec!["cs1:50055".to_string()],
                checksum_crc32c: 0,
                ec_data_shards: 0,
                ec_parity_shards: 0,
                original_size: 0,
            }],
            etag_md5: String::new(),
            created_at_ms: 0,
            ec_data_shards: 0,
            ec_parity_shards: 0,
            last_access_ms: 0,
            access_count: 0,
            moved_to_cold_at_ms: 0,
        },
    );
    heal_under_replicated_blocks(&mut state);
    let cmds = state
        .pending_commands
        .get("cs1:50055")
        .expect("commands expected");
    assert_eq!(cmds.len(), 2);
    let targets: std::collections::HashSet<_> = cmds
        .iter()
        .map(|c| c.target_chunk_server_address.as_str())
        .collect();
    assert!(targets.contains("cs2:50056") || targets.contains("cs3:50057"));
}

#[test]
fn test_heal_skips_fully_replicated_blocks() {
    let mut state = MasterState::default();
    let now = 9_999_999_999_999u64;
    for addr in ["cs1:50055", "cs2:50056", "cs3:50057"] {
        state.chunk_servers.insert(
            addr.to_string(),
            ChunkServerStatus {
                last_heartbeat: now,
                used_space: 0,
                available_space: 1_000_000,
                chunk_count: 1,
                rack_id: String::new(),
            },
        );
    }
    state.files.insert(
        "/test/full".to_string(),
        FileMetadata {
            path: "/test/full".to_string(),
            size: 100,
            blocks: vec![BlockInfo {
                block_id: "block-full".to_string(),
                size: 100,
                locations: vec![
                    "cs1:50055".to_string(),
                    "cs2:50056".to_string(),
                    "cs3:50057".to_string(),
                ],
                checksum_crc32c: 0,
                ec_data_shards: 0,
                ec_parity_shards: 0,
                original_size: 0,
            }],
            etag_md5: String::new(),
            created_at_ms: 0,
            ec_data_shards: 0,
            ec_parity_shards: 0,
            last_access_ms: 0,
            access_count: 0,
            moved_to_cold_at_ms: 0,
        },
    );
    heal_under_replicated_blocks(&mut state);
    assert!(state.pending_commands.is_empty());
}

#[test]
fn test_heal_treats_bad_block_location_as_missing() {
    let mut state = MasterState::default();
    let now = 9_999_999_999_999u64;
    for addr in ["cs1:50055", "cs2:50056", "cs3:50057"] {
        state.chunk_servers.insert(
            addr.to_string(),
            ChunkServerStatus {
                last_heartbeat: now,
                used_space: 0,
                available_space: 1_000_000,
                chunk_count: 1,
                rack_id: String::new(),
            },
        );
    }
    state.files.insert(
        "/test/bad".to_string(),
        FileMetadata {
            path: "/test/bad".to_string(),
            size: 100,
            blocks: vec![BlockInfo {
                block_id: "block-bad".to_string(),
                size: 100,
                locations: vec![
                    "cs1:50055".to_string(),
                    "cs2:50056".to_string(),
                    "cs3:50057".to_string(),
                ],
                checksum_crc32c: 0,
                ec_data_shards: 0,
                ec_parity_shards: 0,
                original_size: 0,
            }],
            etag_md5: String::new(),
            created_at_ms: 0,
            ec_data_shards: 0,
            ec_parity_shards: 0,
            last_access_ms: 0,
            access_count: 0,
            moved_to_cold_at_ms: 0,
        },
    );
    let mut bad = StrSet::new();
    bad.insert("cs2:50056".to_string());
    state.bad_block_locations.insert("block-bad".to_string(), bad);
    // 3 servers in metadata but cs2 is bad → 2 effective, need 1 more
    // but all 3 servers are already in block.locations so no unused target exists
    heal_under_replicated_blocks(&mut state);
    assert!(state.pending_commands.is_empty());
}

#[test]
fn test_rack_aware_selection_spreads_across_racks() {
    // 3 servers on 3 different racks — should pick one per rack
    let servers = vec![
        (
            "cs1:50051".to_string(),
            ChunkServerStatus {
                last_heartbeat: 9_999_999_999_999,
                used_space: 0,
                available_space: 1_000_000,
                chunk_count: 0,
                rack_id: "rack-a".to_string(),
            },
        ),
        (
            "cs2:50052".to_string(),
            ChunkServerStatus {
                last_heartbeat: 9_999_999_999_999,
                used_space: 0,
                available_space: 900_000,
                chunk_count: 0,
                rack_id: "rack-b".to_string(),
            },
        ),
        (
            "cs3:50053".to_string(),
            ChunkServerStatus {
                last_heartbeat: 9_999_999_999_999,
                used_space: 0,
                available_space: 800_000,
                chunk_count: 0,
                rack_id: "rack-c".to_string(),
            },
        ),
    ];
    let selected = select_servers_rack_aware(&servers, 3);
    assert_eq!(selected.len(), 3);
    // All 3 racks represented
    let racks: std::collections::HashSet<String> = selected
        .iter()
        .map(|addr| {
            servers
                .iter()
                .find(|(a, _)| a == addr)
                .unwrap()
                .1
                .rack_id
                .clone()
        })
        .collect();
    assert_eq!(racks.len(), 3, "All 3 racks should be represented");
}

#[test]
fn test_rack_aware_selection_fallback_to_same_rack() {
    // 3 servers on only 2 racks — need 3 replicas, must pick 2 from one rack
    let servers = vec![
        (
            "cs1:50051".to_string(),
            ChunkServerStatus {
                last_heartbeat: 9_999_999_999_999,
                used_space: 0,
                available_space: 1_000_000,
                chunk_count: 0,
                rack_id: "rack-a".to_string(),
            },
        ),
        (
            "cs2:50052".to_string(),
            ChunkServerStatus {
                last_heartbeat: 9_999_999_999_999,
                used_space: 0,
                available_space: 900_000,
                chunk_count: 0,
                rack_id: "rack-a".to_string(),
            },
        ),
        (
            "cs3:50053".to_string(),
            ChunkServerStatus {
                last_heartbeat: 9_999_999_999_999,
                used_space: 0,
                available_space: 800_000,
                chunk_count: 0,
                rack_id: "rack-b".to_string(),
            },
        ),
    ];
    let selected = select_servers_rack_aware(&servers, 3);
    assert_eq!(selected.len(), 3);
    // All 3 servers picked (no duplicates)
    let unique: std::collections::HashSet<&String> = selected.iter().collect();
    assert_eq!(unique.len(), 3);
}

#[test]
fn test_rack_aware_selection_empty_rack_id_treated_as_distinct() {
    // Servers with empty rack_id should each be treated as their own rack
    let servers = vec![
        (
            "cs1:50051".to_string(),
            ChunkServerStatus {
                last_heartbeat: 9_999_999_999_999,
                used_space: 0,
                available_space: 1_000_000,
                chunk_count: 0,
                rack_id: "".to_string(),
            },
        ),
        (
            "cs2:50052".to_string(),
            ChunkServerStatus {
                last_heartbeat: 9_999_999_999_999,
                used_space: 0,
                available_space: 900_000,
                chunk_count: 0,
                rack_id: "".to_string(),
            },
        ),
    ];
    let selected = select_servers_rack_aware(&servers, 2);
    assert_eq!(selected.len(), 2);
}

#[test]
fn test_rack_aware_selection_fewer_servers_than_replicas() {
    // Only 2 servers but want 3 replicas — return all 2
    let servers = vec![
        (
            "cs1:50051".to_string(),
            ChunkServerStatus {
                last_heartbeat: 9_999_999_999_999,
                used_space: 0,
                available_space: 1_000_000,
                chunk_count: 0,
                rack_id: "rack-a".to_string(),
            },
        ),
        (
            "cs2:50052".to_string(),
            ChunkServerStatus {
                last_heartbeat: 9_999_999_999_999,
                used_space: 0,
                available_space: 900_000,
                chunk_count: 0,
                rack_id: "rack-b".to_string(),
            },
        ),
    ];
    let selected = select_servers_rack_aware(&servers, 3);
    assert_eq!(selected.len(), 2);
}

#[test]
fn test_ec_file_metadata_stores_policy() {
    let mut state = MasterState::default();
    // Simulate CreateFile with EC(4,2)
    let metadata = FileMetadata {
        path: "/ec-file".to_string(),
        size: 0,
        blocks: vec![],
        etag_md5: "".to_string(),
        created_at_ms: 0,
        ec_data_shards: 4,
        ec_parity_shards: 2,
        last_access_ms: 0,
        access_count: 0,
        moved_to_cold_at_ms: 0,
    };
    state.files.insert("/ec-file".to_string(), metadata);

    // Verify policy is stored
    let stored = state.files.get("/ec-file").unwrap();
    assert_eq!(stored.ec_data_shards, 4);
    assert_eq!(stored.ec_parity_shards, 2);
}

#[test]
fn test_allocate_block_ec_selects_kplusm_servers() {
    let mut state = MasterState::default();
    state.files.insert(
        "/ec-file".to_string(),
        FileMetadata {
            path: "/ec-file".to_string(),
            size: 0,
            blocks: vec![],
            etag_md5: "".to_string(),
            created_at_ms: 0,
            ec_data_shards: 4,
            ec_parity_shards: 2,
            last_access_ms: 0,
            access_count: 0,
            moved_to_cold_at_ms: 0,
        },
    );
    for i in 0..6usize {
        state.chunk_servers.insert(
            format!("cs{}:50052", i),
            ChunkServerStatus {
                last_heartbeat: 9_999_999_999_999,
                used_space: 0,
                available_space: 1_000_000,
                chunk_count: 0,
                rack_id: String::new(),
            },
        );
    }

    // Verify state has EC policy
    assert_eq!(state.files.get("/ec-file").unwrap().ec_data_shards, 4);
    assert_eq!(state.files.get("/ec-file").unwrap().ec_parity_shards, 2);
    assert_eq!(state.chunk_servers.len(), 6);

    // The dynamic selection logic: needed = ec_data + ec_parity = 6
    let file = state.files.get("/ec-file").unwrap();
    let needed = (file.ec_data_shards + file.ec_parity_shards) as usize;
    assert_eq!(needed, 6);
    assert!(state.chunk_servers.len() >= needed);

    let route = Route { shard: Some("shard-1".to_string()), peers: None };
    let a = state
        .allocate_block_as("shard-1", &route, "/ec-file", "block-1".to_string())
        .unwrap();
    assert_eq!(a.locations.len(), 6);
}

#[test]
fn test_heal_ec_block_issues_reconstruct_command() {
    let mut state = MasterState::default();

    // 7 CSes registered: cs0, cs1, cs3, cs4, cs5 are live; cs2 is dead (not registered);
    // cs6 is a spare node not holding any shard of the block, so it can serve as the
    // reconstruction target (required by the no-fallback target selection policy).
    for i in [0usize, 1, 3, 4, 5, 6] {
        state.chunk_servers.insert(
            format!("cs{}:50052", i),
            ChunkServerStatus {
                last_heartbeat: 9_999_999_999_999,
                used_space: 0,
                available_space: 1_000_000,
                chunk_count: 0,
                rack_id: String::new(),
            },
        );
    }

    // EC(4,2) file with one block; shard 2 was on the now-dead cs2
    state.files.insert(
        "/ec-file".to_string(),
        FileMetadata {
            path: "/ec-file".to_string(),
            size: 100,
            blocks: vec![BlockInfo {
                block_id: "blk-1".to_string(),
                size: 100,
                locations: vec![
                    "cs0:50052".to_string(),
                    "cs1:50052".to_string(),
                    "cs2:50052".to_string(), // dead
                    "cs3:50052".to_string(),
                    "cs4:50052".to_string(),
                    "cs5:50052".to_string(),
                ],
                checksum_crc32c: 0,
                ec_data_shards: 4,
                ec_parity_shards: 2,
                original_size: 100,
            }],
            etag_md5: "".to_string(),
            created_at_ms: 0,
            ec_data_shards: 4,
            ec_parity_shards: 2,
            last_access_ms: 0,
            access_count: 0,
            moved_to_cold_at_ms: 0,
        },
    );

    heal_under_replicated_blocks(&mut state);

    // Should issue exactly one RECONSTRUCT_EC_SHARD for shard 2
    let mut all_cmds: Vec<&ChunkServerCommand> = Vec::new();
    for i in 0..state.pending_commands.len() {
        all_cmds.extend(state.pending_commands.val_at(i).iter());
    }
    assert!(
        all_cmds
            .iter()
            .any(|c| c.command_type == CommandType::ReconstructEcShard && c.block_id == "blk-1" && c.shard_index == 2),
        "Expected RECONSTRUCT_EC_SHARD for shard 2, got: {:?}",
        all_cmds
    );
}

fn file(path: &str) -> FileMetadata {
    FileMetadata {
        path: path.to_string(),
        size: 0,
        blocks: vec![],
        etag_md5: String::new(),
        created_at_ms: 0,
        ec_data_shards: 0,
        ec_parity_shards: 0,
        last_access_ms: 0,
        access_count: 0,
        moved_to_cold_at_ms: 0,
    }
}

fn block(id: &str, locations: &[&str]) -> BlockInfo {
    BlockInfo {
        block_id: id.to_string(),
        size: 0,
        locations: locations.iter().map(|l| l.to_string()).collect(),
        checksum_crc32c: 0,
        ec_data_shards: 0,
        ec_parity_shards: 0,
        original_size: 0,
    }
}

fn apply(state: &mut MasterState, command: &Command) {
    match command {
        Command::Master(c) => state.apply_command(c),
        _ => panic!("Expected a command for the metadata"),
    }
}

#[test]
fn test_get_file_info_increments_access_count() {
    let mut state = MasterState::default();
    let mut f = file("/access-test");
    f.size = 100;
    state.files.insert("/access-test".to_string(), f);

    assert!(state.get_file_info("/access-test").is_some(), "file should be found");
    let command = access_command("/access-test", 7);
    apply(&mut state, &command);

    let meta = state.files.get("/access-test").expect("file should exist");
    assert!(
        meta.access_count >= 1,
        "access_count should be >= 1 after get_file_info, got {}",
        meta.access_count
    );
    assert_eq!(meta.last_access_ms, 7);
}

#[test]
fn test_scan_tiering_queues_cold_move() {
    let mut state = MasterState::default();
    let mut f = file("/old-file");
    f.last_access_ms = 1;
    f.access_count = 1;
    f.blocks = vec![block("blk-tiering-001", &["127.0.0.1:9001"])];
    state.files.insert("/old-file".to_string(), f);

    let commands = state.scan_tiering(1_700_000_000_000, 604800);
    assert_eq!(commands.len(), 1);
    for c in &commands {
        state.apply_command(c);
    }

    let cmds = state.pending_commands.get("127.0.0.1:9001");
    assert!(
        cmds.is_some_and(|c| c.iter().any(|cmd| cmd.block_id == "blk-tiering-001")),
        "Expected MOVE_TO_COLD command queued for blk-tiering-001"
    );
    assert_eq!(cmds.unwrap()[0].command_type, CommandType::MoveToCold);
    assert_eq!(state.files.get("/old-file").unwrap().moved_to_cold_at_ms, 1_700_000_000_000);
}

#[test]
fn test_scan_ec_conversion_queues_commands() {
    let mut state = MasterState::default();
    for i in 0..9usize {
        state.chunk_servers.insert(
            format!("127.0.0.{}:9000", i + 1),
            ChunkServerStatus {
                available_space: 1_000_000,
                last_heartbeat: 1,
                used_space: 0,
                chunk_count: 0,
                rack_id: String::new(),
            },
        );
    }
    let mut f = file("/cold-ec-file");
    f.moved_to_cold_at_ms = 1;
    f.blocks = vec![block("blk-ec-conv-001", &["127.0.0.1:9000"])];
    state.files.insert("/cold-ec-file".to_string(), f);

    let commands = state.scan_ec_conversion(1_700_000_000_000, 2592000);
    for c in &commands {
        state.apply_command(c);
    }

    let meta = state.files.get("/cold-ec-file").expect("file should exist in state");
    assert_eq!(
        meta.ec_data_shards, 6,
        "Expected ec_data_shards==6 after ConvertToEc, got {}",
        meta.ec_data_shards
    );
    assert_eq!(
        meta.ec_parity_shards, 3,
        "Expected ec_parity_shards==3 after ConvertToEc, got {}",
        meta.ec_parity_shards
    );
    let total_cmds = state.pending_commands.len();
    assert_eq!(
        total_cmds, 0,
        "Expected no pending chunk commands (no RECONSTRUCT_EC_SHARD, no DELETE), got {}",
        total_cmds
    );
}
