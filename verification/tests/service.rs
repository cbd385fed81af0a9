// Requests to the metadata service, its background work, and shards.

use dfs::master::admin::{
    directory_of, get_path_prefix, ingest_metadata, role_text, split_shard, split_shard_as,
    LoadCounter,
};
use dfs::master::allocate::allocate_answer;
use dfs::master::rename::{
    abort_transaction, commit_next, peer_verdict, to_url, PeerReply, RenameEvent, RenamePhase,
    RenamePlan, RenameStep,
};
use dfs::master::service::{
    answer, check_shard_ownership, complete_file, ensure_linearizable_read, refuse, Answer,
    HeartbeatRequest, Outcome, Plan, ReadOutcome, Route, StatusCode,
};
use dfs::master::state::MasterState;
use dfs::master::transaction::{TransactionRecord, TxState};
use dfs::master::types::{BlockInfo, ChunkServerStatus, CommandType, FileMetadata};
use dfs::raft::command::{Command, ConfigCommand, MasterCommand};
use dfs::raft::config::Role;
use dfs::raft::network::{Network, Node};
use dfs::shards::{AppState, ConfigStateInner, ShardMapChange, SplitPlan};
use dfs::strmap::StrMap;

fn file(path: &str) -> FileMetadata {
    FileMetadata {
        path: path.to_string(),
        size: 0,
        blocks: vec![],
        etag_md5: String::new(),
        created_at_ms: 0,
        ec_data_shards: 0,
        ec_parity_shards: 0,
        last_access_ms: 0,
        access_count: 0,
        moved_to_cold_at_ms: 0,
    }
}

fn block(id: &str, locations: &[&str]) -> BlockInfo {
    BlockInfo {
        block_id: id.to_string(),
        size: 0,
        locations: locations.iter().map(|l| l.to_string()).collect(),
        checksum_crc32c: 0,
        ec_data_shards: 0,
        ec_parity_shards: 0,
        original_size: 0,
    }
}

fn server(last_heartbeat: u64, available_space: u64) -> ChunkServerStatus {
    ChunkServerStatus {
        last_heartbeat,
        used_space: 0,
        available_space,
        chunk_count: 0,
        rack_id: String::new(),
    }
}

fn state_with(paths: &[&str]) -> MasterState {
    let mut s = MasterState::default();
    for p in paths {
        s.files.insert(p.to_string(), file(p));
    }
    s
}

fn own_route() -> Route {
    Route { shard: Some("s1".to_string()), peers: None }
}

fn other_route() -> Route {
    Route {
        shard: Some("s2".to_string()),
        peers: Some(vec!["m2:1".to_string(), "m3:1".to_string()]),
    }
}

fn proposed(p: Plan) -> MasterCommand {
    match p {
        Plan::Propose(Command::Master(c)) => c,
        other => panic!("Expected a command, got {:?}", other),
    }
}

fn replied(p: Plan) -> Answer {
    match p {
        Plan::Reply(a) => a,
        other => panic!("Expected an answer, got {:?}", other),
    }
}

#[test]
fn files_are_created_and_deleted() {
    let mut s = MasterState::default();
    let c = proposed(s.create_file("s1", &own_route(), "/a".to_string(), 4, 2).unwrap());
    s.apply_command(&c);
    assert_eq!(s.get_file_info("/a").unwrap().ec_data_shards, 4);
    let again = replied(s.create_file("s1", &own_route(), "/a".to_string(), 0, 0).unwrap());
    assert!(!again.success);
    assert_eq!(again.error_message, "File already exists");
    let c = proposed(s.delete_file("s1", &own_route(), "/a".to_string()).unwrap());
    s.apply_command(&c);
    assert!(s.get_file_info("/a").is_none());
    let gone = replied(s.delete_file("s1", &own_route(), "/a".to_string()).unwrap());
    assert_eq!(gone.error_message, "File not found");
}

#[test]
fn other_shards_are_pointed_to() {
    let e = check_shard_ownership("s1", &other_route()).unwrap_err();
    assert_eq!(e.code, StatusCode::OutOfRange);
    assert_eq!(e.message, "REDIRECT:m2:1");
    assert!(check_shard_ownership("s1", &own_route()).is_ok());
    assert!(check_shard_ownership("s1", &Route { shard: None, peers: None }).is_ok());
}

#[test]
fn answers_follow_the_fate_of_a_proposal() {
    assert!(answer(Outcome::Done, "lost").unwrap().success);
    let a = answer(Outcome::NotLeader { leader: Some("m1".to_string()) }, "lost").unwrap();
    assert!(!a.success);
    assert_eq!(a.leader_hint, "m1");
    assert_eq!(a.error_message, "Not Leader");
    assert_eq!(answer(Outcome::Lost, "lost").unwrap_err().message, "lost");
    assert_eq!(answer(Outcome::Closed, "lost").unwrap_err().code, StatusCode::Internal);
    assert!(ensure_linearizable_read(ReadOutcome::Ready).is_ok());
    assert!(ensure_linearizable_read(ReadOutcome::NotLeader { leader: None }).is_err());
}

#[test]
fn safe_mode_blocks_writes_until_enough_is_reported() {
    let mut s = state_with(&["/a"]);
    let mut f = file("/b");
    f.blocks = vec![block("b1", &["cs1"]), block("b2", &["cs1"])];
    s.files.insert("/b".to_string(), f);
    s.enter_safe_mode_at(1000);
    assert_eq!(s.expected_block_count, 2);
    let e = s.create_file("s1", &own_route(), "/c".to_string(), 0, 0).unwrap_err();
    assert_eq!(e.code, StatusCode::Unavailable);
    assert_eq!(e.message, "Cluster is in Safe Mode. Write operations are blocked.");
    assert!(!s.should_exit_safe_mode_at(1001));
    let beat = |count: u64| HeartbeatRequest {
        chunk_server_address: "cs1".to_string(),
        used_space: 0,
        available_space: 10,
        chunk_count: count,
        bad_blocks: vec![],
        rack_id: String::new(),
    };
    s.heartbeat(beat(2), 2000);
    assert!(!s.safe_mode);
    assert!(s.chunk_servers.contains_key("cs1"));
    s.set_safe_mode(true);
    assert!(s.get_safe_mode_status().is_manual);
    assert!(!s.should_exit_safe_mode_at(u64::MAX));
    s.set_safe_mode(false);
    assert!(!s.get_safe_mode_status().is_safe_mode);
}

#[test]
fn completed_files_know_their_size() {
    let mut s = MasterState::default();
    let mut f = file("/a");
    f.blocks = vec![block("1", &[]), block("2", &[]), block("3", &[])];
    s.files.insert("/a".to_string(), f);
    let c = proposed(
        complete_file("s1", &own_route(), "/a".to_string(), 10, "tag".to_string(), 5).unwrap(),
    );
    s.apply_command(&c);
    let f = s.get_file_info("/a").unwrap();
    assert_eq!(f.size, 10);
    assert_eq!(f.etag_md5, "tag");
    assert_eq!(f.created_at_ms, 5);
    let sizes: Vec<u64> = f.blocks.iter().map(|b| b.size).collect();
    assert_eq!(sizes, vec![3, 3, 4]);
}

#[test]
fn blocks_are_allocated_and_found() {
    let mut s = state_with(&["/a"]);
    let e = s.allocate_block("s1", &own_route(), "/a").unwrap_err();
    assert_eq!(e.message, "No chunk servers available");
    for (i, space) in [(1, 10), (2, 30), (3, 20), (4, 40)] {
        s.chunk_servers.insert(format!("cs{}", i), server(0, space));
    }
    let e = s.allocate_block("s1", &own_route(), "/x").unwrap_err();
    assert_eq!(e.code, StatusCode::NotFound);
    let a = s.allocate_block_as("s1", &own_route(), "/a", "b1".to_string()).unwrap();
    assert_eq!(a.locations, vec!["cs4", "cs2", "cs3"]);
    match a.command("/a") {
        Command::Master(c) => s.apply_command(&c),
        other => panic!("Expected a command, got {:?}", other),
    }
    let r = allocate_answer(a, Outcome::Done).unwrap();
    assert_eq!(s.get_file_info("/a").unwrap().blocks[0], r.block.unwrap());
    assert_eq!(s.get_block_locations("b1").unwrap(), vec!["cs4", "cs2", "cs3"]);
    assert!(s.get_block_locations("b2").is_none());
    assert_eq!(s.list_files("/"), vec!["/a"]);
    assert!(s.list_files("/b").is_empty());
    let mut f = file("/ec");
    f.ec_data_shards = 4;
    f.ec_parity_shards = 2;
    s.files.insert("/ec".to_string(), f);
    let e = s.allocate_block("s1", &own_route(), "/ec").unwrap_err();
    assert_eq!(e.message, "Need 6 chunk servers for EC(4,2), only 4 available");
}

#[test]
fn renames_within_a_shard() {
    let mut s = state_with(&["/a", "/z"]);
    match s
        .rename("s1", &own_route(), &own_route(), "/a".to_string(), "/b".to_string())
        .unwrap()
    {
        RenamePlan::Local(Command::Master(c)) => s.apply_command(&c),
        other => panic!("Expected a command, got {:?}", other),
    }
    assert!(s.get_file_info("/a").is_none());
    assert_eq!(s.get_file_info("/b").unwrap().path, "/b");
    assert!(s.get_file_info("/z").is_some());
    match s
        .rename("s1", &own_route(), &own_route(), "/q".to_string(), "/r".to_string())
        .unwrap()
    {
        RenamePlan::Reply(a) => assert_eq!(a.error_message, "Source file not found: /q"),
        other => panic!("Expected a refusal, got {:?}", other),
    }
}

#[test]
fn renames_across_shards() {
    let mut source = state_with(&["/a"]);
    let mut dest = MasterState::default();
    let (rename, record) = match source
        .rename_as(
            "s1",
            &own_route(),
            &other_route(),
            "/a".to_string(),
            "/b".to_string(),
            "tx1".to_string(),
            100,
        )
        .unwrap()
    {
        RenamePlan::Cross { rename, command: Command::Master(c) } => (rename, c),
        other => panic!("Expected a transaction, got {:?}", other),
    };
    source.apply_command(&record);
    assert_eq!(source.transaction_records.get("tx1").unwrap().state, TxState::Pending);
    let (mut phase, mut step) =
        rename.next(RenamePhase::Recording, RenameEvent::Proposal(Outcome::Done));
    let mut rounds = 0;
    loop {
        rounds += 1;
        assert!(rounds < 20);
        let event = match step {
            RenameStep::Propose(c) => {
                source.apply_command(&c);
                RenameEvent::Proposal(Outcome::Done)
            }
            RenameStep::Prepare => {
                let plan = dest
                    .prepare_transaction_at(
                        "s2",
                        &other_route(),
                        "tx1".to_string(),
                        "/b".to_string(),
                        Some(rename.dest_metadata.clone()),
                        "s1".to_string(),
                        100,
                    )
                    .unwrap();
                dest.apply_command(&proposed(plan));
                assert!(dest.get_file_info("/b").is_none());
                RenameEvent::Prepared { ok: true }
            }
            RenameStep::Commit => {
                let c = proposed(dest.commit_transaction("tx1"));
                dest.apply_command(&c);
                let c = proposed(commit_next("tx1", Outcome::Done).unwrap());
                dest.apply_command(&c);
                RenameEvent::Notified
            }
            RenameStep::Reply(r) => {
                assert!(r.unwrap().success);
                break;
            }
        };
        let next = rename.next(phase, event);
        phase = next.0;
        step = next.1;
    }
    assert!(source.get_file_info("/a").is_none());
    assert_eq!(source.transaction_records.get("tx1").unwrap().state, TxState::Committed);
    assert_eq!(dest.get_file_info("/b").unwrap().path, "/b");
    assert_eq!(dest.transaction_records.get("tx1").unwrap().state, TxState::Committed);
}

#[test]
fn renames_that_cannot_be_prepared_are_given_up() {
    let mut source = state_with(&["/a"]);
    let dest = state_with(&["/b"]);
    let plan = dest
        .prepare_transaction(
            "s2",
            &other_route(),
            "tx1".to_string(),
            "/b".to_string(),
            None,
            "s1".to_string(),
        )
        .unwrap();
    assert_eq!(replied(plan).error_message, "Destination file already exists: /b");
    let rename = match source
        .rename("s1", &own_route(), &other_route(), "/a".to_string(), "/b".to_string())
        .unwrap()
    {
        RenamePlan::Cross { rename, command: Command::Master(c) } => {
            source.apply_command(&c);
            rename
        }
        other => panic!("Expected a transaction, got {:?}", other),
    };
    let (phase, step) = rename.next(RenamePhase::Preparing, RenameEvent::Prepared { ok: false });
    match step {
        RenameStep::Propose(c) => source.apply_command(&c),
        other => panic!("Expected a command, got {:?}", other),
    }
    match rename.next(phase, RenameEvent::Proposal(Outcome::Done)).1 {
        RenameStep::Reply(r) => {
            assert_eq!(r.unwrap().error_message, "Cross-shard prepare failed")
        }
        other => panic!("Expected an answer, got {:?}", other),
    }
    assert!(source.get_file_info("/a").is_some());
    let unknown = replied(dest.commit_transaction("tx9"));
    assert_eq!(unknown.error_message, "Transaction not found: tx9");
    assert!(matches!(
        abort_transaction("tx1".to_string()),
        Command::Master(MasterCommand::UpdateTransactionState { new_state: TxState::Aborted, .. })
    ));
    let no = |hint: &str| {
        PeerReply::Answered(Answer {
            success: false,
            error_message: String::new(),
            leader_hint: hint.to_string(),
        })
    };
    assert_eq!(peer_verdict(&no("m1")), None);
    assert_eq!(peer_verdict(&no("")), Some(false));
    assert_eq!(peer_verdict(&PeerReply::Failed), None);
    assert_eq!(to_url("m1:1", "http"), "http://m1:1");
    assert_eq!(to_url("http://m1:1", "http"), "http://m1:1");
}

#[test]
fn old_transactions_are_cleaned_up() {
    let mut s = MasterState::default();
    let record = |id: &str, state: TxState, at: u64| {
        let mut r = TransactionRecord::new_rename_at(
            id.to_string(),
            "/a".to_string(),
            "/b".to_string(),
            "s1".to_string(),
            "s2".to_string(),
            file("/b"),
            at,
        );
        r.state = state;
        r
    };
    let now = 10_000_000;
    s.transaction_records.insert("t1".to_string(), record("t1", TxState::Pending, now - 10_001));
    s.transaction_records.insert("t2".to_string(), record("t2", TxState::Prepared, now - 10_000));
    s.transaction_records
        .insert("t3".to_string(), record("t3", TxState::Committed, now - 3_600_001));
    s.transaction_records
        .insert("t4".to_string(), record("t4", TxState::Aborted, now - 3_600_000));
    let commands = s.transaction_cleanup(now);
    assert_eq!(commands.len(), 2);
    for c in &commands {
        s.apply_command(c);
    }
    assert_eq!(s.transaction_records.get("t1").unwrap().state, TxState::Aborted);
    assert_eq!(s.transaction_records.get("t2").unwrap().state, TxState::Prepared);
    assert!(!s.transaction_records.contains_key("t3"));
    assert!(s.transaction_records.contains_key("t4"));
}

#[test]
fn dead_servers_are_dropped_and_their_blocks_healed() {
    let mut s = MasterState::default();
    let now = 100_000;
    s.chunk_servers.insert("cs1".to_string(), server(now - 15_001, 1));
    s.chunk_servers.insert("cs2".to_string(), server(now - 15_000, 1));
    s.chunk_servers.insert("cs3".to_string(), server(now, 1));
    let mut f = file("/a");
    f.blocks = vec![block("b1", &["cs1", "cs2"])];
    s.files.insert("/a".to_string(), f);
    assert_eq!(s.remove_dead_servers(now), 1);
    assert!(!s.chunk_servers.contains_key("cs1"));
    let orders = s.pending_commands.get("cs2").unwrap();
    assert_eq!(orders.len(), 1);
    assert_eq!(orders[0].command_type, CommandType::Replicate);
    assert_eq!(orders[0].target_chunk_server_address, "cs3");
    assert_eq!(s.remove_dead_servers(now), 0);
}

#[test]
fn blocks_move_from_full_servers_to_empty_ones() {
    let mut s = MasterState::default();
    s.chunk_servers.insert("cs1".to_string(), server(0, 0));
    s.chunk_servers.insert("cs2".to_string(), server(0, 104_857_600));
    let mut f = file("/p/a");
    f.blocks = vec![block("b1", &["cs1"])];
    s.files.insert("/p/a".to_string(), f);
    assert!(!s.balance());
    s.chunk_servers.insert("cs2".to_string(), server(0, 104_857_601));
    assert!(s.balance());
    assert_eq!(s.pending_commands.get("cs1").unwrap()[0].target_chunk_server_address, "cs2");
    s.apply_command(&MasterCommand::TriggerShuffle { prefix: "/p/".to_string() });
    assert_eq!(s.prefixes_to_shuffle(), vec!["/p/"]);
    assert!(!s.shuffle("/p/"));
    assert_eq!(s.pending_commands.get("cs1").unwrap().len(), 2);
    assert!(s.shuffle("/q/"));
    s.apply_command(&MasterCommand::StopShuffle { prefix: "/p/".to_string() });
    assert!(s.prefixes_to_shuffle().is_empty());
}

#[test]
fn splits_keep_what_comes_before_the_key() {
    let mut s = state_with(&["/a", "/m", "/z"]);
    let moved: Vec<FileMetadata> = s.metadata_from("/m");
    assert_eq!(moved.iter().map(|f| f.path.as_str()).collect::<Vec<_>>(), vec!["/m", "/z"]);
    assert_eq!(s.metadata_from("").len(), 3);
    s.apply_command(&MasterCommand::SplitShard {
        split_key: "/m".to_string(),
        new_shard_id: "s2".to_string(),
        new_shard_peers: vec![],
    });
    assert!(s.get_file_info("/a").is_some());
    assert!(s.get_file_info("/m").is_none());
    assert!(s.get_file_info("/z").is_none());
    let (command, shuffle) = ingest_metadata(moved);
    match command {
        Command::Master(c) => s.apply_command(&c),
        other => panic!("Expected a command, got {:?}", other),
    }
    assert!(s.get_file_info("/z").is_some());
    assert!(shuffle.is_some());
    assert_eq!(directory_of("/a/b/c"), Some("/a/b/".to_string()));
    assert_eq!(directory_of("abc"), None);
    let (_, name) = split_shard_as("s1", "/m", "0123abcd-ef01-2345-6789-0123456789ab");
    assert_eq!(name, "s1-split-0123abcd");
    let (_, name) = split_shard("s1", "/m");
    assert_eq!(name.len(), "s1-split-".len() + 8);
    assert_eq!(s.metadata_from("/z").len(), 1);
}

#[test]
fn load_is_counted_by_prefix() {
    assert_eq!(get_path_prefix("/a/b/c"), "/a/");
    assert_eq!(get_path_prefix("/"), "/");
    let mut l = LoadCounter::new();
    l.record_request("/a/x", 10);
    l.record_request("/a/y", 5);
    let c = l.take("/a/");
    assert_eq!((c.last_count, c.last_bytes), (2, 15));
    let c = l.take("/a/");
    assert_eq!((c.last_count, c.last_bytes), (0, 0));
    assert_eq!(role_text(Role::Leader), "Leader");
}

#[test]
fn masters_are_registered_and_chosen() {
    let mut app = AppState::Config(ConfigStateInner::new());
    for (i, at) in [(1u64, 10u64), (2, 40), (3, 20), (4, 30)] {
        let c = Command::Config(ConfigCommand::RegisterMaster {
            address: format!("m{}", i),
            shard_id: "s1".to_string(),
        });
        app.apply_command(&c, None, at);
    }
    let mut rates = StrMap::new();
    rates.insert("/a/".to_string(), 7u64);
    let beat = Command::Config(ConfigCommand::ShardHeartbeat {
        address: "m1".to_string(),
        rps_per_prefix: rates,
    });
    app.apply_command(&beat, None, 50);
    let add = Command::Config(ConfigCommand::AddShard {
        shard_id: "s9".to_string(),
        peers: vec!["m9".to_string()],
    });
    match app.apply_command(&add, None, 60) {
        Some(ShardMapChange::AddShard { shard_id, .. }) => assert_eq!(shard_id, "s9"),
        other => panic!("Expected a change, got {:?}", other),
    }
    let config = match app {
        AppState::Config(c) => c,
        other => panic!("Expected the configuration service, got {:?}", other),
    };
    assert_eq!(config.choose_masters(), vec!["m1", "m2", "m4"]);
    match config.split_shard("s1".to_string(), "/m".to_string(), "s2".to_string(), vec![]) {
        SplitPlan::Propose { peers, .. } => assert_eq!(peers, vec!["m1", "m2", "m4"]),
        other => panic!("Expected a plan, got {:?}", other),
    }
    match ConfigStateInner::new().split_shard(
        "s1".to_string(),
        "/m".to_string(),
        "s2".to_string(),
        vec![],
    ) {
        SplitPlan::Refused { message } => {
            assert_eq!(message, "No available master nodes for new shard")
        }
        other => panic!("Expected a refusal, got {:?}", other),
    }
}

#[test]
fn messages_are_sent_to_nodes() {
    let mut n = Network {};
    let c = n.new_client(&Node { addr: "h:1".to_string() });
    assert_eq!(c.url(dfs::raft::network::Route::Append), "http://h:1/raft/append");
    assert_eq!(c.url(dfs::raft::network::Route::Vote), "http://h:1/raft/vote");
    assert_eq!(refuse("no".to_string()).error_message, "no");
}

#[test]
fn reports_and_ages() {
    let mut s = MasterState::default();
    s.enter_safe_mode();
    assert!(s.is_in_safe_mode());
    assert!(!s.should_exit_safe_mode());
    s.chunk_servers.insert("cs1".to_string(), server(0, 1));
    assert!(s.should_exit_safe_mode());
    s.update_reported_blocks(0);
    assert!(!s.is_in_safe_mode());
    let fresh = TransactionRecord::new_rename(
        "t".to_string(),
        "/a".to_string(),
        "/b".to_string(),
        "s1".to_string(),
        "s2".to_string(),
        file("/b"),
    );
    assert!(!fresh.is_timed_out());
    assert!(!fresh.is_stale());
    assert_eq!(
        dfs::master::admin::merge_partner(None, Some("s2".to_string())),
        Some("s2".to_string())
    );
}
