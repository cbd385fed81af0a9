//! Allocating blocks for a file.

use crate::ids::{is_uuid, new_id};
use crate::master::apply::new_block;
use crate::master::placement::{placement, select_servers_rack_aware};
use crate::master::service::{
    failure, Failure, Outcome, OutcomeView, Route, RouteView, Status, StatusCode,
};
use crate::master::state::MasterState;
use crate::master::types::{BlockInfo, ChunkServerStatus, FileView, StatusView};
use crate::raft::command::{Command, CommandView, MasterCommand, MasterCommandView};
use crate::strmap::Dup;
use crate::text::{concat3, decimal, decimal_text};
use vstd::prelude::*;
use vstd::string::*;

verus! {

/// Replicas of a block, if there are servers enough.
pub const DEFAULT_REPLICATION_FACTOR: usize = 3;

/// Where a new block goes.
#[derive(Debug)]
pub struct Allocation {
    pub block_id: String,
    pub locations: Vec<String>,
    pub ec_data_shards: i32,
    pub ec_parity_shards: i32,
}

/// What an allocation stands for.
#[verifier::ext_equal]
pub struct AllocationView {
    pub block_id: Seq<char>,
    pub locations: Seq<Seq<char>>,
    pub ec_data_shards: i32,
    pub ec_parity_shards: i32,
}

impl View for Allocation {
    type V = AllocationView;

    open spec fn view(&self) -> AllocationView {
        AllocationView {
            block_id: self.block_id@,
            locations: self.locations.deep_view(),
            ec_data_shards: self.ec_data_shards,
            ec_parity_shards: self.ec_parity_shards,
        }
    }
}

/// The file is erasure-coded.
pub open spec fn has_ec_policy(f: FileView) -> bool {
    f.ec_data_shards > 0 && f.ec_parity_shards > 0
}

/// How many servers a new block of the file gets, where `n` are known: one for
/// each shard, or as many replicas as possible.
pub open spec fn servers_needed(f: FileView, n: int) -> int {
    if has_ec_policy(f) {
        f.ec_data_shards + f.ec_parity_shards
    } else if n < DEFAULT_REPLICATION_FACTOR {
        n
    } else {
        DEFAULT_REPLICATION_FACTOR as int
    }
}

/// The failure where an erasure-coded file lacks servers.
pub open spec fn ec_shortage(f: FileView, n: int) -> Seq<char> {
    "Need "@ + decimal(servers_needed(f, n) as nat) + " chunk servers for EC("@ + decimal(
        f.ec_data_shards as nat,
    ) + ","@ + decimal(f.ec_parity_shards as nat) + "), only "@ + decimal(n as nat) + " available"@
}

/// The servers as placement sees them, in order.
pub open spec fn candidates(
    servers: Map<Seq<char>, StatusView>,
    keys: Seq<Seq<char>>,
) -> Seq<(Seq<char>, StatusView)> {
    keys.map_values(|k: Seq<char>| (k, servers[k]))
}

impl MasterState {
    /// Where a new block of a file goes, or why it cannot be allocated.
    pub open spec fn allocation(
        &self,
        own: Seq<char>,
        route: RouteView,
        path: Seq<char>,
        block_id: Seq<char>,
    ) -> Result<AllocationView, Failure> {
        let ks = self.chunk_servers.key_seq();
        let n = ks.len() as int;
        let f = self@.files[path];
        match self@.write_failure(own, route) {
            Some(e) => Err(e),
            None => if !self@.files.contains_key(path) {
                Err(Failure { code: StatusCode::NotFound, message: "File not found"@ })
            } else if has_ec_policy(f) && n < servers_needed(f, n) {
                Err(Failure { code: StatusCode::Unavailable, message: ec_shortage(f, n) })
            } else if servers_needed(f, n) == 0 {
                Err(Failure { code: StatusCode::Unavailable, message: "No chunk servers available"@ })
            } else {
                Ok(
                    AllocationView {
                        block_id,
                        locations: placement(
                            candidates(self@.servers, ks),
                            servers_needed(f, n),
                        ),
                        ec_data_shards: f.ec_data_shards,
                        ec_parity_shards: f.ec_parity_shards,
                    },
                )
            },
        }
    }

    fn list_candidates(&self) -> (r: Vec<(String, ChunkServerStatus)>)
        ensures
            r.deep_view() == candidates(self@.servers, self.chunk_servers.key_seq()),
            r@.len() == self.chunk_servers.key_seq().len(),
    {
        let n: usize = self.chunk_servers.len();
        let ghost ks = self.chunk_servers.key_seq();
        let mut r: Vec<(String, ChunkServerStatus)> = Vec::new();
        let mut i: usize = 0;
        while i < n
            invariant
                i <= n,
                n == ks.len(),
                ks == self.chunk_servers.key_seq(),
                r@.len() == i,
                forall|j: int|
                    0 <= j < i ==> (#[trigger] r@[j]).0@ == ks[j] && r@[j].1@
                        == self.chunk_servers@[ks[j]],
            decreases n - i,
        {
            let k = self.chunk_servers.key_at(i).clone();
            let v = self.chunk_servers.val_at(i).dup();
            r.push((k, v));
            i += 1;
        }
        proof {
            let want = candidates(self@.servers, ks);
            assert forall|j: int| 0 <= j < want.len() implies r.deep_view()[j] == want[j] by {
                assert(r@[j].0@ == ks[j]);
            }
            assert(r.deep_view() =~= want);
        }
        r
    }

    /// Finds servers for a new block with the given id.
    pub fn allocate_block_as(&self, own: &str, route: &Route, path: &str, block_id: String) -> (r:
        Result<Allocation, Status>)
        ensures
            match r {
                Ok(a) => self.allocation(own@, route@, path@, block_id@) == Ok::<
                    AllocationView,
                    Failure,
                >(a@),
                Err(e) => self.allocation(own@, route@, path@, block_id@) == Err::<
                    AllocationView,
                    Failure,
                >(e@),
            },
    {
        if let Err(e) = self.check_write(own, route) {
            return Err(e);
        }
        let (ec_data, ec_parity): (i32, i32) = match self.files.get(path) {
            Some(f) => (f.ec_data_shards, f.ec_parity_shards),
            None => {
                return Err(failure(StatusCode::NotFound, "File not found"));
            },
        };
        let cands = self.list_candidates();
        let n: usize = cands.len();
        let needed: usize = if ec_data > 0 && ec_parity > 0 {
            let total: u64 = ec_data as u64 + ec_parity as u64;
            if (n as u64) < total {
                let t = decimal_text(total);
                let d = decimal_text(ec_data as u64);
                let p = decimal_text(ec_parity as u64);
                let a = decimal_text(n as u64);
                let mut m = concat3("Need ", t.as_str(), " chunk servers for EC(");
                m.append(d.as_str());
                m.append(",");
                m.append(p.as_str());
                m.append("), only ");
                m.append(a.as_str());
                m.append(" available");
                return Err(Status { code: StatusCode::Unavailable, message: m });
            }
            total as usize
        } else if n < DEFAULT_REPLICATION_FACTOR {
            n
        } else {
            DEFAULT_REPLICATION_FACTOR
        };
        if needed == 0 {
            return Err(failure(StatusCode::Unavailable, "No chunk servers available"));
        }
        let slice = cands.as_slice();
        assert(slice.deep_view() =~= cands.deep_view());
        let locations = select_servers_rack_aware(slice, needed);
        Ok(
            Allocation {
                block_id,
                locations,
                ec_data_shards: ec_data,
                ec_parity_shards: ec_parity,
            },
        )
    }

    /// Finds servers for a new block with an id of its own.
    pub fn allocate_block(&self, own: &str, route: &Route, path: &str) -> (r: Result<
        Allocation,
        Status,
    >)
        ensures
            match r {
                Ok(a) => is_uuid(a@.block_id) && self.allocation(
                    own@,
                    route@,
                    path@,
                    a@.block_id,
                ) == Ok::<AllocationView, Failure>(a@),
                Err(e) => exists|id: Seq<char>| #[trigger]
                    self.allocation(own@, route@, path@, id) == Err::<AllocationView, Failure>(e@),
            },
    {
        let id = new_id();
        self.allocate_block_as(own, route, path, id)
    }
}

impl Allocation {
    /// The command that records the block.
    pub fn command(&self, path: &str) -> (r: Command)
        ensures
            r@ == CommandView::Master(
                (MasterCommandView::AllocateBlock {
                    path: path@,
                    block_id: self@.block_id,
                    locations: self@.locations,
                }),
            ),
    {
        Command::Master(
            MasterCommand::AllocateBlock {
                path: path.to_owned(),
                block_id: self.block_id.clone(),
                locations: self.locations.dup(),
            },
        )
    }
}

/// The answer to a request for a block.
#[derive(Debug)]
pub struct AllocateBlockResponse {
    pub block: Option<BlockInfo>,
    pub chunk_server_addresses: Vec<String>,
    pub leader_hint: String,
    pub ec_data_shards: i32,
    pub ec_parity_shards: i32,
}

/// The answer that follows from the fate of the proposal.
pub fn allocate_answer(a: Allocation, outcome: Outcome) -> (r: Result<AllocateBlockResponse, Status>)
    ensures
        match outcome@ {
            OutcomeView::Done => {
                &&& r is Ok
                &&& r->Ok_0.block is Some
                &&& r->Ok_0.block->0@ == new_block(
                    a@.block_id,
                    a@.locations,
                    a.ec_data_shards,
                    a.ec_parity_shards,
                )
                &&& r->Ok_0.chunk_server_addresses.deep_view() == a@.locations
                &&& r->Ok_0.leader_hint@ == Seq::<char>::empty()
                &&& r->Ok_0.ec_data_shards == a.ec_data_shards
                &&& r->Ok_0.ec_parity_shards == a.ec_parity_shards
            },
            OutcomeView::NotLeader { leader } => {
                &&& r is Ok
                &&& r->Ok_0.block is None
                &&& r->Ok_0.chunk_server_addresses.deep_view() == Seq::<Seq<char>>::empty()
                &&& r->Ok_0.leader_hint@ == crate::master::service::or_empty(leader)
                &&& r->Ok_0.ec_data_shards == 0
                &&& r->Ok_0.ec_parity_shards == 0
            },
            OutcomeView::Lost => r is Err && r->Err_0@ == (Failure {
                code: StatusCode::Internal,
                message: "Raft response error"@,
            }),
            OutcomeView::Closed => r is Err && r->Err_0@ == (Failure {
                code: StatusCode::Internal,
                message: "Raft channel closed"@,
            }),
        },
{
    match outcome {
        Outcome::Done => {
            let block = BlockInfo {
                block_id: a.block_id,
                size: 0,
                locations: a.locations.dup(),
                checksum_crc32c: 0,
                ec_data_shards: a.ec_data_shards,
                ec_parity_shards: a.ec_parity_shards,
                original_size: 0,
            };
            Ok(
                AllocateBlockResponse {
                    block: Some(block),
                    chunk_server_addresses: a.locations,
                    leader_hint: String::new(),
                    ec_data_shards: a.ec_data_shards,
                    ec_parity_shards: a.ec_parity_shards,
                },
            )
        },
        Outcome::NotLeader { leader } => {
            let none: Vec<String> = Vec::new();
            assert(none.deep_view() =~= Seq::<Seq<char>>::empty());
            Ok(
                AllocateBlockResponse {
                    block: None,
                    chunk_server_addresses: none,
                    leader_hint: match leader {
                        Some(h) => h,
                        None => String::new(),
                    },
                    ec_data_shards: 0,
                    ec_parity_shards: 0,
                },
            )
        },
        Outcome::Lost => Err(failure(StatusCode::Internal, "Raft response error")),
        Outcome::Closed => Err(failure(StatusCode::Internal, "Raft channel closed")),
    }
}

} // verus!
