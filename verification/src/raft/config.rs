//! Cluster configurations and the progress of servers that join.

use std::collections::{HashMap, HashSet};
use vstd::prelude::*;

verus! {

broadcast use vstd::std_specs::hash::group_hash_axioms;

/// The role of a node in its cluster.
#[derive(Debug, Clone, Copy, PartialEq, Eq, Structural)]
pub enum Role {
    Follower,
    Candidate,
    Leader,
}

/// Server role in the cluster.
#[derive(Debug, Clone, Copy, PartialEq, Eq, Structural)]
pub enum ServerRole {
    /// Voting member (participates in elections and quorum)
    Voting,
    /// Non-voting member (receives log replication but doesn't vote)
    NonVoting,
}

/// Represents the state of a cluster configuration.
#[derive(Debug, PartialEq)]
pub enum ClusterConfiguration {
    /// Simple configuration with a single member list
    Simple {
        /// All voting members (server_id -> address)
        members: HashMap<usize, String>,
        /// Configuration version (monotonically increasing)
        version: u64,
    },
    /// Joint configuration during membership transition
    Joint {
        /// Old configuration members
        old_members: HashMap<usize, String>,
        /// New configuration members
        new_members: HashMap<usize, String>,
        /// Configuration version
        version: u64,
    },
}

/// What a cluster configuration stands for.
pub enum ConfigView {
    Simple { members: Map<usize, String>, version: u64 },
    Joint { old_members: Map<usize, String>, new_members: Map<usize, String>, version: u64 },
}

/// `acks` holds more than half of `members`.
pub open spec fn is_majority(acks: Set<usize>, members: Set<usize>) -> bool {
    acks.intersect(members).len() > members.len() / 2
}

impl ConfigView {
    /// A set of acknowledgements that decides: a majority of the members, and
    /// during a transition a majority of the old and of the new ones.
    pub open spec fn decides(self, acks: Set<usize>) -> bool {
        match self {
            ConfigView::Simple { members, .. } => is_majority(acks, members.dom()),
            ConfigView::Joint { old_members, new_members, .. } => is_majority(
                acks,
                old_members.dom(),
            ) && is_majority(acks, new_members.dom()),
        }
    }

    /// All voting members; where a server is in both lists, the new address.
    pub open spec fn everyone(self) -> Map<usize, String> {
        match self {
            ConfigView::Simple { members, .. } => members,
            ConfigView::Joint { old_members, new_members, .. } => old_members.union_prefer_right(
                new_members,
            ),
        }
    }

    pub open spec fn number(self) -> u64 {
        match self {
            ConfigView::Simple { version, .. } => version,
            ConfigView::Joint { version, .. } => version,
        }
    }
}

impl View for ClusterConfiguration {
    type V = ConfigView;

    open spec fn view(&self) -> ConfigView {
        match self {
            ClusterConfiguration::Simple { members, version } => ConfigView::Simple {
                members: members@,
                version: *version,
            },
            ClusterConfiguration::Joint { old_members, new_members, version } => ConfigView::Joint {
                old_members: old_members@,
                new_members: new_members@,
                version: *version,
            },
        }
    }
}

/// The elements of a set, each once, in some order.
pub fn set_elements(s: &HashSet<usize>) -> (r: Vec<usize>)
    ensures
        r@.no_duplicates(),
        r@.to_set() == s@,
        r@.len() == s@.len(),
{
    let mut r: Vec<usize> = Vec::new();
    for x in it: s.iter()
        invariant
            r@.len() == it.index(),
            forall|i: int| 0 <= i < r@.len() ==> (#[trigger] r@[i]) == *it.seq()[i],
            forall|i: int| 0 <= i < r@.len() ==> s@.contains(#[trigger] r@[i]),
            forall|k: usize|
                #[trigger] s@.contains(k) ==> r@.contains(k) || exists|i: int|
                    it.index() <= i < it.seq().len() && *(#[trigger] it.seq()[i]) == k,
            it.seq().unref().to_set() == s@,
            it.seq().no_duplicates(),
            it.seq().len() == s@.len(),
            r@.no_duplicates(),
    {
        let ghost before = r@;
        r.push(*x);
        proof {
            assert(it.seq().unref()[it.index() as int] == *x);
            assert(it.seq().unref().to_set().contains(*x));
            assert forall|k: usize| #[trigger] s@.contains(k) implies r@.contains(k) || exists|
                i: int,
            |
                it.index() + 1 <= i < it.seq().len() && *(#[trigger] it.seq()[i]) == k by {
                if before.contains(k) {
                    let j = before.index_of(k);
                    assert(r@[j] == k);
                } else if k == *x {
                    assert(r@[before.len() as int] == k);
                }
            }
        }
    }
    proof {
        assert(r@.to_set() =~= s@);
    }
    r
}

/// The entries of an address book, each server once, in some order.
pub fn book_entries(m: &HashMap<usize, String>) -> (r: Vec<(usize, String)>)
    ensures
        r@.len() == m@.len(),
        m@.dom().finite(),
        forall|i: int, j: int|
            0 <= i < j < r@.len() ==> (#[trigger] r@[i]).0 != (#[trigger] r@[j]).0,
        forall|i: int|
            0 <= i < r@.len() ==> m@.contains_key((#[trigger] r@[i]).0) && m@[r@[i].0] == r@[i].1,
        forall|k: usize|
            #[trigger] m@.contains_key(k) ==> exists|i: int|
                0 <= i < r@.len() && (#[trigger] r@[i]).0 == k,
{
    let mut r: Vec<(usize, String)> = Vec::new();
    for e in it: m.iter()
        invariant
            r@.len() == it.index(),
            it.seq() == vstd::std_specs::iter::IteratorSpec::remaining(
                &vstd::std_specs::hash::spec_hash_map_iter(m),
            ),
            forall|i: int|
                0 <= i < r@.len() ==> (#[trigger] r@[i]) == (*it.seq()[i].0, *it.seq()[i].1),
            forall|i: int|
                0 <= i < r@.len() ==> m@.contains_key((#[trigger] r@[i]).0) && m@[r@[i].0]
                    == r@[i].1,
            forall|i: int, j: int|
                0 <= i < j < r@.len() ==> (#[trigger] r@[i]).0 != (#[trigger] r@[j]).0,
            forall|k: usize|
                #[trigger] m@.contains_key(k) ==> (exists|i: int|
                    0 <= i < r@.len() && (#[trigger] r@[i]).0 == k) || exists|i: int|
                    it.index() <= i < it.seq().len() && *(#[trigger] it.seq()[i]).0 == k,
            it.seq().no_duplicates(),
            it.seq().len() == m@.dom().len(),
    {
        let ghost before = r@;
        let ghost n = it.index() as int;
        proof {
            assert(it.seq()[n] == e);
            assert(m@.contains_key(*it.seq()[n].0));
            assert forall|i: int| 0 <= i < n implies before[i].0 != *e.0 by {
                assert(it.seq()[i] != it.seq()[n]);
                assert(m@[*it.seq()[i].0] == *it.seq()[i].1);
                assert(m@[*it.seq()[n].0] == *it.seq()[n].1);
                assert(before[i] == (*it.seq()[i].0, *it.seq()[i].1));
            }
        }
        r.push((*e.0, e.1.clone()));
        proof {
            assert forall|k: usize| #[trigger] m@.contains_key(k) implies (exists|i: int|
                0 <= i < r@.len() && (#[trigger] r@[i]).0 == k) || exists|i: int|
                n + 1 <= i < it.seq().len() && *(#[trigger] it.seq()[i]).0 == k by {
                if exists|i: int| 0 <= i < before.len() && (#[trigger] before[i]).0 == k {
                    let i = choose|i: int| 0 <= i < before.len() && (#[trigger] before[i]).0 == k;
                    assert(r@[i].0 == k);
                } else if k == *e.0 {
                    assert(r@[n].0 == k);
                }
            }
        }
    }
    r
}

/// Both address books in one; where a server is in both, the address of the
/// second one.
pub fn book_union(old_members: &HashMap<usize, String>, new_members: &HashMap<usize, String>) -> (r:
    HashMap<usize, String>)
    ensures
        r@ == old_members@.union_prefer_right(new_members@),
{
    let mut all = old_members.clone();
    let added = book_entries(new_members);
    let mut i: usize = 0;
    while i < added.len()
        invariant
            i <= added.len(),
            forall|j: int|
                0 <= j < added@.len() ==> new_members@.contains_key(
                    (#[trigger] added@[j]).0,
                ) && new_members@[added@[j].0] == added@[j].1,
            forall|j: int|
                0 <= j < i ==> all@.contains_key((#[trigger] added@[j]).0)
                    && all@[added@[j].0] == added@[j].1,
            forall|k: usize| #[trigger] old_members@.contains_key(k) ==> all@.contains_key(k),
            forall|k: usize| #[trigger]
                all@.contains_key(k) ==> (old_members@.contains_key(k) && all@[k]
                    == old_members@[k]) || (new_members@.contains_key(k) && all@[k]
                    == new_members@[k]),
        decreases added.len() - i,
    {
        all.insert(added[i].0, added[i].1.clone());
        i += 1;
    }
    proof {
        assert forall|k: usize| #[trigger] new_members@.contains_key(k) implies all@.contains_key(
            k,
        ) && all@[k] == new_members@[k] by {
            let j = choose|j: int| 0 <= j < added@.len() && (#[trigger] added@[j]).0 == k;
            assert(all@.contains_key(added@[j].0));
        }
        assert(all@ =~= old_members@.union_prefer_right(new_members@));
    }
    all
}

impl ClusterConfiguration {
    /// Get all voting members (union of old and new in joint config)
    pub fn all_members(&self) -> (r: HashMap<usize, String>)
        ensures
            r@ == self@.everyone(),
    {
        match self {
            ClusterConfiguration::Simple { members, .. } => members.clone(),
            ClusterConfiguration::Joint { old_members, new_members, .. } => {
                book_union(old_members, new_members)
            },
        }
    }

    /// Check if a majority is achieved in both configurations (for joint consensus)
    pub fn has_joint_majority(&self, acks: &HashSet<usize>) -> (r: bool)
        ensures
            r == self@.decides(acks@),
    {
        match self {
            ClusterConfiguration::Simple { members, .. } => majority_of(acks, members),
            ClusterConfiguration::Joint { old_members, new_members, .. } => {
                majority_of(acks, old_members) && majority_of(acks, new_members)
            },
        }
    }

    /// Get configuration version
    pub fn version(&self) -> (r: u64)
        ensures
            r == self@.number(),
    {
        match self {
            ClusterConfiguration::Simple { version, .. } => *version,
            ClusterConfiguration::Joint { version, .. } => *version,
        }
    }

    /// A configuration that stands for the same members.
    pub fn dup(&self) -> (r: Self)
        ensures
            r@ == self@,
    {
        match self {
            ClusterConfiguration::Simple { members, version } => ClusterConfiguration::Simple {
                members: members.clone(),
                version: *version,
            },
            ClusterConfiguration::Joint { old_members, new_members, version } => {
                ClusterConfiguration::Joint {
                    old_members: old_members.clone(),
                    new_members: new_members.clone(),
                    version: *version,
                }
            },
        }
    }
}

/// Whether `acks` holds more than half of `members`.
fn majority_of(acks: &HashSet<usize>, members: &HashMap<usize, String>) -> (r: bool)
    ensures
        r == is_majority(acks@, members@.dom()),
{
    let ids = set_elements(acks);
    let mut count: usize = 0;
    let mut i: usize = 0;
    proof {
        assert(ids@.take(0).to_set().intersect(members@.dom()) =~= Set::<usize>::empty());
    }
    while i < ids.len()
        invariant
            i <= ids.len(),
            count <= i,
            ids@.no_duplicates(),
            ids@.take(i as int).to_set().intersect(members@.dom()).finite(),
            count == ids@.take(i as int).to_set().intersect(members@.dom()).len(),
        decreases ids.len() - i,
    {
        let ghost prev = ids@.take(i as int);
        let ghost next = ids@.take(i as int + 1);
        proof {
            assert(next =~= prev.push(ids@[i as int]));
            assert forall|x: usize| next.to_set().contains(x) == prev.to_set().insert(
                ids@[i as int],
            ).contains(x) by {
                if prev.contains(x) {
                    assert(next[prev.index_of(x)] == x);
                }
                if x == ids@[i as int] {
                    assert(next[i as int] == x);
                }
                if next.contains(x) && x != ids@[i as int] {
                    assert(prev[next.index_of(x)] == x);
                }
            }
            assert(!prev.contains(ids@[i as int]));
            assert(next.to_set() =~= prev.to_set().insert(ids@[i as int]));
        }
        if members.contains_key(&ids[i]) {
            proof {
                assert(next.to_set().intersect(members@.dom()) =~= prev.to_set().intersect(
                    members@.dom(),
                ).insert(ids@[i as int]));
            }
            count += 1;
        } else {
            proof {
                assert(next.to_set().intersect(members@.dom()) =~= prev.to_set().intersect(
                    members@.dom(),
                ));
            }
        }
        i += 1;
    }
    proof {
        assert(ids@.take(ids@.len() as int) =~= ids@);
    }
    count > members.len() / 2
}

/// Tracks catch-up progress for a non-voting member.
#[derive(Debug, Clone, Copy, PartialEq, Eq, Structural)]
pub struct CatchUpProgress {
    /// Match index for this server
    pub match_index: usize,
    /// Number of successful replication rounds
    pub rounds_caught_up: usize,
    /// When this server was added
    pub added_at: u64,
}

/// Replication rounds a joining server completes before it may vote.
pub const CATCH_UP_ROUNDS: usize = 10;

impl CatchUpProgress {
    /// Every counted round moved the match index forward.
    pub open spec fn wf(self) -> bool {
        self.rounds_caught_up <= self.match_index
    }

    /// The server holds everything committed and has kept up long enough.
    pub open spec fn ready(self, leader_commit_index: usize) -> bool {
        self.match_index >= leader_commit_index && self.rounds_caught_up >= CATCH_UP_ROUNDS
    }

    /// The progress after the server acknowledged `new_match_index`.
    pub open spec fn advanced(self, new_match_index: usize) -> CatchUpProgress {
        if new_match_index > self.match_index {
            CatchUpProgress {
                match_index: new_match_index,
                rounds_caught_up: (self.rounds_caught_up + 1) as usize,
                added_at: self.added_at,
            }
        } else {
            self
        }
    }

    pub fn new(current_time: u64) -> (r: Self)
        ensures
            r == (CatchUpProgress { match_index: 0, rounds_caught_up: 0, added_at: current_time }),
            r.wf(),
    {
        CatchUpProgress { match_index: 0, rounds_caught_up: 0, added_at: current_time }
    }

    /// Check if server is caught up (needs 10 rounds of successful replication)
    pub fn is_caught_up(&self, leader_commit_index: usize) -> (r: bool)
        ensures
            r == self.ready(leader_commit_index),
    {
        self.match_index >= leader_commit_index && self.rounds_caught_up >= CATCH_UP_ROUNDS
    }

    /// Update progress after successful replication
    pub fn update(&mut self, new_match_index: usize)
        requires
            new_match_index > old(self).match_index ==> old(self).rounds_caught_up < usize::MAX,
        ensures
            *final(self) == old(self).advanced(new_match_index),
            old(self).wf() ==> final(self).wf(),
            final(self).match_index >= old(self).match_index,
            final(self).match_index >= new_match_index,
    {
        if new_match_index > self.match_index {
            self.match_index = new_match_index;
            self.rounds_caught_up += 1;
        }
    }
}

/// Tracks the state of an ongoing configuration change.
#[derive(Debug)]
pub enum ConfigChangeState {
    /// No configuration change in progress
    Idle,
    /// Adding new servers (in catch-up phase)
    AddingServers {
        /// Servers being added (server_id -> (address, catch_up_progress))
        servers: HashMap<usize, (String, CatchUpProgress)>,
        /// When the change started
        started_at: u64,
    },
    /// In joint consensus (C-old,new)
    InJointConsensus {
        /// The joint configuration log index
        joint_config_index: usize,
        /// Target configuration after joint phase
        target_config: HashMap<usize, String>,
    },
    /// Waiting for leader transfer before removal
    TransferringLeadership {
        /// Target server to transfer to
        target_server: usize,
        /// Servers to remove after transfer
        servers_to_remove: Vec<usize>,
    },
}

/// What a configuration change in progress stands for.
pub enum ChangeView {
    Idle,
    AddingServers { servers: Map<usize, (String, CatchUpProgress)>, started_at: u64 },
    InJointConsensus { joint_config_index: usize, target_config: Map<usize, String> },
    TransferringLeadership { target_server: usize, servers_to_remove: Seq<usize> },
}

impl View for ConfigChangeState {
    type V = ChangeView;

    open spec fn view(&self) -> ChangeView {
        match self {
            ConfigChangeState::Idle => ChangeView::Idle,
            ConfigChangeState::AddingServers { servers, started_at } => ChangeView::AddingServers {
                servers: servers@,
                started_at: *started_at,
            },
            ConfigChangeState::InJointConsensus { joint_config_index, target_config } => {
                ChangeView::InJointConsensus {
                    joint_config_index: *joint_config_index,
                    target_config: target_config@,
                }
            },
            ConfigChangeState::TransferringLeadership { target_server, servers_to_remove } => {
                ChangeView::TransferringLeadership {
                    target_server: *target_server,
                    servers_to_remove: servers_to_remove@,
                }
            },
        }
    }
}

/// The same server ids.
pub fn ids_dup(v: &Vec<usize>) -> (r: Vec<usize>)
    ensures
        r@ == v@,
{
    let r = v.clone();
    assert(r@ =~= v@);
    r
}

impl ConfigChangeState {
    pub fn dup(&self) -> (r: Self)
        ensures
            r@ == self@,
    {
        match self {
            ConfigChangeState::Idle => ConfigChangeState::Idle,
            ConfigChangeState::AddingServers { servers, started_at } => {
                ConfigChangeState::AddingServers {
                    servers: servers.clone(),
                    started_at: *started_at,
                }
            },
            ConfigChangeState::InJointConsensus { joint_config_index, target_config } => {
                ConfigChangeState::InJointConsensus {
                    joint_config_index: *joint_config_index,
                    target_config: target_config.clone(),
                }
            },
            ConfigChangeState::TransferringLeadership { target_server, servers_to_remove } => {
                ConfigChangeState::TransferringLeadership {
                    target_server: *target_server,
                    servers_to_remove: ids_dup(servers_to_remove),
                }
            },
        }
    }
}

} // verus!
