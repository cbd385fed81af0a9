//! The configuration service: which masters exist, and how the map of shards
//! changes.

use crate::master::placement::first_n;
use crate::master::state::MasterState;
use crate::raft::command::{Command, CommandView, ConfigCommand, ConfigCommandView};
use crate::strmap::{Dup, StrMap};
use crate::text::lists;
use vstd::prelude::*;

verus! {

/// A master as the configuration service knows it.
#[derive(Debug)]
pub struct MasterInfo {
    pub address: String,
    pub shard_id: String,
    /// Seconds since the epoch
    pub last_heartbeat: u64,
    /// Request rate of each prefix, as the bits of a binary64 number
    pub rps_per_prefix: StrMap<u64>,
}

/// What a known master stands for.
#[verifier::ext_equal]
pub struct InfoView {
    pub address: Seq<char>,
    pub shard_id: Seq<char>,
    pub last_heartbeat: u64,
    pub rps_per_prefix: Map<Seq<char>, u64>,
}

impl View for MasterInfo {
    type V = InfoView;

    open spec fn view(&self) -> InfoView {
        InfoView {
            address: self.address@,
            shard_id: self.shard_id@,
            last_heartbeat: self.last_heartbeat,
            rps_per_prefix: self.rps_per_prefix@,
        }
    }
}

impl DeepView for MasterInfo {
    type V = InfoView;

    open spec fn deep_view(&self) -> InfoView {
        self.view()
    }
}

/// State of the configuration service. The map of shards itself is kept
/// beside it.
#[derive(Debug)]
pub struct ConfigStateInner {
    pub masters: StrMap<MasterInfo>,
}

/// A change of the map of shards.
#[derive(Debug)]
pub enum ShardMapChange {
    /// Set the peers of a shard
    AddShard { shard_id: String, peers: Vec<String> },
    RemoveShard { shard_id: String },
    SplitShard { split_key: String, new_shard_id: String, peers: Vec<String> },
    MergeShards { victim_shard_id: String, retained_shard_id: String },
    RebalanceBoundary { old_key: String, new_key: String },
}

/// What a change of the map of shards stands for.
pub enum ChangeOfShards {
    AddShard { shard_id: Seq<char>, peers: Seq<Seq<char>> },
    RemoveShard { shard_id: Seq<char> },
    SplitShard { split_key: Seq<char>, new_shard_id: Seq<char>, peers: Seq<Seq<char>> },
    MergeShards { victim_shard_id: Seq<char>, retained_shard_id: Seq<char> },
    RebalanceBoundary { old_key: Seq<char>, new_key: Seq<char> },
}

impl View for ShardMapChange {
    type V = ChangeOfShards;

    open spec fn view(&self) -> ChangeOfShards {
        match self {
            ShardMapChange::AddShard { shard_id, peers } => ChangeOfShards::AddShard {
                shard_id: shard_id@,
                peers: peers.deep_view(),
            },
            ShardMapChange::RemoveShard { shard_id } => ChangeOfShards::RemoveShard {
                shard_id: shard_id@,
            },
            ShardMapChange::SplitShard { split_key, new_shard_id, peers } => {
                ChangeOfShards::SplitShard {
                    split_key: split_key@,
                    new_shard_id: new_shard_id@,
                    peers: peers.deep_view(),
                }
            },
            ShardMapChange::MergeShards { victim_shard_id, retained_shard_id } => {
                ChangeOfShards::MergeShards {
                    victim_shard_id: victim_shard_id@,
                    retained_shard_id: retained_shard_id@,
                }
            },
            ShardMapChange::RebalanceBoundary { old_key, new_key } => {
                ChangeOfShards::RebalanceBoundary { old_key: old_key@, new_key: new_key@ }
            },
        }
    }
}

impl DeepView for ShardMapChange {
    type V = ChangeOfShards;

    open spec fn deep_view(&self) -> ChangeOfShards {
        self.view()
    }
}

/// The masters after a command at time `now`, in seconds.
pub open spec fn masters_after(
    masters: Map<Seq<char>, InfoView>,
    cmd: ConfigCommandView,
    now: u64,
) -> Map<Seq<char>, InfoView> {
    match cmd {
        ConfigCommandView::RegisterMaster { address, shard_id } => masters.insert(
            address,
            InfoView { address, shard_id, last_heartbeat: now, rps_per_prefix: Map::empty() },
        ),
        ConfigCommandView::ShardHeartbeat { address, rps_per_prefix } => {
            if masters.contains_key(address) {
                masters.insert(
                    address,
                    InfoView { last_heartbeat: now, rps_per_prefix, ..masters[address] },
                )
            } else {
                masters
            }
        },
        _ => masters,
    }
}

/// How a command changes the map of shards. A master that registers brings its
/// shard along, or joins the peers of the shard; `known` are the peers of that
/// shard, if it is in the map.
pub open spec fn shard_change(cmd: ConfigCommandView, known: Option<Seq<Seq<char>>>) -> Option<
    ChangeOfShards,
> {
    match cmd {
        ConfigCommandView::AddShard { shard_id, peers } => Some(
            ChangeOfShards::AddShard { shard_id, peers },
        ),
        ConfigCommandView::RemoveShard { shard_id } => Some(
            ChangeOfShards::RemoveShard { shard_id },
        ),
        ConfigCommandView::SplitShard { shard_id, split_key, new_shard_id, new_shard_peers } => Some(
            ChangeOfShards::SplitShard { split_key, new_shard_id, peers: new_shard_peers },
        ),
        ConfigCommandView::MergeShard { victim_shard_id, retained_shard_id } => Some(
            ChangeOfShards::MergeShards { victim_shard_id, retained_shard_id },
        ),
        ConfigCommandView::RebalanceShard { old_key, new_key } => Some(
            ChangeOfShards::RebalanceBoundary { old_key, new_key },
        ),
        ConfigCommandView::RegisterMaster { address, shard_id } => match known {
            None => Some(ChangeOfShards::AddShard { shard_id, peers: seq![address] }),
            Some(peers) => if peers.contains(address) {
                None
            } else {
                Some(ChangeOfShards::AddShard { shard_id, peers: peers.push(address) })
            },
        },
        ConfigCommandView::ShardHeartbeat { .. } => None,
    }
}

/// The masters by falling time of their last heartbeat; where it is equal, as
/// they came.
pub open spec fn freshest(masters: Map<Seq<char>, InfoView>, keys: Seq<Seq<char>>) -> Seq<Seq<char>>
    decreases keys.len(),
{
    if keys.len() == 0 {
        keys
    } else {
        let r = freshest(masters, keys.drop_last());
        r.insert(
            fresh_rank(masters, r, masters[keys.last()].last_heartbeat) as int,
            keys.last(),
        )
    }
}

/// How many leading masters were heard of at least as late as `heard`.
pub open spec fn fresh_rank(masters: Map<Seq<char>, InfoView>, r: Seq<Seq<char>>, heard: u64) -> nat
    decreases r.len(),
{
    if r.len() == 0 || masters[r[0]].last_heartbeat < heard {
        0
    } else {
        1 + fresh_rank(masters, r.drop_first(), heard)
    }
}

/// Masters that a new shard gets.
pub const MASTERS_PER_SHARD: usize = 3;

proof fn lemma_fresh_rank(
    masters: Map<Seq<char>, InfoView>,
    r: Seq<Seq<char>>,
    heard: u64,
    i: int,
)
    requires
        0 <= i <= r.len(),
        forall|j: int| 0 <= j < i ==> masters[#[trigger] r[j]].last_heartbeat >= heard,
        i == r.len() || masters[r[i]].last_heartbeat < heard,
    ensures
        fresh_rank(masters, r, heard) == i,
    decreases i,
{
    if i > 0 {
        assert(masters[r[0]].last_heartbeat >= heard);
        assert forall|j: int| 0 <= j < i - 1 implies masters[
            #[trigger] r.drop_first()[j]].last_heartbeat >= heard by {
            assert(masters[r[j + 1]].last_heartbeat >= heard);
        }
        lemma_fresh_rank(masters, r.drop_first(), heard, i - 1);
    }
}

/// The masters stand by falling time of their last heartbeat.
pub open spec fn falling(masters: Map<Seq<char>, InfoView>, r: Seq<Seq<char>>) -> bool {
    forall|i: int, j: int|
        0 <= i < j < r.len() ==> masters[#[trigger] r[i]].last_heartbeat >= masters[
        #[trigger] r[j]].last_heartbeat
}

proof fn lemma_fresh_place(masters: Map<Seq<char>, InfoView>, r: Seq<Seq<char>>, heard: u64)
    requires
        falling(masters, r),
    ensures
        fresh_rank(masters, r, heard) <= r.len(),
        forall|i: int|
            0 <= i < fresh_rank(masters, r, heard) ==> masters[#[trigger] r[i]].last_heartbeat
                >= heard,
        forall|i: int|
            fresh_rank(masters, r, heard) <= i < r.len() ==> masters[#[trigger] r[i]].last_heartbeat
                < heard,
    decreases r.len(),
{
    let k = fresh_rank(masters, r, heard) as int;
    if r.len() > 0 && masters[r[0]].last_heartbeat >= heard {
        let t = r.drop_first();
        assert(falling(masters, t)) by {
            assert forall|i: int, j: int| 0 <= i < j < t.len() implies masters[
                #[trigger] t[i]].last_heartbeat >= masters[#[trigger] t[j]].last_heartbeat by {
                assert(t[i] == r[i + 1] && t[j] == r[j + 1]);
            }
        }
        lemma_fresh_place(masters, t, heard);
        assert forall|i: int| 0 <= i < k implies masters[#[trigger] r[i]].last_heartbeat
            >= heard by {
            if i > 0 {
                assert(r[i] == t[i - 1]);
            }
        }
        assert forall|i: int| k <= i < r.len() implies masters[#[trigger] r[i]].last_heartbeat
            < heard by {
            assert(r[i] == t[i - 1]);
        }
    } else if r.len() > 0 {
        assert forall|i: int| 0 <= i < r.len() implies masters[#[trigger] r[i]].last_heartbeat
            < heard by {
            if i > 0 {
                assert(masters[r[0]].last_heartbeat >= masters[r[i]].last_heartbeat);
            }
        }
    }
}

/// A new shard gets the masters that were heard of last: all are listed, the
/// latest first.
pub proof fn law_freshest_first(masters: Map<Seq<char>, InfoView>, keys: Seq<Seq<char>>)
    ensures
        falling(masters, freshest(masters, keys)),
        freshest(masters, keys).to_multiset() == keys.to_multiset(),
    decreases keys.len(),
{
    broadcast use vstd::seq_lib::group_to_multiset_ensures;

    if keys.len() > 0 {
        let d = keys.drop_last();
        let x = keys.last();
        let r = freshest(masters, d);
        let heard = masters[x].last_heartbeat;
        law_freshest_first(masters, d);
        lemma_fresh_place(masters, r, heard);
        let p = fresh_rank(masters, r, heard) as int;
        let t = r.insert(p, x);
        assert forall|i: int, j: int| 0 <= i < j < t.len() implies masters[
            #[trigger] t[i]].last_heartbeat >= masters[#[trigger] t[j]].last_heartbeat by {
            if i != p {
                assert(t[i] == r[if i < p {
                    i
                } else {
                    i - 1
                }]);
            }
            if j != p {
                assert(t[j] == r[if j < p {
                    j
                } else {
                    j - 1
                }]);
            }
        }
        assert(keys =~= d.push(x));
        assert(t.to_multiset() =~= r.to_multiset().insert(x));
    }
}

impl ConfigStateInner {
    pub fn new() -> (r: Self)
        ensures
            r.masters@ == Map::<Seq<char>, InfoView>::empty(),
    {
        ConfigStateInner { masters: StrMap::new() }
    }

    /// Every master is known under its address.
    pub open spec fn wf(&self) -> bool {
        forall|k: Seq<char>| #[trigger]
            self.masters@.contains_key(k) ==> self.masters@[k].address == k
    }

    /// Applies a replicated command at time `now`, in seconds, and tells how
    /// the map of shards changes. `known` are the peers of the shard of a
    /// master that registers, if that shard is in the map.
    pub fn apply_command(
        &mut self,
        cmd: &ConfigCommand,
        known: Option<Vec<String>>,
        now: u64,
    ) -> (r: Option<ShardMapChange>)
        ensures
            final(self).masters@ == masters_after(old(self).masters@, cmd@, now),
            r.deep_view() == shard_change(cmd@, known.deep_view()),
            old(self).wf() ==> final(self).wf(),
    {
        match cmd {
            ConfigCommand::AddShard { shard_id, peers } => Some(
                ShardMapChange::AddShard { shard_id: shard_id.clone(), peers: peers.dup() },
            ),
            ConfigCommand::RemoveShard { shard_id } => Some(
                ShardMapChange::RemoveShard { shard_id: shard_id.clone() },
            ),
            ConfigCommand::SplitShard { shard_id: _, split_key, new_shard_id, new_shard_peers } => {
                Some(
                    ShardMapChange::SplitShard {
                        split_key: split_key.clone(),
                        new_shard_id: new_shard_id.clone(),
                        peers: new_shard_peers.dup(),
                    },
                )
            },
            ConfigCommand::MergeShard { victim_shard_id, retained_shard_id } => Some(
                ShardMapChange::MergeShards {
                    victim_shard_id: victim_shard_id.clone(),
                    retained_shard_id: retained_shard_id.clone(),
                },
            ),
            ConfigCommand::RebalanceShard { old_key, new_key } => Some(
                ShardMapChange::RebalanceBoundary {
                    old_key: old_key.clone(),
                    new_key: new_key.clone(),
                },
            ),
            ConfigCommand::RegisterMaster { address, shard_id } => {
                let change = match known {
                    None => {
                        let mut peers: Vec<String> = Vec::new();
                        peers.push(address.clone());
                        assert(peers.deep_view() =~= seq![address@]);
                        Some(ShardMapChange::AddShard { shard_id: shard_id.clone(), peers })
                    },
                    Some(peers) => {
                        if lists(&peers, address.as_str()) {
                            None
                        } else {
                            let mut peers = peers;
                            let ghost before = peers.deep_view();
                            peers.push(address.clone());
                            assert(peers.deep_view() =~= before.push(address@));
                            Some(ShardMapChange::AddShard { shard_id: shard_id.clone(), peers })
                        }
                    },
                };
                self.masters.insert(
                    address.clone(),
                    MasterInfo {
                        address: address.clone(),
                        shard_id: shard_id.clone(),
                        last_heartbeat: now,
                        rps_per_prefix: StrMap::new(),
                    },
                );
                change
            },
            ConfigCommand::ShardHeartbeat { address, rps_per_prefix } => {
                let next = match self.masters.get(address.as_str()) {
                    Some(info) => Some(
                        MasterInfo {
                            address: info.address.clone(),
                            shard_id: info.shard_id.clone(),
                            last_heartbeat: now,
                            rps_per_prefix: rps_per_prefix.dup(),
                        },
                    ),
                    None => None,
                };
                if let Some(info) = next {
                    self.masters.insert(address.clone(), info);
                }
                None
            },
        }
    }

    /// The masters for a new shard: the ones heard of last.
    pub fn choose_masters(&self) -> (r: Vec<String>)
        requires
            self.wf(),
        ensures
            r.deep_view() == first_n(
                freshest(self.masters@, self.masters.key_seq()),
                MASTERS_PER_SHARD as int,
            ),
    {
        let n: usize = self.masters.len();
        let ghost ks = self.masters.key_seq();
        let ghost ms = self.masters@;
        let mut order: Vec<usize> = Vec::new();
        let mut i: usize = 0;
        assert(ks.take(0) =~= Seq::<Seq<char>>::empty());
        assert(order@.map_values(|j: usize| ks[j as int]) =~= freshest(ms, ks.take(0)));
        while i < n
            invariant
                i <= n,
                n == ks.len(),
                ks == self.masters.key_seq(),
                ms == self.masters@,
                forall|j: int| 0 <= j < order@.len() ==> (#[trigger] order@[j]) < n,
                order@.map_values(|j: usize| ks[j as int]) == freshest(ms, ks.take(i as int)),
            decreases n - i,
        {
            let ghost named = order@.map_values(|j: usize| ks[j as int]);
            let heard: u64 = self.masters.val_at(i).last_heartbeat;
            let mut p: usize = 0;
            while p < order.len() && self.masters.val_at(order[p]).last_heartbeat >= heard
                invariant
                    p <= order@.len(),
                    n == ks.len(),
                    ks == self.masters.key_seq(),
                    ms == self.masters@,
                    named == order@.map_values(|j: usize| ks[j as int]),
                    forall|j: int| 0 <= j < order@.len() ==> (#[trigger] order@[j]) < n,
                    forall|j: int| 0 <= j < p ==> ms[#[trigger] named[j]].last_heartbeat >= heard,
                decreases order@.len() - p,
            {
                p += 1;
            }
            proof {
                lemma_fresh_rank(ms, named, heard, p as int);
                assert(ks.take(i as int + 1).drop_last() =~= ks.take(i as int));
                assert(ks.take(i as int + 1).last() == ks[i as int]);
            }
            order.insert(p, i);
            assert(order@.map_values(|j: usize| ks[j as int]) =~= named.insert(
                p as int,
                ks[i as int],
            ));
            i += 1;
        }
        assert(ks.take(ks.len() as int) =~= ks);
        let ghost all = freshest(ms, ks);
        let mut r: Vec<String> = Vec::new();
        let mut k: usize = 0;
        while k < order.len() && k < MASTERS_PER_SHARD
            invariant
                k <= order@.len(),
                k <= MASTERS_PER_SHARD,
                n == ks.len(),
                ks == self.masters.key_seq(),
                self.wf(),
                all.len() == order@.len(),
                forall|j: int| 0 <= j < order@.len() ==> (#[trigger] order@[j]) < n,
                forall|j: int|
                    0 <= j < order@.len() ==> ks[(#[trigger] order@[j]) as int] == all[j],
                r@.len() == k,
                forall|j: int| 0 <= j < k ==> (#[trigger] r@[j])@ == all[j],
            decreases order@.len() - k,
        {
            r.push(self.masters.val_at(order[k]).address.clone());
            k += 1;
        }
        assert(r.deep_view() =~= first_n(all, MASTERS_PER_SHARD as int));
        r
    }

    /// The peers that a new shard gets: those that were asked for, or the
    /// masters heard of last.
    pub open spec fn split_peers(&self, asked: Seq<Seq<char>>) -> Seq<Seq<char>> {
        if asked.len() > 0 {
            asked
        } else {
            first_n(freshest(self.masters@, self.masters.key_seq()), MASTERS_PER_SHARD as int)
        }
    }

    /// Plans the split of a shard: refused where no master is left for the new
    /// one.
    pub fn split_shard(
        &self,
        shard_id: String,
        split_key: String,
        new_shard_id: String,
        new_shard_peers: Vec<String>,
    ) -> (r: SplitPlan)
        requires
            self.wf(),
        ensures
            ({
                let peers = self.split_peers(new_shard_peers.deep_view());
                if peers.len() == 0 {
                    &&& r is Refused
                    &&& r->message@ == "No available master nodes for new shard"@
                } else {
                    &&& r is Propose
                    &&& r->peers.deep_view() == peers
                    &&& r->command@ == CommandView::Config(
                        ConfigCommandView::SplitShard {
                            shard_id: shard_id@,
                            split_key: split_key@,
                            new_shard_id: new_shard_id@,
                            new_shard_peers: peers,
                        },
                    )
                }
            }),
    {
        let peers: Vec<String> = if new_shard_peers.len() > 0 {
            new_shard_peers
        } else {
            self.choose_masters()
        };
        if peers.len() == 0 {
            return SplitPlan::Refused {
                message: "No available master nodes for new shard".to_owned(),
            };
        }
        let command = Command::Config(
            ConfigCommand::SplitShard {
                shard_id,
                split_key,
                new_shard_id,
                new_shard_peers: peers.dup(),
            },
        );
        SplitPlan::Propose { command, peers }
    }
}

/// How the split of a shard goes on.
#[derive(Debug)]
pub enum SplitPlan {
    Refused { message: String },
    Propose { command: Command, peers: Vec<String> },
}

/// The replicated state of a node: that of a shard, or that of the
/// configuration service.
#[derive(Debug)]
pub enum AppState {
    Master(MasterState),
    Config(ConfigStateInner),
}

impl AppState {
    /// Applies a committed command at time `now`, in seconds. A command for
    /// the other kind of state is ignored. `known` are the peers of the shard
    /// of a master that registers.
    pub fn apply_command(&mut self, command: &Command, known: Option<Vec<String>>, now: u64) -> (r:
        Option<ShardMapChange>)
        ensures
            match (*old(self), command@) {
                (AppState::Master(s), CommandView::Master(c)) => {
                    &&& (*final(self)) is Master
                    &&& (*final(self))->Master_0@ == s@.after(c)
                    &&& r is None
                },
                (AppState::Config(s), CommandView::Config(c)) => {
                    &&& (*final(self)) is Config
                    &&& (*final(self))->Config_0.masters@ == masters_after(s.masters@, c, now)
                    &&& s.wf() ==> (*final(self))->Config_0.wf()
                    &&& r.deep_view() == shard_change(c, known.deep_view())
                },
                _ => *final(self) == *old(self) && r is None,
            },
    {
        match command {
            Command::Master(cmd) => {
                match self {
                    AppState::Master(state) => {
                        state.apply_command(cmd);
                    },
                    AppState::Config(_) => {},
                }
                None
            },
            Command::Config(cmd) => match self {
                AppState::Config(state) => state.apply_command(cmd, known, now),
                AppState::Master(_) => None,
            },
            Command::Membership(_) => None,
            Command::NoOp => None,
        }
    }
}

} // verus!
