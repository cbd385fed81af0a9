//! The map of ranges that tells which shard owns a path, and what the commands
//! of the configuration service make of it.

use crate::master::placement::first_n;
use crate::raft::command::{CommandView, ConfigCommandView};
use crate::shards::{
    freshest, law_freshest_first, masters_after, shard_change, ChangeOfShards, ConfigStateInner,
    InfoView, SplitPlan,
};
use crate::sorting::{
    lemma_lt_asymmetric, lemma_lt_irreflexive, lemma_lt_total, lemma_lt_transitive,
};
use crate::text::{text_le, text_lt};
use vstd::prelude::*;

verus! {

/// Ranges of paths: each begins at its key, ends where the next one begins,
/// and belongs to a shard. Beside them the servers of each shard.
pub struct Ranges {
    pub starts: Map<Seq<char>, Seq<char>>,
    pub peers: Map<Seq<char>, Seq<Seq<char>>>,
}

impl Ranges {
    /// The range that begins at `start` covers `path`: it is the last one that
    /// begins at the path or before it.
    pub open spec fn covers(self, start: Seq<char>, path: Seq<char>) -> bool {
        &&& self.starts.contains_key(start)
        &&& text_le(start, path)
        &&& forall|t: Seq<char>| #[trigger]
            self.starts.contains_key(t) && text_le(t, path) ==> text_le(t, start)
    }

    /// The path belongs to the shard.
    pub open spec fn owns(self, shard: Seq<char>, path: Seq<char>) -> bool {
        exists|start: Seq<char>| #[trigger] self.covers(start, path) && self.starts[start] == shard
    }

    /// Every range belongs to a shard of the map.
    pub open spec fn wf(self) -> bool {
        forall|t: Seq<char>| #[trigger]
            self.starts.contains_key(t) ==> self.peers.contains_key(self.starts[t])
    }

    /// `next` is the map after a change. The first shard of a map owns every
    /// path; a later one has no range until a split gives it one. Ranges of a
    /// shard that is removed fall to the range before them.
    pub open spec fn changed(self, change: Option<ChangeOfShards>, next: Ranges) -> bool {
        match change {
            None => next == self,
            Some(ChangeOfShards::AddShard { shard_id, peers }) => {
                &&& next.peers == self.peers.insert(shard_id, peers)
                &&& next.starts == if self.starts.dom() == Set::<Seq<char>>::empty() {
                    self.starts.insert(Seq::empty(), shard_id)
                } else {
                    self.starts
                }
            },
            Some(ChangeOfShards::RemoveShard { shard_id }) => {
                &&& next.peers == self.peers.remove(shard_id)
                &&& next.starts == self.starts.restrict(
                    Set::new(|t: Seq<char>| self.starts[t] != shard_id),
                )
            },
            Some(ChangeOfShards::SplitShard { split_key, new_shard_id, peers }) => {
                &&& next.peers == self.peers.insert(new_shard_id, peers)
                &&& next.starts == self.starts.insert(split_key, new_shard_id)
            },
            Some(ChangeOfShards::MergeShards { victim_shard_id, retained_shard_id }) => {
                &&& next.peers == self.peers.remove(victim_shard_id)
                &&& next.starts == self.starts.map_values(
                    |s: Seq<char>|
                        if s == victim_shard_id {
                            retained_shard_id
                        } else {
                            s
                        },
                )
            },
            Some(ChangeOfShards::RebalanceBoundary { old_key, new_key }) => {
                &&& next.peers == self.peers
                &&& next.starts == if self.starts.contains_key(old_key) {
                    self.starts.remove(old_key).insert(new_key, self.starts[old_key])
                } else {
                    self.starts
                }
            },
        }
    }
}

/// Texts are ordered: of two different ones exactly one comes first, and the
/// order carries on. The beginning of a text does not come after it.
pub proof fn law_text_order(a: Seq<char>, b: Seq<char>, c: Seq<char>)
    ensures
        !text_lt(a, a),
        a != b ==> text_lt(a, b) != text_lt(b, a),
        text_lt(a, b) && text_lt(b, c) ==> text_lt(a, c),
        a.is_prefix_of(b) ==> text_le(a, b),
        forall|i: int|
            0 <= i < a.len() && i < b.len() && a.take(i) == b.take(i) && (#[trigger] a[i]) as u32
                > b[i] as u32 ==> text_lt(b, a),
    decreases a.len(),
{
    let ta = a.drop_first();
    let tb = b.drop_first();
    lemma_lt_irreflexive(a);
    lemma_lt_total(a, b);
    if text_lt(a, b) {
        lemma_lt_asymmetric(a, b);
        if text_lt(b, c) {
            lemma_lt_transitive(a, b, c);
        }
    }
    if a.len() > 0 && b.len() > 0 {
        law_text_order(ta, tb, tb);
    }
    if a.is_prefix_of(b) && a.len() > 0 {
        assert(a[0] == b[0]);
        assert(ta.is_prefix_of(tb));
    }
    assert forall|i: int|
        0 <= i < a.len() && i < b.len() && a.take(i) == b.take(i) && (#[trigger] a[i]) as u32
            > b[i] as u32 implies text_lt(b, a) by {
        if i > 0 {
            assert(a[0] == a.take(i)[0] && b[0] == b.take(i)[0]);
            assert(ta.take(i - 1) =~= a.take(i).drop_first());
            assert(tb.take(i - 1) =~= b.take(i).drop_first());
            assert(ta[i - 1] == a[i] && tb[i - 1] == b[i]);
        }
    }
}

/// After a merge the victim that the command names is no longer in the map and
/// owns nothing; the other shard is there, with the servers it had; every path
/// that either of them owned is owned by that one, and every other path by the
/// shard that owned it.
pub proof fn law_merge(
    before: Ranges,
    victim_shard_id: Seq<char>,
    retained_shard_id: Seq<char>,
    known: Option<Seq<Seq<char>>>,
    after: Ranges,
)
    requires
        before.wf(),
        victim_shard_id != retained_shard_id,
        before.peers.contains_key(retained_shard_id),
        before.changed(
            shard_change(
                ConfigCommandView::MergeShard { victim_shard_id, retained_shard_id },
                known,
            ),
            after,
        ),
    ensures
        !after.peers.contains_key(victim_shard_id),
        after.peers.contains_key(retained_shard_id),
        after.peers[retained_shard_id] == before.peers[retained_shard_id],
        forall|path: Seq<char>| !after.owns(victim_shard_id, path),
        forall|path: Seq<char>|
            after.owns(retained_shard_id, path) <==> before.owns(retained_shard_id, path)
                || before.owns(victim_shard_id, path),
        forall|shard: Seq<char>, path: Seq<char>|
            shard != victim_shard_id && shard != retained_shard_id ==> (#[trigger] after.owns(
                shard,
                path,
            ) <==> before.owns(shard, path)),
        forall|shard: Seq<char>|
            shard != victim_shard_id ==> {
                &&& #[trigger] after.peers.contains_key(shard) == before.peers.contains_key(shard)
                &&& before.peers.contains_key(shard) ==> after.peers[shard] == before.peers[shard]
            },
        after.wf(),
{
    assert forall|start: Seq<char>, path: Seq<char>| #[trigger]
        after.covers(start, path) == before.covers(start, path) by {
        assert forall|t: Seq<char>| after.starts.contains_key(t) == #[trigger]
            before.starts.contains_key(t) by {}
    }
    assert forall|path: Seq<char>| !after.owns(victim_shard_id, path) by {
        if after.owns(victim_shard_id, path) {
            let start = choose|start: Seq<char>| #[trigger]
                after.covers(start, path) && after.starts[start] == victim_shard_id;
            assert(after.starts.contains_key(start));
        }
    }
    assert forall|path: Seq<char>|
        after.owns(retained_shard_id, path) <==> before.owns(retained_shard_id, path)
            || before.owns(victim_shard_id, path) by {
        if after.owns(retained_shard_id, path) {
            let start = choose|start: Seq<char>| #[trigger]
                after.covers(start, path) && after.starts[start] == retained_shard_id;
            assert(before.covers(start, path));
        }
        if before.owns(retained_shard_id, path) {
            let start = choose|start: Seq<char>| #[trigger]
                before.covers(start, path) && before.starts[start] == retained_shard_id;
            assert(after.covers(start, path));
        }
        if before.owns(victim_shard_id, path) {
            let start = choose|start: Seq<char>| #[trigger]
                before.covers(start, path) && before.starts[start] == victim_shard_id;
            assert(after.covers(start, path));
        }
    }
    assert forall|shard: Seq<char>, path: Seq<char>|
        shard != victim_shard_id && shard != retained_shard_id implies (#[trigger] after.owns(
        shard,
        path,
    ) <==> before.owns(shard, path)) by {
        if after.owns(shard, path) {
            let start = choose|start: Seq<char>| #[trigger]
                after.covers(start, path) && after.starts[start] == shard;
            assert(before.covers(start, path));
        }
        if before.owns(shard, path) {
            let start = choose|start: Seq<char>| #[trigger]
                before.covers(start, path) && before.starts[start] == shard;
            assert(after.covers(start, path));
        }
    }
}

/// After a split the new shard is in the map with the servers that the command
/// names. It owns the paths from the split key to the end of the range in
/// which that key was; every other path stays where it was.
pub proof fn law_split(
    before: Ranges,
    shard_id: Seq<char>,
    split_key: Seq<char>,
    new_shard_id: Seq<char>,
    new_shard_peers: Seq<Seq<char>>,
    known: Option<Seq<Seq<char>>>,
    after: Ranges,
    path: Seq<char>,
    start: Seq<char>,
)
    requires
        before.covers(start, path),
        before.changed(
            shard_change(
                ConfigCommandView::SplitShard { shard_id, split_key, new_shard_id, new_shard_peers },
                known,
            ),
            after,
        ),
    ensures
        after.peers.contains_key(new_shard_id),
        after.peers[new_shard_id] == new_shard_peers,
        forall|s: Seq<char>|
            s != new_shard_id ==> #[trigger] after.peers.contains_key(s)
                == before.peers.contains_key(s) && (before.peers.contains_key(s) ==> after.peers[s]
                == before.peers[s]),
        text_le(split_key, path) && text_le(start, split_key) ==> after.owns(new_shard_id, path),
        text_lt(path, split_key) || text_lt(split_key, start) ==> after.owns(
            before.starts[start],
            path,
        ),
{
    law_text_order(path, split_key, split_key);
    law_text_order(split_key, start, start);
    if text_le(split_key, path) && text_le(start, split_key) {
        assert forall|t: Seq<char>| #[trigger]
            after.starts.contains_key(t) && text_le(t, path) implies text_le(t, split_key) by {
            if t == split_key {
                law_text_order(t, t, t);
            } else {
                assert(before.starts.contains_key(t));
                law_text_order(split_key, t, start);
                law_text_order(start, split_key, t);
                law_text_order(t, start, split_key);
                law_text_order(start, t, t);
                assert(text_le(t, start));
            }
        }
        assert(after.covers(split_key, path));
    }
    if text_lt(path, split_key) || text_lt(split_key, start) {
        law_text_order(split_key, split_key, split_key);
        assert(start != split_key) by {
            law_text_order(start, path, split_key);
        }
        assert forall|t: Seq<char>| #[trigger]
            after.starts.contains_key(t) && text_le(t, path) implies text_le(t, start) by {
            if t != split_key {
                assert(before.starts.contains_key(t));
            } else {
                law_text_order(t, start, start);
            }
        }
        assert(after.covers(start, path));
    }
}

/// A boundary that is moved keeps its shard: after the command the range that
/// began at the old key begins at the new one, and the servers of all shards
/// stay as they were.
pub proof fn law_rebalance(
    before: Ranges,
    old_key: Seq<char>,
    new_key: Seq<char>,
    known: Option<Seq<Seq<char>>>,
    after: Ranges,
    t: Seq<char>,
)
    requires
        before.starts.contains_key(old_key),
        before.changed(
            shard_change(ConfigCommandView::RebalanceShard { old_key, new_key }, known),
            after,
        ),
    ensures
        after.peers == before.peers,
        after.starts.contains_key(new_key),
        after.starts[new_key] == before.starts[old_key],
        old_key != new_key ==> !after.starts.contains_key(old_key),
        t != old_key && t != new_key ==> after.starts.contains_key(t)
            == before.starts.contains_key(t) && (before.starts.contains_key(t) ==> after.starts[t]
            == before.starts[t]),
        after.owns(before.starts[old_key], new_key),
{
    law_text_order(new_key, new_key, new_key);
    assert(after.covers(new_key, new_key));
}

/// A shard that is added is in the map with the servers that the command
/// names; every other shard keeps its own, no path changes hands where there
/// was a range, and the first shard owns every path.
pub proof fn law_add_shard(
    before: Ranges,
    shard_id: Seq<char>,
    peers: Seq<Seq<char>>,
    known: Option<Seq<Seq<char>>>,
    after: Ranges,
    path: Seq<char>,
    other: Seq<char>,
)
    requires
        before.changed(
            shard_change(ConfigCommandView::AddShard { shard_id, peers }, known),
            after,
        ),
    ensures
        after.peers.contains_key(shard_id),
        after.peers[shard_id] == peers,
        other != shard_id ==> after.peers.contains_key(other) == before.peers.contains_key(other)
            && (before.peers.contains_key(other) ==> after.peers[other] == before.peers[other]),
        before.starts.dom() == Set::<Seq<char>>::empty() ==> after.owns(shard_id, path),
        before.starts.dom() != Set::<Seq<char>>::empty() ==> (after.owns(other, path)
            <==> before.owns(other, path)),
{
    if before.starts.dom() == Set::<Seq<char>>::empty() {
        let e = Seq::<char>::empty();
        law_text_order(e, path, path);
        assert(e.is_prefix_of(path));
        assert forall|t: Seq<char>| #[trigger]
            after.starts.contains_key(t) && text_le(t, path) implies text_le(t, e) by {
            assert(t == e || before.starts.dom().contains(t));
            law_text_order(e, e, e);
        }
        assert(after.covers(e, path));
    } else {
        assert(after.starts == before.starts);
        assert forall|start: Seq<char>| #[trigger]
            after.covers(start, path) == before.covers(start, path) by {}
        if after.owns(other, path) {
            let start = choose|start: Seq<char>| #[trigger]
                after.covers(start, path) && after.starts[start] == other;
            assert(before.covers(start, path));
        }
        if before.owns(other, path) {
            let start = choose|start: Seq<char>| #[trigger]
                before.covers(start, path) && before.starts[start] == other;
            assert(after.covers(start, path));
        }
    }
}

/// A shard that is removed is no longer in the map and owns nothing; every
/// other shard is still there, with the servers it had, and owns all that it
/// owned.
pub proof fn law_remove_shard(
    before: Ranges,
    shard_id: Seq<char>,
    known: Option<Seq<Seq<char>>>,
    after: Ranges,
    path: Seq<char>,
    other: Seq<char>,
)
    requires
        other != shard_id,
        before.changed(shard_change(ConfigCommandView::RemoveShard { shard_id }, known), after),
    ensures
        !after.peers.contains_key(shard_id),
        !after.owns(shard_id, path),
        after.peers.contains_key(other) == before.peers.contains_key(other),
        before.peers.contains_key(other) ==> after.peers[other] == before.peers[other],
        before.owns(other, path) ==> after.owns(other, path),
{
    if after.owns(shard_id, path) {
        let start = choose|start: Seq<char>| #[trigger]
            after.covers(start, path) && after.starts[start] == shard_id;
        assert(after.starts.contains_key(start));
    }
    if before.owns(other, path) {
        let start = choose|start: Seq<char>| #[trigger]
            before.covers(start, path) && before.starts[start] == other;
        assert(after.starts.contains_key(start));
        assert forall|t: Seq<char>| #[trigger]
            after.starts.contains_key(t) && text_le(t, path) implies text_le(t, start) by {
            assert(before.starts.contains_key(t));
        }
        assert(after.covers(start, path));
    }
}

/// A master that registers becomes a server of its shard, behind those that
/// the shard has; it is listed once, no other server goes, and no other shard
/// changes.
pub proof fn law_register(
    before: Ranges,
    address: Seq<char>,
    shard_id: Seq<char>,
    after: Ranges,
    other: Seq<char>,
    a: Seq<char>,
)
    requires
        before.changed(
            shard_change(
                ConfigCommandView::RegisterMaster { address, shard_id },
                if before.peers.contains_key(shard_id) {
                    Some(before.peers[shard_id])
                } else {
                    None
                },
            ),
            after,
        ),
    ensures
        after.peers.contains_key(shard_id),
        after.peers[shard_id].contains(address),
        before.peers.contains_key(shard_id) ==> before.peers[shard_id].is_prefix_of(
            after.peers[shard_id],
        ),
        after.peers[shard_id].contains(a) ==> a == address || (before.peers.contains_key(shard_id)
            && before.peers[shard_id].contains(a)),
        before.peers.contains_key(shard_id) && before.peers[shard_id].no_duplicates()
            ==> after.peers[shard_id].no_duplicates(),
        other != shard_id ==> after.peers.contains_key(other) == before.peers.contains_key(other)
            && (before.peers.contains_key(other) ==> after.peers[other] == before.peers[other]),
{
    let now = after.peers[shard_id];
    if !before.peers.contains_key(shard_id) {
        assert(now[0] == address);
    } else if !before.peers[shard_id].contains(address) {
        let was = before.peers[shard_id];
        assert(now =~= was.push(address));
        assert(now[was.len() as int] == address);
        if now.contains(a) && a != address {
            assert(was[now.index_of(a)] == a);
        }
    }
}

/// A master that registers is known under its address, with its shard and the
/// time; a heartbeat renews the time and the rates of a master that is known,
/// keeps its shard, and makes nobody known. Nobody else changes, and no other
/// command changes who is known.
pub proof fn law_known_masters(
    masters: Map<Seq<char>, InfoView>,
    cmd: ConfigCommandView,
    now: u64,
    other: Seq<char>,
)
    ensures
        ({
            let r = masters_after(masters, cmd, now);
            match cmd {
                ConfigCommandView::RegisterMaster { address, shard_id } => {
                    &&& r.contains_key(address)
                    &&& r[address].address == address
                    &&& r[address].shard_id == shard_id
                    &&& r[address].last_heartbeat == now
                    &&& r[address].rps_per_prefix == Map::<Seq<char>, u64>::empty()
                    &&& other != address ==> r.contains_key(other) == masters.contains_key(other)
                        && (masters.contains_key(other) ==> r[other] == masters[other])
                },
                ConfigCommandView::ShardHeartbeat { address, rps_per_prefix } => {
                    &&& r.contains_key(other) == masters.contains_key(other)
                    &&& masters.contains_key(address) ==> {
                        &&& r[address].last_heartbeat == now
                        &&& r[address].rps_per_prefix == rps_per_prefix
                        &&& r[address].shard_id == masters[address].shard_id
                        &&& r[address].address == masters[address].address
                    }
                    &&& other != address && masters.contains_key(other) ==> r[other]
                        == masters[other]
                },
                _ => r == masters,
            }
        }),
{
}

/// A heartbeat leaves the map of ranges alone.
pub proof fn law_heartbeat_keeps_ranges(
    before: Ranges,
    address: Seq<char>,
    rps_per_prefix: Map<Seq<char>, u64>,
    known: Option<Seq<Seq<char>>>,
    after: Ranges,
)
    requires
        before.changed(
            shard_change(ConfigCommandView::ShardHeartbeat { address, rps_per_prefix }, known),
            after,
        ),
    ensures
        after == before,
{
}

/// The servers of a new shard: those that were asked for, if any were. Else at
/// most three known masters, as many as there are up to three, and nobody who
/// was passed over was heard of later than one who was taken.
pub proof fn law_new_shard_gets_masters(
    c: ConfigStateInner,
    asked: Seq<Seq<char>>,
    i: int,
    k: Seq<char>,
)
    requires
        c.masters.key_seq().no_duplicates(),
        forall|a: Seq<char>| c.masters@.contains_key(a) <==> #[trigger]
            c.masters.key_seq().contains(a),
    ensures
        asked.len() > 0 ==> c.split_peers(asked) == asked,
        asked.len() == 0 ==> {
            let r = c.split_peers(asked);
            let n = c.masters.key_seq().len();
            &&& r.len() == if n < 3 {
                n as int
            } else {
                3
            }
            &&& r.no_duplicates()
            &&& 0 <= i < r.len() ==> c.masters@.contains_key(r[i])
            &&& 0 <= i < r.len() && c.masters@.contains_key(k) && !r.contains(k)
                ==> c.masters@[r[i]].last_heartbeat >= c.masters@[k].last_heartbeat
        },
{
    broadcast use vstd::seq_lib::group_to_multiset_ensures;

    let keys = c.masters.key_seq();
    let all = freshest(c.masters@, keys);
    law_freshest_first(c.masters@, keys);
    assert(all.len() == all.to_multiset().len());
    assert(keys.len() == keys.to_multiset().len());
    keys.lemma_multiset_has_no_duplicates();
    all.lemma_multiset_has_no_duplicates_conv();
    let r = first_n(all, 3);
    if 0 <= i < r.len() {
        assert(all.contains(r[i])) by {
            assert(all[i] == r[i]);
        }
        assert(all.to_multiset().count(r[i]) > 0);
        assert(keys.contains(r[i]));
        if c.masters@.contains_key(k) && !r.contains(k) {
            assert(keys.contains(k));
            assert(keys.to_multiset().count(k) > 0);
            assert(all.contains(k));
            let j = all.index_of(k);
            if j < r.len() {
                assert(r[j] == k);
            }
            assert(all[i] == r[i]);
        }
    }
}

/// A split that is asked for names the shard, the key and the new shard as they
/// were given, with at least one server; it is refused only where no server was
/// named and no master is known.
pub proof fn law_split_requests(
    c: ConfigStateInner,
    shard_id: String,
    split_key: String,
    new_shard_id: String,
    peers: Vec<String>,
    r: SplitPlan,
)
    requires
        c.wf(),
        call_ensures(
            ConfigStateInner::split_shard,
            (&c, shard_id, split_key, new_shard_id, peers),
            r,
        ),
        c.masters.key_seq().no_duplicates(),
        forall|a: Seq<char>| c.masters@.contains_key(a) <==> #[trigger]
            c.masters.key_seq().contains(a),
    ensures
        r is Refused <==> peers@.len() == 0 && c.masters.key_seq().len() == 0,
        r matches SplitPlan::Propose { command, peers: chosen } ==> {
            &&& command@ matches CommandView::Config(k)
            &&& k matches ConfigCommandView::SplitShard {
                shard_id: s,
                split_key: at,
                new_shard_id: n,
                new_shard_peers: p,
            }
            &&& s == shard_id@
            &&& at == split_key@
            &&& n == new_shard_id@
            &&& p == chosen.deep_view()
            &&& p.len() > 0
            &&& peers@.len() > 0 ==> p == peers.deep_view()
        },
{
    law_new_shard_gets_masters(c, peers.deep_view(), 0, Seq::empty());
}

} // verus!
