//! Administration: safe mode, members of the cluster, shuffling, moving
//! metadata between shards and the load of path prefixes.

use crate::ids::{before_hyphen, first_group, is_uuid, new_id};
use crate::master::service::{
    plan_view, propose, refuse, refused, Answer, AnswerView, Plan, PlanView, Route, Status,
};
use crate::master::state::{total_blocks, MasterState, StateView};
use crate::master::types::{FileMetadata, FileView};
use crate::raft::command::{
    Command, CommandView, MasterCommand, MasterCommandView, MembershipCommand, MembershipView,
};
use crate::raft::config::Role;
use crate::raft::drive::ClusterInfo;
use crate::strmap::{Dup, StrMap};
use crate::text::{chars_of, concat3, string_of, text_before, text_le};
use vstd::prelude::*;

verus! {

/// The state of safe mode, as it is reported.
#[derive(Debug, Clone, Copy, PartialEq, Eq, Structural)]
pub struct SafeModeStatus {
    pub is_safe_mode: bool,
    pub is_manual: bool,
    pub chunk_server_count: u32,
    pub expected_blocks: u32,
    pub reported_blocks: u32,
    pub threshold_percent: u32,
    pub entered_at: u64,
}

impl MasterState {
    /// The state of safe mode.
    pub fn get_safe_mode_status(&self) -> (r: SafeModeStatus)
        ensures
            r == (SafeModeStatus {
                is_safe_mode: self@.safe_mode,
                is_manual: self@.manual,
                chunk_server_count: self@.servers.len() as u32,
                expected_blocks: self@.expected as u32,
                reported_blocks: self@.reported as u32,
                threshold_percent: self@.threshold,
                entered_at: self@.entered_at,
            }),
    {
        let n: usize = self.chunk_servers.len();
        SafeModeStatus {
            is_safe_mode: self.safe_mode,
            is_manual: self.safe_mode_manual,
            chunk_server_count: #[verifier::truncate]
            (n as u32),
            expected_blocks: #[verifier::truncate]
            (self.expected_block_count as u32),
            reported_blocks: #[verifier::truncate]
            (self.reported_block_count as u32),
            threshold_percent: self.safe_mode_threshold,
            entered_at: self.safe_mode_entered_at,
        }
    }

    /// Enters or leaves safe mode on request. Tells whether safe mode is on.
    pub fn set_safe_mode(&mut self, enter: bool) -> (on: bool)
        requires
            total_blocks(old(self)@.files) <= usize::MAX,
        ensures
            on == enter,
            final(self)@ == if enter {
                StateView {
                    manual: true,
                    ..old(self)@.guarded(final(self).safe_mode_entered_at)
                }
            } else {
                StateView { manual: false, safe_mode: false, ..old(self)@ }
            },
    {
        if enter {
            self.force_enter_safe_mode();
        } else {
            self.force_exit_safe_mode();
        }
        enter
    }
}

/// The command that adds a server to the Raft cluster.
pub fn add_raft_server(server_id: u32, server_address: String) -> (r: Command)
    ensures
        r@ == CommandView::Membership(
            (MembershipView::AddServer { server_id: server_id as usize, server_address }),
        ),
{
    Command::Membership(
        MembershipCommand::AddServer { server_id: server_id as usize, server_address },
    )
}

/// How the removal of a server goes on: only the leader removes, and never
/// the last server.
pub open spec fn remove_plan(role: Role, peers: int, leader_hint: Seq<char>, id: u32) -> PlanView {
    if role != Role::Leader {
        PlanView::Reply(
            AnswerView { success: false, error_message: "Not Leader"@, leader_hint },
        )
    } else if peers == 0 {
        PlanView::Reply(refused("Cannot remove server: would leave cluster empty"@))
    } else {
        PlanView::Propose(
            CommandView::Membership(MembershipView::RemoveServer { server_id: id as usize }),
        )
    }
}

/// Plans the removal of a server from the Raft cluster.
pub fn remove_raft_server(info: &ClusterInfo, leader_hint: String, server_id: u32) -> (r: Plan)
    ensures
        r@ == remove_plan(info.role, info.peers@.len() as int, leader_hint@, server_id),
{
    if info.role != Role::Leader {
        return Plan::Reply(
            Answer { success: false, error_message: "Not Leader".to_owned(), leader_hint },
        );
    }
    if info.peers.len() == 0 {
        return Plan::Reply(
            refuse("Cannot remove server: would leave cluster empty".to_owned()),
        );
    }
    Plan::Propose(
        Command::Membership(MembershipCommand::RemoveServer { server_id: server_id as usize }),
    )
}

/// The name of a role.
pub open spec fn role_name(role: Role) -> Seq<char> {
    match role {
        Role::Leader => "Leader"@,
        Role::Follower => "Follower"@,
        Role::Candidate => "Candidate"@,
    }
}

/// The name of a role.
pub fn role_text(role: Role) -> (r: String)
    ensures
        r@ == role_name(role),
{
    match role {
        Role::Leader => "Leader".to_owned(),
        Role::Follower => "Follower".to_owned(),
        Role::Candidate => "Candidate".to_owned(),
    }
}

/// A member of the cluster, as it is reported.
#[derive(Debug)]
pub struct ClusterMember {
    pub server_id: u32,
    pub address: String,
    pub is_self: bool,
}

/// The cluster, as it is reported.
#[derive(Debug)]
pub struct ClusterReport {
    pub node_id: u32,
    pub role: String,
    pub current_term: u64,
    pub leader_id: u32,
    pub leader_address: String,
    pub members: Vec<ClusterMember>,
    pub commit_index: u64,
    pub last_applied: u64,
}

/// The report on the cluster.
pub fn get_cluster_info(info: ClusterInfo) -> (r: ClusterReport)
    ensures
        r.node_id == info.node_id as u32,
        r.role@ == role_name(info.role),
        r.current_term == info.current_term,
        r.leader_id == match info.leader_id {
            Some(id) => id as u32,
            None => 0u32,
        },
        r.leader_address@ == match info.leader_address {
            Some(a) => a@,
            None => Seq::empty(),
        },
        r.members@.len() == info.peers@.len(),
        forall|i: int|
            0 <= i < r.members@.len() ==> (#[trigger] r.members@[i]).server_id == i as u32
                && r.members@[i].address@ == info.peers@[i]@ && !r.members@[i].is_self,
        r.commit_index == info.commit_index,
        r.last_applied == info.last_applied,
{
    let mut members: Vec<ClusterMember> = Vec::new();
    let mut i: usize = 0;
    while i < info.peers.len()
        invariant
            i <= info.peers@.len(),
            members@.len() == i,
            forall|j: int|
                0 <= j < i ==> (#[trigger] members@[j]).server_id == j as u32
                    && members@[j].address@ == info.peers@[j]@ && !members@[j].is_self,
        decreases info.peers@.len() - i,
    {
        let server_id: u32 = #[verifier::truncate]
        (i as u32);
        members.push(ClusterMember { server_id, address: info.peers[i].clone(), is_self: false });
        i += 1;
    }
    let node_id: u32 = #[verifier::truncate]
    (info.node_id as u32);
    let leader_id: u32 = match info.leader_id {
        Some(id) => #[verifier::truncate]
        (id as u32),
        None => 0,
    };
    let leader_address: String = match info.leader_address {
        Some(a) => a,
        None => String::new(),
    };
    ClusterReport {
        node_id,
        role: role_text(info.role),
        current_term: info.current_term,
        leader_id,
        leader_address,
        members,
        commit_index: info.commit_index as u64,
        last_applied: info.last_applied as u64,
    }
}

/// The path up to and with its last slash, if it has one.
pub open spec fn directory(path: Seq<char>) -> Option<Seq<char>>
    decreases path.len(),
{
    if path.len() == 0 {
        None
    } else if path.last() == '/' {
        Some(path)
    } else {
        directory(path.drop_last())
    }
}

/// The path up to and with its last slash, if it has one.
pub fn directory_of(path: &str) -> (r: Option<String>)
    ensures
        r.deep_view() == directory(path@),
{
    let v = chars_of(path);
    let mut n: usize = v.len();
    assert(path@.take(n as int) =~= path@);
    while n > 0
        invariant
            n <= v@.len(),
            v@ == path@,
            directory(path@) == directory(path@.take(n as int)),
        decreases n,
    {
        proof {
            assert(path@.take(n as int).last() == path@[n as int - 1]);
            assert(path@.take(n as int).drop_last() =~= path@.take(n as int - 1));
        }
        if v[n - 1] == '/' {
            let mut head = v;
            head.truncate(n);
            assert(head@ =~= path@.take(n as int));
            return Some(string_of(head.as_slice()));
        }
        n -= 1;
    }
    None
}

/// What follows from taking in a batch of metadata: the directory of its first
/// file is shuffled.
pub open spec fn shuffle_after(batch: Seq<FileView>) -> Option<Seq<char>> {
    if batch.len() == 0 {
        None
    } else {
        directory(batch[0].path)
    }
}

/// The command that takes in a batch of metadata, and the one that shuffles
/// its directory afterwards.
pub fn ingest_metadata(files: Vec<FileMetadata>) -> (r: (Command, Option<Command>))
    ensures
        r.0@ == CommandView::Master(
            (MasterCommandView::IngestBatch { files: files.deep_view() }),
        ),
        match shuffle_after(files.deep_view()) {
            Some(p) => r.1 is Some && r.1->0@ == CommandView::Master(
                (MasterCommandView::TriggerShuffle { prefix: p }),
            ),
            None => r.1 is None,
        },
{
    let prefix: Option<String> = if files.len() > 0 {
        assert(files.deep_view()[0] == files@[0]@);
        directory_of(files[0].path.as_str())
    } else {
        None
    };
    let shuffle = match prefix {
        Some(prefix) => Some(Command::Master(MasterCommand::TriggerShuffle { prefix })),
        None => None,
    };
    (Command::Master(MasterCommand::IngestBatch { files }), shuffle)
}

impl MasterState {
    /// Plans the shuffling of a prefix.
    pub fn initiate_shuffle(&self, own: &str, route: &Route, prefix: String) -> (r: Result<
        Plan,
        Status,
    >)
        ensures
            plan_view(r) == match self@.write_failure(own@, route@) {
                Some(e) => Err(e),
                None => propose((MasterCommandView::TriggerShuffle { prefix: prefix@ })),
            },
    {
        if let Err(e) = self.check_write(own, route) {
            return Err(e);
        }
        Ok(Plan::Propose(Command::Master(MasterCommand::TriggerShuffle { prefix })))
    }
}

/// The first component of a path; nothing if there is none.
pub open spec fn first_component(path: Seq<char>) -> Seq<char>
    decreases path.len(),
{
    if path.len() == 0 {
        Seq::empty()
    } else if path[0] == '/' {
        first_component(path.drop_first())
    } else {
        up_to_slash(path)
    }
}

/// The text before the first slash.
pub open spec fn up_to_slash(s: Seq<char>) -> Seq<char>
    decreases s.len(),
{
    if s.len() == 0 || s[0] == '/' {
        Seq::empty()
    } else {
        seq![s[0]] + up_to_slash(s.drop_first())
    }
}

/// The prefix whose load a path counts for: its first component.
pub open spec fn load_prefix(path: Seq<char>) -> Seq<char> {
    if first_component(path).len() > 0 {
        "/"@ + first_component(path) + "/"@
    } else {
        "/"@
    }
}

/// The first component of a path.
fn find_component(path: &str) -> (r: String)
    ensures
        r@ == first_component(path@),
{
    let v = chars_of(path);
    let mut i: usize = 0;
    assert(path@.skip(0) =~= path@);
    while i < v.len() && v[i] == '/'
        invariant
            i <= v@.len(),
            v@ == path@,
            first_component(path@) == first_component(path@.skip(i as int)),
        decreases v@.len() - i,
    {
        proof {
            assert(path@.skip(i as int)[0] == path@[i as int]);
            assert(path@.skip(i as int).drop_first() =~= path@.skip(i as int + 1));
        }
        i += 1;
    }
    let ghost from = i as int;
    let mut r = String::new();
    proof {
        if i < v@.len() {
            assert(path@.skip(from)[0] == path@[from]);
        }
        assert(first_component(path@.skip(from)) == up_to_slash(path@.skip(from)));
        assert(r@ + up_to_slash(path@.skip(from)) =~= up_to_slash(path@.skip(from)));
    }
    while i < v.len() && v[i] != '/'
        invariant
            from <= i <= v@.len(),
            v@ == path@,
            first_component(path@) == r@ + up_to_slash(path@.skip(i as int)),
        decreases v@.len() - i,
    {
        let ghost rv = r@;
        let ghost rest = path@.skip(i as int);
        r.push(v[i]);
        proof {
            assert(rest[0] == path@[i as int]);
            assert(rest.drop_first() =~= path@.skip(i as int + 1));
            assert(rv + (seq![rest[0]] + up_to_slash(rest.drop_first())) =~= r@ + up_to_slash(
                path@.skip(i as int + 1),
            ));
        }
        i += 1;
    }
    proof {
        let rest = path@.skip(i as int);
        if i < v@.len() {
            assert(rest[0] == path@[i as int]);
        }
        assert(r@ + Seq::<char>::empty() =~= r@);
    }
    r
}

/// The prefix whose load a path counts for.
pub fn get_path_prefix(path: &str) -> (r: String)
    ensures
        r@ == load_prefix(path@),
{
    let c = find_component(path);
    if c.as_str().is_empty() {
        "/".to_owned()
    } else {
        concat3("/", c.as_str(), "/")
    }
}

/// Requests and bytes that were counted for a prefix since the last look.
#[derive(Debug, Clone, Copy, PartialEq, Eq, Structural)]
pub struct PrefixCount {
    pub last_count: u64,
    pub last_bytes: u64,
}

impl DeepView for PrefixCount {
    type V = PrefixCount;

    open spec fn deep_view(&self) -> PrefixCount {
        *self
    }
}

/// A 64-bit sum, which starts over at 0 when it is full.
pub open spec fn sum64(a: u64, b: u64) -> u64 {
    if a + b > u64::MAX {
        (a + b - 0x1_0000_0000_0000_0000) as u64
    } else {
        (a + b) as u64
    }
}

/// The load of path prefixes.
#[derive(Debug)]
pub struct LoadCounter {
    pub counts: StrMap<PrefixCount>,
}

/// The count after one more request.
pub open spec fn counted(before: Option<PrefixCount>, bytes: u64) -> PrefixCount {
    match before {
        Some(c) => PrefixCount {
            last_count: sum64(c.last_count, 1),
            last_bytes: sum64(c.last_bytes, bytes),
        },
        None => PrefixCount { last_count: 1, last_bytes: bytes },
    }
}

impl LoadCounter {
    pub fn new() -> (r: Self)
        ensures
            r.counts@ == Map::<Seq<char>, PrefixCount>::empty(),
    {
        LoadCounter { counts: StrMap::new() }
    }

    /// Counts a request for a path.
    pub fn record_request(&mut self, path: &str, bytes: u64)
        ensures
            final(self).counts@ == old(self).counts@.insert(
                load_prefix(path@),
                counted(
                    if old(self).counts@.contains_key(load_prefix(path@)) {
                        Some(old(self).counts@[load_prefix(path@)])
                    } else {
                        None
                    },
                    bytes,
                ),
            ),
    {
        let prefix = get_path_prefix(path);
        let next = match self.counts.get(prefix.as_str()) {
            Some(c) => PrefixCount {
                last_count: c.last_count.wrapping_add(1),
                last_bytes: c.last_bytes.wrapping_add(bytes),
            },
            None => PrefixCount { last_count: 1, last_bytes: bytes },
        };
        self.counts.insert(prefix, next);
    }

    /// The count of a prefix, which starts anew.
    pub fn take(&mut self, prefix: &str) -> (r: PrefixCount)
        ensures
            final(self).counts@ == if old(self).counts@.contains_key(prefix@) {
                old(self).counts@.insert(prefix@, PrefixCount { last_count: 0, last_bytes: 0 })
            } else {
                old(self).counts@
            },
            r == if old(self).counts@.contains_key(prefix@) {
                old(self).counts@[prefix@]
            } else {
                PrefixCount { last_count: 0, last_bytes: 0 }
            },
    {
        let known: Option<PrefixCount> = match self.counts.get(prefix) {
            Some(c) => Some(*c),
            None => None,
        };
        let zero = PrefixCount { last_count: 0, last_bytes: 0 };
        match known {
            Some(c) => {
                self.counts.insert(prefix.to_owned(), zero);
                c
            },
            None => zero,
        }
    }
}

/// The command that splits a shard at a prefix; `id` makes the name of the new
/// shard unique.
pub open spec fn split_command(shard_id: Seq<char>, prefix: Seq<char>, id: Seq<char>) -> CommandView {
    CommandView::Master(
        MasterCommandView::SplitShard {
            split_key: prefix,
            new_shard_id: shard_id + "-split-"@ + before_hyphen(id),
            new_shard_peers: Seq::empty(),
        },
    )
}

/// The command that splits a shard at a prefix, and the name of the new shard.
pub fn split_shard_as(shard_id: &str, prefix: &str, id: &str) -> (r: (Command, String))
    ensures
        r.0@ == split_command(shard_id@, prefix@, id@),
        r.1@ == shard_id@ + "-split-"@ + before_hyphen(id@),
{
    let group = first_group(id);
    let new_shard_id = concat3(shard_id, "-split-", group.as_str());
    let peers: Vec<String> = Vec::new();
    assert(peers.deep_view() =~= Seq::<Seq<char>>::empty());
    (
        Command::Master(
            MasterCommand::SplitShard {
                split_key: prefix.to_owned(),
                new_shard_id: new_shard_id.clone(),
                new_shard_peers: peers,
            },
        ),
        new_shard_id,
    )
}

/// The command that splits a shard at a prefix under a new name.
pub fn split_shard(shard_id: &str, prefix: &str) -> (r: (Command, String))
    ensures
        exists|id: Seq<char>|
            is_uuid(id) && r.0@ == #[trigger] split_command(shard_id@, prefix@, id) && r.1@
                == shard_id@ + "-split-"@ + before_hyphen(id),
{
    let id = new_id();
    split_shard_as(shard_id, prefix, id.as_str())
}

/// The metadata of the files at or after a key, in order.
pub open spec fn files_from(
    files: Map<Seq<char>, FileView>,
    paths: Seq<Seq<char>>,
    key: Seq<char>,
) -> Seq<FileView>
    decreases paths.len(),
{
    if paths.len() == 0 {
        Seq::empty()
    } else if text_le(key, paths.last()) {
        files_from(files, paths.drop_last(), key).push(files[paths.last()])
    } else {
        files_from(files, paths.drop_last(), key)
    }
}

/// The file is one of those at or after the key.
spec fn lies_from(
    files: Map<Seq<char>, FileView>,
    paths: Seq<Seq<char>>,
    key: Seq<char>,
    f: FileView,
) -> bool {
    exists|k: int|
        0 <= k < paths.len() && text_le(key, #[trigger] paths[k]) && f == files[paths[k]]
}

/// Every file at or after the key is among them, and no other.
proof fn lemma_files_from(
    files: Map<Seq<char>, FileView>,
    paths: Seq<Seq<char>>,
    key: Seq<char>,
)
    ensures
        forall|i: int|
            0 <= i < files_from(files, paths, key).len() ==> lies_from(
                files,
                paths,
                key,
                #[trigger] files_from(files, paths, key)[i],
            ),
        forall|k: int|
            0 <= k < paths.len() && text_le(key, #[trigger] paths[k]) ==> files_from(
                files,
                paths,
                key,
            ).contains(files[paths[k]]),
    decreases paths.len(),
{
    if paths.len() > 0 {
        let d = paths.drop_last();
        let before = files_from(files, d, key);
        let all = files_from(files, paths, key);
        lemma_files_from(files, d, key);
        assert forall|i: int| 0 <= i < all.len() implies lies_from(
            files,
            paths,
            key,
            #[trigger] all[i],
        ) by {
            if i < before.len() {
                assert(lies_from(files, d, key, before[i]));
                let k = choose|k: int|
                    0 <= k < d.len() && text_le(key, #[trigger] d[k]) && before[i] == files[d[k]];
                assert(paths[k] == d[k]);
            } else {
                assert(paths[paths.len() - 1] == paths.last());
            }
        }
        assert forall|k: int|
            0 <= k < paths.len() && text_le(key, #[trigger] paths[k]) implies all.contains(
            files[paths[k]],
        ) by {
            if k < d.len() {
                assert(d[k] == paths[k]);
                let i = before.index_of(files[d[k]]);
                assert(all[i] == before[i]);
            } else {
                assert(all[all.len() - 1] == files[paths[k]]);
            }
        }
    }
}

/// Every file is kept under its own path.
pub open spec fn keyed_by_path(files: Map<Seq<char>, FileView>) -> bool {
    forall|p: Seq<char>| #[trigger] files.contains_key(p) ==> files[p].path == p
}

impl MasterState {
    /// The metadata of all files at or after a key, as a split at that key
    /// moves them.
    pub fn metadata_from(&self, key: &str) -> (r: Vec<FileMetadata>)
        ensures
            r.deep_view() == files_from(self@.files, self.files.key_seq(), key@),
            keyed_by_path(self@.files) ==> {
                &&& forall|i: int|
                    0 <= i < r@.len() ==> self@.files.contains_key(
                        (#[trigger] r.deep_view()[i]).path,
                    ) && self@.files[r.deep_view()[i].path] == r.deep_view()[i]
                &&& forall|p: Seq<char>| #[trigger]
                    self@.files.contains_key(p) && text_le(key@, p) ==> exists|i: int|
                        0 <= i < r@.len() && (#[trigger] r.deep_view()[i]).path == p
            },
    {
        let n: usize = self.files.len();
        let ghost ks = self.files.key_seq();
        let ghost fs = self@.files;
        let mut r: Vec<FileMetadata> = Vec::new();
        let mut i: usize = 0;
        assert(ks.take(0) =~= Seq::<Seq<char>>::empty());
        assert(r.deep_view() =~= Seq::<FileView>::empty());
        while i < n
            invariant
                i <= n,
                n == ks.len(),
                ks == self.files.key_seq(),
                fs == self.files@,
                r.deep_view() == files_from(fs, ks.take(i as int), key@),
            decreases n - i,
        {
            let ghost rv = r.deep_view();
            proof {
                assert(ks.take(i as int + 1).drop_last() =~= ks.take(i as int));
                assert(ks.take(i as int + 1).last() == ks[i as int]);
            }
            if !text_before(self.files.key_at(i).as_str(), key) {
                r.push(self.files.val_at(i).dup());
                assert(r.deep_view() =~= rv.push(fs[ks[i as int]]));
            }
            i += 1;
        }
        assert(ks.take(ks.len() as int) =~= ks);
        proof {
            lemma_files_from(fs, ks, key@);
            if keyed_by_path(fs) {
                let rv = r.deep_view();
                assert forall|i: int| 0 <= i < rv.len() implies fs.contains_key(
                    (#[trigger] rv[i]).path,
                ) && fs[rv[i].path] == rv[i] by {
                    assert(lies_from(fs, ks, key@, rv[i]));
                    let k = choose|k: int|
                        0 <= k < ks.len() && text_le(key@, #[trigger] ks[k]) && rv[i] == fs[ks[k]];
                    assert(ks.contains(ks[k]));
                    assert(fs.contains_key(ks[k]));
                }
                assert forall|p: Seq<char>| #[trigger]
                    fs.contains_key(p) && text_le(key@, p) implies exists|i: int|
                    0 <= i < rv.len() && (#[trigger] rv[i]).path == p by {
                    let k = ks.index_of(p);
                    assert(text_le(key@, ks[k]));
                    let i = rv.index_of(fs[p]);
                    assert(rv[i].path == p);
                }
            }
        }
        r
    }
}

/// The shard with which an idle shard merges: the one before it, or else the
/// one after it.
pub fn merge_partner(before: Option<String>, after: Option<String>) -> (r: Option<String>)
    ensures
        r == if before is Some {
            before
        } else {
            after
        },
{
    match before {
        Some(s) => Some(s),
        None => after,
    }
}

} // verus!
