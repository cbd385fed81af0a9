//! Requests to the metadata service: what is refused, what is answered from
//! the state, and what is proposed for replication.

use crate::master::heal::{repair_files, with_orders, Cluster};
use crate::master::state::{MasterState, StateView};
use crate::master::types::{
    BlockInfo, BlockView, ChunkServerCommand, ChunkServerStatus, FileMetadata, FileView, OrderView,
    StatusView,
};
use crate::raft::command::{Command, CommandView, MasterCommand, MasterCommandView};
use crate::strmap::{Dup, StrSet};
use crate::text::{concat, starts_with, text_eq};
use vstd::prelude::*;
use vstd::string::*;

verus! {

/// Why a request fails.
#[derive(Debug, Clone, Copy, PartialEq, Eq, Structural)]
pub enum StatusCode {
    /// Another shard is responsible
    OutOfRange,
    /// The service cannot do it now
    Unavailable,
    /// There is no such file
    NotFound,
    /// Something went wrong inside
    Internal,
    /// The node does not lead
    FailedPrecondition,
}

/// The failure of a request.
#[derive(Debug)]
pub struct Status {
    pub code: StatusCode,
    pub message: String,
}

/// What a failure stands for.
#[verifier::ext_equal]
pub struct Failure {
    pub code: StatusCode,
    pub message: Seq<char>,
}

impl View for Status {
    type V = Failure;

    open spec fn view(&self) -> Failure {
        Failure { code: self.code, message: self.message@ }
    }
}

/// The answer to a request that changes something.
#[derive(Debug, PartialEq)]
pub struct Answer {
    pub success: bool,
    pub error_message: String,
    pub leader_hint: String,
}

/// What an answer stands for.
#[verifier::ext_equal]
pub struct AnswerView {
    pub success: bool,
    pub error_message: Seq<char>,
    pub leader_hint: Seq<char>,
}

impl View for Answer {
    type V = AnswerView;

    open spec fn view(&self) -> AnswerView {
        AnswerView {
            success: self.success,
            error_message: self.error_message@,
            leader_hint: self.leader_hint@,
        }
    }
}

/// The answer of success.
pub open spec fn accepted() -> AnswerView {
    AnswerView { success: true, error_message: Seq::empty(), leader_hint: Seq::empty() }
}

/// The answer of a refusal.
pub open spec fn refused(message: Seq<char>) -> AnswerView {
    AnswerView { success: false, error_message: message, leader_hint: Seq::empty() }
}

/// The answer of a node that does not lead.
pub open spec fn not_leader(hint: Option<Seq<char>>) -> AnswerView {
    AnswerView { success: false, error_message: "Not Leader"@, leader_hint: or_empty(hint) }
}

/// The text, or nothing.
pub open spec fn or_empty(o: Option<Seq<char>>) -> Seq<char> {
    match o {
        Some(t) => t,
        None => Seq::empty(),
    }
}

/// What became of a proposal.
#[derive(Debug)]
pub enum Outcome {
    /// It was taken
    Done,
    /// The node does not lead
    NotLeader { leader: Option<String> },
    /// The answer was lost
    Lost,
    /// It could not be handed over
    Closed,
}

/// What the fate of a proposal stands for.
pub enum OutcomeView {
    Done,
    NotLeader { leader: Option<Seq<char>> },
    Lost,
    Closed,
}

impl View for Outcome {
    type V = OutcomeView;

    open spec fn view(&self) -> OutcomeView {
        match self {
            Outcome::Done => OutcomeView::Done,
            Outcome::NotLeader { leader } => OutcomeView::NotLeader { leader: leader.deep_view() },
            Outcome::Lost => OutcomeView::Lost,
            Outcome::Closed => OutcomeView::Closed,
        }
    }
}

/// The answer that follows from the fate of a proposal, where `lost` tells of
/// a lost answer.
pub open spec fn answer_of(o: OutcomeView, lost: Seq<char>) -> Result<AnswerView, Failure> {
    match o {
        OutcomeView::Done => Ok(accepted()),
        OutcomeView::NotLeader { leader } => Ok(not_leader(leader)),
        OutcomeView::Lost => Err(Failure { code: StatusCode::Internal, message: lost }),
        OutcomeView::Closed => Err(
            Failure { code: StatusCode::Internal, message: "Raft channel closed"@ },
        ),
    }
}

/// The views of a result.
pub open spec fn result_view(r: Result<Answer, Status>) -> Result<AnswerView, Failure> {
    match r {
        Ok(a) => Ok(a@),
        Err(e) => Err(e@),
    }
}

fn text_or_empty(o: Option<String>) -> (r: String)
    ensures
        r@ == or_empty(o.deep_view()),
{
    match o {
        Some(t) => t,
        None => String::new(),
    }
}

/// A failure.
pub fn failure(code: StatusCode, message: &str) -> (r: Status)
    ensures
        r@ == (Failure { code, message: message@ }),
{
    Status { code, message: message.to_owned() }
}

/// The answer of success.
pub fn accept() -> (r: Answer)
    ensures
        r@ == accepted(),
{
    Answer { success: true, error_message: String::new(), leader_hint: String::new() }
}

/// The answer of a refusal.
pub fn refuse(message: String) -> (r: Answer)
    ensures
        r@ == refused(message@),
{
    Answer { success: false, error_message: message, leader_hint: String::new() }
}

/// The answer that follows from the fate of a proposal.
pub fn answer(outcome: Outcome, lost: &str) -> (r: Result<Answer, Status>)
    ensures
        result_view(r) == answer_of(outcome@, lost@),
{
    match outcome {
        Outcome::Done => Ok(accept()),
        Outcome::NotLeader { leader } => Ok(
            Answer {
                success: false,
                error_message: "Not Leader".to_owned(),
                leader_hint: text_or_empty(leader),
            },
        ),
        Outcome::Lost => Err(failure(StatusCode::Internal, lost)),
        Outcome::Closed => Err(failure(StatusCode::Internal, "Raft channel closed")),
    }
}

/// Who is responsible for a path: the shard, if there is one, and its peers.
#[derive(Debug)]
pub struct Route {
    pub shard: Option<String>,
    pub peers: Option<Vec<String>>,
}

/// What a route stands for.
pub struct RouteView {
    pub shard: Option<Seq<char>>,
    pub peers: Option<Seq<Seq<char>>>,
}

impl View for Route {
    type V = RouteView;

    open spec fn view(&self) -> RouteView {
        RouteView { shard: self.shard.deep_view(), peers: self.peers.deep_view() }
    }
}

impl RouteView {
    /// The first peer, or nothing.
    pub open spec fn hint(self) -> Seq<char> {
        match self.peers {
            Some(p) => if p.len() > 0 {
                p[0]
            } else {
                Seq::empty()
            },
            None => Seq::empty(),
        }
    }

    /// The failure of a request that belongs to another shard.
    pub open spec fn foreign(self, own: Seq<char>) -> Option<Failure> {
        match self.shard {
            Some(s) => if s != own {
                Some(
                    Failure {
                        code: StatusCode::OutOfRange,
                        message: "REDIRECT:"@ + self.hint(),
                    },
                )
            } else {
                None
            },
            None => None,
        }
    }
}

/// Checks that the shard `own` is responsible for a path.
pub fn check_shard_ownership(own: &str, route: &Route) -> (r: Result<(), Status>)
    ensures
        match r {
            Ok(_) => route@.foreign(own@) is None,
            Err(e) => route@.foreign(own@) == Some(e@),
        },
{
    match &route.shard {
        Some(s) => {
            if text_eq(s.as_str(), own) {
                return Ok(());
            }
        },
        None => {
            return Ok(());
        },
    }
    let hint: String = match &route.peers {
        Some(p) => if p.len() > 0 {
            p[0].clone()
        } else {
            String::new()
        },
        None => String::new(),
    };
    assert(hint@ == route@.hint()) by {
        match route.peers {
            Some(p) => {
                if p@.len() > 0 {
                    assert(p.deep_view()[0] == p@[0]@);
                }
            },
            None => {},
        }
    }
    Err(Status { code: StatusCode::OutOfRange, message: concat("REDIRECT:", hint.as_str()) })
}

/// What a linearizable read came to.
#[derive(Debug)]
pub enum ReadOutcome {
    Ready,
    NotLeader { leader: Option<String> },
    Lost,
    /// It could not be handed over, with the reason
    Closed { reason: String },
}

/// The failure of a read that is not linearizable.
pub open spec fn read_failure(o: ReadOutcome) -> Option<Failure> {
    match o {
        ReadOutcome::Ready => None,
        ReadOutcome::NotLeader { leader } => Some(
            Failure {
                code: StatusCode::FailedPrecondition,
                message: match leader.deep_view() {
                    Some(h) => "Not Leader|"@ + h,
                    None => "Not Leader"@,
                },
            },
        ),
        ReadOutcome::Lost => Some(
            Failure { code: StatusCode::Internal, message: "Raft node shutdown"@ },
        ),
        ReadOutcome::Closed { reason } => Some(
            Failure {
                code: StatusCode::Internal,
                message: "Failed to send to Raft node: "@ + reason@,
            },
        ),
    }
}

/// Lets a read go on only if it is linearizable.
pub fn ensure_linearizable_read(outcome: ReadOutcome) -> (r: Result<(), Status>)
    ensures
        match r {
            Ok(_) => read_failure(outcome) is None,
            Err(e) => read_failure(outcome) == Some(e@),
        },
{
    match outcome {
        ReadOutcome::Ready => Ok(()),
        ReadOutcome::NotLeader { leader } => match leader {
            Some(h) => Err(
                Status {
                    code: StatusCode::FailedPrecondition,
                    message: concat("Not Leader|", h.as_str()),
                },
            ),
            None => Err(failure(StatusCode::FailedPrecondition, "Not Leader")),
        },
        ReadOutcome::Lost => Err(failure(StatusCode::Internal, "Raft node shutdown")),
        ReadOutcome::Closed { reason } => Err(
            Status {
                code: StatusCode::Internal,
                message: concat("Failed to send to Raft node: ", reason.as_str()),
            },
        ),
    }
}

/// How a request goes on: it is answered, or a command is proposed.
#[derive(Debug)]
pub enum Plan {
    Reply(Answer),
    Propose(Command),
}

/// What a plan stands for.
pub enum PlanView {
    Reply(AnswerView),
    Propose(CommandView),
}

impl View for Plan {
    type V = PlanView;

    open spec fn view(&self) -> PlanView {
        match self {
            Plan::Reply(a) => PlanView::Reply(a@),
            Plan::Propose(c) => PlanView::Propose(c@),
        }
    }
}

/// The views of a planned request.
pub open spec fn plan_view(r: Result<Plan, Status>) -> Result<PlanView, Failure> {
    match r {
        Ok(p) => Ok(p@),
        Err(e) => Err(e@),
    }
}

/// The plan that proposes a command on the metadata.
pub open spec fn propose(c: MasterCommandView) -> Result<PlanView, Failure> {
    Ok(PlanView::Propose(CommandView::Master(c)))
}

impl StateView {
    /// The failure of writes during safe mode.
    pub open spec fn safe_mode_failure(self) -> Option<Failure> {
        if self.safe_mode {
            Some(
                Failure {
                    code: StatusCode::Unavailable,
                    message: "Cluster is in Safe Mode. Write operations are blocked."@,
                },
            )
        } else {
            None
        }
    }

    /// The failure of a write to a path: another shard is responsible, or safe
    /// mode blocks it.
    pub open spec fn write_failure(self, own: Seq<char>, route: RouteView) -> Option<Failure> {
        match route.foreign(own) {
            Some(e) => Some(e),
            None => self.safe_mode_failure(),
        }
    }

    /// How the creation of a file goes on.
    pub open spec fn create_plan(
        self,
        own: Seq<char>,
        route: RouteView,
        path: Seq<char>,
        ec_data_shards: i32,
        ec_parity_shards: i32,
    ) -> Result<PlanView, Failure> {
        match self.write_failure(own, route) {
            Some(e) => Err(e),
            None => if self.files.contains_key(path) {
                Ok(PlanView::Reply(refused("File already exists"@)))
            } else {
                propose(MasterCommandView::CreateFile { path, ec_data_shards, ec_parity_shards })
            },
        }
    }

    /// How the deletion of a file goes on.
    pub open spec fn delete_plan(self, own: Seq<char>, route: RouteView, path: Seq<char>) -> Result<
        PlanView,
        Failure,
    > {
        match self.write_failure(own, route) {
            Some(e) => Err(e),
            None => if self.files.contains_key(path) {
                propose(MasterCommandView::DeleteFile { path })
            } else {
                Ok(PlanView::Reply(refused("File not found"@)))
            },
        }
    }
}

impl MasterState {
    /// Check if the cluster is in safe mode and reject write operations
    pub fn check_safe_mode(&self) -> (r: Result<(), Status>)
        ensures
            match r {
                Ok(_) => self@.safe_mode_failure() is None,
                Err(e) => self@.safe_mode_failure() == Some(e@),
            },
    {
        if self.is_in_safe_mode() {
            Err(
                failure(
                    StatusCode::Unavailable,
                    "Cluster is in Safe Mode. Write operations are blocked.",
                ),
            )
        } else {
            Ok(())
        }
    }

    /// Lets a write to a path go on only where this shard is responsible and
    /// safe mode is over.
    pub fn check_write(&self, own: &str, route: &Route) -> (r: Result<(), Status>)
        ensures
            match r {
                Ok(_) => self@.write_failure(own@, route@) is None,
                Err(e) => self@.write_failure(own@, route@) == Some(e@),
            },
    {
        match check_shard_ownership(own, route) {
            Ok(_) => self.check_safe_mode(),
            Err(e) => Err(e),
        }
    }

    /// Plans the creation of a file.
    pub fn create_file(
        &self,
        own: &str,
        route: &Route,
        path: String,
        ec_data_shards: i32,
        ec_parity_shards: i32,
    ) -> (r: Result<Plan, Status>)
        ensures
            plan_view(r) == self@.create_plan(
                own@,
                route@,
                path@,
                ec_data_shards,
                ec_parity_shards,
            ),
    {
        if let Err(e) = self.check_write(own, route) {
            return Err(e);
        }
        if self.files.contains_key(path.as_str()) {
            return Ok(Plan::Reply(refuse("File already exists".to_owned())));
        }
        Ok(
            Plan::Propose(
                Command::Master(
                    MasterCommand::CreateFile { path, ec_data_shards, ec_parity_shards },
                ),
            ),
        )
    }

    /// Plans the deletion of a file.
    pub fn delete_file(&self, own: &str, route: &Route, path: String) -> (r: Result<Plan, Status>)
        ensures
            plan_view(r) == self@.delete_plan(own@, route@, path@),
    {
        if let Err(e) = self.check_write(own, route) {
            return Err(e);
        }
        if !self.files.contains_key(path.as_str()) {
            return Ok(Plan::Reply(refuse("File not found".to_owned())));
        }
        Ok(Plan::Propose(Command::Master(MasterCommand::DeleteFile { path })))
    }

    /// The metadata of a file, if it exists.
    pub fn get_file_info(&self, path: &str) -> (r: Option<FileMetadata>)
        ensures
            match r {
                Some(f) => self@.files.contains_key(path@) && f@ == self@.files[path@],
                None => !self@.files.contains_key(path@),
            },
    {
        match self.files.get(path) {
            Some(f) => Some(f.dup()),
            None => None,
        }
    }
}

/// The command that notes that a file was read at time `now`; it is proposed
/// for every request for the metadata of a path.
pub fn access_command(path: &str, now: u64) -> (r: Command)
    ensures
        r@ == CommandView::Master(
            (MasterCommandView::UpdateAccessStats { path: path@, accessed_at_ms: now }),
        ),
{
    Command::Master(MasterCommand::UpdateAccessStats { path: path.to_owned(), accessed_at_ms: now })
}

/// How the completion of a file goes on: an empty tag and a time of 0 count as
/// not given.
pub open spec fn complete_plan(
    own: Seq<char>,
    route: RouteView,
    path: Seq<char>,
    size: u64,
    etag_md5: Seq<char>,
    created_at_ms: u64,
) -> Result<PlanView, Failure> {
    match route.foreign(own) {
        Some(e) => Err(e),
        None => propose(
            MasterCommandView::CompleteFile {
                path,
                size,
                etag_md5: if etag_md5.len() == 0 {
                    None
                } else {
                    Some(etag_md5)
                },
                created_at_ms: if created_at_ms == 0 {
                    None
                } else {
                    Some(created_at_ms)
                },
            },
        ),
    }
}

/// Plans the completion of a file.
pub fn complete_file(
    own: &str,
    route: &Route,
    path: String,
    size: u64,
    etag_md5: String,
    created_at_ms: u64,
) -> (r: Result<Plan, Status>)
    ensures
        plan_view(r) == complete_plan(own@, route@, path@, size, etag_md5@, created_at_ms),
{
    if let Err(e) = check_shard_ownership(own, route) {
        return Err(e);
    }
    let etag: Option<String> = if etag_md5.as_str().is_empty() {
        None
    } else {
        Some(etag_md5)
    };
    let created: Option<u64> = if created_at_ms == 0 {
        None
    } else {
        Some(created_at_ms)
    };
    Ok(
        Plan::Propose(
            Command::Master(
                MasterCommand::CompleteFile { path, size, etag_md5: etag, created_at_ms: created },
            ),
        ),
    )
}

/// The paths under a prefix, in order.
pub open spec fn under(paths: Seq<Seq<char>>, prefix: Seq<char>) -> Seq<Seq<char>>
    decreases paths.len(),
{
    if paths.len() == 0 {
        Seq::empty()
    } else if prefix.is_prefix_of(paths.last()) {
        under(paths.drop_last(), prefix).push(paths.last())
    } else {
        under(paths.drop_last(), prefix)
    }
}

/// The locations of the first block with the given id.
pub open spec fn locations_in(blocks: Seq<BlockView>, id: Seq<char>) -> Option<Seq<Seq<char>>>
    decreases blocks.len(),
{
    if blocks.len() == 0 {
        None
    } else {
        match locations_in(blocks.drop_last(), id) {
            Some(l) => Some(l),
            None => if blocks.last().block_id == id {
                Some(blocks.last().locations)
            } else {
                None
            },
        }
    }
}

/// The locations of the first block of any of the files with the given id.
pub open spec fn locations_of(
    files: Map<Seq<char>, FileView>,
    paths: Seq<Seq<char>>,
    id: Seq<char>,
) -> Option<Seq<Seq<char>>>
    decreases paths.len(),
{
    if paths.len() == 0 {
        None
    } else {
        match locations_of(files, paths.drop_last(), id) {
            Some(l) => Some(l),
            None => locations_in(files[paths.last()].blocks, id),
        }
    }
}

fn find_locations(blocks: &Vec<BlockInfo>, id: &str) -> (r: Option<Vec<String>>)
    ensures
        r.deep_view() == locations_in(blocks.deep_view(), id@),
{
    let ghost bs = blocks.deep_view();
    let mut r: Option<Vec<String>> = None;
    let mut i: usize = 0;
    assert(bs.take(0) =~= Seq::<BlockView>::empty());
    while i < blocks.len()
        invariant
            i <= blocks@.len(),
            bs == blocks.deep_view(),
            r.deep_view() == locations_in(bs.take(i as int), id@),
        decreases blocks@.len() - i,
    {
        proof {
            assert(bs.take(i as int + 1).drop_last() =~= bs.take(i as int));
            assert(bs.take(i as int + 1).last() == bs[i as int]);
            assert(bs[i as int] == blocks@[i as int]@);
        }
        if r.is_none() && text_eq(blocks[i].block_id.as_str(), id) {
            r = Some(blocks[i].locations.dup());
        }
        i += 1;
    }
    assert(bs.take(bs.len() as int) =~= bs);
    r
}

/// A chunk server as it registers.
pub open spec fn new_server(now: u64, capacity: u64, rack_id: Seq<char>) -> StatusView {
    StatusView {
        last_heartbeat: now,
        used_space: 0,
        available_space: capacity,
        chunk_count: 0,
        rack_id,
    }
}

impl MasterState {
    /// The paths under a prefix.
    pub fn list_files(&self, prefix: &str) -> (r: Vec<String>)
        ensures
            r.deep_view() == under(self.files.key_seq(), prefix@),
    {
        let n: usize = self.files.len();
        let ghost ks = self.files.key_seq();
        let mut r: Vec<String> = Vec::new();
        let mut i: usize = 0;
        assert(ks.take(0) =~= Seq::<Seq<char>>::empty());
        assert(r.deep_view() =~= Seq::<Seq<char>>::empty());
        while i < n
            invariant
                i <= n,
                n == ks.len(),
                ks == self.files.key_seq(),
                r.deep_view() == under(ks.take(i as int), prefix@),
            decreases n - i,
        {
            let ghost rv = r.deep_view();
            proof {
                assert(ks.take(i as int + 1).drop_last() =~= ks.take(i as int));
                assert(ks.take(i as int + 1).last() == ks[i as int]);
            }
            let k = self.files.key_at(i);
            if starts_with(k.as_str(), prefix) {
                r.push(k.clone());
                assert(r.deep_view() =~= rv.push(ks[i as int]));
            }
            i += 1;
        }
        assert(ks.take(ks.len() as int) =~= ks);
        r
    }

    /// Where a block is, if any file has it.
    pub fn get_block_locations(&self, block_id: &str) -> (r: Option<Vec<String>>)
        ensures
            r.deep_view() == locations_of(self@.files, self.files.key_seq(), block_id@),
    {
        let n: usize = self.files.len();
        let ghost ks = self.files.key_seq();
        let ghost fs = self@.files;
        let mut r: Option<Vec<String>> = None;
        let mut i: usize = 0;
        assert(ks.take(0) =~= Seq::<Seq<char>>::empty());
        while i < n
            invariant
                i <= n,
                n == ks.len(),
                ks == self.files.key_seq(),
                fs == self.files@,
                r.deep_view() == locations_of(fs, ks.take(i as int), block_id@),
            decreases n - i,
        {
            proof {
                assert(ks.take(i as int + 1).drop_last() =~= ks.take(i as int));
                assert(ks.take(i as int + 1).last() == ks[i as int]);
            }
            if r.is_none() {
                r = find_locations(&self.files.val_at(i).blocks, block_id);
            }
            i += 1;
        }
        assert(ks.take(ks.len() as int) =~= ks);
        r
    }

    /// Registers a chunk server at time `now`.
    pub fn register_chunk_server(
        &mut self,
        address: String,
        capacity: u64,
        rack_id: String,
        now: u64,
    )
        ensures
            final(self)@ == (StateView {
                servers: old(self)@.servers.insert(
                    address@,
                    new_server(now, capacity, rack_id@),
                ),
                ..old(self)@
            }),
    {
        let ghost before = self@;
        self.chunk_servers.insert(
            address,
            ChunkServerStatus {
                last_heartbeat: now,
                used_space: 0,
                available_space: capacity,
                chunk_count: 0,
                rack_id,
            },
        );
        assert(self@ =~= (StateView {
            servers: before.servers.insert(address@, new_server(now, capacity, rack_id@)),
            ..before
        }));
    }
}

/// What a chunk server reports.
#[derive(Debug)]
pub struct HeartbeatRequest {
    pub chunk_server_address: String,
    pub used_space: u64,
    pub available_space: u64,
    pub chunk_count: u64,
    pub bad_blocks: Vec<String>,
    pub rack_id: String,
}

/// What a report stands for.
pub struct ReportView {
    pub addr: Seq<char>,
    pub used_space: u64,
    pub available_space: u64,
    pub chunk_count: u64,
    pub bad_blocks: Seq<Seq<char>>,
    pub rack_id: Seq<char>,
}

impl View for HeartbeatRequest {
    type V = ReportView;

    open spec fn view(&self) -> ReportView {
        ReportView {
            addr: self.chunk_server_address@,
            used_space: self.used_space,
            available_space: self.available_space,
            chunk_count: self.chunk_count,
            bad_blocks: self.bad_blocks.deep_view(),
            rack_id: self.rack_id@,
        }
    }
}

/// The known bad copies after `addr` reported more.
pub open spec fn with_bad(
    bad: Map<Seq<char>, Set<Seq<char>>>,
    blocks: Seq<Seq<char>>,
    addr: Seq<char>,
) -> Map<Seq<char>, Set<Seq<char>>>
    decreases blocks.len(),
{
    if blocks.len() == 0 {
        bad
    } else {
        let b = with_bad(bad, blocks.drop_last(), addr);
        let known = if b.contains_key(blocks.last()) {
            b[blocks.last()]
        } else {
            Set::empty()
        };
        b.insert(blocks.last(), known.insert(addr))
    }
}

impl StateView {
    /// The state with the report of a chunk server at time `now`. A server
    /// that does not tell its rack stays where it was.
    pub open spec fn with_report(self, r: ReportView, now: u64) -> StateView {
        let rack_id = if r.rack_id.len() > 0 {
            r.rack_id
        } else if self.servers.contains_key(r.addr) {
            self.servers[r.addr].rack_id
        } else {
            Seq::empty()
        };
        StateView {
            servers: self.servers.insert(
                r.addr,
                StatusView {
                    last_heartbeat: now,
                    used_space: r.used_space,
                    available_space: r.available_space,
                    chunk_count: r.chunk_count,
                    rack_id,
                },
            ),
            ..self
        }
    }

    /// The state after safe mode took note of a report: the blocks of a new
    /// server count, and safe mode may end.
    pub open spec fn noted(self, is_new: bool, chunk_count: u64, now: u64) -> StateView {
        let s = if self.safe_mode && is_new {
            self.with_reported(chunk_count as usize, now)
        } else {
            self
        };
        if s.may_leave(now) {
            s.released()
        } else {
            s
        }
    }
}

impl MasterState {
    /// The state after a report, before the waiting orders are handed out.
    pub open spec fn reported(&self, r: ReportView, now: u64) -> StateView {
        let known = self@.servers.contains_key(r.addr);
        let s = self@.with_report(r, now).noted(!known, r.chunk_count, now);
        let live = if known {
            self.chunk_servers.key_seq()
        } else {
            self.chunk_servers.key_seq().push(r.addr)
        };
        if r.bad_blocks.len() > 0 {
            let bad = with_bad(s.bad, r.bad_blocks, r.addr);
            StateView {
                bad,
                pending: with_orders(
                    s.pending,
                    repair_files(Cluster { live, bad }, s.files, self.files.key_seq()),
                ),
                ..s
            }
        } else {
            s
        }
    }

    /// Notes bad copies that a chunk server reported.
    fn note_bad(&mut self, blocks: &Vec<String>, addr: &str)
        ensures
            final(self)@ == (StateView {
                bad: with_bad(old(self)@.bad, blocks.deep_view(), addr@),
                ..old(self)@
            }),
            final(self).files == old(self).files,
            final(self).chunk_servers == old(self).chunk_servers,
    {
        let ghost before = self@;
        let ghost bs = blocks.deep_view();
        let mut i: usize = 0;
        assert(bs.take(0) =~= Seq::<Seq<char>>::empty());
        while i < blocks.len()
            invariant
                i <= blocks@.len(),
                bs == blocks.deep_view(),
                self@ == (StateView {
                    bad: with_bad(before.bad, bs.take(i as int), addr@),
                    ..before
                }),
                self.files == old(self).files,
                self.chunk_servers == old(self).chunk_servers,
            decreases blocks@.len() - i,
        {
            proof {
                assert(bs.take(i as int + 1).drop_last() =~= bs.take(i as int));
                assert(bs.take(i as int + 1).last() == bs[i as int]);
                assert(bs[i as int] == blocks@[i as int]@);
            }
            let mut known: StrSet = match self.bad_block_locations.get(blocks[i].as_str()) {
                Some(s) => s.dup(),
                None => StrSet::new(),
            };
            known.insert(addr.to_owned());
            self.bad_block_locations.insert(blocks[i].clone(), known);
            i += 1;
            assert(self@ =~= (StateView {
                bad: with_bad(before.bad, bs.take(i as int), addr@),
                ..before
            }));
        }
        assert(bs.take(bs.len() as int) =~= bs);
    }

    /// Takes in the report of a chunk server at time `now` and hands out the
    /// orders that wait for it.
    pub fn heartbeat(&mut self, req: HeartbeatRequest, now: u64) -> (commands: Vec<
        ChunkServerCommand,
    >)
        requires
            old(self).safe_mode && !old(self)@.servers.contains_key(req@.addr) ==> old(
                self).reported_block_count + req.chunk_count <= usize::MAX,
        ensures
            ({
                let s = old(self).reported(req@, now);
                let addr = req@.addr;
                &&& final(self)@ == (StateView { pending: s.pending.remove(addr), ..s })
                &&& commands.deep_view() == if s.pending.contains_key(addr) {
                    s.pending[addr]
                } else {
                    Seq::empty()
                }
            }),
    {
        let ghost s0 = self@;
        let ghost r = req@;
        let is_new = !self.chunk_servers.contains_key(req.chunk_server_address.as_str());
        let rack_id: String = if !req.rack_id.as_str().is_empty() {
            req.rack_id.clone()
        } else {
            match self.chunk_servers.get(req.chunk_server_address.as_str()) {
                Some(s) => s.rack_id.clone(),
                None => String::new(),
            }
        };
        proof {
            if r.rack_id.len() == 0 && is_new {
                assert(rack_id@ =~= Seq::<char>::empty());
            }
        }
        self.chunk_servers.insert(
            req.chunk_server_address.clone(),
            ChunkServerStatus {
                last_heartbeat: now,
                used_space: req.used_space,
                available_space: req.available_space,
                chunk_count: req.chunk_count,
                rack_id,
            },
        );
        let ghost s1 = self@;
        assert(s1 =~= s0.with_report(r, now));
        if self.is_in_safe_mode() && is_new {
            self.update_reported_blocks_at(req.chunk_count as usize, now);
        }
        if self.is_in_safe_mode() && self.should_exit_safe_mode_at(now) {
            self.exit_safe_mode();
        }
        let ghost s2 = self@;
        assert(s2 == s1.noted(is_new, r.chunk_count, now));
        if req.bad_blocks.len() > 0 {
            self.note_bad(&req.bad_blocks, req.chunk_server_address.as_str());
            self.repair();
        }
        let ghost s3 = self@;
        assert(s3 =~= old(self).reported(r, now));
        let commands = match self.pending_commands.remove(req.chunk_server_address.as_str()) {
            Some(c) => c,
            None => Vec::new(),
        };
        proof {
            assert(self@ =~= (StateView { pending: s3.pending.remove(r.addr), ..s3 }));
            if !s3.pending.contains_key(r.addr) {
                assert(commands.deep_view() =~= Seq::<OrderView>::empty());
            }
        }
        commands
    }
}

} // verus!
