//! Renaming files, within a shard and across shards by two-phase commit.

use crate::clock::now_millis;
use crate::ids::{is_uuid, new_id};
use crate::master::service::{
    accept, accepted, answer, answer_of, plan_view, propose, refuse, refused, result_view, Answer,
    AnswerView, Failure, Outcome, OutcomeView, Plan, PlanView, Route, RouteView, Status,
    check_shard_ownership,
};
use crate::master::state::{MasterState, StateView};
use crate::master::transaction::{
    rename_record, TransactionRecord, TransactionType, TxOpType, TxOpTypeView, TxOpView,
    TxOperation, TxState, TxTypeView, TxView,
};
use crate::master::types::{FileMetadata, FileView};
use crate::raft::command::{Command, CommandView, MasterCommand, MasterCommandView};
use crate::strmap::Dup;
use crate::text::{concat, starts_with, text_eq};
use vstd::prelude::*;

verus! {

/// A rename that moves a file to another shard.
#[derive(Debug)]
pub struct CrossRename {
    pub tx_id: String,
    pub source_path: String,
    pub dest_path: String,
    pub source_shard: String,
    pub dest_shard: String,
    /// Metadata of the source file under its new path
    pub dest_metadata: FileMetadata,
    /// Servers of the destination shard
    pub dest_peers: Vec<String>,
}

/// What a rename across shards stands for.
#[verifier::ext_equal]
pub struct CrossView {
    pub tx_id: Seq<char>,
    pub source_path: Seq<char>,
    pub dest_path: Seq<char>,
    pub source_shard: Seq<char>,
    pub dest_shard: Seq<char>,
    pub dest_metadata: FileView,
    pub dest_peers: Seq<Seq<char>>,
}

impl View for CrossRename {
    type V = CrossView;

    open spec fn view(&self) -> CrossView {
        CrossView {
            tx_id: self.tx_id@,
            source_path: self.source_path@,
            dest_path: self.dest_path@,
            source_shard: self.source_shard@,
            dest_shard: self.dest_shard@,
            dest_metadata: self.dest_metadata@,
            dest_peers: self.dest_peers.deep_view(),
        }
    }
}

impl CrossView {
    /// The command that records the transaction.
    pub open spec fn record(self, now: u64) -> MasterCommandView {
        MasterCommandView::CreateTransactionRecord {
            record: rename_record(
                self.tx_id,
                self.source_path,
                self.dest_path,
                self.source_shard,
                self.dest_shard,
                self.dest_metadata,
                now,
            ),
        }
    }

    /// The command that moves the transaction to a state.
    pub open spec fn mark(self, state: TxState) -> MasterCommandView {
        MasterCommandView::UpdateTransactionState { tx_id: self.tx_id, new_state: state }
    }

    /// The command that removes the source file.
    pub open spec fn delete_source(self) -> MasterCommandView {
        MasterCommandView::ApplyTransactionOperation {
            tx_id: self.tx_id,
            operation: TxOpView {
                shard_id: self.source_shard,
                op_type: TxOpTypeView::Delete { path: self.source_path },
            },
        }
    }
}

/// How a rename begins.
#[derive(Debug)]
pub enum RenamePlan {
    /// It is refused
    Reply(Answer),
    /// Both paths are in this shard: one command does it
    Local(Command),
    /// The destination is in another shard: the transaction is recorded first
    Cross { rename: CrossRename, command: Command },
}

/// What the beginning of a rename stands for.
pub enum RenamePlanView {
    Reply(AnswerView),
    Local(CommandView),
    Cross { rename: CrossView, command: CommandView },
}

impl View for RenamePlan {
    type V = RenamePlanView;

    open spec fn view(&self) -> RenamePlanView {
        match self {
            RenamePlan::Reply(a) => RenamePlanView::Reply(a@),
            RenamePlan::Local(c) => RenamePlanView::Local(c@),
            RenamePlan::Cross { rename, command } => RenamePlanView::Cross {
                rename: rename@,
                command: command@,
            },
        }
    }
}

/// The views of the beginning of a rename.
pub open spec fn rename_view(r: Result<RenamePlan, Status>) -> Result<RenamePlanView, Failure> {
    match r {
        Ok(p) => Ok(p@),
        Err(e) => Err(e@),
    }
}

/// The shard of a route; this shard where there is none.
pub open spec fn shard_or(route: RouteView, own: Seq<char>) -> Seq<char> {
    match route.shard {
        Some(s) => s,
        None => own,
    }
}

/// The peers of a route, if any are known.
pub open spec fn peers_or_none(route: RouteView) -> Seq<Seq<char>> {
    match route.peers {
        Some(p) => p,
        None => Seq::empty(),
    }
}

impl StateView {
    /// How a rename begins.
    pub open spec fn rename_plan(
        self,
        own: Seq<char>,
        source: RouteView,
        dest: RouteView,
        source_path: Seq<char>,
        dest_path: Seq<char>,
        tx_id: Seq<char>,
        now: u64,
    ) -> Result<RenamePlanView, Failure> {
        match self.write_failure(own, source) {
            Some(e) => Err(e),
            None => if !self.files.contains_key(source_path) {
                Ok(RenamePlanView::Reply(refused("Source file not found: "@ + source_path)))
            } else if shard_or(source, own) == shard_or(dest, own) {
                Ok(
                    RenamePlanView::Local(
                        CommandView::Master(
                            MasterCommandView::RenameFile { source_path, dest_path },
                        ),
                    ),
                )
            } else {
                let rename = CrossView {
                    tx_id,
                    source_path,
                    dest_path,
                    source_shard: shard_or(source, own),
                    dest_shard: shard_or(dest, own),
                    dest_metadata: FileView { path: dest_path, ..self.files[source_path] },
                    dest_peers: peers_or_none(dest),
                };
                Ok(
                    RenamePlanView::Cross {
                        rename,
                        command: CommandView::Master(rename.record(now)),
                    },
                )
            },
        }
    }
}

fn pick_shard(route: &Route, own: &str) -> (r: String)
    ensures
        r@ == shard_or(route@, own@),
{
    match &route.shard {
        Some(s) => s.clone(),
        None => own.to_owned(),
    }
}

impl MasterState {
    /// Begins a rename at time `now` that gets the transaction id `tx_id` if
    /// it needs one.
    pub fn rename_as(
        &self,
        own: &str,
        source: &Route,
        dest: &Route,
        source_path: String,
        dest_path: String,
        tx_id: String,
        now: u64,
    ) -> (r: Result<RenamePlan, Status>)
        ensures
            rename_view(r) == self@.rename_plan(
                own@,
                source@,
                dest@,
                source_path@,
                dest_path@,
                tx_id@,
                now,
            ),
    {
        if let Err(e) = self.check_write(own, source) {
            return Err(e);
        }
        let found = self.get_file_info(source_path.as_str());
        let metadata = match found {
            Some(m) => m,
            None => {
                return Ok(
                    RenamePlan::Reply(
                        refuse(concat("Source file not found: ", source_path.as_str())),
                    ),
                );
            },
        };
        let source_shard = pick_shard(source, own);
        let dest_shard = pick_shard(dest, own);
        if text_eq(source_shard.as_str(), dest_shard.as_str()) {
            return Ok(
                RenamePlan::Local(
                    Command::Master(MasterCommand::RenameFile { source_path, dest_path }),
                ),
            );
        }
        let dest_peers: Vec<String> = match &dest.peers {
            Some(p) => p.dup(),
            None => Vec::new(),
        };
        proof {
            if dest.peers is None {
                assert(dest_peers.deep_view() =~= Seq::<Seq<char>>::empty());
            }
        }
        let mut dest_metadata = metadata;
        dest_metadata.path = dest_path.clone();
        let record = TransactionRecord::new_rename_at(
            tx_id.clone(),
            source_path.clone(),
            dest_path.clone(),
            source_shard.clone(),
            dest_shard.clone(),
            dest_metadata.dup(),
            now,
        );
        let rename = CrossRename {
            tx_id,
            source_path,
            dest_path,
            source_shard,
            dest_shard,
            dest_metadata,
            dest_peers,
        };
        Ok(
            RenamePlan::Cross {
                rename,
                command: Command::Master(MasterCommand::CreateTransactionRecord { record }),
            },
        )
    }

    /// Begins a rename now, under a transaction id of its own.
    pub fn rename(
        &self,
        own: &str,
        source: &Route,
        dest: &Route,
        source_path: String,
        dest_path: String,
    ) -> (r: Result<RenamePlan, Status>)
        ensures
            exists|tx_id: Seq<char>, now: u64|
                is_uuid(tx_id) && rename_view(r) == #[trigger] self@.rename_plan(
                    own@,
                    source@,
                    dest@,
                    source_path@,
                    dest_path@,
                    tx_id,
                    now,
                ),
    {
        let tx_id = new_id();
        let now: u64 = now_millis();
        self.rename_as(own, source, dest, source_path, dest_path, tx_id, now)
    }
}

/// How far a rename across shards has come: what it waits for.
#[derive(Debug, Clone, Copy, PartialEq, Eq, Structural)]
pub enum RenamePhase {
    /// The record of the transaction
    Recording,
    /// The destination shard
    Preparing,
    /// The record that the destination is prepared
    MarkingPrepared,
    /// The removal of the source file
    Deleting,
    /// The record that the transaction is committed
    MarkingCommitted,
    /// The commit on the destination shard
    Notifying,
    /// The record that the transaction is aborted
    MarkingAborted,
    /// Nothing more
    Finished,
}

/// What happened to a rename across shards.
#[derive(Debug)]
pub enum RenameEvent {
    /// The fate of the proposal
    Proposal(Outcome),
    /// Whether the destination shard is prepared
    Prepared { ok: bool },
    /// The destination shard was told to commit
    Notified,
}

/// What an event stands for.
pub enum RenameEventView {
    Proposal(OutcomeView),
    Prepared { ok: bool },
    Notified,
}

impl View for RenameEvent {
    type V = RenameEventView;

    open spec fn view(&self) -> RenameEventView {
        match self {
            RenameEvent::Proposal(o) => RenameEventView::Proposal(o@),
            RenameEvent::Prepared { ok } => RenameEventView::Prepared { ok: *ok },
            RenameEvent::Notified => RenameEventView::Notified,
        }
    }
}

/// What a rename across shards does next.
#[derive(Debug)]
pub enum RenameStep {
    /// Propose a command
    Propose(MasterCommand),
    /// Ask the destination shard to prepare
    Prepare,
    /// Tell the destination shard to commit
    Commit,
    /// Answer the request
    Reply(Result<Answer, Status>),
}

/// What a step stands for.
pub enum RenameStepView {
    Propose(MasterCommandView),
    Prepare,
    Commit,
    Reply(Result<AnswerView, Failure>),
}

impl View for RenameStep {
    type V = RenameStepView;

    open spec fn view(&self) -> RenameStepView {
        match self {
            RenameStep::Propose(c) => RenameStepView::Propose(c@),
            RenameStep::Prepare => RenameStepView::Prepare,
            RenameStep::Commit => RenameStepView::Commit,
            RenameStep::Reply(r) => RenameStepView::Reply(result_view(*r)),
        }
    }
}

/// The event is what the phase waits for.
pub open spec fn awaited(phase: RenamePhase, event: RenameEventView) -> bool {
    match phase {
        RenamePhase::Preparing => event is Prepared,
        RenamePhase::Notifying => event is Notified,
        RenamePhase::Finished => false,
        _ => event is Proposal,
    }
}

impl CrossView {
    /// The next phase and step. Only the first proposal can fail the rename;
    /// after the destination shard has spoken, the decision stands.
    pub open spec fn next(self, phase: RenamePhase, event: RenameEventView) -> (
        RenamePhase,
        RenameStepView,
    ) {
        match (phase, event) {
            (RenamePhase::Recording, RenameEventView::Proposal(o)) => match o {
                OutcomeView::Done => (RenamePhase::Preparing, RenameStepView::Prepare),
                _ => (
                    RenamePhase::Finished,
                    RenameStepView::Reply(answer_of(o, "Raft response error"@)),
                ),
            },
            (RenamePhase::Preparing, RenameEventView::Prepared { ok }) => if ok {
                (
                    RenamePhase::MarkingPrepared,
                    RenameStepView::Propose(self.mark(TxState::Prepared)),
                )
            } else {
                (
                    RenamePhase::MarkingAborted,
                    RenameStepView::Propose(self.mark(TxState::Aborted)),
                )
            },
            (RenamePhase::MarkingPrepared, _) => (
                RenamePhase::Deleting,
                RenameStepView::Propose(self.delete_source()),
            ),
            (RenamePhase::Deleting, _) => (
                RenamePhase::MarkingCommitted,
                RenameStepView::Propose(self.mark(TxState::Committed)),
            ),
            (RenamePhase::MarkingCommitted, _) => (RenamePhase::Notifying, RenameStepView::Commit),
            (RenamePhase::Notifying, _) => (
                RenamePhase::Finished,
                RenameStepView::Reply(Ok(accepted())),
            ),
            _ => (
                RenamePhase::Finished,
                RenameStepView::Reply(Ok(refused("Cross-shard prepare failed"@))),
            ),
        }
    }
}

impl CrossRename {
    fn mark(&self, state: TxState) -> (r: MasterCommand)
        ensures
            r@ == self@.mark(state),
    {
        MasterCommand::UpdateTransactionState { tx_id: self.tx_id.clone(), new_state: state }
    }

    /// Goes on with a rename after what it waited for has happened.
    pub fn next(&self, phase: RenamePhase, event: RenameEvent) -> (r: (RenamePhase, RenameStep))
        requires
            awaited(phase, event@),
        ensures
            (r.0, r.1@) == self@.next(phase, event@),
    {
        match phase {
            RenamePhase::Recording => match event {
                RenameEvent::Proposal(o) => match o {
                    Outcome::Done => (RenamePhase::Preparing, RenameStep::Prepare),
                    other => (
                        RenamePhase::Finished,
                        RenameStep::Reply(answer(other, "Raft response error")),
                    ),
                },
                _ => (RenamePhase::Finished, RenameStep::Reply(Ok(accept()))),
            },
            RenamePhase::Preparing => match event {
                RenameEvent::Prepared { ok } => if ok {
                    (
                        RenamePhase::MarkingPrepared,
                        RenameStep::Propose(self.mark(TxState::Prepared)),
                    )
                } else {
                    (
                        RenamePhase::MarkingAborted,
                        RenameStep::Propose(self.mark(TxState::Aborted)),
                    )
                },
                _ => (RenamePhase::Finished, RenameStep::Reply(Ok(accept()))),
            },
            RenamePhase::MarkingPrepared => (
                RenamePhase::Deleting,
                RenameStep::Propose(
                    MasterCommand::ApplyTransactionOperation {
                        tx_id: self.tx_id.clone(),
                        operation: TxOperation {
                            shard_id: self.source_shard.clone(),
                            op_type: TxOpType::Delete { path: self.source_path.clone() },
                        },
                    },
                ),
            ),
            RenamePhase::Deleting => (
                RenamePhase::MarkingCommitted,
                RenameStep::Propose(self.mark(TxState::Committed)),
            ),
            RenamePhase::MarkingCommitted => (RenamePhase::Notifying, RenameStep::Commit),
            RenamePhase::Notifying => (
                RenamePhase::Finished,
                RenameStep::Reply(Ok(accept())),
            ),
            RenamePhase::MarkingAborted => (
                RenamePhase::Finished,
                RenameStep::Reply(Ok(refuse("Cross-shard prepare failed".to_owned()))),
            ),
            RenamePhase::Finished => (
                RenamePhase::Finished,
                RenameStep::Reply(Ok(refuse("Cross-shard prepare failed".to_owned()))),
            ),
        }
    }
}

/// The record that a destination shard keeps of a rename: it is prepared to
/// create the file.
pub open spec fn prepared_record(
    tx_id: Seq<char>,
    path: Seq<char>,
    metadata: FileView,
    coordinator: Seq<char>,
    own: Seq<char>,
    now: u64,
) -> TxView {
    TxView {
        tx_id,
        tx_type: TxTypeView::Rename { source_path: Seq::empty(), dest_path: path },
        state: TxState::Prepared,
        timestamp: now,
        participants: seq![coordinator, own],
        operations: seq![
            TxOpView { shard_id: own, op_type: TxOpTypeView::Create { path, metadata } },
        ],
    }
}

/// Metadata that tells nothing.
pub open spec fn blank_file() -> FileView {
    FileView {
        path: Seq::empty(),
        size: 0,
        blocks: Seq::empty(),
        etag_md5: Seq::empty(),
        created_at_ms: 0,
        ec_data_shards: 0,
        ec_parity_shards: 0,
        last_access_ms: 0,
        access_count: 0,
        moved_to_cold_at_ms: 0,
    }
}

impl StateView {
    /// How a destination shard prepares a rename.
    pub open spec fn prepare_plan(
        self,
        own: Seq<char>,
        route: RouteView,
        tx_id: Seq<char>,
        path: Seq<char>,
        metadata: Option<FileView>,
        coordinator: Seq<char>,
        now: u64,
    ) -> Result<PlanView, Failure> {
        match route.foreign(own) {
            Some(e) => Err(e),
            None => if self.files.contains_key(path) {
                Ok(PlanView::Reply(refused("Destination file already exists: "@ + path)))
            } else {
                propose(
                    MasterCommandView::CreateTransactionRecord {
                        record: prepared_record(
                            tx_id,
                            path,
                            match metadata {
                                Some(m) => m,
                                None => blank_file(),
                            },
                            coordinator,
                            own,
                            now,
                        ),
                    },
                )
            },
        }
    }

    /// How a shard commits a transaction: its first operation is applied.
    pub open spec fn commit_plan(self, tx_id: Seq<char>) -> PlanView {
        if self.txs.contains_key(tx_id) && self.txs[tx_id].operations.len() > 0 {
            PlanView::Propose(
                CommandView::Master(
                    MasterCommandView::ApplyTransactionOperation {
                        tx_id,
                        operation: self.txs[tx_id].operations[0],
                    },
                ),
            )
        } else {
            PlanView::Reply(refused("Transaction not found: "@ + tx_id))
        }
    }
}

impl MasterState {
    /// Plans the preparation of a rename into this shard at time `now`.
    pub fn prepare_transaction_at(
        &self,
        own: &str,
        route: &Route,
        tx_id: String,
        path: String,
        metadata: Option<FileMetadata>,
        coordinator_shard: String,
        now: u64,
    ) -> (r: Result<Plan, Status>)
        ensures
            plan_view(r) == self@.prepare_plan(
                own@,
                route@,
                tx_id@,
                path@,
                metadata.deep_view(),
                coordinator_shard@,
                now,
            ),
    {
        if let Err(e) = check_shard_ownership(own, route) {
            return Err(e);
        }
        if self.files.contains_key(path.as_str()) {
            return Ok(
                Plan::Reply(
                    refuse(concat("Destination file already exists: ", path.as_str())),
                ),
            );
        }
        let m: FileMetadata = match metadata {
            Some(m) => m,
            None => {
                let b = FileMetadata {
                    path: String::new(),
                    size: 0,
                    blocks: Vec::new(),
                    etag_md5: String::new(),
                    created_at_ms: 0,
                    ec_data_shards: 0,
                    ec_parity_shards: 0,
                    last_access_ms: 0,
                    access_count: 0,
                    moved_to_cold_at_ms: 0,
                };
                assert(b@ =~= blank_file());
                b
            },
        };
        let ghost mv = m@;
        let participants = vec![coordinator_shard, own.to_owned()];
        let operations = vec![
            TxOperation {
                shard_id: own.to_owned(),
                op_type: TxOpType::Create { path: path.clone(), metadata: m },
            },
        ];
        let record = TransactionRecord {
            tx_id,
            tx_type: TransactionType::Rename { source_path: String::new(), dest_path: path },
            state: TxState::Prepared,
            timestamp: now,
            participants,
            operations,
        };
        proof {
            let want = prepared_record(tx_id@, path@, mv, coordinator_shard@, own@, now);
            assert(record@.participants =~= want.participants);
            assert(record@.operations =~= want.operations);
            assert(record@ =~= want);
        }
        Ok(Plan::Propose(Command::Master(MasterCommand::CreateTransactionRecord { record })))
    }

    /// Plans the preparation of a rename into this shard.
    pub fn prepare_transaction(
        &self,
        own: &str,
        route: &Route,
        tx_id: String,
        path: String,
        metadata: Option<FileMetadata>,
        coordinator_shard: String,
    ) -> (r: Result<Plan, Status>)
        ensures
            exists|now: u64|
                plan_view(r) == #[trigger] self@.prepare_plan(
                    own@,
                    route@,
                    tx_id@,
                    path@,
                    metadata.deep_view(),
                    coordinator_shard@,
                    now,
                ),
    {
        let now: u64 = now_millis();
        self.prepare_transaction_at(own, route, tx_id, path, metadata, coordinator_shard, now)
    }

    /// Plans the commit of a transaction in this shard.
    pub fn commit_transaction(&self, tx_id: &str) -> (r: Plan)
        ensures
            r@ == self@.commit_plan(tx_id@),
    {
        if let Some(record) = self.transaction_records.get(tx_id) {
            if record.operations.len() > 0 {
                assert(record@.operations[0] == record.operations@[0]@);
                return Plan::Propose(
                    Command::Master(
                        MasterCommand::ApplyTransactionOperation {
                            tx_id: tx_id.to_owned(),
                            operation: record.operations[0].dup(),
                        },
                    ),
                );
            }
        }
        Plan::Reply(refuse(concat("Transaction not found: ", tx_id)))
    }
}

/// How a commit goes on once its operation was proposed: the transaction is
/// marked as committed, or the request is answered.
pub fn commit_next(tx_id: &str, outcome: Outcome) -> (r: Result<Plan, Status>)
    ensures
        plan_view(r) == match outcome@ {
            OutcomeView::Done => propose(
                (MasterCommandView::UpdateTransactionState {
                    tx_id: tx_id@,
                    new_state: TxState::Committed,
                }),
            ),
            o => match answer_of(o, "Raft response error"@) {
                Ok(a) => Ok(PlanView::Reply(a)),
                Err(e) => Err(e),
            },
        },
{
    match outcome {
        Outcome::Done => Ok(
            Plan::Propose(
                Command::Master(
                    MasterCommand::UpdateTransactionState {
                        tx_id: tx_id.to_owned(),
                        new_state: TxState::Committed,
                    },
                ),
            ),
        ),
        other => match answer(other, "Raft response error") {
            Ok(a) => Ok(Plan::Reply(a)),
            Err(e) => Err(e),
        },
    }
}

/// The command that aborts a transaction.
pub fn abort_transaction(tx_id: String) -> (r: Command)
    ensures
        r@ == CommandView::Master(
            (MasterCommandView::UpdateTransactionState {
                tx_id: tx_id@,
                new_state: TxState::Aborted,
            }),
        ),
{
    Command::Master(
        MasterCommand::UpdateTransactionState { tx_id, new_state: TxState::Aborted },
    )
}

/// What a server of the destination shard said.
#[derive(Debug)]
pub enum PeerReply {
    /// It answered
    Answered(Answer),
    /// It could not be reached or failed
    Failed,
}

/// What the word of one server settles: success, or a refusal without a
/// pointer to the leader. Otherwise the next server is asked.
pub open spec fn verdict_of(r: PeerReply) -> Option<bool> {
    match r {
        PeerReply::Answered(a) => if a.success {
            Some(true)
        } else if a.leader_hint@.len() > 0 {
            None
        } else {
            Some(false)
        },
        PeerReply::Failed => None,
    }
}

/// What the word of one server settles.
pub fn peer_verdict(r: &PeerReply) -> (v: Option<bool>)
    ensures
        v == verdict_of(*r),
{
    match r {
        PeerReply::Answered(a) => if a.success {
            Some(true)
        } else if !a.leader_hint.as_str().is_empty() {
            None
        } else {
            Some(false)
        },
        PeerReply::Failed => None,
    }
}

/// An address with its scheme: the address as it is if it begins with
/// `known`, else with `http://` before it.
pub open spec fn url_of(addr: Seq<char>, known: Seq<char>) -> Seq<char> {
    if known.is_prefix_of(addr) {
        addr
    } else {
        "http://"@ + addr
    }
}

/// An address with its scheme.
pub fn to_url(addr: &str, known: &str) -> (r: String)
    ensures
        r@ == url_of(addr@, known@),
{
    if starts_with(addr, known) {
        addr.to_owned()
    } else {
        concat("http://", addr)
    }
}

} // verus!
