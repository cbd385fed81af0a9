//! Nodes of a cluster, and where their messages are sent.

use crate::master::types::FileMetadata;
use crate::text::concat3;
use vstd::prelude::*;
use vstd::string::*;

verus! {

/// A node that can be reached.
#[derive(Debug, Clone, Default)]
pub struct Node {
    pub addr: String,
}

/// A request to the cluster.
#[derive(Debug, Clone)]
pub enum Request {
    CreateFile { path: String },
    AllocateBlock { path: String, block_id: String, locations: Vec<String> },
    RegisterChunkServer { address: String },
}

/// An answer of the cluster.
#[derive(Debug)]
pub enum Response {
    Done,
    FileAlreadyExists,
    FileNotFound,
    State(Option<FileMetadata>),
}

/// Makes connections to nodes.
#[derive(Debug)]
pub struct Network {}

/// A connection to a node.
#[derive(Debug)]
pub struct NetworkConnection {
    pub target_node: Node,
}

/// What is sent over a connection.
#[derive(Debug, Clone, Copy, PartialEq, Eq, Structural)]
pub enum Route {
    Append,
    InstallSnapshot,
    Vote,
}

impl Route {
    /// The path of the route.
    pub open spec fn path(self) -> Seq<char> {
        match self {
            Route::Append => "/raft/append"@,
            Route::InstallSnapshot => "/raft/install_snapshot"@,
            Route::Vote => "/raft/vote"@,
        }
    }
}

impl Network {
    /// A connection to the node.
    pub fn new_client(&mut self, node: &Node) -> (r: NetworkConnection)
        ensures
            *final(self) == *old(self),
            r.target_node.addr@ == node.addr@,
    {
        NetworkConnection { target_node: Node { addr: node.addr.clone() } }
    }
}

impl NetworkConnection {
    /// The address to which a message is sent.
    pub fn url(&self, route: Route) -> (r: String)
        ensures
            r@ == "http://"@ + self.target_node.addr@ + route.path(),
    {
        let path: &str = match route {
            Route::Append => "/raft/append",
            Route::InstallSnapshot => "/raft/install_snapshot",
            Route::Vote => "/raft/vote",
        };
        concat3("http://", self.target_node.addr.as_str(), path)
    }
}

/// What is sent to a peer.
#[derive(Debug, Clone, Copy, PartialEq, Eq, Structural)]
pub enum Call {
    Vote,
    Append,
    Snapshot,
    TimeoutNow,
}

impl Call {
    /// How often it is tried.
    pub open spec fn tries(self) -> int {
        match self {
            Call::Vote => 3,
            Call::Append => 2,
            Call::Snapshot => 3,
            Call::TimeoutNow => 1,
        }
    }

    /// The first pause, in milliseconds.
    pub open spec fn first_pause(self) -> int {
        match self {
            Call::Append => 20,
            _ => 50,
        }
    }
}

/// A pause that has doubled `n` times.
pub open spec fn doubled(pause: int, n: int) -> int
    decreases n,
{
    if n <= 0 {
        pause
    } else {
        2 * doubled(pause, n - 1)
    }
}

/// After how many milliseconds a call is tried again that has failed `failed`
/// times: at once where it has not failed yet, then after pauses that double;
/// nothing where it is given up.
pub fn retry_delay(call: Call, failed: u32) -> (r: Option<u64>)
    ensures
        match r {
            Some(ms) => failed < call.tries() && ms == if failed == 0 {
                0
            } else {
                doubled(call.first_pause(), failed - 1)
            },
            None => failed >= call.tries(),
        },
{
    let tries: u32 = match call {
        Call::Vote => 3,
        Call::Append => 2,
        Call::Snapshot => 3,
        Call::TimeoutNow => 1,
    };
    let pause: u64 = match call {
        Call::Append => 20,
        _ => 50,
    };
    proof {
        reveal_with_fuel(doubled, 3);
    }
    if failed >= tries {
        None
    } else if failed == 0 {
        Some(0)
    } else if failed == 1 {
        Some(pause)
    } else {
        Some(2 * pause)
    }
}

} // verus!
