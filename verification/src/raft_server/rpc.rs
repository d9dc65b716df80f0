use vstd::prelude::*;

use crate::raft_server::log_entry::LogEntry;

verus! {

/// The identifier of a server: its rank among the processes of the cluster.
pub type Rank = i32;

/// Marks a message as a request.
#[derive(Debug, Clone, Copy, PartialEq, Eq, Structural)]
pub struct Request;

/// Marks a message as a response.
#[derive(Debug, Clone, Copy, PartialEq, Eq, Structural)]
pub struct Response;

/// The two remote procedures of Raft.
#[derive(Debug, Clone, Copy, PartialEq, Eq, Structural)]
pub enum RPCType {
    AppendEntries,
    RequestVote,
}

/// The arguments of a RequestVote call: a candidate asks for a vote.
#[derive(Debug, Clone, Copy, PartialEq, Eq, Structural)]
pub struct RequestVoteParameters {
    pub term: u64,
    pub candidate_id: Rank,
    pub last_log_index: usize,
    pub last_log_term: u64,
}

/// The arguments of an AppendEntries call: the leader replicates its log
/// from raft index `prev_log_index + 1` on.
#[derive(Debug, Clone)]
pub struct AppendEntriesParameters {
    pub term: u64,
    pub leader_id: Rank,
    pub prev_log_index: usize,
    pub prev_log_term: u64,
    pub entries: Vec<LogEntry>,
    pub leader_commit: usize,
}

/// A request: its kind and the arguments of that kind.
#[derive(Debug, Clone)]
pub struct RPCMessage {
    pub message: Request,
    pub rtype: RPCType,
    pub rv_params: Option<RequestVoteParameters>,
    pub ae_params: Option<AppendEntriesParameters>,
}

/// The answer to a request, with the arguments of the request it answers.
#[derive(Debug, Clone)]
pub struct RPCResponseParameters {
    pub term: u64,
    pub success: bool,
    pub rv_params: Option<RequestVoteParameters>,
    pub ae_params: Option<AppendEntriesParameters>,
}

/// A response and the server it goes to.
#[derive(Debug, Clone)]
pub struct RPCResponse {
    pub response: Response,
    pub rtype: RPCType,
    pub params: RPCResponseParameters,
    pub to: Rank,
}

} // verus!
