//! A Raft consensus server: the replicated log, the RPC messages that the
//! servers exchange, and the rules by which a server answers them, each with
//! a contract that Verus proves.

pub mod raft_server;
