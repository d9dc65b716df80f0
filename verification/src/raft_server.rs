pub mod log_entry;
pub mod rpc;
pub mod server;
