[package]
name = "ds_raft"
version = "0.1.0"
edition = "2021"
publish = false

[dependencies]
log = "0.4"
mpi = "0.5"
rand = "0.7"
serde = { version = "1", features = ["derive"] }
serde_json = "1"
simplelog = "0.10"
threadpool = "1.8"
