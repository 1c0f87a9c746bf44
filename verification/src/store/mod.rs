//! Stores on other servers.
pub mod grpc_replica;
pub mod replica;
