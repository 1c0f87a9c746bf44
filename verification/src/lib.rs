//! Content-addressed fragment storage and the server logic around it.
pub mod drop_record;
pub mod encoding;
pub mod error;
pub mod fragment_engine;
pub mod gc_event;
pub mod hash_file;
pub mod in_flight;
pub mod local;
pub mod maintenance;
pub mod many_writers;
pub mod plugins;
pub mod protocol;
pub mod quic;
pub mod sorting;
pub mod store;
pub mod types;
pub mod write;
pub mod write_tracker;
