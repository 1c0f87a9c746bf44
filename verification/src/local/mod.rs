//! The store that keeps fragments on this machine.
pub mod bucket;
pub mod calls;
pub mod codec;
pub mod compact;
pub mod copy;
pub mod data;
pub mod entry_laws;
pub mod evict;
pub mod evict_order;
pub mod evict_sized;
pub mod exist_batch;
pub mod fan_out;
pub mod find;
pub mod flush;
pub mod gc;
pub mod group;
pub mod group_evict;
pub mod group_ops;
pub mod group_verify;
pub mod immutable_store;
pub mod marks;
pub mod obliterate;
pub mod obliterate_walk;
pub mod put;
pub mod put_laws;
pub mod queries;
pub mod read_laws;
pub mod reopen;
pub mod store;
pub mod upgrade;
pub mod verify;
pub mod verify_fragment;
pub mod whole;
