//! Plugins of the server.
pub mod registry;
