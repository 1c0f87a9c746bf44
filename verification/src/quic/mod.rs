//! Serving and using stores over QUIC.
pub mod client_container;
pub mod quinn_server;
pub mod service;
