//! What a server needs to know of the services that it offers.
use vstd::prelude::*;

verus! {

/// Stands in a request's span where there is no connection.
pub const NO_CONNECTION_ID: &'static str = "<no_connection_id>";

/// Stands in a request's span where there is no repository.
pub const NO_REPOSITORY_ID: &'static str = "<no_repository_id>";

/// Stands in a request's span where there is no correlation.
pub const NO_CORRELATION_ID: &'static str = "<no_correlation_id>";

/// Stands in a request's span where there is no user.
pub const NO_USER_ID: &'static str = "<no_user_id>";

/// Knows which protocols a server offers, and what handles the streams of each.
pub trait StreamHandlerFactory {
    /// What makes the handler of a connection.
    type Builder;

    /// The names of all protocols that are offered.
    fn supported_protocols(&self) -> Vec<String>;

    /// The name of the service for a protocol, and what makes its handlers; nothing where the
    /// protocol is not offered.
    fn get_stream_handler_builder(&self, protocol: &str) -> Option<(&'static str, &Self::Builder)>;

    /// The name of the factory. One that gives itself none is unknown.
    fn name(&self) -> (r: &'static str)
        default_ensures
            r@ == "Unknown StreamHandlerFactory"@,
    {
        "Unknown StreamHandlerFactory"
    }
}

/// How the error of a service is shown to its client, and how it is observed.
pub struct ProtocolErrorInfo {
    /// The status to send back.
    pub response_error_code: u32,
    /// Under which label the error is recorded.
    pub message_handle_label: &'static str,
    /// Whether the error is the server's own.
    pub is_internal_error: bool,
    /// Whether the error is worth a line in the server's log.
    pub is_appropriate_for_logging: bool,
}

} // verus!
