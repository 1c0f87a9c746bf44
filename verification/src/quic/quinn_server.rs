//! The decisions of a QUIC server.
use vstd::prelude::*;
use vstd::utf8::{decode_utf8, valid_utf8};

verus! {

/// What a server is set up with.
#[derive(Clone, Copy, Debug, PartialEq, Eq, Structural)]
pub struct QuinnConfig {
    /// The bandwidth to plan for, in bits per second.
    pub transport_bits_per_second: u64,
    /// The round trip to plan for, in milliseconds.
    pub transport_rtt: u64,
    /// How many tasks accept connections.
    pub num_listeners: usize,
    /// How many streams a client may have open.
    pub max_bidi_streams: u64,
}

/// The buffers of a connection, in bytes.
#[derive(Clone, Copy, Debug, PartialEq, Eq, Structural)]
pub struct TransportWindows {
    pub stream_receive: u32,
    pub receive: u32,
    pub send: u64,
}

/// A server that was set up.
#[derive(Clone, Copy, Debug, PartialEq, Eq, Structural)]
pub struct QuinnServer {
    pub windows: TransportWindows,
    pub num_listeners: usize,
}

/// What fits the bandwidth for the time of a round trip.
pub open spec fn receive_window(bits_per_second: int, rtt: int) -> int {
    (bits_per_second / 8 / 1000) * rtt
}

/// The windows of a connection: one stream gets a quarter of what the connection receives.
pub open spec fn windows_for(bits_per_second: int, rtt: int) -> TransportWindows {
    let window = receive_window(bits_per_second, rtt);
    TransportWindows {
        stream_receive: ((window % 0x1_0000_0000) / 4) as u32,
        receive: (window % 0x1_0000_0000) as u32,
        send: window as u64,
    }
}

/// Why a server could not be set up.
#[derive(Clone, Copy, Debug, PartialEq, Eq, Structural)]
pub enum StartError {
    /// More streams were asked for than can be counted on the wire.
    TooManyStreams,
}

/// The least number that cannot be sent as a variable-length integer.
pub const VARINT_END: u64 = 0x4000_0000_0000_0000;

impl QuinnServer {
    /// Sets a server up: buffers for what arrives within a round trip. The size of the buffer is set
    /// with 32 bits, of which the low ones count. A stream can use at most a quarter of what that
    /// gives.
    pub fn start(settings: &QuinnConfig) -> (r: Result<QuinnServer, StartError>)
        requires
            receive_window(
                settings.transport_bits_per_second as int,
                settings.transport_rtt as int,
            ) <= u64::MAX,
        ensures
            ({
                let window = receive_window(
                    settings.transport_bits_per_second as int,
                    settings.transport_rtt as int,
                );
                r == if settings.max_bidi_streams >= 0x4000_0000_0000_0000 {
                    Err::<QuinnServer, StartError>(StartError::TooManyStreams)
                } else {
                    Ok(
                        QuinnServer {
                            windows: TransportWindows {
                                stream_receive: ((window % 0x1_0000_0000) / 4) as u32,
                                receive: (window % 0x1_0000_0000) as u32,
                                send: window as u64,
                            },
                            num_listeners: settings.num_listeners,
                        },
                    )
                }
            }),
            r is Ok ==> r->Ok_0.windows == windows_for(
                settings.transport_bits_per_second as int,
                settings.transport_rtt as int,
            ),
    {
        if settings.max_bidi_streams >= VARINT_END {
            return Err(StartError::TooManyStreams);
        }
        let bandwidth: u64 = settings.transport_bits_per_second / 8;
        let window: u64 = (bandwidth / 1000) * settings.transport_rtt;
        let receive: u32 = (window % 0x1_0000_0000) as u32;
        Ok(
            QuinnServer {
                windows: TransportWindows {
                    stream_receive: receive / 4,
                    receive,
                    send: window,
                },
                num_listeners: settings.num_listeners,
            },
        )
    }
}

/// Why a connection has no usable protocol.
#[derive(Clone, Copy, Debug, PartialEq, Eq, Structural)]
pub enum ProtocolLookupError {
    /// The handshake left nothing behind.
    NoHandshakeData,
    /// The name of the protocol is no text.
    NotText,
    /// No protocol was agreed on.
    NoProtocol,
    /// The protocol is not offered.
    Unsupported,
}

/// `String::from_utf8`: the text that some bytes encode, where they encode one.
#[verifier::external_body]
fn decode_text(bytes: Vec<u8>) -> (r: Option<String>)
    ensures
        r is Some <==> valid_utf8(bytes@),
        r is Some ==> r->0@ == decode_utf8(bytes@),
{
    String::from_utf8(bytes).ok()
}

/// The name of the protocol that a handshake agreed on. The outer option is the handshake, the inner
/// one the protocol.
pub fn get_protocol(handshake: Option<Option<Vec<u8>>>) -> (r: Result<String, ProtocolLookupError>)
    ensures
        match handshake {
            None => r is Err && r->Err_0 == ProtocolLookupError::NoHandshakeData,
            Some(None) => r is Err && r->Err_0 == ProtocolLookupError::NoProtocol,
            Some(Some(bytes)) => if valid_utf8(bytes@) {
                r is Ok && r->Ok_0@ == decode_utf8(bytes@)
            } else {
                r is Err && r->Err_0 == ProtocolLookupError::NotText
            },
        },
{
    match handshake {
        None => Err(ProtocolLookupError::NoHandshakeData),
        Some(None) => Err(ProtocolLookupError::NoProtocol),
        Some(Some(bytes)) => match decode_text(bytes) {
            Some(text) => Ok(text),
            None => Err(ProtocolLookupError::NotText),
        },
    }
}

/// What a connection does next.
#[derive(Clone, Copy, Debug, PartialEq, Eq, Structural)]
pub enum ConnectionAction {
    /// Make the one handler of the connection, and accept streams.
    Accept,
    /// Handle the stream in a task of its own, and accept the next.
    Handle,
    /// End: the client has closed the connection.
    Close,
    /// End with an error.
    Fail,
}

/// What happened on a connection.
#[derive(Clone, Copy, Debug, PartialEq, Eq, Structural)]
pub enum ConnectionEvent {
    /// The service of its protocol was looked for, and is offered or not.
    ServiceLookup(bool),
    /// A stream was opened.
    StreamOpened,
    /// The client closed the connection.
    ClosedByPeer,
    /// The connection was lost.
    Lost,
}

/// What a connection does after an event.
pub open spec fn connection_on(event: ConnectionEvent) -> ConnectionAction {
    if event is StreamOpened {
        ConnectionAction::Handle
    } else if event is ClosedByPeer {
        ConnectionAction::Close
    } else if event == ConnectionEvent::ServiceLookup(true) {
        ConnectionAction::Accept
    } else {
        ConnectionAction::Fail
    }
}

/// What a connection does after an event.
pub fn handle_conn(event: ConnectionEvent) -> (r: ConnectionAction)
    ensures
        r == match event {
            ConnectionEvent::ServiceLookup(offered) => if offered {
                ConnectionAction::Accept
            } else {
                ConnectionAction::Fail
            },
            ConnectionEvent::StreamOpened => ConnectionAction::Handle,
            ConnectionEvent::ClosedByPeer => ConnectionAction::Close,
            ConnectionEvent::Lost => ConnectionAction::Fail,
        },
        r == connection_on(event),
{
    match event {
        ConnectionEvent::ServiceLookup(offered) => if offered {
            ConnectionAction::Accept
        } else {
            ConnectionAction::Fail
        },
        ConnectionEvent::StreamOpened => ConnectionAction::Handle,
        ConnectionEvent::ClosedByPeer => ConnectionAction::Close,
        ConnectionEvent::Lost => ConnectionAction::Fail,
    }
}

/// The code that a stream is closed with after it was handled: none where that went well.
pub fn close_code(handled: bool) -> (r: Option<u32>)
    ensures
        r == if handled {
            None
        } else {
            Some(u32::MAX)
        },
{
    if handled {
        None
    } else {
        Some(u32::MAX)
    }
}

/// One stream never gets more than a quarter of a connection's buffer, as long as the buffer fits 32
/// bits.
pub proof fn law_streams_share_the_buffer(bits_per_second: u64, rtt: u64)
    requires
        receive_window(bits_per_second as int, rtt as int) <= u32::MAX,
    ensures
        4 * ((receive_window(bits_per_second as int, rtt as int) / 4) % 0x1_0000_0000)
            <= receive_window(bits_per_second as int, rtt as int) % 0x1_0000_0000,
{
    let w = receive_window(bits_per_second as int, rtt as int);
    assert(w >= 0) by (nonlinear_arith)
        requires
            w == (bits_per_second as int / 8 / 1000) * rtt as int,
            bits_per_second >= 0,
            rtt >= 0,
    ;
}

/// The buffer of a connection holds what arrives in one round trip: no more than the bandwidth gives,
/// and less than that by no more than a rounding of the bytes of each millisecond.
pub proof fn law_buffer_holds_a_round_trip(bits_per_second: u64, rtt: u64)
    ensures
        8000 * receive_window(bits_per_second as int, rtt as int) <= bits_per_second * rtt,
        bits_per_second * rtt <= 8000 * (receive_window(bits_per_second as int, rtt as int) + rtt),
{
    let b = bits_per_second as int;
    let r = rtt as int;
    let bytes = b / 8 / 1000;
    let w = receive_window(b, r);
    assert(8000 * bytes <= b < 8000 * bytes + 8000);
    assert(8000 * w <= b * r <= 8000 * (w + r)) by (nonlinear_arith)
        requires
            w == bytes * r,
            8000 * bytes <= b < 8000 * bytes + 8000,
            r >= 0,
    ;
}

/// Where the buffer fits 32 bits, a connection sends and receives through all of it, and one stream
/// through a quarter, rounded down.
pub proof fn law_windows_follow_the_buffer(bits_per_second: u64, rtt: u64)
    requires
        receive_window(bits_per_second as int, rtt as int) <= u32::MAX,
    ensures
        ({
            let windows = windows_for(bits_per_second as int, rtt as int);
            let buffer = receive_window(bits_per_second as int, rtt as int);
            &&& windows.receive == buffer
            &&& windows.send == buffer
            &&& 4 * windows.stream_receive <= buffer < 4 * windows.stream_receive + 4
        }),
{
    let w = receive_window(bits_per_second as int, rtt as int);
    assert(w >= 0) by (nonlinear_arith)
        requires
            w == (bits_per_second as int / 8 / 1000) * rtt as int,
            bits_per_second >= 0,
            rtt >= 0,
    ;
}

/// A connection accepts streams exactly if its service is offered, and handles every stream that is
/// opened. It ends well only if the client closed it.
pub proof fn law_connections_serve_every_stream(event: ConnectionEvent, offered: bool)
    ensures
        connection_on(ConnectionEvent::ServiceLookup(offered)) is Accept <==> offered,
        connection_on(ConnectionEvent::ServiceLookup(offered)) is Fail <==> !offered,
        connection_on(event) is Handle <==> event is StreamOpened,
        connection_on(event) is Close <==> event is ClosedByPeer,
        connection_on(ConnectionEvent::Lost) is Fail,
{
}

} // verus!
