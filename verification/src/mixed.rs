//! One port for several protocols: the first byte of a connection tells which.

use vstd::prelude::*;

verus! {

/// Seconds to wait after the system had no resources for a connection.
pub const ACCEPT_ERROR_BACKOFF: u64 = 1;

/// Connections that are served at a time.
pub const MAX_CONNECTIONS: usize = 4096;

/// What a client speaks.
#[derive(Clone, Copy, Debug, PartialEq, Eq, Structural)]
pub enum Protocol {
    Socks5,
    Socks4,
    Http,
}

/// The protocol of a connection by its first byte; none where the client closes
/// without a byte.
pub fn protocol_of(first: Option<u8>) -> (p: Option<Protocol>)
    ensures
        p == match first {
            None => None::<Protocol>,
            Some(5u8) => Some(Protocol::Socks5),
            Some(4u8) => Some(Protocol::Socks4),
            Some(_) => Some(Protocol::Http),
        },
{
    match first {
        None => None,
        Some(b) => if b == 0x05 {
            Some(Protocol::Socks5)
        } else if b == 0x04 {
            Some(Protocol::Socks4)
        } else {
            Some(Protocol::Http)
        },
    }
}

/// Why a connection could not be accepted.
#[derive(Clone, Copy, Debug, PartialEq, Eq, Structural)]
pub enum AcceptFault {
    ConnectionRefused,
    ConnectionAborted,
    ConnectionReset,
    Other,
}

/// A fault of that one connection, not of the listener: the next one is likely
/// to succeed.
pub open spec fn is_fault_of_connection(f: AcceptFault) -> bool {
    f is ConnectionRefused || f is ConnectionAborted || f is ConnectionReset
}

/// Whether a fault concerns one connection only.
pub fn is_connection_error(f: AcceptFault) -> (r: bool)
    ensures
        r == is_fault_of_connection(f),
{
    match f {
        AcceptFault::ConnectionRefused => true,
        AcceptFault::ConnectionAborted => true,
        AcceptFault::ConnectionReset => true,
        AcceptFault::Other => false,
    }
}

/// The seconds to wait before the next connection is accepted. No fault ends the
/// listener.
pub fn accept_backoff(f: AcceptFault) -> (secs: u64)
    ensures
        secs == if is_fault_of_connection(f) {
            0
        } else {
            ACCEPT_ERROR_BACKOFF
        },
        secs == 1 <==> f is Other,
{
    if is_connection_error(f) {
        0
    } else {
        ACCEPT_ERROR_BACKOFF
    }
}

} // verus!
