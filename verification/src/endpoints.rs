//! Addresses of the peers that talk to the system, and the messages that pass
//! between an endpoint, its runner and the connections it serves.
use vstd::prelude::*;

verus! {

/// Where a message came from, and where its replies go.
#[non_exhaustive]
#[derive(Debug, Clone, Copy, PartialEq, Eq, Structural)]
pub enum EndpointAddr {
    /// Client `client_index` of the TCP listener `endpoint_index`.
    Tcp { endpoint_index: usize, client_index: usize },
}

/// A line received from a peer.
#[derive(Debug)]
pub struct IncomingMessage {
    pub address: EndpointAddr,
    pub message: String,
}

/// What the TCP runner is told by the endpoint that owns it.
#[non_exhaustive]
#[derive(Debug)]
pub enum ToRunner {
    /// Send `message` to client `client_index` of listener `endpoint_index`.
    Message { endpoint_index: usize, client_index: usize, message: String },
    /// Close every connection and stop.
    Shutdown,
}

/// What a connection is told by the runner.
#[non_exhaustive]
#[derive(Debug)]
pub enum ToTcpStream {
    /// Write this line to the peer.
    Send(String),
    /// Close the connection.
    Exit,
}

/// The request to the TCP runner that sends `message` to `addr`.
pub fn runner_message(addr: EndpointAddr, message: &str) -> (m: ToRunner)
    ensures
        m matches ToRunner::Message { endpoint_index, client_index, message: text }
            && addr == (EndpointAddr::Tcp { endpoint_index, client_index })
            && text@ == message@,
{
    match addr {
        EndpointAddr::Tcp { endpoint_index, client_index } => ToRunner::Message {
            endpoint_index,
            client_index,
            message: message.to_owned(),
        },
    }
}

} // verus!
