//! A small message system: peers send lines over TCP, each line names a
//! handler by its tag and may carry a value, and the handler's answers go
//! back to the peer as JSON lines. This crate holds the parts that decide:
//! how a line is read, which handler gets it and from what input, how the
//! answers are written, and what the TCP endpoint does on each event.
use vstd::prelude::*;

pub mod context;
pub mod endpoints;
pub mod foreign;
pub mod handle_key;
pub mod handler;
pub mod message;
pub mod prelude;
pub mod tcp;
pub mod text;

pub use context::HandleContext;
pub use endpoints::{runner_message, EndpointAddr, IncomingMessage, ToRunner, ToTcpStream};
pub use handle_key::HandleKey;
pub use handler::{Dispatch, HandleWrapper, HandlerRegistry, InputKind, ValueShape};
pub use message::{plan_deliveries, split_plain, PlainMessage};
pub use tcp::{
    connection_step, ClientTable, ConnectionAction, ConnectionEvent, Listener, RunnerAction,
    RunnerEvent, TcpRunner,
};
