use rsystem::endpoints::{runner_message, EndpointAddr, ToRunner, ToTcpStream};
use rsystem::tcp::{
    connection_step, ConnectionAction, ConnectionEvent, Listener, RunnerAction, RunnerEvent, TcpRunner,
};

fn connect(r: &mut TcpRunner<&'static str>, e: usize, c: usize, name: &'static str) {
    match r.step(RunnerEvent::IncomingConnection { endpoint_index: e, client_index: c, client: name }) {
        RunnerAction::Connected { replaced: None } => {}
        _ => panic!("expected a fresh connection"),
    }
}

fn send(e: usize, c: usize, m: &str) -> RunnerEvent<&'static str> {
    RunnerEvent::Control(ToRunner::Message { endpoint_index: e, client_index: c, message: m.to_string() })
}

#[test]
fn message_to_open_connection_is_delivered_and_client_returns() {
    let mut r = TcpRunner::new();
    connect(&mut r, 0, 0, "alice");
    match r.step(send(0, 0, "hi")) {
        RunnerAction::Deliver { endpoint_index, client_index, client, message } => {
            assert_eq!((endpoint_index, client_index, client, message.as_str()), (0, 0, "alice", "hi"));
            assert_eq!(r.delivered(endpoint_index, client_index, client, true), None);
        }
        _ => panic!("expected a delivery"),
    }
    // The client is back: a second message reaches it too.
    assert!(matches!(r.step(send(0, 0, "again")), RunnerAction::Deliver { client: "alice", .. }));
}

#[test]
fn failed_delivery_drops_the_client() {
    let mut r = TcpRunner::new();
    connect(&mut r, 1, 2, "bob");
    match r.step(send(1, 2, "x")) {
        RunnerAction::Deliver { client, .. } => assert_eq!(r.delivered(1, 2, client, false), Some("bob")),
        _ => panic!("expected a delivery"),
    }
    assert!(matches!(r.step(send(1, 2, "y")), RunnerAction::Ignore));
}

#[test]
fn message_to_unknown_client_is_ignored() {
    let mut r: TcpRunner<&'static str> = TcpRunner::new();
    assert!(matches!(r.step(send(0, 5, "x")), RunnerAction::Ignore));
    connect(&mut r, 0, 4, "carol");
    assert!(matches!(r.step(send(1, 4, "x")), RunnerAction::Ignore));
}

#[test]
fn client_error_removes_and_reports() {
    let mut r = TcpRunner::new();
    connect(&mut r, 0, 0, "dave");
    assert!(matches!(
        r.step(RunnerEvent::ClientError { endpoint_index: 0, client_index: 0 }),
        RunnerAction::Died("dave")
    ));
    assert!(matches!(
        r.step(RunnerEvent::ClientError { endpoint_index: 0, client_index: 0 }),
        RunnerAction::Ignore
    ));
    assert!(matches!(r.step(send(0, 0, "late")), RunnerAction::Ignore));
}

#[test]
fn reconnection_under_same_key_replaces() {
    let mut r = TcpRunner::new();
    connect(&mut r, 0, 0, "old");
    assert!(matches!(
        r.step(RunnerEvent::IncomingConnection { endpoint_index: 0, client_index: 0, client: "new" }),
        RunnerAction::Connected { replaced: Some("old") }
    ));
    assert!(matches!(r.step(send(0, 0, "m")), RunnerAction::Deliver { client: "new", .. }));
}

#[test]
fn received_lines_are_forwarded_with_their_address() {
    let mut r: TcpRunner<&'static str> = TcpRunner::new();
    match r.step(RunnerEvent::ClientReceive { endpoint_index: 3, client_index: 9, line: "Ping".to_string() }) {
        RunnerAction::Forward(m) => {
            assert_eq!(m.address, EndpointAddr::Tcp { endpoint_index: 3, client_index: 9 });
            assert_eq!(m.message, "Ping");
        }
        _ => panic!("expected a forward"),
    }
}

#[test]
fn shutdown_hands_back_every_client_once() {
    let mut r = TcpRunner::new();
    connect(&mut r, 0, 0, "a");
    connect(&mut r, 0, 1, "b");
    connect(&mut r, 1, 0, "c");
    let _ = r.step(RunnerEvent::ClientError { endpoint_index: 0, client_index: 1 });
    match r.step(RunnerEvent::Control(ToRunner::Shutdown)) {
        RunnerAction::Stop(mut all) => {
            all.sort();
            assert_eq!(all, vec!["a", "c"]);
        }
        _ => panic!("expected stop"),
    }
    assert!(matches!(r.step(send(0, 0, "x")), RunnerAction::Ignore));
}

#[test]
fn connection_writes_line_with_crlf() {
    match connection_step(0, 0, ConnectionEvent::Control(ToTcpStream::Send("{\"tag\":\"x\"}\r\n".into()))) {
        ConnectionAction::Write(out) => assert_eq!(out, "{\"tag\":\"x\"}\r\n\r\n"),
        other => panic!("unexpected {:?}", other),
    }
}

#[test]
fn connection_passes_lines_and_stops() {
    match connection_step(2, 7, ConnectionEvent::Line("temp;1".into())) {
        ConnectionAction::Receive { endpoint_index, client_index, line } => {
            assert_eq!((endpoint_index, client_index, line.as_str()), (2, 7, "temp;1"))
        }
        other => panic!("unexpected {:?}", other),
    }
    assert!(matches!(connection_step(0, 0, ConnectionEvent::Control(ToTcpStream::Exit)), ConnectionAction::Finish));
    assert!(matches!(connection_step(0, 0, ConnectionEvent::Closed), ConnectionAction::Finish));
    assert!(matches!(connection_step(0, 0, ConnectionEvent::ReadFailed), ConnectionAction::Fail));
}

#[test]
fn listener_numbers_clients_from_zero() {
    let mut l = Listener::new(4);
    assert_eq!(l.accept(), (4, 0));
    assert_eq!(l.accept(), (4, 1));
    assert_eq!(l.accept(), (4, 2));
    assert_eq!(l.next_client_index, 3);
}

#[test]
fn endpoint_send_becomes_runner_message() {
    match runner_message(EndpointAddr::Tcp { endpoint_index: 1, client_index: 2 }, "line") {
        ToRunner::Message { endpoint_index, client_index, message } => {
            assert_eq!((endpoint_index, client_index, message.as_str()), (1, 2, "line"))
        }
        other => panic!("unexpected {:?}", other),
    }
}

#[test]
fn shutdown_lists_only_open_clients_even_when_equal() {
    let mut r = TcpRunner::new();
    connect(&mut r, 0, 0, "same");
    connect(&mut r, 0, 1, "same");
    assert!(matches!(
        r.step(RunnerEvent::ClientError { endpoint_index: 0, client_index: 1 }),
        RunnerAction::Died("same")
    ));
    match r.step(RunnerEvent::Control(ToRunner::Shutdown)) {
        RunnerAction::Stop(all) => assert_eq!(all, vec!["same"]),
        _ => panic!("expected stop"),
    }
}
