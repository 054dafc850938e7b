use line_broadcast::{Action, ConnectionHandler, Event, Phase};

fn send(s: &str) -> Action {
    Action::Send(s.to_string())
}

#[test]
fn greets_once_on_open() {
    let mut h = ConnectionHandler::new(3);
    assert_eq!(h.phase(), Phase::Connecting);
    assert_eq!(h.step(Event::Opened), vec![send("LOGIN:3\n")]);
    assert_eq!(h.phase(), Phase::LoggedIn);
    assert_eq!(h.step(Event::Opened), vec![]);
}

#[test]
fn events_before_greeting_are_ignored() {
    let mut h = ConnectionHandler::new(0);
    assert_eq!(h.step(Event::Received(b"x\n".to_vec())), vec![]);
    assert_eq!(h.phase(), Phase::Connecting);
}

#[test]
fn each_line_is_acknowledged_then_published() {
    let mut h = ConnectionHandler::new(0);
    h.step(Event::Opened);
    let acts = h.step(Event::Received(b"hello\nwor".to_vec()));
    assert_eq!(acts, vec![send("ACK:MESSAGE\n"), Action::Publish("hello".to_string())]);
    assert_eq!(h.phase(), Phase::Active);
    let acts = h.step(Event::Received(b"ld\n!\n".to_vec()));
    assert_eq!(
        acts,
        vec![
            send("ACK:MESSAGE\n"),
            Action::Publish("world".to_string()),
            send("ACK:MESSAGE\n"),
            Action::Publish("!".to_string()),
        ]
    );
}

#[test]
fn own_lines_are_not_echoed() {
    let mut h = ConnectionHandler::new(5);
    h.step(Event::Opened);
    assert_eq!(h.step(Event::Delivered(5, "mine".to_string())), vec![]);
    assert_eq!(h.forward(5, "mine"), None);
}

#[test]
fn other_lines_are_forwarded() {
    let mut h = ConnectionHandler::new(1);
    h.step(Event::Opened);
    assert_eq!(
        h.step(Event::Delivered(0, "hello".to_string())),
        vec![send("MESSAGE:0 hello\n")]
    );
    assert_eq!(h.forward(12, "x"), Some("MESSAGE:12 x\n".to_string()));
}

#[test]
fn lag_is_reported_and_not_fatal() {
    let mut h = ConnectionHandler::new(1);
    h.step(Event::Opened);
    assert_eq!(h.step(Event::Lagged(17)), vec![Action::ReportLag(17)]);
    assert_eq!(h.phase(), Phase::Active);
    assert_eq!(
        h.step(Event::Delivered(2, "later".to_string())),
        vec![send("MESSAGE:2 later\n")]
    );
}

#[test]
fn every_failure_closes() {
    let failures = [Event::PeerClosed, Event::ReadFailed, Event::WriteFailed, Event::MediumClosed];
    for ev in failures {
        let mut h = ConnectionHandler::new(4);
        h.step(Event::Opened);
        assert_eq!(h.step(ev), vec![Action::Close]);
        assert!(h.is_closed());
    }
}

#[test]
fn closed_is_terminal() {
    let mut h = ConnectionHandler::new(4);
    h.step(Event::Opened);
    h.step(Event::PeerClosed);
    assert_eq!(h.step(Event::Received(b"late\n".to_vec())), vec![]);
    assert_eq!(h.step(Event::Delivered(1, "x".to_string())), vec![]);
    assert_eq!(h.step(Event::Opened), vec![]);
    assert_eq!(h.phase(), Phase::Closed);
    assert_eq!(h.id(), 4);
}
