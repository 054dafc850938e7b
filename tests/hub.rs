use line_broadcast::{Action, Outgoing, PollingHub};

fn out(to: usize, line: &str) -> Outgoing {
    Outgoing { to, line: line.to_string() }
}

fn publish_all(hub: &PollingHub, sender: usize, acts: &[Action]) -> Vec<Outgoing> {
    let mut lines = Vec::new();
    for a in acts {
        if let Action::Publish(t) = a {
            lines.extend(hub.deliver(sender, t));
        }
    }
    lines
}

#[test]
fn login_ack_and_broadcast_scenario() {
    let mut hub = PollingHub::new();
    assert_eq!(hub.accept(), out(0, "LOGIN:0\n"));
    assert_eq!(hub.accept(), out(1, "LOGIN:1\n"));
    let acts = hub.receive(0, b"hello\n".to_vec()).unwrap();
    assert_eq!(
        acts,
        vec![Action::Send("ACK:MESSAGE\n".to_string()), Action::Publish("hello".to_string())]
    );
    let delivered = publish_all(&hub, 0, &acts);
    assert_eq!(delivered, vec![out(1, "MESSAGE:0 hello\n")]);
    assert!(delivered.iter().all(|o| o.to != 0));
}

#[test]
fn disconnected_client_is_skipped_without_error() {
    let mut hub = PollingHub::new();
    hub.accept();
    hub.accept();
    hub.accept();
    assert!(hub.disconnect(0));
    assert_eq!(hub.len(), 2);
    let acts = hub.receive(1, b"still here\n".to_vec()).unwrap();
    assert_eq!(publish_all(&hub, 1, &acts), vec![out(2, "MESSAGE:1 still here\n")]);
    assert_eq!(hub.receive(0, b"ghost\n".to_vec()), None);
    assert!(!hub.disconnect(0));
}

#[test]
fn one_ack_per_line_whatever_the_audience() {
    for others in 0..5 {
        let mut hub = PollingHub::new();
        hub.accept();
        for _ in 0..others {
            hub.accept();
        }
        let acts = hub.receive(0, b"one\ntwo\n".to_vec()).unwrap();
        let acks = acts
            .iter()
            .filter(|a| **a == Action::Send("ACK:MESSAGE\n".to_string()))
            .count();
        assert_eq!(acks, 2);
        let delivered = publish_all(&hub, 0, &acts);
        assert_eq!(delivered.len(), 2 * others);
        assert!(delivered.iter().all(|o| o.line != "ACK:MESSAGE\n"));
    }
}

#[test]
fn each_other_client_gets_exactly_one_copy() {
    let mut hub = PollingHub::new();
    for _ in 0..4 {
        hub.accept();
    }
    let delivered = hub.deliver(2, "x");
    for id in 0..4 {
        let n = delivered.iter().filter(|o| o.to == id).count();
        assert_eq!(n, if id == 2 { 0 } else { 1 });
    }
    assert!(delivered.iter().all(|o| o.line == "MESSAGE:2 x\n"));
}

#[test]
fn identifiers_follow_acceptance_order() {
    let mut hub = PollingHub::new();
    let a = hub.accept().to;
    let b = hub.accept().to;
    hub.disconnect(a);
    let c = hub.accept().to;
    assert!(a < b && b < c);
    assert!(!hub.is_exhausted());
}

#[test]
fn partial_lines_wait_for_their_newline() {
    let mut hub = PollingHub::new();
    hub.accept();
    assert_eq!(hub.receive(0, b"par".to_vec()), Some(vec![]));
    assert_eq!(
        hub.receive(0, b"t\n".to_vec()),
        Some(vec![Action::Send("ACK:MESSAGE\n".to_string()), Action::Publish("part".to_string())])
    );
}

#[test]
fn nobody_to_deliver_to() {
    let mut hub = PollingHub::new();
    assert!(hub.deliver(0, "x").is_empty());
    hub.accept();
    assert!(hub.deliver(0, "x").is_empty());
}
