use line_broadcast::{ack_message, broadcast_message, login_message};

#[test]
fn login_lines() {
    assert_eq!(login_message(0), "LOGIN:0\n");
    assert_eq!(login_message(1), "LOGIN:1\n");
    assert_eq!(login_message(10), "LOGIN:10\n");
    assert_eq!(login_message(9075), "LOGIN:9075\n");
    assert_eq!(login_message(usize::MAX), format!("LOGIN:{}\n", usize::MAX));
}

#[test]
fn ack_line() {
    assert_eq!(ack_message(), "ACK:MESSAGE\n");
}

#[test]
fn message_lines() {
    assert_eq!(broadcast_message(0, "hello"), "MESSAGE:0 hello\n");
    assert_eq!(broadcast_message(42, ""), "MESSAGE:42 \n");
    assert_eq!(broadcast_message(305, "a b"), "MESSAGE:305 a b\n");
}
