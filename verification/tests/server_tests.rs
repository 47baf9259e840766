use msg_server::conn::Interest;
use msg_server::msg::Msg;
use msg_server::server::{Directive, Server, SocketRead};

#[test]
fn accept_allocates_fresh_monotonic_tokens() {
    let mut server = Server::new();
    let first = server.accept();
    let second = server.accept();
    assert_eq!(first, 1);
    assert_eq!(second, 2);
    assert_ne!(first, second);
    assert!(server.contains(first));
    assert!(server.contains(second));
    assert_eq!(server.len(), 2);
}

#[test]
fn single_shot_interest() {
    // Once notified, a connection is not notified again until a handling
    // step re-arms it.
    let mut server = Server::new();
    let token = server.accept();
    assert_eq!(server.notify(token), Some(Interest::Readable));
    assert_eq!(server.notify(token), None);
    assert_eq!(server.notify(token), None);
    // Handling the event re-arms the connection, so it can be notified again.
    let directive = server.handle_readable(token, SocketRead::WouldBlock);
    assert_eq!(directive, Directive::Rearm(Interest::Readable));
    assert_eq!(server.notify(token), Some(Interest::Readable));
}

#[test]
fn notify_unknown_token_is_spurious() {
    let mut server = Server::new();
    assert_eq!(server.notify(42), None);
}

#[test]
fn echo_round_trip() {
    // A client sends one 17-byte data frame ("hello mio"); the server
    // answers with a byte-for-byte identical frame.
    let sent = Msg::new_message("hello mio".as_bytes().to_vec()).to_bytes();
    assert_eq!(sent.len(), 17);

    let mut server = Server::new();
    let token = server.accept();

    // The whole frame rarely arrives in one read; feed it as the header and
    // then the payload, re-arming between deliveries.
    assert_eq!(server.notify(token), Some(Interest::Readable));
    let directive = server.handle_readable(token, SocketRead::Data(sent[0..8].to_vec()));
    assert_eq!(directive, Directive::Rearm(Interest::Readable));

    assert_eq!(server.notify(token), Some(Interest::Readable));
    let directive = server.handle_readable(token, SocketRead::Data(sent[8..17].to_vec()));
    assert_eq!(directive, Directive::Rearm(Interest::Writable));

    assert_eq!(server.notify(token), Some(Interest::Writable));
    let echoed = server.handle_writable(token).unwrap();
    assert_eq!(echoed, sent);

    // The connection is back to reading for the next round.
    assert_eq!(server.notify(token), Some(Interest::Readable));
}

#[test]
fn disconnect_removes_connection_and_writes_nothing() {
    // An 8-byte disconnect frame (code 2, total length 8) removes the
    // connection; no write is ever issued for it.
    let frame = Msg::new_disconnect().to_bytes();
    assert_eq!(frame, vec![8u8, 0, 0, 0, 2, 0, 0, 0]);

    let mut server = Server::new();
    let token = server.accept();
    assert_eq!(server.notify(token), Some(Interest::Readable));
    let directive = server.handle_readable(token, SocketRead::Data(frame));
    assert_eq!(directive, Directive::Remove);
    assert!(!server.contains(token));
    assert_eq!(server.len(), 0);
    // Removal is irrevocable: the token cannot even be notified any more.
    assert_eq!(server.notify(token), None);
}

#[test]
fn peer_close_removes_connection() {
    let mut server = Server::new();
    let token = server.accept();
    assert_eq!(server.notify(token), Some(Interest::Readable));
    assert_eq!(server.handle_readable(token, SocketRead::Closed), Directive::Remove);
    assert!(!server.contains(token));
}

#[test]
fn transport_fault_is_isolated_to_its_connection() {
    let mut server = Server::new();
    let healthy = server.accept();
    let failing = server.accept();
    assert_eq!(server.notify(failing), Some(Interest::Readable));
    assert_eq!(server.handle_readable(failing, SocketRead::Fault), Directive::Remove);
    assert!(!server.contains(failing));
    // The other connection is untouched and still armed.
    assert!(server.contains(healthy));
    assert_eq!(server.notify(healthy), Some(Interest::Readable));
}

#[test]
fn framing_violation_tears_connection_down() {
    let mut server = Server::new();
    let token = server.accept();
    assert_eq!(server.notify(token), Some(Interest::Readable));
    let bad = vec![8u8, 0, 0, 0, 9, 0, 0, 0];
    assert_eq!(server.handle_readable(token, SocketRead::Data(bad)), Directive::Remove);
    assert!(!server.contains(token));
}

#[test]
fn would_block_keeps_state_and_rearms() {
    let mut server = Server::new();
    let token = server.accept();
    let frame = Msg::new_message("hello".as_bytes().to_vec()).to_bytes();

    assert_eq!(server.notify(token), Some(Interest::Readable));
    assert_eq!(
        server.handle_readable(token, SocketRead::Data(frame[0..5].to_vec())),
        Directive::Rearm(Interest::Readable)
    );
    // Nothing to read yet: the partial frame must survive the would-block.
    assert_eq!(server.notify(token), Some(Interest::Readable));
    assert_eq!(server.handle_readable(token, SocketRead::WouldBlock), Directive::Rearm(Interest::Readable));
    // The rest of the header, then the payload, still complete the message.
    assert_eq!(server.notify(token), Some(Interest::Readable));
    assert_eq!(
        server.handle_readable(token, SocketRead::Data(frame[5..8].to_vec())),
        Directive::Rearm(Interest::Readable)
    );
    assert_eq!(server.notify(token), Some(Interest::Readable));
    assert_eq!(
        server.handle_readable(token, SocketRead::Data(frame[8..13].to_vec())),
        Directive::Rearm(Interest::Writable)
    );
    assert_eq!(server.notify(token), Some(Interest::Writable));
    assert_eq!(server.handle_writable(token).unwrap(), frame);
}

#[test]
fn handle_writable_with_nothing_pending_writes_nothing() {
    let mut server = Server::new();
    let token = server.accept();
    assert_eq!(server.notify(token), Some(Interest::Readable));
    // Consume the arming with a would-block, then re-notify and ask for a
    // write with no pending payload.
    assert_eq!(server.handle_readable(token, SocketRead::WouldBlock), Directive::Rearm(Interest::Readable));
    assert_eq!(server.notify(token), Some(Interest::Readable));
    assert_eq!(server.handle_writable(token), None);
}
