use msg_server::conn::Conn;
use msg_server::msg::{Msg, MsgCode, MsgError};

#[test]
fn fresh_connection_wants_a_header() {
    let conn = Conn::new(1);
    assert_eq!(conn.token(), 1);
    assert_eq!(conn.needed(), 8);
}

#[test]
fn fragmented_header_three_then_five() {
    // A header's 8 bytes arriving as two deliveries of 3 and 5: no decode is
    // attempted until all 8 are present, then it decodes correctly.
    let mut conn = Conn::new(1);
    let frame = Msg::new_disconnect().to_bytes();
    assert_eq!(conn.advance(&frame[0..3]), Ok(None));
    assert_eq!(conn.needed(), 5);
    let result = conn.advance(&frame[3..8]).unwrap().unwrap();
    assert_eq!(result, Msg::new_disconnect());
    assert_eq!(conn.needed(), 8);
}

#[test]
fn fragmented_data_frame() {
    let msg = Msg::new_message("hello mio".as_bytes().to_vec());
    let frame = msg.to_bytes();
    let mut conn = Conn::new(1);
    assert_eq!(conn.advance(&frame[0..3]), Ok(None));
    assert_eq!(conn.advance(&frame[3..8]), Ok(None));
    // Header complete: the machine now wants the 9 payload bytes.
    assert_eq!(conn.needed(), 9);
    assert_eq!(conn.advance(&frame[8..12]), Ok(None));
    assert_eq!(conn.needed(), 5);
    let result = conn.advance(&frame[12..17]).unwrap().unwrap();
    assert_eq!(result, msg);
}

#[test]
fn byte_at_a_time_yields_exactly_one_message() {
    // Partial-read convergence on the smallest possible chunks: one byte per
    // delivery produces no message until the last byte, then exactly one,
    // equal to the original.
    let msg = Msg::new_message("hello mio".as_bytes().to_vec());
    let frame = msg.to_bytes();
    let mut conn = Conn::new(1);
    let mut produced = Vec::new();
    for i in 0..frame.len() {
        match conn.advance(&frame[i..i + 1]).unwrap() {
            None => assert!(i + 1 < frame.len()),
            Some(m) => {
                assert_eq!(i + 1, frame.len());
                produced.push(m);
            }
        }
    }
    assert_eq!(produced.len(), 1);
    assert_eq!(produced[0], msg);
}

#[test]
fn two_frames_in_sequence() {
    let first = Msg::new_message("hello".as_bytes().to_vec());
    let second = Msg::new_message("mio".as_bytes().to_vec());
    let mut conn = Conn::new(1);
    let mut frames = first.to_bytes();
    frames.extend_from_slice(&second.to_bytes());
    let mut produced = Vec::new();
    let mut at = 0;
    while at < frames.len() {
        let take = (conn.needed()).min(frames.len() - at);
        if let Some(m) = conn.advance(&frames[at..at + take]).unwrap() {
            produced.push(m);
        }
        at += take;
    }
    assert_eq!(produced, vec![first, second]);
}

#[test]
fn zero_length_payload_frame_completes_at_header() {
    let msg = Msg::new_message(Vec::new());
    let frame = msg.to_bytes();
    let mut conn = Conn::new(1);
    assert_eq!(conn.advance(&frame[0..4]), Ok(None));
    let result = conn.advance(&frame[4..8]).unwrap().unwrap();
    assert_eq!(result.code(), MsgCode::Message);
    assert_eq!(result, msg);
}

#[test]
fn malformed_header_fails_once_complete() {
    let mut conn = Conn::new(1);
    let bad = vec![8u8, 0, 0, 0, 9, 0, 0, 0];
    assert_eq!(conn.advance(&bad[0..6]), Ok(None));
    assert_eq!(conn.advance(&bad[6..8]), Err(MsgError::InvalidData));
    // The connection is reset; its owner tears it down anyway.
    assert_eq!(conn.needed(), 8);
}

#[test]
fn empty_chunk_changes_nothing() {
    let mut conn = Conn::new(1);
    let empty: Vec<u8> = Vec::new();
    assert_eq!(conn.advance(&empty), Ok(None));
    assert_eq!(conn.needed(), 8);
}

#[test]
fn save_and_take_message() {
    let mut conn = Conn::new(7);
    assert_eq!(conn.take_message(), None);
    conn.save_message("hello".as_bytes().to_vec());
    assert_eq!(conn.take_message(), Some("hello".as_bytes().to_vec()));
    assert_eq!(conn.take_message(), None);
}
