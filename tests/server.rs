use std::sync::mpsc::channel;

use websocket::client_id::{ClientID, ClientIDFactory};
use websocket::connection::{Connection, EndReason, Phase, Step};
use websocket::handshake::{accept_key, handshake, parse_head, response, Handshake, RequestHead};
use websocket::message::Message;
use websocket::registry::Registry;

const REQUEST: &[u8] = b"GET /chat HTTP/1.1\r\nHost: server.example.com\r\nUpgrade: websocket\r\nConnection: Upgrade\r\nSec-WebSocket-Key: dGhlIHNhbXBsZSBub25jZQ==\r\nSec-WebSocket-Version: 13\r\n\r\n";

const RESPONSE: &[u8] = b"HTTP/1.1 101 Switching Protocols\r\nUpgrade: websocket\r\nConnection: Upgrade\r\nSec-WebSocket-Accept: s3pPLMBiTxaQ9kYGzzhZRbK+xOo=\r\n\r\n";

#[test]
fn accept_key_of_sample_nonce() {
    assert_eq!(accept_key(b"dGhlIHNhbXBsZSBub25jZQ=="), b"s3pPLMBiTxaQ9kYGzzhZRbK+xOo=".to_vec());
}

#[test]
fn handshake_of_sample_request() {
    match handshake(REQUEST) {
        Handshake::Accepted(resp, used) => {
            assert_eq!(resp, RESPONSE.to_vec());
            assert_eq!(used, REQUEST.len());
        }
        _ => panic!("expected the request to be accepted"),
    }
}

#[test]
fn response_wraps_accept_value() {
    assert_eq!(response(b"abc"), b"HTTP/1.1 101 Switching Protocols\r\nUpgrade: websocket\r\nConnection: Upgrade\r\nSec-WebSocket-Accept: abc\r\n\r\n".to_vec());
}

#[test]
fn handshake_without_key() {
    let req = b"GET / HTTP/1.1\r\nHost: x\r\n\r\n";
    assert!(matches!(handshake(req), Handshake::MissingKey(n) if n == req.len()));
}

#[test]
fn handshake_waits_for_empty_line() {
    assert!(matches!(handshake(&REQUEST[..REQUEST.len() - 1]), Handshake::Incomplete));
    assert!(matches!(handshake(b""), Handshake::Incomplete));
}

#[test]
fn last_key_line_wins() {
    let req = b"Sec-WebSocket-Key: one\r\nSec-WebSocket-Key: two\r\n\r\nrest";
    match parse_head(req) {
        RequestHead::Complete { key, consumed } => {
            assert_eq!(key, Some(b"two".to_vec()));
            assert_eq!(consumed, req.len() - 4);
        }
        _ => panic!("expected a whole head"),
    }
}

#[test]
fn key_line_is_case_sensitive() {
    let req = b"sec-websocket-key: one\r\n\r\n";
    assert!(matches!(parse_head(req), RequestHead::Complete { key: None, consumed: 26 }));
}

#[test]
fn empty_first_line_ends_head() {
    assert!(matches!(parse_head(b"\r\n"), RequestHead::Complete { key: None, consumed: 2 }));
}

#[test]
fn ids_increase_sequentially() {
    let mut f = ClientIDFactory::new();
    let ids: Vec<ClientID> = (0..100).map(|_| f.create_id()).collect();
    for (i, id) in ids.iter().enumerate() {
        assert_eq!(id.value(), i as u64);
    }
    for w in ids.windows(2) {
        assert!(w[0] < w[1]);
    }
    let mut d = ClientIDFactory::default();
    assert_eq!(d.create_id(), ClientID(0));
}

#[test]
fn registry_keeps_peers_apart() {
    let (tx_a, rx_a) = channel::<Message>();
    let (tx_b, rx_b) = channel::<Message>();
    let a = ClientID(1);
    let b = ClientID(2);
    let mut reg = Registry::new();
    assert!(reg.register(a, tx_a));
    assert!(reg.register(b, tx_b));
    reg.get(b).unwrap().send(Message::new(vec![42])).unwrap();
    assert!(rx_a.try_recv().is_err());
    assert!(reg.remove(a).is_some());
    assert!(!reg.contains(a));
    assert!(reg.get(a).is_none());
    reg.get(b).unwrap().send(Message::new(vec![43])).unwrap();
    assert_eq!(rx_b.try_recv().unwrap().data, vec![42]);
    assert_eq!(rx_b.try_recv().unwrap().data, vec![43]);
    assert!(rx_a.try_recv().is_err());
}

#[test]
fn registry_refuses_double_register_and_absent_remove() {
    let mut reg: Registry<u32> = Registry::new();
    assert!(reg.register(ClientID(5), 1));
    assert!(!reg.register(ClientID(5), 2));
    assert_eq!(reg.get(ClientID(5)), Some(&1));
    assert_eq!(reg.remove(ClientID(6)), None);
    assert_eq!(reg.remove(ClientID(5)), Some(1));
    assert!(reg.ids().is_empty());
}

#[test]
fn registry_lists_others() {
    let mut reg: Registry<u8> = Registry::new();
    for i in 0..4u64 {
        reg.register(ClientID(i), i as u8);
    }
    let mut ids = reg.ids();
    ids.sort();
    assert_eq!(ids, vec![ClientID(0), ClientID(1), ClientID(2), ClientID(3)]);
    let mut others = reg.others(ClientID(2));
    others.sort();
    assert_eq!(others, vec![ClientID(0), ClientID(1), ClientID(3)]);
}

fn open_connection() -> Connection {
    let mut c = Connection::new(ClientID(7));
    assert!(matches!(c.poll(), Step::NeedBytes));
    c.push(REQUEST);
    match c.poll() {
        Step::Reply(resp) => assert_eq!(resp, RESPONSE.to_vec()),
        _ => panic!("expected the upgrade response"),
    }
    assert_eq!(c.phase(), Phase::Open);
    c
}

#[test]
fn connection_delivers_messages_in_order() {
    let mut c = open_connection();
    assert_eq!(c.id(), ClientID(7));
    c.push(&[0x81, 0x82, 1, 1, 1, 1, b'h' ^ 1, b'i' ^ 1, 0x82, 1]);
    match c.poll() {
        Step::Deliver(m) => assert_eq!(m.data, b"hi".to_vec()),
        _ => panic!("expected a message"),
    }
    assert!(matches!(c.poll(), Step::NeedBytes));
    c.push(&[9]);
    match c.poll() {
        Step::Deliver(m) => assert_eq!(m.data, vec![9]),
        _ => panic!("expected a message"),
    }
    c.push(&[0x88, 0]);
    assert!(matches!(c.poll(), Step::Disconnect(EndReason::PeerClosed)));
    assert!(matches!(c.poll(), Step::Finished));
    assert!(matches!(c.end_input(false), Step::Finished));
}

#[test]
fn truncated_frame_disconnects_once_with_error() {
    let mut c = open_connection();
    c.push(&[0x82, 10, 1, 2, 3]);
    assert!(matches!(c.poll(), Step::NeedBytes));
    let mut disconnects = 0;
    match c.end_input(false) {
        Step::Disconnect(reason) => {
            assert!(reason.is_error());
            assert_eq!(reason, EndReason::InputEnded);
            disconnects += 1;
        }
        _ => panic!("expected a departure"),
    }
    for _ in 0..3 {
        if matches!(c.poll(), Step::Disconnect(_)) {
            disconnects += 1;
        }
        if matches!(c.end_input(true), Step::Disconnect(_)) {
            disconnects += 1;
        }
    }
    assert_eq!(disconnects, 1);
    assert_eq!(c.phase(), Phase::Closed);
}

#[test]
fn missing_key_disconnects() {
    let mut c = Connection::new(ClientID(1));
    c.push(b"GET / HTTP/1.1\r\n\r\n");
    assert!(matches!(c.poll(), Step::Disconnect(EndReason::MissingKey)));
    assert!(EndReason::MissingKey.is_error());
}

#[test]
fn empty_message_and_bad_opcode_end_connection() {
    let mut c = open_connection();
    c.push(&[0x82, 0]);
    match c.poll() {
        Step::Disconnect(r) => {
            assert_eq!(r, EndReason::EmptyMessage);
            assert!(!r.is_error());
        }
        _ => panic!("expected a departure"),
    }
    let mut c = open_connection();
    c.push(&[0x84, 0]);
    assert!(matches!(c.poll(), Step::Disconnect(EndReason::BadOpcode)));
    let mut c = open_connection();
    c.end_input(true);
    assert_eq!(c.phase(), Phase::Closed);
}

#[test]
fn frames_in_same_read_as_request_are_kept() {
    let mut c = Connection::new(ClientID(3));
    let mut bytes = REQUEST.to_vec();
    bytes.extend_from_slice(&[0x82, 1, 77]);
    c.push(&bytes);
    assert!(matches!(c.poll(), Step::Reply(_)));
    match c.poll() {
        Step::Deliver(m) => assert_eq!(m.data, vec![77]),
        _ => panic!("expected a message"),
    }
}
