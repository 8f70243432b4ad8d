use websocket::frame::Opcode;
use websocket::message::{FrameRead, Message};

fn encode(data: Vec<u8>) -> Vec<u8> {
    let mut out = Vec::new();
    Message::new(data).write(&mut out);
    out
}

fn decoded(buf: &[u8]) -> Vec<u8> {
    match Message::read(buf) {
        FrameRead::Complete(m, used) => {
            assert_eq!(used, buf.len());
            m.data
        }
        _ => panic!("expected a complete message"),
    }
}

fn round_trip(len: usize) {
    let data: Vec<u8> = (0..len).map(|i| (i * 7 + 3) as u8).collect();
    let wire = encode(data.clone());
    assert_eq!(decoded(&wire), data);
}

#[test]
fn round_trip_of_listed_lengths() {
    for len in [0usize, 1, 125, 126, 65535, 65536, 1 << 20] {
        round_trip(len);
    }
}

#[test]
fn short_frame_header() {
    let wire = encode(vec![1, 2, 3]);
    assert_eq!(wire, vec![0x82, 3, 1, 2, 3]);
    let wire = encode(vec![9; 125]);
    assert_eq!(&wire[..2], &[0x82, 125]);
    assert_eq!(wire.len(), 127);
}

#[test]
fn sixteen_bit_length_header() {
    let wire = encode(vec![0; 126]);
    assert_eq!(&wire[..4], &[0x82, 126, 0, 126]);
    assert_eq!(wire.len(), 130);
    let wire = encode(vec![0; 65535]);
    assert_eq!(&wire[..4], &[0x82, 126, 0xff, 0xff]);
}

#[test]
fn sixty_four_bit_length_header() {
    let wire = encode(vec![0; 65536]);
    assert_eq!(&wire[..10], &[0x82, 127, 0, 0, 0, 0, 0, 1, 0, 0]);
    assert_eq!(wire.len(), 65546);
}

#[test]
fn write_appends_after_existing_bytes() {
    let mut out = vec![7u8, 7];
    Message::new(vec![5]).write(&mut out);
    assert_eq!(out, vec![7, 7, 0x82, 1, 5]);
}

#[test]
fn masked_frame_is_unmasked() {
    let key = [0x37u8, 0xfa, 0x21, 0x3d];
    let plain = b"Hello".to_vec();
    let mut wire = vec![0x81, 0x80 | plain.len() as u8];
    wire.extend_from_slice(&key);
    for (i, b) in plain.iter().enumerate() {
        wire.push(b ^ key[i % 4]);
    }
    assert_eq!(&wire[6..], &[0x7f, 0x9f, 0x4d, 0x51, 0x58]);
    assert_eq!(decoded(&wire), plain);
}

#[test]
fn masked_sixteen_bit_frame_is_unmasked() {
    let key = [1u8, 2, 3, 4];
    let plain: Vec<u8> = (0..300).map(|i| i as u8).collect();
    let mut wire = vec![0x82, 0x80 | 126, 1, 44];
    wire.extend_from_slice(&key);
    for (i, b) in plain.iter().enumerate() {
        wire.push(b ^ key[i % 4]);
    }
    assert_eq!(decoded(&wire), plain);
}

#[test]
fn fragments_join_in_order() {
    let wire = vec![
        0x01, 3, b'a', b'b', b'c', // TEXT, not final
        0x00, 2, b'd', b'e', // CONTINUE, not final
        0x80, 1, b'f', // CONTINUE, final
    ];
    assert_eq!(decoded(&wire), b"abcdef".to_vec());
}

#[test]
fn masked_fragments_join_in_order() {
    let key = [9u8, 8, 7, 6];
    let mut wire = vec![0x02, 0x82];
    wire.extend_from_slice(&key);
    wire.extend_from_slice(&[1 ^ 9, 2 ^ 8]);
    wire.extend_from_slice(&[0x80, 0x81]);
    wire.extend_from_slice(&key);
    wire.push(3 ^ 9);
    assert_eq!(decoded(&wire), vec![1, 2, 3]);
}

#[test]
fn close_frame_gives_no_message() {
    let wire = vec![0x88, 2, 0x03, 0xe8];
    assert!(matches!(Message::read(&wire), FrameRead::Closed(4)));
    let wire = vec![0x88, 0x80, 1, 2, 3, 4];
    assert!(matches!(Message::read(&wire), FrameRead::Closed(6)));
}

#[test]
fn close_after_fragment_gives_no_message() {
    let wire = vec![0x01, 1, b'x', 0x88, 0];
    assert!(matches!(Message::read(&wire), FrameRead::Closed(5)));
}

#[test]
fn bad_opcode_is_reported() {
    let wire = vec![0x83, 0];
    assert!(matches!(Message::read(&wire), FrameRead::BadOpcode));
    let wire = vec![0x01, 1, b'x', 0x8b, 0];
    assert!(matches!(Message::read(&wire), FrameRead::BadOpcode));
}

#[test]
fn partial_input_asks_for_more() {
    assert!(matches!(Message::read(&[]), FrameRead::Need(2)));
    assert!(matches!(Message::read(&[0x82]), FrameRead::Need(2)));
    assert!(matches!(Message::read(&[0x82, 126]), FrameRead::Need(4)));
    assert!(matches!(Message::read(&[0x82, 0x80 | 127]), FrameRead::Need(14)));
    assert!(matches!(Message::read(&[0x82, 126, 1, 0]), FrameRead::Need(260)));
    assert!(matches!(Message::read(&[0x02, 1, 5]), FrameRead::Need(5)));
}

#[test]
fn huge_declared_length_is_too_long() {
    let wire = vec![0x82, 127, 0xff, 0xff, 0xff, 0xff, 0xff, 0xff, 0xff, 0xff];
    assert!(matches!(Message::read(&wire), FrameRead::TooLong));
}

#[test]
fn trailing_bytes_are_left() {
    let mut wire = encode(vec![1, 2]);
    wire.extend_from_slice(&[0x82, 0]);
    match Message::read(&wire) {
        FrameRead::Complete(m, used) => {
            assert_eq!(m.data, vec![1, 2]);
            assert_eq!(used, 4);
        }
        _ => panic!("expected a message"),
    }
}

#[test]
fn opcode_nibbles() {
    assert_eq!(Opcode::parse(&[0x80, 0]), Some(Opcode::CONTINUE));
    assert_eq!(Opcode::parse(&[0x81, 0]), Some(Opcode::TEXT));
    assert_eq!(Opcode::parse(&[0x02, 0]), Some(Opcode::BINARY));
    assert_eq!(Opcode::parse(&[0x88, 0]), Some(Opcode::CLOSE));
    assert_eq!(Opcode::parse(&[0x89, 0]), Some(Opcode::PING));
    assert_eq!(Opcode::parse(&[0x8a, 0xff]), Some(Opcode::PONG));
    for nibble in [3u8, 4, 5, 6, 7, 0xb, 0xc, 0xd, 0xe, 0xf] {
        assert_eq!(Opcode::parse(&[0x80 | nibble, 0]), None);
    }
}
