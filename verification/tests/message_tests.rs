use bittorrent_client::message::{frame_payload_too_short, Bitfield, Message, MessageError};

#[test]
fn parse_keep_alive_message() {
    let len: u32 = 0;
    let buf = u32::to_le_bytes(len).to_vec();
    let expected_message = Message::KeepAlive;
    let res = Message::deserialise(&buf[..]);
    assert!(res.is_ok_and(|(message, _)| message == expected_message))
}

#[test]
fn parse_choke_message() {
    let len: u32 = 1;
    let id = 0x00;
    let mut buf = u32::to_be_bytes(len).to_vec();
    buf.push(id);
    let expected_message = Message::Choke;
    let res = Message::deserialise(&buf[..]);
    assert!(res.is_ok_and(|(message, _)| message == expected_message));
}

#[test]
fn parse_unchoke_message() {
    let len: u32 = 1;
    let id = 0x01;
    let mut buf = u32::to_be_bytes(len).to_vec();
    buf.push(id);
    let expected_message = Message::Unchoke;
    let res = Message::deserialise(&buf[..]);
    assert!(res.is_ok_and(|(message, _)| message == expected_message));
}

#[test]
fn parse_interested_message() {
    let len: u32 = 1;
    let id = 0x02;
    let mut buf = u32::to_be_bytes(len).to_vec();
    buf.push(id);
    let expected_message = Message::Interested;
    let res = Message::deserialise(&buf[..]);
    assert!(res.is_ok_and(|(message, _)| message == expected_message));
}

#[test]
fn parse_not_interested_message() {
    let len: u32 = 1;
    let id = 0x03;
    let mut buf = u32::to_be_bytes(len).to_vec();
    buf.push(id);
    let expected_message = Message::NotInterested;
    let res = Message::deserialise(&buf[..]);
    assert!(res.is_ok_and(|(message, _)| message == expected_message));
}

#[test]
fn parse_have_message() {
    let len: u32 = 9;
    let id = 0x04;
    let index: u64 = 100;
    let mut buf = u32::to_be_bytes(len).to_vec();
    buf.push(id);
    buf.append(&mut u64::to_be_bytes(index).to_vec());
    let expected_message = Message::Have(index);
    let res = Message::deserialise(&buf[..]);
    assert!(res.is_ok_and(|(message, _)| message == expected_message));
}

#[test]
fn parse_bitfield_message() {
    let len: u32 = 2;
    let id = 0x05;
    let payload = vec![0x10];
    let mut buf = u32::to_be_bytes(len).to_vec();
    buf.push(id);
    buf.append(&mut payload.clone());
    let bitfield = Bitfield::new(payload);
    let expected_message = Message::Bitfield(bitfield);
    let res = Message::deserialise(&buf[..]);
    assert!(res.is_ok_and(|(message, _)| message == expected_message));
}

#[test]
fn parse_request_message() {
    let len: u32 = 25;
    let id = 0x06;
    let index: u64 = 30;
    let begin: u64 = 100;
    let length: u64 = 200;
    let mut buf = u32::to_be_bytes(len).to_vec();
    buf.push(id);
    buf.append(&mut u64::to_be_bytes(index).to_vec());
    buf.append(&mut u64::to_be_bytes(begin).to_vec());
    buf.append(&mut u64::to_be_bytes(length).to_vec());
    let expected_message = Message::Request {
        index,
        begin,
        length,
    };
    let res = Message::deserialise(&buf[..]);
    assert!(res.is_ok_and(|(message, _)| message == expected_message));
}

#[test]
fn parse_piece_message() {
    let id = 0x07;
    let index: u64 = 30;
    let begin: u64 = 100;
    let block = (0x00..0xFF).collect::<Vec<u8>>();
    let len: u32 = 1 + 8 + 8 + block.len() as u32;
    let mut buf = u32::to_be_bytes(len).to_vec();
    buf.push(id);
    buf.append(&mut u64::to_be_bytes(index).to_vec());
    buf.append(&mut u64::to_be_bytes(begin).to_vec());
    buf.append(&mut block.clone());
    let expected_message = Message::Piece {
        index,
        begin,
        block,
    };
    let res = Message::deserialise(&buf[..]);
    assert!(res.is_ok_and(|(message, _)| message == expected_message));
}

#[test]
fn parse_cancel_message() {
    let len: u32 = 25;
    let id = 0x08;
    let index: u64 = 30;
    let begin: u64 = 100;
    let length: u64 = 200;
    let mut buf = u32::to_be_bytes(len).to_vec();
    buf.push(id);
    buf.append(&mut u64::to_be_bytes(index).to_vec());
    buf.append(&mut u64::to_be_bytes(begin).to_vec());
    buf.append(&mut u64::to_be_bytes(length).to_vec());
    let expected_message = Message::Cancel {
        index,
        begin,
        length,
    };
    let res = Message::deserialise(&buf[..]);
    assert!(res.is_ok_and(|(message, _)| message == expected_message));
}

#[test]
fn return_error_if_single_byte_message_id_is_invalid() {
    let len: u32 = 1;
    let id = 0x04;
    let mut buf = u32::to_be_bytes(len).to_vec();
    buf.push(id);
    let res = Message::deserialise(&buf[..]);
    let expected_err_msg = "Invalid ID for single byte message: 4";
    assert!(res.is_err_and(|msg| msg.message() == expected_err_msg));
}

#[test]
fn return_error_if_non_zero_payload_message_id_is_invalid() {
    let len: u32 = 9;
    let id = 0x01;
    let mut buf = u32::to_be_bytes(len).to_vec();
    buf.push(id);
    buf.append(&mut [0; 8].to_vec());
    let res = Message::deserialise(&buf[..]);
    let expected_err_msg = "Invalid message ID for message containing non-zero payload: 1";
    assert!(res.is_err_and(|msg| msg.message() == expected_err_msg));
}

#[test]
fn deserialise_reports_incomplete_messages_and_their_size() {
    assert_eq!(Message::deserialise(&[0, 0, 0]), Err(MessageError::Incomplete));
    assert_eq!(Message::deserialise(&[0, 0, 0, 9, 4, 0]), Err(MessageError::Incomplete));
    assert_eq!(Message::deserialise(&[0, 0, 0, 1]), Err(MessageError::Incomplete));
    assert_eq!(MessageError::Incomplete.message(), "early eof");
    let res = Message::deserialise(&[0, 0, 0, 1, 1, 9, 9]);
    assert_eq!(res, Ok((Message::Unchoke, 5)));
}

#[test]
fn frame_payload_too_short_flags_truncated_payloads() {
    assert!(frame_payload_too_short(&[0, 0, 0, 2, 4, 7]));
    assert!(frame_payload_too_short(&[0, 0, 0, 2, 7, 7]));
    assert!(!frame_payload_too_short(&[0, 0, 0, 2, 5, 7]));
    assert!(!frame_payload_too_short(&[0, 0, 0, 9, 4, 0]));
}

#[test]
fn serialise_keep_alive_message() {
    let message = Message::KeepAlive;
    let len: u32 = 0;
    let expected_buf = u32::to_be_bytes(len).to_vec();
    assert_eq!(message.serialise(), expected_buf);
}

#[test]
fn serialise_choke_message() {
    let message = Message::Choke;
    let len = 1;
    let id = 0;
    let mut expected_buf = u32::to_be_bytes(len).to_vec();
    expected_buf.push(id);
    assert_eq!(message.serialise(), expected_buf);
}

#[test]
fn serialise_unchoke_message() {
    let message = Message::Unchoke;
    let len = 1;
    let id = 1;
    let mut expected_buf = u32::to_be_bytes(len).to_vec();
    expected_buf.push(id);
    assert_eq!(message.serialise(), expected_buf);
}

#[test]
fn serialise_interested_message() {
    let message = Message::Interested;
    let len = 1;
    let id = 2;
    let mut expected_buf = u32::to_be_bytes(len).to_vec();
    expected_buf.push(id);
    assert_eq!(message.serialise(), expected_buf);
}

#[test]
fn serialise_not_interested_message() {
    let message = Message::NotInterested;
    let len = 1;
    let id = 3;
    let mut expected_buf = u32::to_be_bytes(len).to_vec();
    expected_buf.push(id);
    assert_eq!(message.serialise(), expected_buf);
}

#[test]
fn serialise_have_message() {
    let index = 10;
    let message = Message::Have(index);
    let len = 1 + 8;
    let id = 4;
    let mut expected_buf = u32::to_be_bytes(len).to_vec();
    expected_buf.push(id);
    expected_buf.append(&mut u64::to_be_bytes(index).to_vec());
    assert_eq!(message.serialise(), expected_buf);
}

#[test]
fn serialise_request_and_piece_messages() {
    let request = Message::Request { index: 1, begin: 2, length: 3 };
    let mut expected = u32::to_be_bytes(25).to_vec();
    expected.push(6);
    for v in [1u64, 2, 3] {
        expected.extend_from_slice(&v.to_be_bytes());
    }
    assert_eq!(request.serialise(), expected);
    let piece = Message::Piece { index: 1, begin: 2, block: vec![9, 8] };
    let mut expected = u32::to_be_bytes(19).to_vec();
    expected.push(7);
    expected.extend_from_slice(&1u64.to_be_bytes());
    expected.extend_from_slice(&2u64.to_be_bytes());
    expected.extend_from_slice(&[9, 8]);
    assert_eq!(piece.serialise(), expected);
}

#[test]
fn deserialise_reads_back_serialised_messages() {
    let messages = vec![
        Message::KeepAlive,
        Message::Have(7),
        Message::Bitfield(Bitfield::new(vec![0xA0, 0x01])),
        Message::Cancel { index: 4, begin: 5, length: 6 },
        Message::Piece { index: 2, begin: 16384, block: vec![1, 2, 3] },
    ];
    let expected = vec![
        Message::KeepAlive,
        Message::Have(7),
        Message::Bitfield(Bitfield::new(vec![0xA0, 0x01])),
        Message::Cancel { index: 4, begin: 5, length: 6 },
        Message::Piece { index: 2, begin: 16384, block: vec![1, 2, 3] },
    ];
    for (message, expected) in messages.into_iter().zip(expected) {
        let bytes = message.serialise();
        let len = bytes.len();
        assert_eq!(Message::deserialise(&bytes), Ok((expected, len)));
    }
}

#[test]
fn bitfield_has_piece_returns_true_if_has_piece() {
    // Bits 2 and 14 (interpreting in big-endian/network order) mean pieces 2 and 14 are
    // available
    let data = vec![0b00100000, 0b00000010];
    let bitfield = Bitfield::new(data);
    assert!(bitfield.has_piece(2));
    assert!(bitfield.has_piece(14));
}

#[test]
fn bitfield_has_piece_returns_false_for_missing_pieces() {
    let bitfield = Bitfield::new(vec![0b00100000, 0b00000010]);
    assert!(!bitfield.has_piece(0));
    assert!(!bitfield.has_piece(3));
    assert!(!bitfield.has_piece(15));
}

#[test]
fn bitfield_set_piece_sets_correct_bit_in_bitfield() {
    let idx_to_set = 3;
    let data = vec![0b10000000, 0x00];
    let expected_bitfield = Bitfield::new(vec![0b10010000, 0x00]);
    let mut bitfield = Bitfield::new(data);
    bitfield.set_piece(idx_to_set);
    assert_eq!(bitfield, expected_bitfield);
}

#[test]
fn set_piece_then_has_piece_leaves_other_pieces() {
    let mut bitfield = Bitfield::new(vec![0b00000001, 0x00]);
    bitfield.set_piece(9);
    assert!(bitfield.has_piece(9));
    assert!(bitfield.has_piece(7));
    assert!(!bitfield.has_piece(8));
    assert_eq!(bitfield.as_bytes(), &[0b00000001, 0b01000000]);
}
