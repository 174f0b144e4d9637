use bittorrent_client::serde_bencode::de::Deserialiser;
use bittorrent_client::serde_bencode::error::Error;

#[test]
fn peek_byte_leaves_input_and_next_byte_consumes_it() {
    let mut de = Deserialiser::from_bytes(b"ab");
    assert!(matches!(de.peek_byte(), Ok(b'a')));
    assert!(matches!(de.peek_byte(), Ok(b'a')));
    assert!(matches!(de.next_byte(), Ok(b'a')));
    assert!(matches!(de.next_byte(), Ok(b'b')));
    assert!(matches!(de.peek_byte(), Err(Error::Eof)));
    assert!(matches!(de.next_byte(), Err(Error::Eof)));
}

#[test]
fn deserialiser_reads_integers_and_byte_strings_in_turn() {
    let mut de = Deserialiser::from_bytes(b"i-42e5:helloi7e");
    assert!(matches!(de.parse_integer(), Ok(-42)));
    let bytes = de.parse_byte_string().unwrap();
    assert_eq!(bytes, b"hello");
    assert!(matches!(de.parse_integer(), Ok(7)));
    assert!(matches!(de.next_byte(), Err(Error::Eof)));
}

#[test]
fn deserialiser_errors_leave_the_input_unread() {
    let mut de = Deserialiser::from_bytes(b"5:hi");
    match de.parse_integer() {
        Err(e) => assert_eq!(e.message(), "Failed to parse integer"),
        Ok(_) => panic!("Expected an error"),
    }
    let mut de = Deserialiser::from_bytes(b"i3e");
    match de.parse_byte_string() {
        Err(e) => assert_eq!(e.message(), "Failed to parse byte string"),
        Ok(_) => panic!("Expected an error"),
    }
    assert!(matches!(de.parse_integer(), Ok(3)));
}

#[test]
fn deserialiser_error_texts() {
    assert_eq!(Error::Eof.message(), "Encountered unexpected EOF");
    assert_eq!(Error::LeftoverData.message(), "Expected no data leftover");
    assert_eq!(Error::ExpectedColon.message(), "Expected colon character");
    assert_eq!(Error::Message("custom".to_string()).message(), "custom");
}
