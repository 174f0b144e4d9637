use bittorrent_client::handshake::Handshake;
use bittorrent_client::metainfo::{Info, Metainfo};
use bittorrent_client::parse::BencodeType2;
use bittorrent_client::torrent::{info_hash, Torrent};
use bittorrent_client::{PEER_ID, PSTR};

const PROTOCOL_ID_LEN: u8 = 0x13;

fn piece_hashes() -> Vec<u8> {
    let hello_sha1 =
        b"\xaa\xf4\xc6\x1d\xdc\xc5\xe8\xa2\xda\xbe\xde\x0f\x3b\x48\x2c\xd9\xae\xa9\x43\x4d";
    let goodbye_sha1 =
        b"\x3c\x8e\xc4\x87\x44\x88\xf6\x09\x0a\x15\x7b\x01\x4c\xe3\x39\x7c\xa8\xe0\x6d\x4f";
    let mut piece_hashes = hello_sha1.to_vec();
    piece_hashes.append(&mut goodbye_sha1.to_vec());
    piece_hashes
}

#[test]
fn serialised_handshake_is_correct() {
    let info_hash = (0x00..0x14).collect::<Vec<_>>();
    let mut expected = vec![PROTOCOL_ID_LEN];
    expected.append(&mut PSTR.as_bytes().to_vec());
    expected.append(&mut vec![0x00; 8]);
    expected.append(&mut info_hash.clone());
    expected.append(&mut PEER_ID.as_bytes().to_vec());
    let handshake = Handshake::new(
        PSTR.to_string(),
        info_hash,
        PEER_ID.to_string().as_bytes().to_vec(),
    );
    assert_eq!(handshake.serialise(), expected);
}

#[test]
fn deserialised_handshake_is_correct() {
    let info_hash = (0x00..0x14).collect::<Vec<_>>();
    let mut buffer = vec![PROTOCOL_ID_LEN];
    buffer.append(&mut PSTR.as_bytes().to_vec());
    buffer.append(&mut vec![0x00; 8]);
    buffer.append(&mut info_hash.clone());
    buffer.append(&mut PEER_ID.as_bytes().to_vec());
    let handshake = Handshake::deserialise(&buffer[..]);
    assert_eq!(PSTR.to_string(), handshake.pstr);
    assert_eq!(PEER_ID.to_string().as_bytes().to_vec(), handshake.peer_id);
    assert_eq!(info_hash, handshake.info_hash);
}

#[test]
fn handshake_reads_back_after_serialising() {
    let handshake = Handshake::new("BitTorrent protocol".to_string(), vec![7; 20], vec![9; 20]);
    let bytes = handshake.serialise();
    assert_eq!(bytes.len(), bittorrent_client::HANDSHAKE_BYTES_LEN);
    let back = Handshake::deserialise(&bytes);
    assert_eq!(back.pstr, "BitTorrent protocol");
    assert_eq!(back.info_hash, vec![7; 20]);
    assert_eq!(back.peer_id, vec![9; 20]);
}

#[test]
fn return_error_if_constructing_metainfo_from_incorrect_decoded_variant() {
    let incorrect_input = BencodeType2::ByteString(b"hello".to_vec());
    let res = Metainfo::new(incorrect_input);
    let expected_err_msg = "Invalid input, metainfo file must be a dict";
    assert!(res.is_err_and(|msg| msg == expected_err_msg))
}

#[test]
fn return_error_if_dict_missing_announce_key() {
    let info = BencodeType2::Dict(Vec::new());
    let map = vec![(b"info".to_vec(), info)];
    let incomplete_data = BencodeType2::Dict(map);
    let expected_err_msg = "Invalid input, metainfo dict missing the following key: announce";
    let res = Metainfo::new(incomplete_data);
    assert!(res.is_err_and(|msg| msg == expected_err_msg));
}

#[test]
fn return_error_if_dict_missing_info_key() {
    let announce = BencodeType2::ByteString(b"http://some.place.org:1234/announce".to_vec());
    let map = vec![(b"announce".to_vec(), announce)];
    let incomplete_data = BencodeType2::Dict(map);
    let expected_err_msg = "Invalid input, metainfo dict missing the following key: info";
    let res = Metainfo::new(incomplete_data);
    assert!(res.is_err_and(|msg| msg == expected_err_msg));
}

#[test]
fn return_error_if_announce_value_is_incorrect_decoded_variant() {
    let announce = BencodeType2::Integer(10);
    let info = BencodeType2::Dict(Vec::new());
    let map = vec![(b"announce".to_vec(), announce), (b"info".to_vec(), info)];
    let data = BencodeType2::Dict(map);
    let expected_err_msg =
        "Invalid input, the following key's value has an incorrect type: announce";
    let res = Metainfo::new(data);
    assert!(res.is_err_and(|msg| msg == expected_err_msg));
}

#[test]
fn return_error_if_info_value_is_incorrect_decoded_variant() {
    let announce = BencodeType2::ByteString(b"hello".to_vec());
    let info = BencodeType2::List(vec![]);
    let map = vec![(b"announce".to_vec(), announce), (b"info".to_vec(), info)];
    let data = BencodeType2::Dict(map);
    let expected_err_msg =
        "Invalid input, the following key's value has an incorrect type: info";
    let res = Metainfo::new(data);
    assert!(res.is_err_and(|msg| msg == expected_err_msg));
}

#[test]
fn return_error_if_info_dict_missing_name_key() {
    let data = BencodeType2::Dict(Vec::new());
    let expected_err_msg = "Invalid info dict, the following key is missing: name";
    let res = Info::new(data);
    assert!(res.is_err_and(|msg| msg == expected_err_msg));
}

#[test]
fn return_error_if_info_dict_missing_length_key() {
    let map = vec![(
        b"name".to_vec(),
        BencodeType2::ByteString(b"hello".to_vec()),
    )];
    let data = BencodeType2::Dict(map);
    let expected_err_msg = "Invalid info dict, the following key is missing: length";
    let res = Info::new(data);
    assert!(res.is_err_and(|msg| msg == expected_err_msg));
}

#[test]
fn return_error_if_info_dict_missing_piece_length_key() {
    let map = vec![
        (
            b"name".to_vec(),
            BencodeType2::ByteString(b"hello".to_vec()),
        ),
        (b"length".to_vec(), BencodeType2::Integer(64)),
    ];
    let data = BencodeType2::Dict(map);
    let expected_err_msg = "Invalid info dict, the following key is missing: piece length";
    let res = Info::new(data);
    assert!(res.is_err_and(|msg| msg == expected_err_msg));
}

#[test]
fn return_error_if_info_dict_missing_pieces_key() {
    let map = vec![
        (
            b"name".to_vec(),
            BencodeType2::ByteString(b"hello".to_vec()),
        ),
        (b"length".to_vec(), BencodeType2::Integer(64)),
        (b"piece length".to_vec(), BencodeType2::Integer(256)),
    ];
    let data = BencodeType2::Dict(map);
    let expected_err_msg = "Invalid info dict, the following key is missing: pieces";
    let res = Info::new(data);
    assert!(res.is_err_and(|msg| msg == expected_err_msg));
}

#[test]
fn get_expected_info_struct_from_valid_info_dict() {
    let name = b"hello";
    let length = 128;
    let piece_length = 64;
    let piece_hashes = piece_hashes();
    let map = vec![
        (b"name".to_vec(), BencodeType2::ByteString(name.to_vec())),
        (b"length".to_vec(), BencodeType2::Integer(length)),
        (
            b"piece length".to_vec(),
            BencodeType2::Integer(piece_length),
        ),
        (
            b"pieces".to_vec(),
            BencodeType2::ByteString(piece_hashes.clone()),
        ),
    ];
    let data = BencodeType2::Dict(map);
    let info = Info::new(data).unwrap();
    assert_eq!(info.name, std::str::from_utf8(name).unwrap());
    assert_eq!(info.length, usize::try_from(length).unwrap());
    assert_eq!(info.piece_length, usize::try_from(piece_length).unwrap());
    assert_eq!(info.pieces, piece_hashes);
}

#[test]
fn get_pieces_iterator_from_info_struct() {
    let name = b"hello";
    let length = 128;
    let piece_length = 64;
    let hello_sha1 =
        b"\xaa\xf4\xc6\x1d\xdc\xc5\xe8\xa2\xda\xbe\xde\x0f\x3b\x48\x2c\xd9\xae\xa9\x43\x4d";
    let goodbye_sha1 =
        b"\x3c\x8e\xc4\x87\x44\x88\xf6\x09\x0a\x15\x7b\x01\x4c\xe3\x39\x7c\xa8\xe0\x6d\x4f";
    let map = vec![
        (b"name".to_vec(), BencodeType2::ByteString(name.to_vec())),
        (b"length".to_vec(), BencodeType2::Integer(length)),
        (
            b"piece length".to_vec(),
            BencodeType2::Integer(piece_length),
        ),
        (b"pieces".to_vec(), BencodeType2::ByteString(piece_hashes())),
    ];
    let data = BencodeType2::Dict(map);
    let info = Info::new(data).unwrap();
    let pieces = info.pieces();
    assert_eq!(pieces.len(), 2);
    for (piece, expected_piece) in std::iter::zip([hello_sha1, goodbye_sha1], pieces) {
        assert_eq!(&piece[..], &expected_piece[..]);
    }
}

#[test]
fn pieces_leave_out_bytes_past_the_last_whole_hash() {
    let info = Info {
        name: "f".to_string(),
        length: 1,
        piece_length: 1,
        pieces: vec![3; 45],
    };
    let pieces = info.pieces();
    assert_eq!(pieces, vec![vec![3; 20], vec![3; 20]]);
}

#[test]
fn info_serialisation_produces_correct_bencode_type_dict_variant() {
    let name = b"hello";
    let length = 128;
    let piece_length = 64;
    let piece_hashes = piece_hashes();
    let info = Info {
        name: std::str::from_utf8(name).unwrap().to_string(),
        length,
        piece_length,
        pieces: piece_hashes.clone(),
    };
    let expected_pairs = vec![
        (
            b"length".to_vec(),
            BencodeType2::Integer(i64::try_from(length).unwrap()),
        ),
        (b"name".to_vec(), BencodeType2::ByteString(name.to_vec())),
        (
            b"piece length".to_vec(),
            BencodeType2::Integer(i64::try_from(piece_length).unwrap()),
        ),
        (b"pieces".to_vec(), BencodeType2::ByteString(piece_hashes)),
    ];
    let sorted_pairs = match info.serialise() {
        BencodeType2::Dict(map) => {
            let mut pairs = map.into_iter().collect::<Vec<_>>();
            pairs.sort_by_key(|pair| pair.0.clone());
            pairs
        }
        _ => panic!("Expected `Dict` variant"),
    };
    assert_eq!(expected_pairs, sorted_pairs);
}

#[test]
fn get_expected_metainfo_struct_from_valid_dict() {
    let announce = b"hello";
    let name = b"hello";
    let length = 128;
    let piece_length = 64;
    let info_map = vec![
        (b"name".to_vec(), BencodeType2::ByteString(name.to_vec())),
        (b"length".to_vec(), BencodeType2::Integer(length)),
        (
            b"piece length".to_vec(),
            BencodeType2::Integer(piece_length),
        ),
        (b"pieces".to_vec(), BencodeType2::ByteString(piece_hashes())),
    ];
    let metainfo_map = vec![
        (
            b"announce".to_vec(),
            BencodeType2::ByteString(announce.to_vec()),
        ),
        (b"info".to_vec(), BencodeType2::Dict(info_map)),
    ];
    let data = BencodeType2::Dict(metainfo_map);
    let metainfo = Metainfo::new(data).unwrap();
    assert_eq!(metainfo.announce, std::str::from_utf8(announce).unwrap());
}

#[test]
fn correct_info_hash_field_on_torrent_instance() {
    let expected_info_hash =
        b"\x4a\xce\x56\xd9\xa0\x97\xed\xc1\x00\x57\xbb\x70\xf9\xd7\x98\xd5\x48\x44\xc8\xe9";
    let announce = b"hello";
    let name = b"hello";
    let length = 128;
    let piece_length = 64;
    let info_map = vec![
        (b"name".to_vec(), BencodeType2::ByteString(name.to_vec())),
        (b"length".to_vec(), BencodeType2::Integer(length)),
        (
            b"piece length".to_vec(),
            BencodeType2::Integer(piece_length),
        ),
        (b"pieces".to_vec(), BencodeType2::ByteString(piece_hashes())),
    ];
    let metainfo_map = vec![
        (
            b"announce".to_vec(),
            BencodeType2::ByteString(announce.to_vec()),
        ),
        (b"info".to_vec(), BencodeType2::Dict(info_map)),
    ];
    let data = BencodeType2::Dict(metainfo_map);
    let metainfo = Metainfo::new(data).unwrap();

    let torrent = Torrent::new(metainfo, vec![]);
    assert_eq!(torrent.info_hash, expected_info_hash);
}

#[test]
fn info_hash_is_sha1_of_sorted_info_dict() {
    let info = Info {
        name: "hello".to_string(),
        length: 128,
        piece_length: 64,
        pieces: piece_hashes(),
    };
    let mut bencoded = b"d6:lengthi128e4:name5:hello12:piece lengthi64e6:pieces40:".to_vec();
    bencoded.extend_from_slice(&piece_hashes());
    bencoded.push(b'e');
    let expected = sha1_smol::Sha1::from(&bencoded[..]).digest().bytes().to_vec();
    assert_eq!(info_hash(&info), expected);
}
