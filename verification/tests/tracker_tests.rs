use bittorrent_client::download::tracker_request;
use bittorrent_client::metainfo::{Info, Metainfo};
use bittorrent_client::tracker::{parse_peers, Peer, Request, Response};

const INTERVAL_KEY: &str = "interval";
const PEERS_KEY: &str = "peers";

#[test]
fn parse_peer() {
    let ip = [0xC0, 0x00, 0x02, 0x7B]; // 192.0.2.123
    let port_bytes_network_order = [0x1A, 0xE1]; // 6881
    let peers_data = format!(
        "{:02x}{:02x}{:02x}{:02x}{:02x}{:02x}",
        ip[0], ip[1], ip[2], ip[3], port_bytes_network_order[0], port_bytes_network_order[1]
    );
    let expected_peer = Peer {
        ip: [ip[0], ip[1], ip[2], ip[3]],
        port: u16::from_be_bytes(port_bytes_network_order),
    };
    let peers = parse_peers(peers_data.as_bytes());
    assert_eq!(peers, vec![expected_peer]);
}

#[test]
fn parse_peers_reads_uppercase_digits_and_a_plus_sign() {
    let peers = parse_peers(b"7F00+1FF1AE1");
    assert_eq!(peers, vec![Peer { ip: [0x7F, 0x00, 0x01, 0xFF], port: 6881 }]);
}

#[test]
fn create_success_variant_from_successful_response() {
    let interval_value = 900;
    let peer_one_ip = [0xC0, 0x00, 0x02, 0x7B]; // 192.0.2.123
    let peer_two_ip = [0xC0, 0x00, 0x02, 0x7C]; // 192.0.2.124
    let port_bytes_network_order = [0x1A, 0xE1]; // 6881
    let mut peers_data = Vec::new();
    for ip in [peer_one_ip, peer_two_ip] {
        peers_data.push(format!(
            "{:02x}{:02x}{:02x}{:02x}{:02x}{:02x}",
            ip[0],
            ip[1],
            ip[2],
            ip[3],
            port_bytes_network_order[0],
            port_bytes_network_order[1]
        ));
    }
    let peers_data = peers_data.join("");
    let bencoded_data = format!(
        "d{}:{}i{}e{}:{}{}:{}e",
        INTERVAL_KEY.len(),
        INTERVAL_KEY,
        interval_value,
        PEERS_KEY.len(),
        PEERS_KEY,
        peers_data.len(),
        peers_data
    );
    let response = Response::deserialise(&bencoded_data);
    match response {
        Response::Success { interval, peers } => {
            assert_eq!(interval_value, TryInto::<i64>::try_into(interval).unwrap());
            assert_eq!(2, peers.len());
        }
        _ => panic!("Expected successful response"),
    }
}

#[test]
fn create_error_variant_from_failure_response() {
    let key = "failure";
    let value = "Some reason for query failure";
    let bencoded_data = format!("d{}:{}{}:{}e", key.len(), key, value.len(), value);
    let response = Response::deserialise(&bencoded_data);
    match response {
        Response::Failure(msg) => assert_eq!(msg, value),
        _ => panic!("Expected failure response"),
    }
}

#[test]
fn try_deserialise_refuses_responses_it_cannot_read() {
    assert!(Response::try_deserialise("i3e").is_none());
    assert!(Response::try_deserialise("d7:failurei3ee").is_none());
    assert!(Response::try_deserialise("d8:intervali9e5:peers3:abce").is_none());
    assert!(Response::try_deserialise("d5:peers0:e").is_none());
    match Response::try_deserialise("d8:intervali9e5:peers0:e") {
        Some(Response::Success { interval, peers }) => {
            assert_eq!(interval, 9);
            assert!(peers.is_empty());
        }
        _ => panic!("Expected successful response"),
    }
}

#[test]
fn creating_tracker_request_produces_expected_url_for_get_request() {
    let tracker_url = "http://a.b.org:1234/announce";
    let info_hash = (0x00..0x14).collect::<Vec<u8>>();
    let port = 6881;
    let file_length = 128;
    let request = Request::new(
        tracker_url,
        bittorrent_client::PEER_ID,
        port,
        info_hash.clone(),
        file_length,
    );

    let info_hash_str = info_hash
        .iter()
        .map(|byte| format!("%{:02x}", byte))
        .collect::<Vec<String>>()
        .join("");
    let mut string_url = tracker_url.to_string();
    string_url.push_str("?info_hash=");
    string_url.push_str(&info_hash_str);
    let mut expected_url = reqwest::Url::parse(&string_url).unwrap();
    expected_url
        .query_pairs_mut()
        .append_pair("peer_id", bittorrent_client::PEER_ID)
        .append_pair("port", &port.to_string())
        .append_pair("uploaded", &0.to_string())
        .append_pair("downloaded", &0.to_string())
        .append_pair("compact", &1.to_string())
        .append_pair("left", &file_length.to_string());
    assert_eq!(request.url, expected_url.to_string());
}

#[test]
fn tracker_request_url_spelled_out() {
    let request = Request::new("http://t.example/ann", "-ABC123-abcd12345678", 6881, vec![0xAB, 0x01], 128);
    assert_eq!(
        request.url,
        "http://t.example/ann?info_hash=%ab%01&peer_id=-ABC123-abcd12345678&port=6881&uploaded=0&downloaded=0&compact=1&left=128"
    );
}

#[test]
fn try_new_refuses_a_relative_tracker_url() {
    assert!(Request::try_new("not a url", "-ABC123-abcd12345678", 6881, vec![1; 20], 5).is_none());
}

#[test]
fn tracker_request_announces_the_info_hash_of_the_file() {
    let metainfo = Metainfo {
        announce: "http://tracker.example:6969/announce".to_string(),
        info: Info {
            name: "file".to_string(),
            length: 128,
            piece_length: 64,
            pieces: vec![0; 40],
        },
    };
    let request = tracker_request(&metainfo).unwrap();
    let hash = bittorrent_client::torrent::info_hash(&metainfo.info);
    let escaped: String = hash.iter().map(|b| format!("%{:02x}", b)).collect();
    let expected = format!(
        "http://tracker.example:6969/announce?info_hash={}&peer_id=-ABC123-abcd12345678&port=6881&uploaded=0&downloaded=0&compact=1&left=128",
        escaped
    );
    assert_eq!(request.url, expected);
}
