//! Requests to the tracker and its responses.
use vstd::prelude::*;

use crate::digits::{is_digit, lemma_nat_text_digits, nat_text};
use crate::decode::{decode_checked, lemma_text_entry_models_index, text_value};
use crate::message::decimal_string;
use crate::parse::bytes_eq;
use crate::value::{BValue, Outcome, is_first_key, lemma_first_key_unique, lookup};
use crate::{BencodeType, text_entry_models};
use crate::text::{all_ascii, ascii_chars, ascii_string, lemma_decode_ascii};
use vstd::utf8::{decode_utf8_encode_utf8, encode_utf8, encode_scalar};

verus! {

/// Peer of the file.
#[derive(Debug, PartialEq, Eq, Clone, Copy)]
pub struct Peer {
    /// IPv4 address of the peer, most significant byte first.
    pub ip: [u8; 4],
    /// Port of the peer.
    pub port: u16,
}

/// Lowercase hexadecimal digit of a value below 16.
pub open spec fn hex_digit(d: nat) -> u8 {
    if d < 10 {
        (48 + d) as u8
    } else {
        (87 + d) as u8
    }
}

/// Each byte as `%` and two lowercase hexadecimal digits.
pub open spec fn percent_hex(bytes: Seq<u8>) -> Seq<u8>
    decreases bytes.len(),
{
    if bytes.len() == 0 {
        seq![]
    } else {
        percent_hex(bytes.drop_last()) + seq![
            37u8,
            hex_digit(bytes.last() as nat / 16),
            hex_digit(bytes.last() as nat % 16),
        ]
    }
}

/// The URL of a tracker request before its other query pairs: the tracker URL, then
/// `?info_hash=` and the info hash byte by byte as `%` and two lowercase hexadecimal digits.
pub open spec fn tracker_base_url(tracker_url: Seq<char>, info_hash: Seq<u8>) -> Seq<char> {
    tracker_url + "?info_hash="@ + ascii_chars(percent_hex(info_hash))
}

/// The query pairs of a tracker request after the info hash.
pub open spec fn tracker_query(peer_id: Seq<char>, port: u32, file_length: usize) -> Seq<
    (Seq<char>, Seq<char>),
> {
    seq![
        ("peer_id"@, peer_id),
        ("port"@, ascii_chars(nat_text(port as nat))),
        ("uploaded"@, "0"@),
        ("downloaded"@, "0"@),
        ("compact"@, "1"@),
        ("left"@, ascii_chars(nat_text(file_length as nat))),
    ]
}

/// The text of the URL that results from parsing `base` as an absolute URL and appending the
/// query pairs in order, form-urlencoded; `None` where `base` is not an absolute URL.
pub uninterp spec fn url_with_query(base: Seq<char>, pairs: Seq<(Seq<char>, Seq<char>)>) -> Option<Seq<char>>;

/// The views of string pairs.
pub open spec fn pair_views(pairs: Seq<(String, String)>) -> Seq<(Seq<char>, Seq<char>)> {
    pairs.map_values(|p: (String, String)| (p.0@, p.1@))
}

/// The length in bytes of the text of the pairs.
pub open spec fn pairs_len(pairs: Seq<(Seq<char>, Seq<char>)>) -> nat
    decreases pairs.len(),
{
    if pairs.len() == 0 {
        0
    } else {
        pairs_len(pairs.drop_last()) + encode_utf8(pairs.last().0).len() + encode_utf8(
            pairs.last().1,
        ).len()
    }
}

/// Parses `base` with `reqwest::Url::parse` (the `url` crate's `Url`), appends the pairs in
/// order with `query_pairs_mut().extend_pairs` (form-urlencoded, as `append_pair` does one by
/// one), and returns the URL's text (`Url::to_string`). The contract names the result: it
/// depends on `base` and the pairs alone, and is `None` exactly where parsing fails. Below
/// 4 GiB (the bound in `requires`, with room for the base to grow eightfold as it is parsed,
/// by percent-encoding or by encoding an international host name, and for the pairs to grow
/// threefold by percent-encoding), the crate does not panic on the offsets it keeps in `u32`s. Nothing more of the text
/// is stated: the URL standard's parsing takes pages.
#[verifier::external_body]
fn url_with_query_pairs(base: &str, pairs: &Vec<(String, String)>) -> (res: Option<String>)
    requires
        8 * encode_utf8(base@).len() + 3 * pairs_len(pair_views(pairs@)) + 2 * pairs@.len() < 0x1_0000_0000,
    ensures
        match res {
            Some(s) => url_with_query(base@, pair_views(pairs@)) == Some(s@),
            None => url_with_query(base@, pair_views(pairs@)) is None,
        },
{
    let mut url = reqwest::Url::parse(base).ok()?;
    url.query_pairs_mut().extend_pairs(pairs.iter().map(|(k, v)| (k.as_str(), v.as_str())));
    Some(url.to_string())
}

/// No character takes more than four bytes in UTF-8.
pub proof fn lemma_encode_len_bound(s: Seq<char>)
    ensures
        encode_utf8(s).len() <= 4 * s.len(),
    decreases s.len(),
{
    if s.len() > 0 {
        assert(encode_scalar(s[0] as u32).len() <= 4);
        lemma_encode_len_bound(s.drop_first());
    }
}

/// ASCII characters take a byte each.
pub proof fn lemma_encode_ascii(b: Seq<u8>)
    requires
        all_ascii(b),
    ensures
        encode_utf8(ascii_chars(b)) == b,
{
    lemma_decode_ascii(b);
    decode_utf8_encode_utf8(b);
}

proof fn lemma_nat_text_short(n: nat)
    requires
        n <= u64::MAX,
    ensures
        nat_text(n).len() <= 20,
        all_ascii(nat_text(n)),
{
    assert(pow10(20) == 100_000_000_000_000_000_000) by {
        reveal_with_fuel(pow10, 21);
    }
    lemma_nat_text_len(n, 20, 100_000_000_000_000_000_000);
    lemma_nat_text_digits(n);
    assert forall|i: int| 0 <= i < nat_text(n).len() implies #[trigger] nat_text(n)[i] < 128 by {
        assert(is_digit(nat_text(n)[i]));
    }
}

proof fn lemma_nat_text_len(n: nat, k: nat, bound: nat)
    requires
        k >= 1,
        n < bound,
        bound == pow10(k),
    ensures
        nat_text(n).len() <= k,
    decreases k,
{
    if n >= 10 {
        assert(k > 1) by {
            if k == 1 {
                assert(pow10(1) == 10) by {
                    assert(pow10(0) == 1);
                }
            }
        }
        assert(pow10(k) == 10 * pow10((k - 1) as nat));
        lemma_nat_text_len(n / 10, (k - 1) as nat, pow10((k - 1) as nat));
    }
}

/// Ten to the power `k`.
pub open spec fn pow10(k: nat) -> nat
    decreases k,
{
    if k == 0 {
        1
    } else {
        10 * pow10((k - 1) as nat)
    }
}

/// Whether a tracker request's URL stays far below the sizes at which the URL library fails.
pub open spec fn tracker_request_fits(tracker_url: Seq<char>, peer_id: Seq<char>, hash_len: nat) -> bool {
    encode_utf8(tracker_url).len() + 3 * hash_len + 3 * encode_utf8(peer_id).len() < 0x1000_0000
}

/// The percent-escaped hexadecimal text of the bytes.
fn push_percent_hex(out: &mut Vec<u8>, bytes: &[u8])
    ensures
        final(out)@ == old(out)@ + percent_hex(bytes@),
{
    let mut i: usize = 0;
    while i < bytes.len()
        invariant
            i <= bytes@.len(),
            out@ == old(out)@ + percent_hex(bytes@.take(i as int)),
        decreases bytes@.len() - i,
    {
        let b = bytes[i];
        let hi = b / 16;
        let lo = b % 16;
        out.push(37);
        out.push(if hi < 10 { 48 + hi } else { 87 + hi });
        out.push(if lo < 10 { 48 + lo } else { 87 + lo });
        proof {
            assert(bytes@.take(i + 1).drop_last() =~= bytes@.take(i as int));
            assert(out@ =~= old(out)@ + percent_hex(bytes@.take(i + 1)));
        }
        i = i + 1;
    }
    proof {
        assert(bytes@.take(bytes@.len() as int) =~= bytes@);
    }
}

proof fn lemma_percent_hex_ascii(bytes: Seq<u8>)
    ensures
        all_ascii(percent_hex(bytes)),
        percent_hex(bytes).len() == 3 * bytes.len(),
    decreases bytes.len(),
{
    if bytes.len() > 0 {
        lemma_percent_hex_ascii(bytes.drop_last());
        let p = percent_hex(bytes.drop_last());
        let q = percent_hex(bytes);
        assert forall|i: int| 0 <= i < q.len() implies #[trigger] q[i] < 128 by {
            if i < p.len() {
                assert(q[i] == p[i]);
            }
        }
    }
}

/// GET request to the tracker.
pub struct Request {
    /// URL of the GET request to the tracker.
    pub url: String,
}

impl Request {
    /// The request announcing the download of a file: the tracker URL with the info hash
    /// percent-escaped, then the peer ID, the port, nothing uploaded or downloaded yet, compact
    /// peer lists, and the whole file left.
    pub fn new(tracker_url: &str, peer_id: &str, port: u32, info_hash: Vec<u8>, file_length: usize) -> (res: Request)
        requires
            tracker_request_fits(tracker_url@, peer_id@, info_hash@.len()),
            url_with_query(
                tracker_base_url(tracker_url@, info_hash@),
                tracker_query(peer_id@, port, file_length),
            ) is Some,
        ensures
            url_with_query(
                tracker_base_url(tracker_url@, info_hash@),
                tracker_query(peer_id@, port, file_length),
            ) == Some(res.url@),
    {
        match Request::build(tracker_url, peer_id, port, &info_hash, file_length) {
            Some(r) => r,
            None => {
                proof {
                    assert(false);
                }
                Request { url: String::new() }
            },
        }
    }

    /// The request that [`Request::new`] makes, or `None` where the tracker URL with the info
    /// hash is not an absolute URL.
    pub fn try_new(tracker_url: &str, peer_id: &str, port: u32, info_hash: Vec<u8>, file_length: usize) -> (res: Option<Request>)
        requires
            tracker_request_fits(tracker_url@, peer_id@, info_hash@.len()),
        ensures
            match res {
                Some(r) => url_with_query(
                    tracker_base_url(tracker_url@, info_hash@),
                    tracker_query(peer_id@, port, file_length),
                ) == Some(r.url@),
                None => url_with_query(
                    tracker_base_url(tracker_url@, info_hash@),
                    tracker_query(peer_id@, port, file_length),
                ) is None,
            },
    {
        match Request::build(tracker_url, peer_id, port, &info_hash, file_length) {
            Some(_) => Some(Request::new(tracker_url, peer_id, port, info_hash, file_length)),
            None => None,
        }
    }

    fn build(tracker_url: &str, peer_id: &str, port: u32, info_hash: &Vec<u8>, file_length: usize) -> (res: Option<Request>)
        requires
            tracker_request_fits(tracker_url@, peer_id@, info_hash@.len()),
        ensures
            match res {
                Some(r) => url_with_query(
                    tracker_base_url(tracker_url@, info_hash@),
                    tracker_query(peer_id@, port, file_length),
                ) == Some(r.url@),
                None => url_with_query(
                    tracker_base_url(tracker_url@, info_hash@),
                    tracker_query(peer_id@, port, file_length),
                ) is None,
            },
    {
        let mut hex: Vec<u8> = Vec::new();
        push_percent_hex(&mut hex, info_hash.as_slice());
        proof {
            lemma_percent_hex_ascii(info_hash@);
            assert(hex@ =~= percent_hex(info_hash@));
        }
        let mut base = tracker_url.to_string();
        base.append("?info_hash=");
        base.append(ascii_string(hex.as_slice()).as_str());
        let mut pairs: Vec<(String, String)> = Vec::new();
        pairs.push(("peer_id".to_string(), peer_id.to_string()));
        pairs.push(("port".to_string(), decimal_string(port as u64)));
        pairs.push(("uploaded".to_string(), "0".to_string()));
        pairs.push(("downloaded".to_string(), "0".to_string()));
        pairs.push(("compact".to_string(), "1".to_string()));
        pairs.push(("left".to_string(), decimal_string(file_length as u64)));
        proof {
            assert(pair_views(pairs@) =~= tracker_query(peer_id@, port, file_length));
            assert(base@ =~= tracker_base_url(tracker_url@, info_hash@));
            lemma_request_size(tracker_url@, peer_id@, info_hash@, port, file_length);
        }
        match url_with_query_pairs(base.as_str(), &pairs) {
            Some(url) => Some(Request { url }),
            None => None,
        }
    }
}

proof fn lemma_request_size(tracker_url: Seq<char>, peer_id: Seq<char>, info_hash: Seq<u8>, port: u32, file_length: usize)
    requires
        tracker_request_fits(tracker_url, peer_id, info_hash.len()),
    ensures
        8 * encode_utf8(tracker_base_url(tracker_url, info_hash)).len() + 3 * pairs_len(tracker_query(peer_id, port, file_length)) + 2 * 6 < 0x1_0000_0000,
{
    reveal_strlit("?info_hash=");
    reveal_strlit("peer_id");
    reveal_strlit("port");
    reveal_strlit("uploaded");
    reveal_strlit("downloaded");
    reveal_strlit("compact");
    reveal_strlit("left");
    reveal_strlit("0");
    reveal_strlit("1");
    lemma_percent_hex_ascii(info_hash);
    lemma_encode_ascii(percent_hex(info_hash));
    lemma_encode_concat(tracker_url, "?info_hash="@);
    lemma_encode_concat(tracker_url + "?info_hash="@, ascii_chars(percent_hex(info_hash)));
    lemma_encode_len_bound("?info_hash="@);
    lemma_nat_text_short(port as nat);
    lemma_nat_text_short(file_length as nat);
    lemma_encode_ascii(nat_text(port as nat));
    lemma_encode_ascii(nat_text(file_length as nat));
    lemma_encode_len_bound("peer_id"@);
    lemma_encode_len_bound("port"@);
    lemma_encode_len_bound("uploaded"@);
    lemma_encode_len_bound("downloaded"@);
    lemma_encode_len_bound("compact"@);
    lemma_encode_len_bound("left"@);
    lemma_encode_len_bound("0"@);
    lemma_encode_len_bound("1"@);
    let q = tracker_query(peer_id, port, file_length);
    assert(q.drop_last().drop_last().drop_last().drop_last().drop_last().drop_last().len() == 0);
    reveal_with_fuel(pairs_len, 7);
}

/// The UTF-8 bytes of joined strings are the strings' bytes joined.
pub proof fn lemma_encode_concat(a: Seq<char>, b: Seq<char>)
    ensures
        encode_utf8(a + b) == encode_utf8(a) + encode_utf8(b),
    decreases a.len(),
{
    if a.len() == 0 {
        assert(a + b =~= b);
        assert(encode_utf8(a) + encode_utf8(b) =~= encode_utf8(b));
    } else {
        assert((a + b).drop_first() =~= a.drop_first() + b);
        assert((a + b)[0] == a[0]);
        lemma_encode_concat(a.drop_first(), b);
        assert(encode_utf8(a + b) =~= encode_utf8(a) + encode_utf8(b));
    }
}

/// The value of a hexadecimal digit, either case.
pub open spec fn hex_value(c: u8) -> Option<nat> {
    if 48 <= c <= 57 {
        Some((c - 48) as nat)
    } else if 97 <= c <= 102 {
        Some((c - 87) as nat)
    } else if 65 <= c <= 70 {
        Some((c - 55) as nat)
    } else {
        None
    }
}

/// The value of hexadecimal digits, all of them valid.
pub open spec fn hex_digits_value(s: Seq<u8>) -> Option<nat>
    decreases s.len(),
{
    if s.len() == 0 {
        Some(0)
    } else {
        match (hex_digits_value(s.drop_last()), hex_value(s.last())) {
            (Some(a), Some(d)) => Some(a * 16 + d),
            _ => None,
        }
    }
}

/// An unsigned number in hexadecimal as the standard library reads it: an optional `+`, then
/// one hexadecimal digit or more.
pub open spec fn radix16(s: Seq<u8>) -> Option<nat> {
    let digits = if s.len() > 0 && s[0] == 43u8 { s.drop_first() } else { s };
    if digits.len() == 0 {
        None
    } else {
        hex_digits_value(digits)
    }
}

/// Whether `b[p..p + 12]` describes a peer: four pairs of characters that read as the bytes of
/// the IP address, then four characters that read as the port.
pub open spec fn peer_readable(b: Seq<u8>, p: int) -> bool {
    &&& radix16(b.subrange(p, p + 2)) is Some
    &&& radix16(b.subrange(p + 2, p + 4)) is Some
    &&& radix16(b.subrange(p + 4, p + 6)) is Some
    &&& radix16(b.subrange(p + 6, p + 8)) is Some
    &&& radix16(b.subrange(p + 8, p + 12)) is Some
}

/// The peer that `b[p..p + 12]` describes.
pub open spec fn peer_described(peer: Peer, b: Seq<u8>, p: int) -> bool {
    &&& radix16(b.subrange(p, p + 2)) == Some(peer.ip[0] as nat)
    &&& radix16(b.subrange(p + 2, p + 4)) == Some(peer.ip[1] as nat)
    &&& radix16(b.subrange(p + 4, p + 6)) == Some(peer.ip[2] as nat)
    &&& radix16(b.subrange(p + 6, p + 8)) == Some(peer.ip[3] as nat)
    &&& radix16(b.subrange(p + 8, p + 12)) == Some(peer.port as nat)
}

/// Whether the compact peer list reads as peers: twelve characters per peer.
pub open spec fn peers_readable(b: Seq<u8>) -> bool {
    &&& b.len() % 12 == 0
    &&& forall|k: int| 0 <= k < b.len() / 12 ==> peer_readable(b, #[trigger] (12 * k))
}

proof fn lemma_hex_digits_bound(s: Seq<u8>)
    ensures
        hex_digits_value(s) matches Some(v) ==> v < pow16(s.len()),
    decreases s.len(),
{
    if s.len() > 0 {
        lemma_hex_digits_bound(s.drop_last());
        assert(pow16(s.len()) == 16 * pow16((s.len() - 1) as nat));
        if let Some(a) = hex_digits_value(s.drop_last()) {
            assert(a * 16 + 15 < 16 * pow16((s.len() - 1) as nat)) by (nonlinear_arith)
                requires
                    a < pow16((s.len() - 1) as nat),
            ;
        }
    }
}

/// Sixteen to the power `k`.
pub open spec fn pow16(k: nat) -> nat
    decreases k,
{
    if k == 0 {
        1
    } else {
        16 * pow16((k - 1) as nat)
    }
}

/// Reads the hexadecimal number in `b[start..end]` as the standard library's `from_str_radix`
/// reads an unsigned number: `None` where it is not one.
fn read_radix16(b: &[u8], start: usize, end: usize) -> (res: Option<u16>)
    requires
        start <= end <= b@.len(),
        end - start <= 4,
    ensures
        match res {
            Some(v) => radix16(b@.subrange(start as int, end as int)) == Some(v as nat),
            None => radix16(b@.subrange(start as int, end as int)) is None,
        },
{
    let ghost s = b@.subrange(start as int, end as int);
    let mut i = start;
    if i < end && b[i] == 43 {
        i = i + 1;
    }
    let ghost digits = b@.subrange(i as int, end as int);
    proof {
        if s.len() > 0 && s[0] == 43u8 {
            assert(s.drop_first() =~= digits);
        } else {
            assert(s =~= digits);
        }
    }
    if i == end {
        return None;
    }
    let first = i;
    let mut value: u16 = 0;
    while i < end
        invariant
            first <= i <= end,
            end - first <= 4,
            end <= b@.len(),
            digits == b@.subrange(first as int, end as int),
            radix16(b@.subrange(start as int, end as int)) == hex_digits_value(digits),
            hex_digits_value(b@.subrange(first as int, i as int)) == Some(value as nat),
        decreases end - i,
    {
        let c = b[i];
        let d: u16 = if 48 <= c && c <= 57 {
            (c - 48) as u16
        } else if 97 <= c && c <= 102 {
            (c - 87) as u16
        } else if 65 <= c && c <= 70 {
            (c - 55) as u16
        } else {
            proof {
                let t = b@.subrange(first as int, i + 1);
                assert(t.drop_last() =~= b@.subrange(first as int, i as int));
                lemma_hex_digits_none_extends(b@, first as int, i + 1, end as int);
            }
            return None;
        };
        proof {
            let t = b@.subrange(first as int, i + 1);
            assert(t.drop_last() =~= b@.subrange(first as int, i as int));
            lemma_hex_digits_bound(t);
            assert(pow16(4) == 65536) by {
                reveal_with_fuel(pow16, 5);
            }
            lemma_pow16_monotone(t.len(), 4);
        }
        value = value * 16 + d;
        i = i + 1;
    }
    proof {
        assert(b@.subrange(first as int, end as int) =~= digits);
    }
    Some(value)
}

proof fn lemma_pow16_monotone(a: nat, b: nat)
    requires
        a <= b,
    ensures
        pow16(a) <= pow16(b),
    decreases b,
{
    if a < b {
        lemma_pow16_monotone(a, (b - 1) as nat);
    }
}

/// Once a non-digit has been met, the digits read no further.
proof fn lemma_hex_digits_none_extends(s: Seq<u8>, first: int, i: int, end: int)
    requires
        0 <= first < i <= end <= s.len(),
        hex_digits_value(s.subrange(first, i)) is None,
    ensures
        hex_digits_value(s.subrange(first, end)) is None,
    decreases end - i,
{
    if i < end {
        let t = s.subrange(first, i + 1);
        assert(t.drop_last() =~= s.subrange(first, i));
        lemma_hex_digits_none_extends(s, first, i + 1, end);
    }
}

/// Reads the peer described by `b[p..p + 12]`, if those characters describe one.
fn read_peer(b: &[u8], p: usize) -> (res: Option<Peer>)
    requires
        p + 12 <= b@.len(),
    ensures
        match res {
            Some(peer) => peer_readable(b@, p as int) && peer_described(peer, b@, p as int),
            None => !peer_readable(b@, p as int),
        },
{
    let _n = b.len();
    let a = read_radix16(b, p, p + 2);
    let c = read_radix16(b, p + 2, p + 4);
    let d = read_radix16(b, p + 4, p + 6);
    let e = read_radix16(b, p + 6, p + 8);
    let port = read_radix16(b, p + 8, p + 12);
    proof {
        lemma_radix16_bound(b@.subrange(p as int, p + 2));
        lemma_radix16_bound(b@.subrange(p + 2, p + 4));
        lemma_radix16_bound(b@.subrange(p + 4, p + 6));
        lemma_radix16_bound(b@.subrange(p + 6, p + 8));
    }
    match (a, c, d, e, port) {
        (Some(a), Some(c), Some(d), Some(e), Some(port)) => Some(
            Peer { ip: [a as u8, c as u8, d as u8, e as u8], port },
        ),
        _ => None,
    }
}

proof fn lemma_radix16_bound(s: Seq<u8>)
    requires
        s.len() == 2,
    ensures
        radix16(s) matches Some(v) ==> v < 256,
{
    let digits = if s.len() > 0 && s[0] == 43u8 { s.drop_first() } else { s };
    lemma_hex_digits_bound(digits);
    assert(pow16(2) == 256) by {
        reveal_with_fuel(pow16, 3);
    }
    lemma_pow16_monotone(digits.len(), 2);
}

/// Reads a compact peer list, twelve characters per peer, if it is one.
fn read_peers(b: &[u8]) -> (res: Option<Vec<Peer>>)
    ensures
        match res {
            Some(peers) => peers_readable(b@) && peers@.len() == b@.len() / 12 && forall|k: int|
                0 <= k < peers@.len() ==> peer_described(#[trigger] peers@[k], b@, 12 * k),
            None => !peers_readable(b@),
        },
{
    if b.len() % 12 != 0 {
        return None;
    }
    let mut peers: Vec<Peer> = Vec::new();
    let mut idx: usize = 0;
    while idx < b.len()
        invariant
            idx <= b@.len(),
            idx % 12 == 0,
            b@.len() % 12 == 0,
            peers@.len() == idx / 12,
            forall|k: int| 0 <= k < peers@.len() ==> peer_readable(b@, #[trigger] (12 * k)),
            forall|k: int| 0 <= k < peers@.len() ==> peer_described(#[trigger] peers@[k], b@, 12 * k),
        decreases b@.len() - idx,
    {
        let ghost k = idx as int / 12;
        assert(12 * k == idx);
        match read_peer(b, idx) {
            Some(peer) => {
                peers.push(peer);
                proof {
                    assert forall|j: int| 0 <= j < peers@.len() implies peer_readable(b@, #[trigger] (12 * j)) by {
                        if j < k {
                        } else {
                            assert(j == k);
                        }
                    }
                    assert forall|j: int| 0 <= j < peers@.len() implies peer_described(#[trigger] peers@[j], b@, 12 * j) by {
                        if j < k {
                        } else {
                            assert(j == k);
                        }
                    }
                }
            },
            None => {
                proof {
                    assert(!peer_readable(b@, 12 * k));
                    assert(0 <= k < b@.len() / 12);
                }
                return None;
            },
        }
        idx = idx + 12;
    }
    Some(peers)
}

/// Reads a compact peer list, twelve characters per peer.
pub fn parse_peers(b: &[u8]) -> (res: Vec<Peer>)
    requires
        peers_readable(b@),
    ensures
        res@.len() == b@.len() / 12,
        forall|k: int| 0 <= k < res@.len() ==> peer_described(#[trigger] res@[k], b@, 12 * k),
{
    match read_peers(b) {
        Some(peers) => peers,
        None => {
            proof {
                assert(false);
            }
            Vec::new()
        },
    }
}

/// The key `failure`.
pub open spec fn failure_key() -> Seq<u8> {
    seq![102u8, 97u8, 105u8, 108u8, 117u8, 114u8, 101u8]
}

/// The key `interval`.
pub open spec fn interval_key() -> Seq<u8> {
    seq![105u8, 110u8, 116u8, 101u8, 114u8, 118u8, 97u8, 108u8]
}

/// The key `peers`.
pub open spec fn peers_key() -> Seq<u8> {
    seq![112u8, 101u8, 101u8, 114u8, 115u8]
}

/// Response from the tracker.
pub enum Response {
    /// Failed query, with the reason the tracker gave.
    Failure(String),
    /// Successful query.
    Success {
        /// Interval (in seconds) at which to reconnect to the tracker to refresh the peer list.
        interval: usize,
        /// Peers of the file reported by the tracker.
        peers: Vec<Peer>,
    },
}

/// Whether the bencoded text `t` reads as a tracker response: a dictionary that either has a
/// `failure` string, or has no `failure` key, an integer `interval` and a `peers` string that
/// reads as a compact peer list.
pub open spec fn response_readable(t: Seq<u8>) -> bool {
    text_value(t, 0) matches Outcome::Parsed(BValue::Dict(e), _) && match lookup(e, failure_key()) {
        Some(f) => f is Bytes,
        None => lookup(e, interval_key()) matches Some(BValue::Int(_)) && lookup(e, peers_key())
            matches Some(BValue::Bytes(p)) && peers_readable(p),
    }
}

/// Whether `r` is the response that the bencoded text `t` reads as.
pub open spec fn response_of(r: Response, t: Seq<u8>) -> bool {
    text_value(t, 0) matches Outcome::Parsed(BValue::Dict(e), _) && match r {
        Response::Failure(msg) => lookup(e, failure_key()) == Some(BValue::Bytes(encode_utf8(msg@))),
        Response::Success { interval, peers } => {
            &&& lookup(e, failure_key()) is None
            &&& lookup(e, interval_key()) matches Some(BValue::Int(i)) && interval == i as usize
            &&& lookup(e, peers_key()) matches Some(BValue::Bytes(p)) && peers@.len() == p.len() / 12
                && forall|k: int| 0 <= k < peers@.len() ==> peer_described(#[trigger] peers@[k], p, 12 * k)
        },
    }
}

fn key_bytes(which: u8) -> (res: Vec<u8>)
    ensures
        which == 0 ==> res@ == failure_key(),
        which == 1 ==> res@ == interval_key(),
        which != 0 && which != 1 ==> res@ == peers_key(),
{
    let res = if which == 0 {
        vec![102u8, 97u8, 105u8, 108u8, 117u8, 114u8, 101u8]
    } else if which == 1 {
        vec![105u8, 110u8, 116u8, 101u8, 114u8, 118u8, 97u8, 108u8]
    } else {
        vec![112u8, 101u8, 101u8, 114u8, 115u8]
    };
    proof {
        if which == 0 {
            assert(res@ =~= failure_key());
        } else if which == 1 {
            assert(res@ =~= interval_key());
        } else {
            assert(res@ =~= peers_key());
        }
    }
    res
}

/// The position of the first entry whose key has the given UTF-8 bytes, if there is one.
fn find_text_key(entries: &Vec<(String, BencodeType)>, key: &[u8]) -> (res: Option<usize>)
    ensures
        match res {
            Some(i) => i < entries@.len() && lookup(text_entry_models(entries@), key@) == Some(
                entries@[i as int].1.model(),
            ),
            None => lookup(text_entry_models(entries@), key@) is None,
        },
{
    proof {
        lemma_text_entry_models_index(entries@);
    }
    let ghost m = text_entry_models(entries@);
    let mut i: usize = 0;
    while i < entries.len()
        invariant
            i <= entries@.len(),
            m == text_entry_models(entries@),
            m.len() == entries@.len(),
            forall|j: int| 0 <= j < entries@.len() ==> #[trigger] m[j] == (encode_utf8(entries@[j].0@), entries@[j].1.model()),
            forall|j: int| 0 <= j < i ==> (#[trigger] m[j]).0 != key@,
        decreases entries@.len() - i,
    {
        if bytes_eq(entries[i].0.as_str().as_bytes(), key) {
            proof {
                assert(is_first_key(m, key@, i as int));
                lemma_first_key_unique(m, key@, i as int);
            }
            return Some(i);
        }
        i = i + 1;
    }
    None
}

impl Response {
    /// Reads the tracker's bencoded response, if it reads as one.
    pub fn try_deserialise(data: &str) -> (res: Option<Response>)
        ensures
            match res {
                Some(r) => response_readable(encode_utf8(data@)) && response_of(r, encode_utf8(data@)),
                None => !response_readable(encode_utf8(data@)),
            },
    {
        let entries = match decode_checked(data) {
            Some(BencodeType::Dict(entries)) => entries,
            _ => {
                return None;
            },
        };
        if let Some(i) = find_text_key(&entries, key_bytes(0).as_slice()) {
            return match &entries[i].1 {
                BencodeType::ByteString(msg) => Some(Response::Failure(msg.as_str().to_string())),
                _ => None,
            };
        }
        let interval = match find_text_key(&entries, key_bytes(1).as_slice()) {
            Some(i) => match &entries[i].1 {
                BencodeType::Integer(value) => *value as usize,
                _ => {
                    return None;
                },
            },
            None => {
                return None;
            },
        };
        let peers = match find_text_key(&entries, key_bytes(2).as_slice()) {
            Some(i) => match &entries[i].1 {
                BencodeType::ByteString(peer_data) => match read_peers(peer_data.as_str().as_bytes()) {
                    Some(peers) => peers,
                    None => {
                        return None;
                    },
                },
                _ => {
                    return None;
                },
            },
            None => {
                return None;
            },
        };
        Some(Response::Success { interval, peers })
    }

    /// Reads the tracker's bencoded response.
    pub fn deserialise(data: &str) -> (res: Response)
        requires
            response_readable(encode_utf8(data@)),
        ensures
            response_of(res, encode_utf8(data@)),
    {
        match Response::try_deserialise(data) {
            Some(r) => r,
            None => {
                proof {
                    assert(false);
                }
                Response::Failure(String::new())
            },
        }
    }
}


/// The two lowercase hexadecimal digits of a byte, most significant first.
pub open spec fn hex_pair(b: u8) -> Seq<u8> {
    seq![hex_digit(b as nat / 16), hex_digit(b as nat % 16)]
}

/// Every digit value reads back from its lowercase digit (as the peer list and escaped info hash
/// write it) and, for the letters, from its uppercase digit; a byte that reads as a digit is one
/// of those two forms of its value, and every byte's two digits read back as the byte.
pub proof fn lemma_hex_digits_read_back(d: nat, c: u8, b: u8)
    ensures
        d < 16 ==> hex_value(hex_digit(d)) == Some(d),
        10 <= d < 16 ==> hex_value((hex_digit(d) - 32) as u8) == Some(d),
        hex_value(c) matches Some(v) ==> v < 16 && (c == hex_digit(v) || (10 <= v && c + 32 == hex_digit(v))),
        radix16(hex_pair(b)) == Some(b as nat),
{
    let p = hex_pair(b);
    let hi = b as nat / 16;
    let lo = b as nat % 16;
    assert(hex_value(hex_digit(hi)) == Some(hi));
    assert(hex_value(hex_digit(lo)) == Some(lo));
    assert(p.drop_last() =~= seq![hex_digit(hi)]);
    assert(p.drop_last().drop_last() =~= Seq::<u8>::empty());
    assert(hex_digits_value(Seq::<u8>::empty()) == Some(0nat));
    assert(hex_digits_value(p.drop_last()) == Some(hi));
    assert(hex_digits_value(p) == Some(hi * 16 + lo));
    assert(hi * 16 + lo == b as nat);
    assert(p[0] != 43u8);
}


/// A peer in the compact form the tracker sends: the four bytes of its address, then the two
/// bytes of its port, most significant first, each byte as two lowercase hexadecimal digits.
pub open spec fn peer_text(peer: Peer) -> Seq<u8> {
    hex_pair(peer.ip[0]) + hex_pair(peer.ip[1]) + hex_pair(peer.ip[2]) + hex_pair(peer.ip[3])
        + hex_pair((peer.port / 256) as u8) + hex_pair((peer.port % 256) as u8)
}

/// The compact form of a peer reads back as that peer.
pub proof fn lemma_peer_text_reads_back(peer: Peer)
    ensures
        peer_readable(peer_text(peer), 0),
        peer_described(peer, peer_text(peer), 0),
{
    let t = peer_text(peer);
    let hi = (peer.port / 256) as u8;
    let lo = (peer.port % 256) as u8;
    lemma_hex_digits_read_back(0, 0, peer.ip[0]);
    lemma_hex_digits_read_back(0, 0, peer.ip[1]);
    lemma_hex_digits_read_back(0, 0, peer.ip[2]);
    lemma_hex_digits_read_back(0, 0, peer.ip[3]);
    assert(t.subrange(0, 2) =~= hex_pair(peer.ip[0]));
    assert(t.subrange(2, 4) =~= hex_pair(peer.ip[1]));
    assert(t.subrange(4, 6) =~= hex_pair(peer.ip[2]));
    assert(t.subrange(6, 8) =~= hex_pair(peer.ip[3]));
    let q = t.subrange(8, 12);
    assert(q =~= hex_pair(hi) + hex_pair(lo));
    let d0 = hex_digit(hi as nat / 16);
    let d1 = hex_digit(hi as nat % 16);
    let d2 = hex_digit(lo as nat / 16);
    let d3 = hex_digit(lo as nat % 16);
    lemma_hex_digits_read_back(hi as nat / 16, 0, 0);
    lemma_hex_digits_read_back(hi as nat % 16, 0, 0);
    lemma_hex_digits_read_back(lo as nat / 16, 0, 0);
    lemma_hex_digits_read_back(lo as nat % 16, 0, 0);
    assert(q.drop_last().drop_last().drop_last().drop_last() =~= Seq::<u8>::empty());
    assert(q.drop_last().drop_last().drop_last() =~= seq![d0]);
    assert(q.drop_last().drop_last() =~= seq![d0, d1]);
    assert(q.drop_last() =~= seq![d0, d1, d2]);
    assert(hex_digits_value(Seq::<u8>::empty()) == Some(0nat));
    assert(hex_digits_value(seq![d0]) == Some(hi as nat / 16));
    assert(hex_digits_value(seq![d0, d1]) == Some(hi as nat));
    assert(hex_digits_value(seq![d0, d1, d2]) == Some(hi as nat * 16 + lo as nat / 16));
    assert(hex_digits_value(q) == Some(peer.port as nat)) by {
        assert((hi as nat * 16 + lo as nat / 16) * 16 + lo as nat % 16 == hi as nat * 256 + lo as nat);
    }
    assert(q[0] != 43u8);
}

} // verus!
