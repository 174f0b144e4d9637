//! A BitTorrent client library: bencode parsing and serialisation, the peer wire protocol,
//! tracker requests and responses, and the bookkeeping of a piece download.
use vstd::prelude::*;

pub mod digits;
pub mod value;
pub mod text;
pub mod message;
pub mod handshake;
pub mod metainfo;
pub mod hash;
pub mod torrent;
pub mod tracker;
pub mod parse;
pub mod decode;
pub mod encode;
pub mod serialise;
pub mod laws_bencode;
pub mod work;
pub mod piece;
pub mod worker;
pub mod client;
pub mod download;
pub mod serde_bencode;

verus! {

/// A bencoded value whose byte strings are text.
///
/// A dictionary holds its entries in a vector, in the order in which their keys first appeared.
/// What [`decode`](crate::decode::decode) returns has each key at most once in every dictionary (see
/// [`well_keyed`](crate::value::well_keyed)).
#[derive(Debug, PartialEq)]
pub enum BencodeType {
    Integer(i64),
    ByteString(String),
    List(Vec<BencodeType>),
    Dict(Vec<(String, BencodeType)>),
}

impl BencodeType {
    /// The value this one stands for, each string taken as its UTF-8 bytes.
    pub open spec fn model(&self) -> value::BValue
        decreases self,
    {
        match self {
            BencodeType::Integer(i) => value::BValue::Int(*i as int),
            BencodeType::ByteString(s) => value::BValue::Bytes(vstd::utf8::encode_utf8(s@)),
            BencodeType::List(items) => value::BValue::List(text_models(items@)),
            BencodeType::Dict(entries) => value::BValue::Dict(text_entry_models(entries@)),
        }
    }
}

/// The models of a sequence of values.
pub open spec fn text_models(s: Seq<BencodeType>) -> Seq<value::BValue>
    decreases s,
{
    if s.len() == 0 {
        seq![]
    } else {
        text_models(s.drop_last()).push(s.last().model())
    }
}

/// The models of a sequence of dictionary entries, keys taken as their UTF-8 bytes.
pub open spec fn text_entry_models(s: Seq<(String, BencodeType)>) -> Seq<(Seq<u8>, value::BValue)>
    decreases s,
{
    if s.len() == 0 {
        seq![]
    } else {
        text_entry_models(s.drop_last()).push(
            (vstd::utf8::encode_utf8(s.last().0@), s.last().1.model()),
        )
    }
}

/// Length in bytes of a serialised handshake.
pub const HANDSHAKE_BYTES_LEN: usize = 68;

/// The peer ID this client announces.
pub const PEER_ID: &'static str = "-ABC123-abcd12345678";

/// The protocol identifier of the handshake.
pub const PSTR: &'static str = "BitTorrent protocol";

} // verus!
