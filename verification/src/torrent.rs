//! A torrent: the metainfo with its info hash and the peers of the file.
use vstd::prelude::*;

use crate::hash::{MAX_HASHED_LEN, sha1, sha1_digest};
use crate::metainfo::{Info, Metainfo, info_error, info_matches, info_readable, length_key, name_key, piece_length_key, pieces_key};
use crate::serialise::{ser_value, serialise};
use crate::tracker::Peer;
use crate::value::{BValue, is_first_key, lemma_first_key_unique};
use vstd::utf8::{encode_utf8, encode_utf8_decode_utf8, encode_utf8_valid_utf8};

verus! {

/// The `info` dictionary that [`Info::serialise`] builds.
pub open spec fn info_value(info: Info) -> BValue {
    BValue::Dict(
        seq![
            (name_key(), BValue::Bytes(encode_utf8(info.name@))),
            (length_key(), BValue::Int(info.length as int)),
            (piece_length_key(), BValue::Int(info.piece_length as int)),
            (pieces_key(), BValue::Bytes(info.pieces@)),
        ],
    )
}

/// Whether the info hash of `info` can be computed: its lengths fit in an `i64`, and its
/// bencoding is short enough for the hash function to count its bits.
pub open spec fn hashable(info: Info) -> bool {
    &&& info.length <= i64::MAX
    &&& info.piece_length <= i64::MAX
    &&& ser_value(info_value(info)).len() <= MAX_HASHED_LEN
}

/// The SHA1 hash of the bencoded `info` dictionary.
pub fn info_hash(info: &Info) -> (res: Vec<u8>)
    requires
        hashable(*info),
    ensures
        res@ == sha1_digest(ser_value(info_value(*info))),
        res@.len() == 20,
{
    let bencoded_info = serialise(info.serialise());
    sha1(bencoded_info.as_slice())
}

/// Wrapper around [`Metainfo`].
pub struct Torrent {
    /// Metainfo file info.
    pub metainfo: Metainfo,
    /// SHA1 hash of the `info` dict.
    pub info_hash: Vec<u8>,
    /// Peers associated with the file.
    pub peers: Vec<Peer>,
}

impl Torrent {
    /// The torrent of the metainfo, its info hash computed.
    pub fn new(metainfo: Metainfo, peers: Vec<Peer>) -> (res: Torrent)
        requires
            hashable(metainfo.info),
        ensures
            res.metainfo == metainfo,
            res.peers@ == peers@,
            res.info_hash@ == sha1_digest(ser_value(info_value(metainfo.info))),
    {
        let hash = info_hash(&metainfo.info);
        Torrent { metainfo, info_hash: hash, peers }
    }
}

/// Reading the `info` dictionary that [`Info::serialise`] builds gives no error and gives back
/// every field as it was.
pub proof fn lemma_info_read_back(info: Info, other: Info)
    requires
        info.length <= i64::MAX,
        info.piece_length <= i64::MAX,
    ensures
        info_readable(info_value(info)),
        info_error(info_value(info)) is None,
        info_matches(other, info_value(info)) ==> other.name@ == info.name@ && other.length == info.length
            && other.piece_length == info.piece_length && other.pieces@ == info.pieces@,
{
    let e = match info_value(info) {
        BValue::Dict(e) => e,
        _ => seq![],
    };
    assert(name_key().len() == 4 && length_key().len() == 6 && piece_length_key().len() == 12);
    assert(length_key()[0] != pieces_key()[0]);
    assert(is_first_key(e, name_key(), 0));
    assert(is_first_key(e, length_key(), 1));
    assert(is_first_key(e, piece_length_key(), 2));
    assert(is_first_key(e, pieces_key(), 3));
    lemma_first_key_unique(e, name_key(), 0);
    lemma_first_key_unique(e, length_key(), 1);
    lemma_first_key_unique(e, piece_length_key(), 2);
    lemma_first_key_unique(e, pieces_key(), 3);
    encode_utf8_valid_utf8(info.name@);
    encode_utf8_decode_utf8(info.name@);
}

} // verus!
