//! The BitTorrent handshake.
use vstd::prelude::*;

use crate::text::string_from_utf8;
use vstd::slice::{slice_subrange, slice_to_vec};
use vstd::utf8::{decode_utf8, encode_utf8, encode_utf8_decode_utf8, valid_utf8};

verus! {

/// The first byte of every handshake this library writes: the length of the protocol
/// identifier `BitTorrent protocol`.
pub const PROTOCOL_ID_LEN: u8 = 0x13;

/// Number of reserved bytes, all zero, after the protocol identifier.
pub const NO_OF_RESERVED_BYTES: u8 = 8;

/// Length in bytes of the info hash.
pub const INFO_HASH_LEN_BYTES: u8 = 20;

/// Length in bytes of a peer ID.
pub const PEER_ID_LEN_BYTES: u8 = 20;

/// BitTorrent handshake.
pub struct Handshake {
    /// Protocol identifier.
    pub pstr: String,
    /// SHA1 hash of the bencoded `info` dict of the file.
    pub info_hash: Vec<u8>,
    /// Identifier of the peer.
    pub peer_id: Vec<u8>,
}

/// The bytes of a handshake: the byte 19, the protocol identifier, eight zero bytes, the info
/// hash, the peer ID.
pub open spec fn handshake_bytes(pstr: Seq<char>, info_hash: Seq<u8>, peer_id: Seq<u8>) -> Seq<u8> {
    seq![PROTOCOL_ID_LEN] + encode_utf8(pstr) + Seq::new(8, |i: int| 0u8) + info_hash + peer_id
}

/// Whether `data` can be read as a handshake: its first byte `n` gives the length of the
/// protocol identifier, `n + 49` bytes are there, the identifier is UTF-8, and `n` is small
/// enough that the offsets, added up in a byte, stay below 256.
pub open spec fn readable_handshake(data: Seq<u8>) -> bool {
    &&& data.len() >= 1
    &&& data[0] <= 206
    &&& data.len() >= 49 + data[0]
    &&& valid_utf8(data.subrange(1, 1 + data[0]))
}

impl Handshake {
    /// A handshake with the given fields.
    pub fn new(pstr: String, info_hash: Vec<u8>, peer_id: Vec<u8>) -> (res: Handshake)
        ensures
            res.pstr@ == pstr@,
            res.info_hash@ == info_hash@,
            res.peer_id@ == peer_id@,
    {
        Handshake { pstr, info_hash, peer_id }
    }

    /// Reads a handshake: the identifier after the length byte, then (past the reserved bytes)
    /// the info hash and the peer ID.
    pub fn deserialise(data: &[u8]) -> (res: Handshake)
        requires
            readable_handshake(data@),
        ensures
            ({
                let n = data@[0] as int;
                &&& encode_utf8(res.pstr@) == data@.subrange(1, 1 + n)
                &&& res.pstr@ == decode_utf8(data@.subrange(1, 1 + n))
                &&& res.info_hash@ == data@.subrange(9 + n, 29 + n)
                &&& res.peer_id@ == data@.subrange(29 + n, 49 + n)
            }),
    {
        let protocol_identifier_len = data[0];
        let id_end = (1 + protocol_identifier_len) as usize;
        let hash_start = (1 + protocol_identifier_len + NO_OF_RESERVED_BYTES) as usize;
        let hash_end = (1 + protocol_identifier_len + NO_OF_RESERVED_BYTES + INFO_HASH_LEN_BYTES) as usize;
        let id_end_total = (1 + protocol_identifier_len + NO_OF_RESERVED_BYTES + INFO_HASH_LEN_BYTES
            + PEER_ID_LEN_BYTES) as usize;
        let protocol_identifier = slice_subrange(data, 1, id_end);
        let pstr = match string_from_utf8(protocol_identifier) {
            Some(s) => s,
            None => {
                proof {
                    assert(false);
                }
                String::new()
            },
        };
        proof {
            encode_utf8_decode_utf8(pstr@);
        }
        Handshake {
            pstr,
            info_hash: slice_to_vec(slice_subrange(data, hash_start, hash_end)),
            peer_id: slice_to_vec(slice_subrange(data, hash_end, id_end_total)),
        }
    }

    /// The bytes of the handshake. The length byte is always 19, the length of
    /// `BitTorrent protocol`.
    pub fn serialise(&self) -> (res: Vec<u8>)
        ensures
            res@ == handshake_bytes(self.pstr@, self.info_hash@, self.peer_id@),
    {
        let mut output: Vec<u8> = Vec::new();
        output.push(PROTOCOL_ID_LEN);
        let mut id = slice_to_vec(self.pstr.as_str().as_bytes());
        output.append(&mut id);
        let mut i: usize = 0;
        while i < 8
            invariant
                i <= 8,
                output@ == seq![PROTOCOL_ID_LEN] + encode_utf8(self.pstr@) + Seq::new(
                    i as nat,
                    |k: int| 0u8,
                ),
            decreases 8 - i,
        {
            output.push(0);
            proof {
                assert(Seq::new((i + 1) as nat, |k: int| 0u8) =~= Seq::new(i as nat, |k: int| 0u8).push(
                    0u8,
                ));
            }
            i = i + 1;
        }
        let mut hash = slice_to_vec(self.info_hash.as_slice());
        output.append(&mut hash);
        let mut peer = slice_to_vec(self.peer_id.as_slice());
        output.append(&mut peer);
        proof {
            assert(output@ =~= handshake_bytes(self.pstr@, self.info_hash@, self.peer_id@));
        }
        output
    }
}

/// Reading what [`Handshake::serialise`] writes gives back the handshake, where its identifier
/// is 19 bytes long (as `BitTorrent protocol` is) and its info hash and peer ID are 20 bytes
/// each: other lengths would not agree with the fixed length byte and offsets.
pub proof fn lemma_handshake_roundtrip(pstr: Seq<char>, info_hash: Seq<u8>, peer_id: Seq<u8>)
    requires
        encode_utf8(pstr).len() == 19,
        info_hash.len() == 20,
        peer_id.len() == 20,
    ensures
        readable_handshake(handshake_bytes(pstr, info_hash, peer_id)),
        decode_utf8(handshake_bytes(pstr, info_hash, peer_id).subrange(1, 20)) == pstr,
        handshake_bytes(pstr, info_hash, peer_id).subrange(28, 48) == info_hash,
        handshake_bytes(pstr, info_hash, peer_id).subrange(48, 68) == peer_id,
{
    let d = handshake_bytes(pstr, info_hash, peer_id);
    let e = encode_utf8(pstr);
    assert(d.subrange(1, 20) =~= e);
    assert(d.subrange(28, 48) =~= info_hash);
    assert(d.subrange(48, 68) =~= peer_id);
    vstd::utf8::encode_utf8_valid_utf8(pstr);
    encode_utf8_decode_utf8(pstr);
}

} // verus!
