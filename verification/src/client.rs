//! The decisions of a connection to a peer: the opening handshake, its check, the first
//! message, and whether the peer chokes us.
use vstd::prelude::*;

use crate::handshake::Handshake;
use crate::message::{Bitfield, Message, MessageModel};
use crate::parse::bytes_eq;
use crate::text::{all_ascii, ascii_chars, ascii_string};
use crate::tracker::hex_digit;
use crate::{PEER_ID, PSTR};
use vstd::slice::slice_to_vec;
use vstd::utf8::encode_utf8;

verus! {

/// Each byte as two lowercase hexadecimal digits.
pub open spec fn hex_bytes(bytes: Seq<u8>) -> Seq<u8>
    decreases bytes.len(),
{
    if bytes.len() == 0 {
        seq![]
    } else {
        hex_bytes(bytes.drop_last()) + seq![
            hex_digit(bytes.last() as nat / 16),
            hex_digit(bytes.last() as nat % 16),
        ]
    }
}

/// The error text for a peer whose handshake carries another info hash than ours.
pub open spec fn mismatch_message(ours: Seq<u8>, theirs: Seq<u8>) -> Seq<char> {
    "Info hash mismatch: us="@ + ascii_chars(hex_bytes(ours)) + ", peer="@ + ascii_chars(hex_bytes(theirs))
}

proof fn lemma_hex_bytes_ascii(bytes: Seq<u8>)
    ensures
        all_ascii(hex_bytes(bytes)),
    decreases bytes.len(),
{
    if bytes.len() > 0 {
        lemma_hex_bytes_ascii(bytes.drop_last());
        let p = hex_bytes(bytes.drop_last());
        let q = hex_bytes(bytes);
        assert forall|i: int| 0 <= i < q.len() implies #[trigger] q[i] < 128 by {
            if i < p.len() {
                assert(q[i] == p[i]);
            }
        }
    }
}

/// The bytes as lowercase hexadecimal text.
pub fn hex_string(bytes: &[u8]) -> (res: String)
    ensures
        res@ == ascii_chars(hex_bytes(bytes@)),
{
    let mut out: Vec<u8> = Vec::new();
    let mut i: usize = 0;
    while i < bytes.len()
        invariant
            i <= bytes@.len(),
            out@ == hex_bytes(bytes@.take(i as int)),
        decreases bytes@.len() - i,
    {
        let b = bytes[i];
        let hi = b / 16;
        let lo = b % 16;
        out.push(if hi < 10 { 48 + hi } else { 87 + hi });
        out.push(if lo < 10 { 48 + lo } else { 87 + lo });
        proof {
            assert(bytes@.take(i + 1).drop_last() =~= bytes@.take(i as int));
            assert(out@ =~= hex_bytes(bytes@.take(i + 1)));
        }
        i = i + 1;
    }
    proof {
        assert(bytes@.take(bytes@.len() as int) =~= bytes@);
        lemma_hex_bytes_ascii(bytes@);
    }
    ascii_string(out.as_slice())
}

/// The handshake this client opens with: the protocol identifier, the info hash of the file,
/// and our peer ID.
pub fn initial_handshake(info_hash: Vec<u8>) -> (res: Handshake)
    ensures
        res.pstr@ == PSTR@,
        res.info_hash@ == info_hash@,
        res.peer_id@ == encode_utf8(PEER_ID@),
{
    Handshake::new(PSTR.to_string(), info_hash, slice_to_vec(PEER_ID.as_bytes()))
}

/// Checks the peer's answer to our handshake: the peer's ID where the info hashes agree, the
/// mismatch text otherwise.
pub fn check_handshake_response(ours: &Handshake, theirs: Handshake) -> (res: Result<Vec<u8>, String>)
    ensures
        match res {
            Ok(id) => ours.info_hash@ == theirs.info_hash@ && id@ == theirs.peer_id@,
            Err(msg) => ours.info_hash@ != theirs.info_hash@ && msg@ == mismatch_message(
                ours.info_hash@,
                theirs.info_hash@,
            ),
        },
{
    if bytes_eq(theirs.info_hash.as_slice(), ours.info_hash.as_slice()) {
        Ok(theirs.peer_id)
    } else {
        let mut msg = "Info hash mismatch: us=".to_string();
        msg.append(hex_string(ours.info_hash.as_slice()).as_str());
        msg.append(", peer=");
        msg.append(hex_string(theirs.info_hash.as_slice()).as_str());
        Err(msg)
    }
}

/// The error text for a peer whose first message is not a bitfield.
pub open spec fn not_bitfield_message() -> Seq<char> {
    "First message not bitfield"@
}

/// The peer's bitfield from its first message; an error if that message is not a bitfield.
pub fn expect_bitfield(message: Message) -> (res: Result<Bitfield, String>)
    ensures
        match message@ {
            MessageModel::Bitfield(data) => res matches Ok(b) && b@ == data,
            _ => res matches Err(msg) && msg@ == not_bitfield_message(),
        },
{
    match message {
        Message::Bitfield(bitfield) => Ok(bitfield),
        _ => Err("First message not bitfield".to_string()),
    }
}

/// Whether the peer chokes us after the given message: a choke or an unchoke says so, any other
/// message leaves it as it was.
pub fn choked_after(choked: bool, message: &Message) -> (res: bool)
    ensures
        res == match message@ {
            MessageModel::Choke => true,
            MessageModel::Unchoke => false,
            _ => choked,
        },
{
    match message {
        Message::Choke => true,
        Message::Unchoke => false,
        _ => choked,
    }
}

} // verus!
