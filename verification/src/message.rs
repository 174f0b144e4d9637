//! Peer wire messages and the bitfield of the pieces a peer has.
use vstd::prelude::*;

use crate::digits::{nat_text, push_nat_text};
use crate::text::{ascii_chars, ascii_string};
use vstd::slice::{slice_subrange, slice_to_vec};

verus! {

/// Number of bits in a byte.
pub const BITS_IN_BYTE: usize = 8;

/// Which pieces (by index) a peer has: piece `i` is bit `7 - i % 8` of byte `i / 8`.
#[derive(Debug, PartialEq)]
pub struct Bitfield {
    data: Vec<u8>,
}

/// Whether bit `7 - idx % 8` of byte `idx / 8` is set.
pub open spec fn bit_set(data: Seq<u8>, idx: int) -> bool {
    (data[idx / 8] >> ((7 - idx % 8) as u8)) & 1u8 == 1u8
}

impl View for Bitfield {
    type V = Seq<u8>;

    closed spec fn view(&self) -> Seq<u8> {
        self.data@
    }
}

impl Bitfield {
    /// Wraps the payload of a bitfield message.
    pub fn new(data: Vec<u8>) -> (res: Bitfield)
        ensures
            res@ == data@,
    {
        Bitfield { data }
    }

    /// The payload bytes.
    pub fn as_bytes(&self) -> (res: &[u8])
        ensures
            res@ == self@,
    {
        self.data.as_slice()
    }

    /// Whether the bitfield marks the piece with the given index as present.
    pub fn has_piece(&self, idx: usize) -> (res: bool)
        requires
            idx / 8 < self@.len(),
        ensures
            res == bit_set(self@, idx as int),
    {
        let byte_index = idx / BITS_IN_BYTE;
        let offset = idx % BITS_IN_BYTE;
        let shifted_piece_bit = self.data[byte_index] >> ((BITS_IN_BYTE - 1 - offset) as u8);
        shifted_piece_bit & 1 == 1
    }

    /// Sets the bit that marks the piece with the given index as present.
    pub fn set_piece(&mut self, idx: usize)
        requires
            idx / 8 < old(self)@.len(),
        ensures
            final(self)@ == old(self)@.update(
                idx as int / 8,
                old(self)@[idx as int / 8] | (1u8 << ((7 - idx as int % 8) as u8)),
            ),
    {
        let byte_index = idx / BITS_IN_BYTE;
        let offset = idx % BITS_IN_BYTE;
        let new_byte_value: u8 = 1u8 << ((BITS_IN_BYTE - 1 - offset) as u8);
        let old_byte = self.data[byte_index];
        self.data.set(byte_index, old_byte | new_byte_value);
    }
}

/// Setting a piece's bit makes the bitfield mark that piece, and leaves what it says of every
/// other piece unchanged.
pub proof fn lemma_set_piece_marks_only_that_piece(data: Seq<u8>, idx: int, other: int)
    requires
        0 <= idx,
        idx / 8 < data.len(),
        0 <= other,
        other / 8 < data.len(),
    ensures
        bit_set(data.update(idx / 8, data[idx / 8] | (1u8 << ((7 - idx % 8) as u8))), idx),
        other != idx ==> bit_set(
            data.update(idx / 8, data[idx / 8] | (1u8 << ((7 - idx % 8) as u8))),
            other,
        ) == bit_set(data, other),
{
    let b = data[idx / 8];
    let s = (7 - idx % 8) as u8;
    assert(s < 8);
    assert(((b | (1u8 << s)) >> s) & 1u8 == 1u8) by (bit_vector)
        requires
            s < 8u8,
    ;
    if other != idx && other / 8 == idx / 8 {
        let t = (7 - other % 8) as u8;
        assert(t < 8 && t != s);
        assert(((b | (1u8 << s)) >> t) & 1u8 == (b >> t) & 1u8) by (bit_vector)
            requires
                s < 8u8,
                t < 8u8,
                t != s,
        ;
    }
}

/// Peer message types.
#[derive(Debug, PartialEq)]
pub enum Message {
    KeepAlive,
    Choke,
    Unchoke,
    Interested,
    NotInterested,
    /// Index of a piece the sender has completed and checked the hash of.
    Have(u64),
    /// Which pieces (by index) the sender has.
    Bitfield(Bitfield),
    /// Request for a subset of a piece (a block).
    Request { index: u64, begin: u64, length: u64 },
    /// A subset of a piece (a block).
    Piece { index: u64, begin: u64, block: Vec<u8> },
    /// Cancels a request for a block.
    Cancel { index: u64, begin: u64, length: u64 },
}

/// A message, its byte payloads taken as sequences.
pub enum MessageModel {
    KeepAlive,
    Choke,
    Unchoke,
    Interested,
    NotInterested,
    Have(u64),
    Bitfield(Seq<u8>),
    Request { index: u64, begin: u64, length: u64 },
    Piece { index: u64, begin: u64, block: Seq<u8> },
    Cancel { index: u64, begin: u64, length: u64 },
}

impl View for Message {
    type V = MessageModel;

    open spec fn view(&self) -> MessageModel {
        match self {
            Message::KeepAlive => MessageModel::KeepAlive,
            Message::Choke => MessageModel::Choke,
            Message::Unchoke => MessageModel::Unchoke,
            Message::Interested => MessageModel::Interested,
            Message::NotInterested => MessageModel::NotInterested,
            Message::Have(i) => MessageModel::Have(*i),
            Message::Bitfield(b) => MessageModel::Bitfield(b@),
            Message::Request { index, begin, length } => MessageModel::Request {
                index: *index,
                begin: *begin,
                length: *length,
            },
            Message::Piece { index, begin, block } => MessageModel::Piece {
                index: *index,
                begin: *begin,
                block: block@,
            },
            Message::Cancel { index, begin, length } => MessageModel::Cancel {
                index: *index,
                begin: *begin,
                length: *length,
            },
        }
    }
}

/// Big-endian bytes of a `u32`.
pub open spec fn be32(n: u32) -> Seq<u8> {
    seq![(n >> 24u32) as u8, (n >> 16u32) as u8, (n >> 8u32) as u8, n as u8]
}

/// Big-endian bytes of a `u64`.
pub open spec fn be64(n: u64) -> Seq<u8> {
    seq![
        (n >> 56u64) as u8,
        (n >> 48u64) as u8,
        (n >> 40u64) as u8,
        (n >> 32u64) as u8,
        (n >> 24u64) as u8,
        (n >> 16u64) as u8,
        (n >> 8u64) as u8,
        n as u8,
    ]
}

/// The `u32` whose big-endian bytes are `d[p..p + 4]`.
pub open spec fn read_be32(d: Seq<u8>, p: int) -> u32 {
    ((d[p] as u32) << 24u32) | ((d[p + 1] as u32) << 16u32) | ((d[p + 2] as u32) << 8u32) | (d[p
        + 3] as u32)
}

/// The `u64` whose big-endian bytes are `d[p..p + 8]`.
pub open spec fn read_be64(d: Seq<u8>, p: int) -> u64 {
    ((d[p] as u64) << 56u64) | ((d[p + 1] as u64) << 48u64) | ((d[p + 2] as u64) << 40u64) | ((d[p
        + 3] as u64) << 32u64) | ((d[p + 4] as u64) << 24u64) | ((d[p + 5] as u64) << 16u64) | ((d[p
        + 6] as u64) << 8u64) | (d[p + 7] as u64)
}

fn get_be32(d: &[u8], p: usize) -> (res: u32)
    requires
        p + 4 <= d@.len(),
    ensures
        res == read_be32(d@, p as int),
{
    ((d[p] as u32) << 24u32) | ((d[p + 1] as u32) << 16u32) | ((d[p + 2] as u32) << 8u32) | (d[p
        + 3] as u32)
}

fn get_be64(d: &[u8], p: usize) -> (res: u64)
    requires
        p + 8 <= d@.len(),
    ensures
        res == read_be64(d@, p as int),
{
    ((d[p] as u64) << 56u64) | ((d[p + 1] as u64) << 48u64) | ((d[p + 2] as u64) << 40u64) | ((d[p
        + 3] as u64) << 32u64) | ((d[p + 4] as u64) << 24u64) | ((d[p + 5] as u64) << 16u64) | ((d[p
        + 6] as u64) << 8u64) | (d[p + 7] as u64)
}

fn push_be32(out: &mut Vec<u8>, n: u32)
    ensures
        final(out)@ == old(out)@ + be32(n),
{
    out.push((n >> 24u32) as u8);
    out.push((n >> 16u32) as u8);
    out.push((n >> 8u32) as u8);
    out.push(n as u8);
    proof {
        assert(final(out)@ =~= old(out)@ + be32(n));
    }
}

fn push_be64(out: &mut Vec<u8>, n: u64)
    ensures
        final(out)@ == old(out)@ + be64(n),
{
    out.push((n >> 56u64) as u8);
    out.push((n >> 48u64) as u8);
    out.push((n >> 40u64) as u8);
    out.push((n >> 32u64) as u8);
    out.push((n >> 24u64) as u8);
    out.push((n >> 16u64) as u8);
    out.push((n >> 8u64) as u8);
    out.push(n as u8);
    proof {
        assert(final(out)@ =~= old(out)@ + be64(n));
    }
}

/// Whether the message's length prefix can hold its length.
pub open spec fn fits_frame(m: MessageModel) -> bool {
    match m {
        MessageModel::Bitfield(b) => 1 + b.len() <= u32::MAX,
        MessageModel::Piece { block, .. } => 17 + block.len() <= u32::MAX,
        _ => true,
    }
}

/// The bytes of a message on the wire: its length as a big-endian `u32`, its ID byte, its
/// payload (integers as big-endian `u64`s). A keep-alive is the length 0 alone.
pub open spec fn wire(m: MessageModel) -> Seq<u8> {
    match m {
        MessageModel::KeepAlive => be32(0),
        MessageModel::Choke => be32(1) + seq![0u8],
        MessageModel::Unchoke => be32(1) + seq![1u8],
        MessageModel::Interested => be32(1) + seq![2u8],
        MessageModel::NotInterested => be32(1) + seq![3u8],
        MessageModel::Have(index) => be32(9) + seq![4u8] + be64(index),
        MessageModel::Bitfield(b) => be32((1 + b.len()) as u32) + seq![5u8] + b,
        MessageModel::Request { index, begin, length } => be32(25) + seq![6u8] + be64(index) + be64(
            begin,
        ) + be64(length),
        MessageModel::Piece { index, begin, block } => be32((17 + block.len()) as u32) + seq![7u8]
            + be64(index) + be64(begin) + block,
        MessageModel::Cancel { index, begin, length } => be32(25) + seq![8u8] + be64(index) + be64(
            begin,
        ) + be64(length),
    }
}

/// Why bytes do not make a message.
#[derive(Debug, PartialEq, Eq, Structural)]
pub enum MessageError {
    /// The bytes end before the message does.
    Incomplete,
    /// A message of length one has an ID that none of the single-byte messages has.
    InvalidSingleByteId(u8),
    /// A message with a payload has an ID that none of the messages with payloads has.
    InvalidPayloadId(u8),
}

/// The message that `d` starts with, and how many bytes it takes up.
pub open spec fn spec_deserialise(d: Seq<u8>) -> Result<(MessageModel, int), MessageError> {
    if d.len() < 4 {
        Err(MessageError::Incomplete)
    } else {
        let len = read_be32(d, 0);
        if len == 0 {
            Ok((MessageModel::KeepAlive, 4))
        } else if d.len() < 5 {
            Err(MessageError::Incomplete)
        } else {
            let id = d[4];
            if len == 1 {
                if id == 0 {
                    Ok((MessageModel::Choke, 5))
                } else if id == 1 {
                    Ok((MessageModel::Unchoke, 5))
                } else if id == 2 {
                    Ok((MessageModel::Interested, 5))
                } else if id == 3 {
                    Ok((MessageModel::NotInterested, 5))
                } else {
                    Err(MessageError::InvalidSingleByteId(id))
                }
            } else if d.len() < 4 + len {
                Err(MessageError::Incomplete)
            } else {
                let payload = d.subrange(5, 4 + len);
                let end = 4 + len;
                if id == 4 {
                    Ok((MessageModel::Have(read_be64(payload, 0)), end))
                } else if id == 5 {
                    Ok((MessageModel::Bitfield(payload), end))
                } else if id == 6 {
                    Ok(
                        (
                            MessageModel::Request {
                                index: read_be64(payload, 0),
                                begin: read_be64(payload, 8),
                                length: read_be64(payload, 16),
                            },
                            end,
                        ),
                    )
                } else if id == 7 {
                    Ok(
                        (
                            MessageModel::Piece {
                                index: read_be64(payload, 0),
                                begin: read_be64(payload, 8),
                                block: payload.subrange(16, payload.len() as int),
                            },
                            end,
                        ),
                    )
                } else if id == 8 {
                    Ok(
                        (
                            MessageModel::Cancel {
                                index: read_be64(payload, 0),
                                begin: read_be64(payload, 8),
                                length: read_be64(payload, 16),
                            },
                            end,
                        ),
                    )
                } else {
                    Err(MessageError::InvalidPayloadId(id))
                }
            }
        }
    }
}

/// Whether `d` holds a whole message whose payload is shorter than its ID calls for (a `Have`
/// needs 8 bytes, a `Piece` 16, a `Request` or `Cancel` 24).
pub open spec fn payload_too_short(d: Seq<u8>) -> bool {
    &&& d.len() >= 5
    &&& read_be32(d, 0) >= 2
    &&& d.len() >= 4 + read_be32(d, 0)
    &&& {
        let id = d[4];
        let n = read_be32(d, 0) - 1;
        ||| id == 4 && n < 8
        ||| (id == 6 || id == 8) && n < 24
        ||| id == 7 && n < 16
    }
}

/// Whether `data` holds a whole message whose payload is shorter than its ID calls for.
pub fn frame_payload_too_short(data: &[u8]) -> (res: bool)
    ensures
        res == payload_too_short(data@),
{
    if data.len() < 5 {
        return false;
    }
    let len = get_be32(data, 0);
    if len < 2 || ((data.len() - 4) as u64) < (len as u64) {
        return false;
    }
    let id = data[4];
    let n = len - 1;
    (id == 4 && n < 8) || ((id == 6 || id == 8) && n < 24) || (id == 7 && n < 16)
}

impl MessageError {
    /// The text of the error.
    pub fn message(&self) -> (res: String)
        ensures
            match self {
                MessageError::Incomplete => res@ == "early eof"@,
                MessageError::InvalidSingleByteId(id) => res@ == "Invalid ID for single byte message: "@
                    + ascii_chars(nat_text(*id as nat)),
                MessageError::InvalidPayloadId(id) => res@
                    == "Invalid message ID for message containing non-zero payload: "@ + ascii_chars(
                    nat_text(*id as nat),
                ),
            },
    {
        match self {
            MessageError::Incomplete => "early eof".to_string(),
            MessageError::InvalidSingleByteId(id) => {
                let mut text = "Invalid ID for single byte message: ".to_string();
                text.append(decimal_string(*id as u64).as_str());
                text
            },
            MessageError::InvalidPayloadId(id) => {
                let mut text = "Invalid message ID for message containing non-zero payload: ".to_string();
                text.append(decimal_string(*id as u64).as_str());
                text
            },
        }
    }
}

/// The decimal text of `n` as a string.
pub fn decimal_string(n: u64) -> (res: String)
    ensures
        res@ == ascii_chars(nat_text(n as nat)),
{
    let mut digits: Vec<u8> = Vec::new();
    push_nat_text(&mut digits, n);
    proof {
        crate::digits::lemma_nat_text_digits(n as nat);
        assert(digits@ =~= nat_text(n as nat));
        assert forall|i: int| 0 <= i < digits@.len() implies #[trigger] digits@[i] < 128 by {
            assert(crate::digits::is_digit(nat_text(n as nat)[i]));
        }
    }
    ascii_string(digits.as_slice())
}

impl Message {
    /// Reads the message at the start of `data`: the message and how many bytes it takes up.
    pub fn deserialise(data: &[u8]) -> (res: Result<(Message, usize), MessageError>)
        requires
            !payload_too_short(data@),
        ensures
            match res {
                Ok((m, n)) => spec_deserialise(data@) == Ok::<(MessageModel, int), MessageError>(
                    (m@, n as int),
                ),
                Err(e) => spec_deserialise(data@) == Err::<(MessageModel, int), MessageError>(e),
            },
    {
        if data.len() < 4 {
            return Err(MessageError::Incomplete);
        }
        let len = get_be32(data, 0);
        if len == 0 {
            return Ok((Message::KeepAlive, 4));
        }
        if data.len() < 5 {
            return Err(MessageError::Incomplete);
        }
        let id = data[4];
        if len == 1 {
            return match id {
                0 => Ok((Message::Choke, 5)),
                1 => Ok((Message::Unchoke, 5)),
                2 => Ok((Message::Interested, 5)),
                3 => Ok((Message::NotInterested, 5)),
                _ => Err(MessageError::InvalidSingleByteId(id)),
            };
        }
        if ((data.len() - 4) as u64) < (len as u64) {
            return Err(MessageError::Incomplete);
        }
        let end = 4 + len as usize;
        let payload = slice_subrange(data, 5, end);
        let ghost p = data@.subrange(5, end as int);
        assert(payload@ == p);
        match id {
            4 => Ok((Message::Have(get_be64(payload, 0)), end)),
            5 => Ok((Message::Bitfield(Bitfield::new(slice_to_vec(payload))), end)),
            6 | 8 => {
                let index = get_be64(payload, 0);
                let begin = get_be64(payload, 8);
                let length = get_be64(payload, 16);
                if id == 6 {
                    Ok((Message::Request { index, begin, length }, end))
                } else {
                    Ok((Message::Cancel { index, begin, length }, end))
                }
            },
            7 => {
                let index = get_be64(payload, 0);
                let begin = get_be64(payload, 8);
                let block = slice_to_vec(slice_subrange(payload, 16, payload.len()));
                Ok((Message::Piece { index, begin, block }, end))
            },
            _ => Err(MessageError::InvalidPayloadId(id)),
        }
    }

    /// The bytes of the message on the wire.
    pub fn serialise(&self) -> (res: Vec<u8>)
        requires
            fits_frame(self@),
        ensures
            res@ == wire(self@),
    {
        let mut buf: Vec<u8> = Vec::new();
        match self {
            Message::KeepAlive => {
                push_be32(&mut buf, 0);
            },
            Message::Choke => {
                push_be32(&mut buf, 1);
                buf.push(0);
            },
            Message::Unchoke => {
                push_be32(&mut buf, 1);
                buf.push(1);
            },
            Message::Interested => {
                push_be32(&mut buf, 1);
                buf.push(2);
            },
            Message::NotInterested => {
                push_be32(&mut buf, 1);
                buf.push(3);
            },
            Message::Have(index) => {
                push_be32(&mut buf, 1 + 8);
                buf.push(4);
                push_be64(&mut buf, *index);
            },
            Message::Bitfield(bitfield) => {
                let bytes = bitfield.as_bytes();
                push_be32(&mut buf, (1 + bytes.len()) as u32);
                buf.push(5);
                let mut tail = slice_to_vec(bytes);
                buf.append(&mut tail);
            },
            Message::Request { index, begin, length } => {
                push_be32(&mut buf, 1 + 8 + 8 + 8);
                buf.push(6);
                push_be64(&mut buf, *index);
                push_be64(&mut buf, *begin);
                push_be64(&mut buf, *length);
            },
            Message::Piece { index, begin, block } => {
                push_be32(&mut buf, (1 + 8 + 8 + block.len()) as u32);
                buf.push(7);
                push_be64(&mut buf, *index);
                push_be64(&mut buf, *begin);
                let mut tail = slice_to_vec(block.as_slice());
                buf.append(&mut tail);
            },
            Message::Cancel { index, begin, length } => {
                push_be32(&mut buf, 1 + 8 + 8 + 8);
                buf.push(8);
                push_be64(&mut buf, *index);
                push_be64(&mut buf, *begin);
                push_be64(&mut buf, *length);
            },
        }
        proof {
            assert(buf@ =~= wire(self@));
        }
        buf
    }
}

proof fn lemma_be32_read(n: u32)
    ensures
        ((((n >> 24u32) as u8) as u32) << 24u32) | ((((n >> 16u32) as u8) as u32) << 16u32) | ((((n
            >> 8u32) as u8) as u32) << 8u32) | ((n as u8) as u32) == n,
{
    assert(((((n >> 24u32) as u8) as u32) << 24u32) | ((((n >> 16u32) as u8) as u32) << 16u32) | ((((n
        >> 8u32) as u8) as u32) << 8u32) | ((n as u8) as u32) == n) by (bit_vector);
}

proof fn lemma_be64_read(n: u64)
    ensures
        ((((n >> 56u64) as u8) as u64) << 56u64) | ((((n >> 48u64) as u8) as u64) << 48u64) | ((((n
            >> 40u64) as u8) as u64) << 40u64) | ((((n >> 32u64) as u8) as u64) << 32u64) | ((((n
            >> 24u64) as u8) as u64) << 24u64) | ((((n >> 16u64) as u8) as u64) << 16u64) | ((((n
            >> 8u64) as u8) as u64) << 8u64) | ((n as u8) as u64) == n,
{
    assert(((((n >> 56u64) as u8) as u64) << 56u64) | ((((n >> 48u64) as u8) as u64) << 48u64) | ((((n
        >> 40u64) as u8) as u64) << 40u64) | ((((n >> 32u64) as u8) as u64) << 32u64) | ((((n
        >> 24u64) as u8) as u64) << 24u64) | ((((n >> 16u64) as u8) as u64) << 16u64) | ((((n
        >> 8u64) as u8) as u64) << 8u64) | ((n as u8) as u64) == n) by (bit_vector);
}

proof fn lemma_read_be32_at(d: Seq<u8>, p: int, n: u32)
    requires
        0 <= p,
        p + 4 <= d.len(),
        forall|k: int| 0 <= k < 4 ==> d[p + k] == #[trigger] be32(n)[k],
    ensures
        read_be32(d, p) == n,
{
    assert(d[p] == be32(n)[0] && d[p + 1] == be32(n)[1] && d[p + 2] == be32(n)[2] && d[p + 3]
        == be32(n)[3]);
    lemma_be32_read(n);
}

proof fn lemma_read_be64_at(d: Seq<u8>, p: int, n: u64)
    requires
        0 <= p,
        p + 8 <= d.len(),
        forall|k: int| 0 <= k < 8 ==> d[p + k] == #[trigger] be64(n)[k],
    ensures
        read_be64(d, p) == n,
{
    assert(d[p] == be64(n)[0] && d[p + 1] == be64(n)[1] && d[p + 2] == be64(n)[2] && d[p + 3]
        == be64(n)[3]);
    assert(d[p + 4] == be64(n)[4] && d[p + 5] == be64(n)[5] && d[p + 6] == be64(n)[6] && d[p + 7]
        == be64(n)[7]);
    lemma_be64_read(n);
}

/// Deserialising what [`Message::serialise`] writes gives back the message, whatever bytes
/// follow it; and those bytes are never ones that `deserialise` refuses to read. An empty
/// bitfield is the exception: its frame has length one, which reads as a single-byte message.
pub proof fn lemma_deserialise_serialise_roundtrip(m: MessageModel, rest: Seq<u8>)
    requires
        fits_frame(m),
        !(m matches MessageModel::Bitfield(b) && b.len() == 0),
    ensures
        spec_deserialise(wire(m) + rest) == Ok::<(MessageModel, int), MessageError>(
            (m, wire(m).len() as int),
        ),
        !payload_too_short(wire(m) + rest),
{
    let w = wire(m);
    let d = w + rest;
    assert forall|k: int| 0 <= k < w.len() implies d[k] == #[trigger] w[k] by {}
    let len: u32 = match m {
        MessageModel::KeepAlive => 0,
        MessageModel::Choke | MessageModel::Unchoke | MessageModel::Interested
        | MessageModel::NotInterested => 1,
        MessageModel::Have(_) => 9,
        MessageModel::Bitfield(b) => (1 + b.len()) as u32,
        MessageModel::Request { .. } | MessageModel::Cancel { .. } => 25,
        MessageModel::Piece { block, .. } => (17 + block.len()) as u32,
    };
    assert(w.subrange(0, 4) =~= be32(len));
    assert forall|k: int| 0 <= k < 4 implies d[0 + k] == #[trigger] be32(len)[k] by {
        assert(w.subrange(0, 4)[k] == w[k]);
    }
    lemma_read_be32_at(d, 0, len);
    assert(w.len() == 4 + len);
    let payload = d.subrange(5, 4 + len);
    match m {
        MessageModel::Have(index) => {
            assert forall|k: int| 0 <= k < 8 implies payload[0 + k] == #[trigger] be64(index)[k] by {
                assert(payload[k] == d[5 + k]);
                assert(w[5 + k] == be64(index)[k]);
            }
            lemma_read_be64_at(payload, 0, index);
            assert(d[4] == 4u8);
            assert(read_be32(d, 0) == 9);
            assert(spec_deserialise(d) == Ok::<(MessageModel, int), MessageError>((m, 13)));
        },
        MessageModel::Bitfield(b) => {
            assert(payload =~= b);
            assert(d[4] == 5u8);
            assert(spec_deserialise(d) == Ok::<(MessageModel, int), MessageError>((m, w.len() as int)));
        },
        MessageModel::Request { index, begin, length } | MessageModel::Cancel { index, begin, length } => {
            assert forall|k: int| 0 <= k < 8 implies payload[0 + k] == #[trigger] be64(index)[k] by {
                assert(payload[k] == d[5 + k]);
                assert(w[5 + k] == be64(index)[k]);
            }
            assert forall|k: int| 0 <= k < 8 implies payload[8 + k] == #[trigger] be64(begin)[k] by {
                assert(payload[8 + k] == d[13 + k]);
                assert(w[13 + k] == be64(begin)[k]);
            }
            assert forall|k: int| 0 <= k < 8 implies payload[16 + k] == #[trigger] be64(length)[k] by {
                assert(payload[16 + k] == d[21 + k]);
                assert(w[21 + k] == be64(length)[k]);
            }
            lemma_read_be64_at(payload, 0, index);
            lemma_read_be64_at(payload, 8, begin);
            lemma_read_be64_at(payload, 16, length);
            assert(d[4] == 6u8 || d[4] == 8u8);
            assert(spec_deserialise(d) == Ok::<(MessageModel, int), MessageError>((m, w.len() as int)));
        },
        MessageModel::Piece { index, begin, block } => {
            assert forall|k: int| 0 <= k < 8 implies payload[0 + k] == #[trigger] be64(index)[k] by {
                assert(payload[k] == d[5 + k]);
                assert(w[5 + k] == be64(index)[k]);
            }
            assert forall|k: int| 0 <= k < 8 implies payload[8 + k] == #[trigger] be64(begin)[k] by {
                assert(payload[8 + k] == d[13 + k]);
                assert(w[13 + k] == be64(begin)[k]);
            }
            lemma_read_be64_at(payload, 0, index);
            lemma_read_be64_at(payload, 8, begin);
            assert(payload.subrange(16, payload.len() as int) =~= block);
            assert(d[4] == 7u8);
            assert(spec_deserialise(d) == Ok::<(MessageModel, int), MessageError>((m, w.len() as int)));
        },
        _ => {
            assert(spec_deserialise(d) == Ok::<(MessageModel, int), MessageError>((m, w.len() as int)));
        },
    }
}


/// A bitfield marks piece `idx` exactly when its byte `idx / 8` has the bit for the piece set:
/// the bit of weight `128 >> (idx % 8)`, so the first piece of a byte is its most significant
/// bit. A zero byte marks none of its eight pieces.
pub proof fn lemma_bit_set_is_the_piece_bit(data: Seq<u8>, idx: int)
    requires
        0 <= idx,
        idx / 8 < data.len(),
    ensures
        bit_set(data, idx) <==> data[idx / 8] & (128u8 >> ((idx % 8) as u8)) != 0,
        data[idx / 8] == 0 ==> !bit_set(data, idx),
{
    let b = data[idx / 8];
    let k = (idx % 8) as u8;
    assert(k < 8);
    assert(((b >> ((7 - k) as u8)) & 1u8 == 1u8) <==> (b & (128u8 >> k) != 0)) by (bit_vector)
        requires
            k < 8u8,
    ;
    assert((7 - idx % 8) as u8 == (7 - k) as u8);
    assert(b == 0 ==> b & (128u8 >> k) == 0) by (bit_vector);
}

/// A bitfield of zero bytes with one piece set marks that piece and no other.
pub proof fn lemma_set_piece_on_empty_bitfield(n: nat, idx: int, other: int)
    requires
        0 <= idx,
        idx / 8 < n,
        0 <= other,
        other / 8 < n,
    ensures
        ({
            let zero = Seq::new(n, |i: int| 0u8);
            let set = zero.update(idx / 8, zero[idx / 8] | (1u8 << ((7 - idx % 8) as u8)));
            &&& bit_set(set, idx)
            &&& other != idx ==> !bit_set(set, other)
        }),
{
    let zero = Seq::new(n, |i: int| 0u8);
    lemma_set_piece_marks_only_that_piece(zero, idx, other);
    lemma_bit_set_is_the_piece_bit(zero, other);
}

/// The value of the four bytes `d[0..4]` read most significant first.
proof fn lemma_read_be32_value(d: Seq<u8>)
    requires
        d.len() >= 4,
    ensures
        read_be32(d, 0) as int == d[0] * 16777216 + d[1] * 65536 + d[2] * 256 + d[3],
{
    let (a, b, c, e) = (d[0], d[1], d[2], d[3]);
    assert((((a as u32) << 24u32) | ((b as u32) << 16u32) | ((c as u32) << 8u32) | (e as u32)) as int
        == a * 16777216 + b * 65536 + c * 256 + e) by (bit_vector);
}

/// A message is read only from a whole frame: it takes up the four-byte length prefix and as
/// many bytes as the prefix gives (most significant byte first), all of them present. Bytes that
/// end before the frame does read as incomplete, whatever the message would have been.
pub proof fn lemma_deserialise_whole_frame(d: Seq<u8>)
    ensures
        spec_deserialise(d) matches Ok((_, n)) ==> d.len() >= 4 && n == 4 + d[0] * 16777216 + d[1]
            * 65536 + d[2] * 256 + d[3] && n <= d.len(),
        d.len() < 4 || d.len() < 4 + d[0] * 16777216 + d[1] * 65536 + d[2] * 256 + d[3] ==> spec_deserialise(d)
            == Err::<(MessageModel, int), MessageError>(MessageError::Incomplete),
{
    if d.len() >= 4 {
        lemma_read_be32_value(d);
    }
}

} // verus!
