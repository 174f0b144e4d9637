//! The decisions of a piece-download worker: which blocks of a piece to request, how received
//! blocks fill the piece, and what becomes of a piece once its download has ended.
use vstd::prelude::*;

use crate::hash::{MAX_HASHED_LEN, sha1, sha1_digest};
use crate::message::{Bitfield, Message, MessageModel, bit_set};
use crate::parse::bytes_eq;
use crate::piece::{Piece, covered, lemma_covering_writes_give_file, write_all, written};
use crate::work::{SharedQueue, Work, put_back, taken};

verus! {

/// Size in bytes of the blocks requested of a piece longer than one block.
pub const DEFAULT_BLOCK_SIZE: u32 = 16384;

/// Number of block requests that may await their answer at once.
pub const MAX_IN_FLIGHT_REQUESTS: u8 = 5;

/// Size of the block requested at `block_index` of a piece of `length` bytes. A piece that fits
/// in one block is asked for in two halves, the first `length / 2` bytes and then the rest; a
/// longer piece in whole blocks, the last one cut at the end of the piece.
pub open spec fn spec_block_size(length: u32, block_index: u32) -> u32 {
    if DEFAULT_BLOCK_SIZE >= length && block_index < length / 2 {
        (length / 2 - block_index) as u32
    } else if block_index + DEFAULT_BLOCK_SIZE >= length {
        (length - block_index) as u32
    } else {
        DEFAULT_BLOCK_SIZE
    }
}

/// Whether the size of the block at `block_index` can be worked out without overflow: the
/// offsets are added up in a `u32`.
pub open spec fn block_size_computable(length: u32, block_index: u32) -> bool {
    &&& block_index < length
    &&& (DEFAULT_BLOCK_SIZE >= length || block_index + DEFAULT_BLOCK_SIZE <= u32::MAX)
}

/// Size of the block requested at `block_index` of a piece of `length` bytes.
pub fn block_size(length: u32, block_index: u32) -> (res: u32)
    requires
        block_size_computable(length, block_index),
    ensures
        res == spec_block_size(length, block_index),
{
    if DEFAULT_BLOCK_SIZE >= length && block_index < length / 2 {
        length / 2 - block_index
    } else if block_index + DEFAULT_BLOCK_SIZE >= length {
        length - block_index
    } else {
        DEFAULT_BLOCK_SIZE
    }
}

/// Where the download of a piece stands.
pub struct PieceProgress {
    /// Index of the piece.
    pub index: u32,
    /// Length of the piece.
    pub length: u32,
    /// The piece as far as its blocks have arrived; zero elsewhere.
    pub buf: Seq<u8>,
    /// Number of bytes received.
    pub bytes_downloaded: u32,
    /// Offset of the next block to request.
    pub block_index: u32,
    /// Number of requests sent and not yet answered.
    pub in_flight: u8,
}

/// Whether a request is due: the peer does not choke us, fewer than the maximum of requests
/// await their answer, and part of the piece is still to be requested.
pub open spec fn request_due(p: PieceProgress, choked: bool) -> bool {
    &&& !choked
    &&& p.in_flight < MAX_IN_FLIGHT_REQUESTS
    &&& p.block_index < p.length
}

/// The request for the next block of the piece.
pub open spec fn next_request_model(p: PieceProgress) -> MessageModel {
    MessageModel::Request {
        index: p.index as u64,
        begin: p.block_index as u64,
        length: spec_block_size(p.length, p.block_index) as u64,
    }
}

/// Where the download stands once the next request has been sent.
pub open spec fn after_request(p: PieceProgress) -> PieceProgress {
    PieceProgress {
        block_index: (p.block_index + spec_block_size(p.length, p.block_index)) as u32,
        in_flight: (p.in_flight + 1) as u8,
        ..p
    }
}

/// Whether a received message can be taken in: a block must lie within the piece, answer a
/// request that awaits its answer, and keep the count of bytes received within a `u32`.
pub open spec fn message_fits(p: PieceProgress, m: MessageModel) -> bool {
    match m {
        MessageModel::Piece { begin, block, .. } => {
            &&& begin + block.len() <= p.length
            &&& p.in_flight > 0
            &&& p.bytes_downloaded + block.len() <= u32::MAX
        },
        _ => true,
    }
}

/// Where the download stands once a message has been received: a block is written at its
/// offset and counted; any other message changes nothing.
pub open spec fn after_message(p: PieceProgress, m: MessageModel) -> PieceProgress {
    match m {
        MessageModel::Piece { begin, block, .. } => PieceProgress {
            buf: written(p.buf, begin as int, block),
            bytes_downloaded: (p.bytes_downloaded + block.len()) as u32,
            in_flight: (p.in_flight - 1) as u8,
            ..p
        },
        _ => p,
    }
}

/// The longest piece whose block offsets, added up in a `u32`, never overflow: the offset of
/// its last whole block plus the block size still fits.
pub const MAX_PIECE_LENGTH: u32 = 4294950912;

/// Whether the download is in a state that its own steps reach: the buffer is as long as the
/// piece, the piece is no longer than [`MAX_PIECE_LENGTH`], requests have not gone past the
/// end of the piece, at most [`MAX_IN_FLIGHT_REQUESTS`] await their answer, and in a piece
/// longer than one block the next request starts at a whole number of blocks, or at the end of
/// the piece.
pub open spec fn well_formed(p: PieceProgress) -> bool {
    &&& p.buf.len() == p.length
    &&& p.length <= MAX_PIECE_LENGTH
    &&& p.block_index <= p.length
    &&& p.in_flight <= MAX_IN_FLIGHT_REQUESTS
    &&& p.length > DEFAULT_BLOCK_SIZE ==> p.block_index <= p.length && (p.block_index % DEFAULT_BLOCK_SIZE == 0
        || p.block_index == p.length)
}

/// In a state its own steps reach, the size of the next block can be worked out.
proof fn lemma_block_size_computable(p: PieceProgress)
    requires
        well_formed(p),
        p.block_index < p.length,
    ensures
        block_size_computable(p.length, p.block_index),
{
    if p.length > DEFAULT_BLOCK_SIZE {
        let k = p.block_index / DEFAULT_BLOCK_SIZE;
        assert(p.block_index == k * 16384) by (nonlinear_arith)
            requires
                p.block_index % 16384 == 0,
                k == p.block_index / 16384,
        ;
        assert(k < 262143) by (nonlinear_arith)
            requires
                p.block_index == k * 16384,
                p.block_index < 4294950912,
        ;
    }
}

/// A request sent when one is due keeps the download in a state its steps reach.
pub proof fn lemma_after_request_well_formed(p: PieceProgress)
    requires
        well_formed(p),
        request_due(p, false),
    ensures
        p.block_index + spec_block_size(p.length, p.block_index) <= p.length,
        well_formed(after_request(p)),
{
    lemma_block_size_computable(p);
    if p.length > DEFAULT_BLOCK_SIZE && p.block_index + DEFAULT_BLOCK_SIZE < p.length {
        assert((p.block_index + 16384) % 16384 == 0) by (nonlinear_arith)
            requires
                p.block_index % 16384 == 0,
        ;
    }
}

/// A message taken in when it fits keeps the download in a state its steps reach.
pub proof fn lemma_after_message_well_formed(p: PieceProgress, m: MessageModel)
    requires
        well_formed(p),
        message_fits(p, m),
    ensures
        well_formed(after_message(p, m)),
{
}

/// The download of one piece, driven by the messages that come from the peer.
pub struct PieceDownload {
    index: u32,
    length: u32,
    buf: Vec<u8>,
    bytes_downloaded: u32,
    block_index: u32,
    in_flight: u8,
}

impl View for PieceDownload {
    type V = PieceProgress;

    closed spec fn view(&self) -> PieceProgress {
        PieceProgress {
            index: self.index,
            length: self.length,
            buf: self.buf@,
            bytes_downloaded: self.bytes_downloaded,
            block_index: self.block_index,
            in_flight: self.in_flight,
        }
    }
}

impl PieceDownload {
    /// The download of the piece that `work` describes, nothing requested or received yet.
    pub fn new(work: &Work) -> (res: PieceDownload)
        requires
            work.length <= MAX_PIECE_LENGTH,
        ensures
            well_formed(res@),
            res@ == (PieceProgress {
                index: work.index,
                length: work.length,
                buf: Seq::new(work.length as nat, |i: int| 0u8),
                bytes_downloaded: 0,
                block_index: 0,
                in_flight: 0,
            }),
    {
        let buf: Vec<u8> = vec![0u8; work.length as usize];
        let res = PieceDownload {
            index: work.index,
            length: work.length,
            buf,
            bytes_downloaded: 0,
            block_index: 0,
            in_flight: 0,
        };
        proof {
            assert(res@.buf =~= Seq::new(work.length as nat, |i: int| 0u8));
        }
        res
    }

    /// The request to send next, if one is due.
    pub fn next_request(&self, choked: bool) -> (res: Option<Message>)
        requires
            well_formed(self@),
        ensures
            match res {
                Some(m) => request_due(self@, choked) && m@ == next_request_model(self@),
                None => !request_due(self@, choked),
            },
    {
        if !choked && self.in_flight < MAX_IN_FLIGHT_REQUESTS && self.block_index < self.length {
            proof {
                lemma_block_size_computable(self@);
            }
            let size = block_size(self.length, self.block_index);
            Some(Message::Request { index: self.index as u64, begin: self.block_index as u64, length: size as u64 })
        } else {
            None
        }
    }

    /// Notes that the request [`PieceDownload::next_request`] gave has been sent.
    pub fn request_sent(&mut self)
        requires
            request_due(old(self)@, false),
            well_formed(old(self)@),
        ensures
            final(self)@ == after_request(old(self)@),
            well_formed(final(self)@),
    {
        proof {
            lemma_block_size_computable(self@);
            lemma_after_request_well_formed(self@);
        }
        let size = block_size(self.length, self.block_index);
        self.block_index = self.block_index + size;
        self.in_flight = self.in_flight + 1;
    }

    /// Whether the message can be taken in (see [`message_fits`]).
    pub fn fits(&self, message: &Message) -> (res: bool)
        ensures
            res == message_fits(self@, message@),
    {
        match message {
            Message::Piece { begin, block, .. } => {
                *begin <= self.length as u64 && (block.len() as u64) <= self.length as u64 - *begin
                    && self.in_flight > 0 && (block.len() as u64) <= (u32::MAX - self.bytes_downloaded) as u64
            },
            _ => true,
        }
    }

    /// Takes in a message from the peer: a block is copied into the piece at its offset.
    pub fn receive(&mut self, message: &Message)
        requires
            well_formed(old(self)@),
            message_fits(old(self)@, message@),
        ensures
            final(self)@ == after_message(old(self)@, message@),
            well_formed(final(self)@),
    {
        match message {
            Message::Piece { begin, block, .. } => {
                let start = *begin as usize;
                let ghost initial = self.buf@;
                let mut i: usize = 0;
                while i < block.len()
                    invariant
                        i <= block@.len(),
                        start + block@.len() <= initial.len(),
                        self.buf@.len() == initial.len(),
                        self.length == initial.len(),
                        self.index == old(self).index,
                        self.length == old(self).length,
                        self.bytes_downloaded == old(self).bytes_downloaded,
                        self.block_index == old(self).block_index,
                        self.in_flight == old(self).in_flight,
                        message_fits(old(self)@, message@),
                        forall|j: int| 0 <= j < initial.len() ==> #[trigger] self.buf@[j] == if start <= j < start + i {
                            block@[j - start]
                        } else {
                            initial[j]
                        },
                    decreases block@.len() - i,
                {
                    self.buf.set(start + i, block[i]);
                    i = i + 1;
                }
                proof {
                    assert(self.buf@ =~= written(initial, start as int, block@));
                }
                self.bytes_downloaded = self.bytes_downloaded + block.len() as u32;
                self.in_flight = self.in_flight - 1;
            },
            _ => {},
        }
    }

    /// Whether as many bytes as the piece holds have been received.
    pub fn is_complete(&self) -> (res: bool)
        ensures
            res == (self@.bytes_downloaded >= self@.length),
    {
        self.bytes_downloaded >= self.length
    }

    /// The piece as received.
    pub fn into_buf(self) -> (res: Vec<u8>)
        ensures
            res@ == self@.buf,
    {
        self.buf
    }
}

/// The messages a worker opens with: it unchokes the peer and says it is interested.
pub fn opening_messages() -> (res: Vec<Message>)
    ensures
        res@.len() == 2,
        res@[0]@ == MessageModel::Unchoke,
        res@[1]@ == MessageModel::Interested,
{
    vec![Message::Unchoke, Message::Interested]
}

/// Whether the downloaded piece has the SHA1 hash that the work expects.
pub fn check_integrity(work: &Work, piece: &[u8]) -> (res: bool)
    requires
        piece@.len() <= MAX_HASHED_LEN,
    ensures
        res == (sha1_digest(piece@) == work.hash@),
{
    let hash = sha1(piece);
    bytes_eq(hash.as_slice(), work.hash.as_slice())
}

/// Takes on the work the queue gave if the peer has that piece; otherwise puts it back at the
/// front of the queue.
pub fn accept_work(queue: &mut SharedQueue, bitfield: &Bitfield, work: Work) -> (res: Option<Work>)
    requires
        work.index / 8 < bitfield@.len(),
    ensures
        bit_set(bitfield@, work.index as int) ==> res == Some(work) && final(queue)@ == old(queue)@,
        !bit_set(bitfield@, work.index as int) ==> res is None && final(queue)@ == put_back(old(queue)@, work),
{
    if bitfield.has_piece(work.index as usize) {
        Some(work)
    } else {
        queue.enqueue(work);
        None
    }
}

/// How the download of a piece ended.
pub enum PieceOutcome {
    /// All of the piece's bytes arrived.
    Downloaded(Vec<u8>),
    /// The connection failed.
    Failed,
    /// The download took too long.
    TimedOut,
}

/// What the worker does once the download of a piece has ended.
pub enum Settled {
    /// The piece is good: tell the peer we have it, and hand the piece on.
    Delivered { have: Message, piece: Piece },
    /// The work is back on the queue; go on with the next.
    Requeued,
    /// The work is back on the queue; the connection is to be given up.
    Abandoned,
}

/// Decides what becomes of a piece once its download has ended: a piece with the expected
/// hash is delivered; otherwise its work goes back to the front of the queue, and a failed
/// connection is given up.
pub fn settle(queue: &mut SharedQueue, work: Work, outcome: PieceOutcome) -> (res: Settled)
    requires
        outcome matches PieceOutcome::Downloaded(buf) ==> buf@.len() <= MAX_HASHED_LEN,
    ensures
        match outcome {
            PieceOutcome::Downloaded(buf) => if sha1_digest(buf@) == work.hash@ {
                &&& res matches Settled::Delivered { have, piece }
                &&& have@ == MessageModel::Have(work.index as u64)
                &&& piece.index == work.index
                &&& piece.buf@ == buf@
                &&& final(queue)@ == old(queue)@
            } else {
                res is Requeued && final(queue)@ == put_back(old(queue)@, work)
            },
            PieceOutcome::Failed => res is Abandoned && final(queue)@ == put_back(old(queue)@, work),
            PieceOutcome::TimedOut => res is Requeued && final(queue)@ == put_back(old(queue)@, work),
        },
{
    match outcome {
        PieceOutcome::Downloaded(buf) => {
            if check_integrity(&work, buf.as_slice()) {
                let index = work.index;
                Settled::Delivered { have: Message::Have(index as u64), piece: Piece { index, buf } }
            } else {
                queue.enqueue(work);
                Settled::Requeued
            }
        },
        PieceOutcome::Failed => {
            queue.enqueue(work);
            Settled::Abandoned
        },
        PieceOutcome::TimedOut => {
            queue.enqueue(work);
            Settled::Requeued
        },
    }
}

/// Number of seconds after which a keep-alive is sent again.
pub const KEEP_ALIVE_INTERVAL_SECS: u64 = 120;

/// Whether a keep-alive is due, given the seconds since the last one (`None` before the first).
pub fn keep_alive_due(since_last: Option<u64>) -> (res: bool)
    ensures
        res == match since_last {
            None => true,
            Some(secs) => secs > KEEP_ALIVE_INTERVAL_SECS,
        },
{
    match since_last {
        None => true,
        Some(secs) => secs > KEEP_ALIVE_INTERVAL_SECS,
    }
}

/// Where the download stands after each message of `messages` in turn.
pub open spec fn after_messages(p: PieceProgress, messages: Seq<MessageModel>) -> PieceProgress
    decreases messages.len(),
{
    if messages.len() == 0 {
        p
    } else {
        after_message(after_messages(p, messages.drop_last()), messages.last())
    }
}

/// The writes that the blocks among the messages make: each block at its offset.
pub open spec fn block_writes(messages: Seq<MessageModel>) -> Seq<(int, Seq<u8>)>
    decreases messages.len(),
{
    if messages.len() == 0 {
        seq![]
    } else {
        match messages.last() {
            MessageModel::Piece { begin, block, .. } => block_writes(messages.drop_last()).push(
                (begin as int, block),
            ),
            _ => block_writes(messages.drop_last()),
        }
    }
}

proof fn lemma_after_messages_buf(p: PieceProgress, messages: Seq<MessageModel>)
    ensures
        after_messages(p, messages).buf == write_all(p.buf, block_writes(messages)),
    decreases messages.len(),
{
    if messages.len() > 0 {
        lemma_after_messages_buf(p, messages.drop_last());
        let w = block_writes(messages.drop_last());
        if let MessageModel::Piece { begin, block, .. } = messages.last() {
            assert(block_writes(messages).drop_last() =~= w);
        }
    }
}

proof fn lemma_block_writes_from_messages(messages: Seq<MessageModel>, k: int)
    requires
        0 <= k < block_writes(messages).len(),
    ensures
        exists|i: int|
            0 <= i < messages.len() && (#[trigger] messages[i] matches MessageModel::Piece { begin, block, .. }
                && block_writes(messages)[k] == (begin as int, block)),
    decreases messages.len(),
{
    let init = messages.drop_last();
    let w = block_writes(init);
    if k < w.len() {
        if let MessageModel::Piece { begin, block, .. } = messages.last() {
            assert(block_writes(messages)[k] == w[k]);
        }
        lemma_block_writes_from_messages(init, k);
        let i = choose|i: int|
            0 <= i < init.len() && (#[trigger] init[i] matches MessageModel::Piece { begin, block, .. }
                && w[k] == (begin as int, block));
        assert(messages[i] == init[i]);
    } else {
        assert(messages[messages.len() - 1] == messages.last());
    }
}

proof fn lemma_block_writes_cover(messages: Seq<MessageModel>, i: int, j: int)
    requires
        0 <= i < messages.len(),
        messages[i] matches MessageModel::Piece { begin, block, .. } && begin <= j < begin + block.len(),
    ensures
        covered(block_writes(messages), j),
    decreases messages.len(),
{
    let init = messages.drop_last();
    let w = block_writes(init);
    let bw = block_writes(messages);
    if i < messages.len() - 1 {
        assert(init[i] == messages[i]);
        lemma_block_writes_cover(init, i, j);
        let k = choose|k: int| 0 <= k < w.len() && #[trigger] w[k].0 <= j < w[k].0 + w[k].1.len();
        assert(bw[k] == w[k]);
        assert(bw[k].0 <= j < bw[k].0 + bw[k].1.len());
    } else {
        assert(messages[i] == messages.last());
        let k = w.len() as int;
        assert(bw[k].0 <= j < bw[k].0 + bw[k].1.len());
    }
}

/// Whether the message is a block holding the bytes that `data` has at its offset.
pub open spec fn block_of(data: Seq<u8>, m: MessageModel) -> bool {
    m matches MessageModel::Piece { begin, block, .. } ==> begin + block.len() <= data.len()
        && block == data.subrange(begin as int, begin + block.len())
}

/// Whether position `j` lies in one of the blocks among the messages.
pub open spec fn in_some_block(messages: Seq<MessageModel>, j: int) -> bool {
    exists|i: int|
        0 <= i < messages.len() && (#[trigger] messages[i] matches MessageModel::Piece { begin, block, .. }
            && begin <= j < begin + block.len())
}

/// Once blocks holding the piece's bytes have arrived for every offset of the piece, in
/// whatever order and whatever else arrived between them, the buffer holds the piece.
pub proof fn lemma_blocks_assemble_piece(p: PieceProgress, data: Seq<u8>, messages: Seq<MessageModel>)
    requires
        well_formed(p),
        data.len() == p.length,
        forall|i: int| 0 <= i < messages.len() ==> block_of(data, #[trigger] messages[i]),
        forall|j: int| 0 <= j < data.len() ==> #[trigger] in_some_block(messages, j),
    ensures
        after_messages(p, messages).buf == data,
{
    let writes = block_writes(messages);
    assert forall|k: int| 0 <= k < writes.len() implies {
        &&& 0 <= #[trigger] writes[k].0
        &&& writes[k].0 + writes[k].1.len() <= data.len()
        &&& writes[k].1 == data.subrange(writes[k].0, writes[k].0 + writes[k].1.len())
    } by {
        lemma_block_writes_from_messages(messages, k);
        let i = choose|i: int|
            0 <= i < messages.len() && (#[trigger] messages[i] matches MessageModel::Piece { begin, block, .. }
                && writes[k] == (begin as int, block));
        assert(block_of(data, messages[i]));
    }
    assert forall|j: int| 0 <= j < data.len() implies covered(writes, j) by {
        assert(in_some_block(messages, j));
        let i = choose|i: int|
            0 <= i < messages.len() && (#[trigger] messages[i] matches MessageModel::Piece { begin, block, .. }
                && begin <= j < begin + block.len());
        lemma_block_writes_cover(messages, i, j);
    }
    lemma_after_messages_buf(p, messages);
    lemma_covering_writes_give_file(data, p.buf, writes);
}

/// The block requested at an offset within the piece lies within the piece and is not empty;
/// in a piece longer than one block, a request short of a whole block ends exactly at the end
/// of the piece.
pub proof fn lemma_request_within_piece(length: u32, block_index: u32)
    requires
        block_index < length,
    ensures
        block_index + spec_block_size(length, block_index) <= length,
        spec_block_size(length, block_index) > 0,
        length > DEFAULT_BLOCK_SIZE && spec_block_size(length, block_index) < DEFAULT_BLOCK_SIZE ==> block_index
            + spec_block_size(length, block_index) == length,
{
}

/// The blocks requested of a piece of `length` bytes from offset `from` on, in the order the
/// requests go out: each one's offset and size.
pub open spec fn request_plan(length: u32, from: u32) -> Seq<(u32, u32)>
    decreases u32::MAX - from,
{
    let size = spec_block_size(length, from);
    if from >= length || size == 0 || from + size > u32::MAX {
        seq![]
    } else {
        seq![(from, size)] + request_plan(length, (from + size) as u32)
    }
}

/// The size of the block at whole block `k` of a piece longer than one block: a whole block, or
/// what is left of the piece.
pub open spec fn whole_block_size(length: u32, k: int) -> u32 {
    if length - 16384 * k >= 16384 {
        16384
    } else {
        (length - 16384 * k) as u32
    }
}

proof fn lemma_request_plan_from(length: u32, k0: nat)
    requires
        DEFAULT_BLOCK_SIZE < length <= MAX_PIECE_LENGTH,
        16384 * k0 <= length,
    ensures
        request_plan(length, (16384 * k0) as u32).len() == (length - 16384 * k0 + 16383) / 16384,
        forall|k: int|
            0 <= k < request_plan(length, (16384 * k0) as u32).len() ==> #[trigger] request_plan(
                length,
                (16384 * k0) as u32,
            )[k] == ((16384 * (k0 + k)) as u32, whole_block_size(length, k0 + k)),
    decreases length - 16384 * k0,
{
    let from = (16384 * k0) as u32;
    let plan = request_plan(length, from);
    if from < length {
        let size = spec_block_size(length, from);
        assert(size == whole_block_size(length, k0 as int));
        if 16384 * (k0 + 1) <= length {
            lemma_request_plan_from(length, k0 + 1);
            assert(from + size == 16384 * (k0 + 1));
            let rest = request_plan(length, (16384 * (k0 + 1)) as u32);
            assert(plan == seq![(from, size)] + rest);
            assert forall|k: int| 0 <= k < plan.len() implies #[trigger] plan[k] == (
                (16384 * (k0 + k)) as u32,
                whole_block_size(length, k0 + k),
            ) by {
                if k > 0 {
                    assert(plan[k] == rest[k - 1]);
                    assert(k0 + 1 + (k - 1) == k0 + k);
                }
            }
        } else {
            assert(from + size == length);
            assert(request_plan(length, length) =~= seq![]);
            assert(plan =~= seq![(from, size)]);
        }
    } else {
        assert(plan =~= seq![]);
    }
}

/// The requests for a piece longer than one block are its whole blocks in order from the start,
/// each beginning where the one before ended, the last one cut short at the end of the piece:
/// together they cover the piece exactly once.
pub proof fn lemma_requests_tile_piece(length: u32)
    requires
        DEFAULT_BLOCK_SIZE < length <= MAX_PIECE_LENGTH,
    ensures
        request_plan(length, 0).len() == (length + 16383) / 16384,
        forall|k: int|
            0 <= k < request_plan(length, 0).len() ==> #[trigger] request_plan(length, 0)[k] == (
                (16384 * k) as u32,
                whole_block_size(length, k),
            ),
{
    lemma_request_plan_from(length, 0);
    assert((16384 * 0nat) as u32 == 0u32);
}

/// The download requests its blocks along the plan: the request due next is the plan's first
/// block from the current offset, and once it is sent the plan from the new offset is the rest.
pub proof fn lemma_requests_follow_plan(p: PieceProgress)
    requires
        well_formed(p),
        request_due(p, false),
    ensures
        request_plan(p.length, p.block_index).len() > 0,
        next_request_model(p) == (MessageModel::Request {
            index: p.index as u64,
            begin: request_plan(p.length, p.block_index)[0].0 as u64,
            length: request_plan(p.length, p.block_index)[0].1 as u64,
        }),
        request_plan(p.length, after_request(p).block_index) == request_plan(p.length, p.block_index).drop_first(),
{
    lemma_block_size_computable(p);
    let size = spec_block_size(p.length, p.block_index);
    let rest = request_plan(p.length, (p.block_index + size) as u32);
    assert(request_plan(p.length, p.block_index) == seq![(p.block_index, size)] + rest);
    assert((seq![(p.block_index, size)] + rest).drop_first() =~= rest);
}


/// The requests for a piece that fits in one block are its two halves, the first `length / 2`
/// bytes and then the rest (a one-byte piece is requested whole): together they cover the piece
/// exactly once.
pub proof fn lemma_requests_halve_short_piece(length: u32)
    requires
        1 <= length <= DEFAULT_BLOCK_SIZE,
    ensures
        length >= 2 ==> request_plan(length, 0) == seq![(0u32, length / 2), (length / 2, (length - length / 2) as u32)],
        length == 1 ==> request_plan(length, 0) == seq![(0u32, 1u32)],
{
    reveal_with_fuel(request_plan, 3);
    if length >= 2 {
        assert(request_plan(length, length) =~= seq![]);
        assert(request_plan(length, length / 2) =~= seq![(length / 2, (length - length / 2) as u32)]);
        assert(request_plan(length, 0) =~= seq![(0u32, length / 2), (length / 2, (length - length / 2) as u32)]);
    } else {
        assert(request_plan(1, 1) =~= seq![]);
        assert(request_plan(1, 0) =~= seq![(0u32, 1u32)]);
    }
}

/// The download after each event in turn: a request sent (`None`) or a message received.
pub open spec fn after_events(p: PieceProgress, events: Seq<Option<MessageModel>>) -> PieceProgress
    decreases events.len(),
{
    if events.len() == 0 {
        p
    } else {
        let q = after_events(p, events.drop_last());
        match events.last() {
            None => after_request(q),
            Some(m) => after_message(q, m),
        }
    }
}

/// Whether each event could happen as it did: a request only when one is due with the peer not
/// choking us, a message only when it fits.
pub open spec fn events_allowed(p: PieceProgress, events: Seq<Option<MessageModel>>) -> bool
    decreases events.len(),
{
    if events.len() == 0 {
        true
    } else {
        let q = after_events(p, events.drop_last());
        &&& events_allowed(p, events.drop_last())
        &&& match events.last() {
            None => request_due(q, false),
            Some(m) => message_fits(q, m),
        }
    }
}

/// Throughout a piece download, no more than [`MAX_IN_FLIGHT_REQUESTS`] requests await their
/// answer, requests never go past the end of the piece, and none is due while the peer chokes
/// us.
pub proof fn lemma_download_keeps_limits(p: PieceProgress, events: Seq<Option<MessageModel>>, choked: bool)
    requires
        well_formed(p),
        events_allowed(p, events),
    ensures
        well_formed(after_events(p, events)),
        after_events(p, events).in_flight <= MAX_IN_FLIGHT_REQUESTS,
        after_events(p, events).block_index <= after_events(p, events).length,
        choked ==> !request_due(after_events(p, events), choked),
    decreases events.len(),
{
    if events.len() > 0 {
        lemma_download_keeps_limits(p, events.drop_last(), choked);
        let q = after_events(p, events.drop_last());
        match events.last() {
            None => lemma_after_request_well_formed(q),
            Some(m) => lemma_after_message_well_formed(q, m),
        }
    }
}


/// How the download of a piece ended, its bytes taken as a sequence.
pub enum OutcomeModel {
    Downloaded(Seq<u8>),
    Failed,
    TimedOut,
}

/// Where a worker stands: the work queue, the pieces delivered so far with the work they were
/// for, and whether the worker has given up its connection.
pub struct WorkerProgress {
    pub queue: Seq<Work>,
    pub delivered: Seq<(Work, Seq<u8>)>,
    pub stopped: bool,
}

/// One round of a worker: it takes the work at the front of the queue
/// ([`SharedQueue::dequeue`]); where the peer lacks that piece it puts the work back
/// ([`accept_work`]); otherwise the download of the piece ends with `outcome`, and
/// [`settle`] delivers the piece or puts the work back, giving up the connection on a failure.
pub open spec fn round(w: WorkerProgress, bits: Seq<u8>, outcome: OutcomeModel) -> WorkerProgress {
    if w.stopped {
        w
    } else {
        match taken(w.queue).0 {
            None => w,
            Some(work) => {
                let rest = taken(w.queue).1;
                if !bit_set(bits, work.index as int) {
                    WorkerProgress { queue: put_back(rest, work), ..w }
                } else {
                    match outcome {
                        OutcomeModel::Downloaded(buf) => if sha1_digest(buf) == work.hash@ {
                            WorkerProgress { queue: rest, delivered: w.delivered.push((work, buf)), ..w }
                        } else {
                            WorkerProgress { queue: put_back(rest, work), ..w }
                        },
                        OutcomeModel::Failed => WorkerProgress { queue: put_back(rest, work), stopped: true, ..w },
                        OutcomeModel::TimedOut => WorkerProgress { queue: put_back(rest, work), ..w },
                    }
                }
            },
        }
    }
}

/// A worker after one round per outcome, in turn.
pub open spec fn run(w: WorkerProgress, bits: Seq<u8>, outcomes: Seq<OutcomeModel>) -> WorkerProgress
    decreases outcomes.len(),
{
    if outcomes.len() == 0 {
        w
    } else {
        round(run(w, bits, outcomes.drop_last()), bits, outcomes.last())
    }
}

/// The work that the delivered pieces were for.
pub open spec fn delivered_work(delivered: Seq<(Work, Seq<u8>)>) -> Seq<Work> {
    delivered.map_values(|d: (Work, Seq<u8>)| d.0)
}

/// A worker that has delivered nothing yet, with the given queue.
pub open spec fn fresh_worker(queue: Seq<Work>) -> WorkerProgress {
    WorkerProgress { queue, delivered: seq![], stopped: false }
}

/// Whether the work first queued is exactly the work still queued together with the work
/// delivered, and each delivered piece is one the peer has, with the SHA1 hash its work
/// expects.
pub open spec fn work_accounted(queue: Seq<Work>, bits: Seq<u8>, w: WorkerProgress) -> bool {
    &&& queue.to_multiset() == w.queue.to_multiset().add(delivered_work(w.delivered).to_multiset())
    &&& forall|k: int|
        0 <= k < w.delivered.len() ==> sha1_digest(#[trigger] w.delivered[k].1) == w.delivered[k].0.hash@
            && bit_set(bits, w.delivered[k].0.index as int)
}

/// Whatever the peer has and however its downloads end, every piece of work a worker takes is
/// either delivered or back on the queue, once: the work first queued is exactly the work still
/// queued together with the work delivered. A piece is delivered only when the peer has it and
/// its bytes have the SHA1 hash that its work expects.
pub proof fn lemma_worker_accounts_for_work(queue: Seq<Work>, bits: Seq<u8>, outcomes: Seq<OutcomeModel>)
    ensures
        work_accounted(queue, bits, run(fresh_worker(queue), bits, outcomes)),
    decreases outcomes.len(),
{
    broadcast use vstd::multiset::group_multiset_axioms, vstd::seq_lib::group_to_multiset_ensures;

    let start = fresh_worker(queue);
    if outcomes.len() == 0 {
        assert(delivered_work(seq![]) =~= seq![]);
        assert(queue.to_multiset() =~= queue.to_multiset().add(Seq::<Work>::empty().to_multiset()));
    } else {
        lemma_worker_accounts_for_work(queue, bits, outcomes.drop_last());
        let w = run(start, bits, outcomes.drop_last());
        let f = round(w, bits, outcomes.last());
        assert(f == run(start, bits, outcomes));
        if !w.stopped && w.queue.len() > 0 {
            let work = w.queue[0];
            let rest = w.queue.drop_first();
            assert(w.queue =~= seq![work] + rest);
            vstd::seq_lib::lemma_multiset_commutative(seq![work], rest);
            assert(seq![work].to_multiset() =~= vstd::multiset::Multiset::<Work>::empty().insert(work)) by {
                assert(seq![work] =~= Seq::<Work>::empty().push(work));
            }
            if f.delivered.len() > w.delivered.len() {
                assert(bit_set(bits, work.index as int));
                let buf = match outcomes.last() {
                    OutcomeModel::Downloaded(b) => b,
                    _ => seq![],
                };
                assert(outcomes.last() == OutcomeModel::Downloaded(buf));
                assert(sha1_digest(buf) == work.hash@);
                assert(f.delivered == w.delivered.push((work, buf)));
                assert(delivered_work(f.delivered) =~= delivered_work(w.delivered).push(work));
                assert(f.delivered.drop_last() =~= w.delivered);
            } else {
                assert(f.delivered == w.delivered);
                assert(f.queue =~= seq![work] + rest);
            }
        } else {
            assert(f == w);
        }
        assert(queue.to_multiset() == f.queue.to_multiset().add(delivered_work(f.delivered).to_multiset()));
        assert(f.delivered == w.delivered || (f.delivered.len() == w.delivered.len() + 1
            && f.delivered.drop_last() == w.delivered && sha1_digest(f.delivered.last().1)
            == f.delivered.last().0.hash@ && bit_set(bits, f.delivered.last().0.index as int)));
        assert forall|k: int| 0 <= k < f.delivered.len() implies sha1_digest(#[trigger] f.delivered[k].1)
            == f.delivered[k].0.hash@ && bit_set(bits, f.delivered[k].0.index as int) by {
            if k < w.delivered.len() {
                assert(f.delivered[k] == w.delivered[k]);
                assert(sha1_digest(w.delivered[k].1) == w.delivered[k].0.hash@);
            } else {
                assert(f.delivered[k] == f.delivered.last());
            }
        }
    }
}

} // verus!
