//! Downloaded pieces and their place in the file.
use vstd::prelude::*;

verus! {

/// Downloaded piece.
#[derive(Debug)]
pub struct Piece {
    /// Index of the piece within the file.
    pub index: u32,
    /// Piece data.
    pub buf: Vec<u8>,
}

/// Where the piece with the given index starts in a file of `file_len` bytes cut into pieces of
/// `piece_length` bytes.
pub open spec fn piece_start(index: u32, piece_length: usize) -> int {
    index as int * piece_length as int
}

/// Where that piece ends: a piece length further on, or at the end of the file if that comes
/// first.
pub open spec fn piece_end(index: u32, piece_length: usize, file_len: int) -> int {
    if piece_start(index, piece_length) + piece_length <= file_len {
        piece_start(index, piece_length) + piece_length
    } else {
        file_len
    }
}

/// Whether the piece fits its place in a file of `file_len` bytes: the place starts within the
/// file and the piece's data is exactly as long as the place.
pub open spec fn piece_fits(piece_index: u32, data_len: int, piece_length: usize, file_len: int) -> bool {
    &&& piece_start(piece_index, piece_length) + piece_length <= usize::MAX
    &&& piece_start(piece_index, piece_length) <= file_len
    &&& data_len == piece_end(piece_index, piece_length, file_len) - piece_start(piece_index, piece_length)
}

/// The file `buf` with `data` written at `start`.
pub open spec fn written(buf: Seq<u8>, start: int, data: Seq<u8>) -> Seq<u8> {
    Seq::new(
        buf.len(),
        |j: int|
            if start <= j < start + data.len() {
                data[j - start]
            } else {
                buf[j]
            },
    )
}

/// Writes a received piece at its place in the file.
pub fn store_piece(buf: &mut Vec<u8>, piece_length: usize, piece: &Piece)
    requires
        piece_fits(piece.index, piece.buf@.len() as int, piece_length, old(buf)@.len() as int),
    ensures
        final(buf)@ == written(old(buf)@, piece_start(piece.index, piece_length), piece.buf@),
{
    let start = piece.index as usize * piece_length;
    let end = if start + piece_length <= buf.len() {
        start + piece_length
    } else {
        buf.len()
    };
    let ghost initial = buf@;
    let mut i: usize = start;
    while i < end
        invariant
            start <= i <= end <= initial.len(),
            end - start == piece.buf@.len(),
            buf@.len() == initial.len(),
            forall|j: int| 0 <= j < i ==> #[trigger] buf@[j] == written(initial, start as int, piece.buf@)[j],
            forall|j: int| i <= j < initial.len() ==> #[trigger] buf@[j] == initial[j],
        decreases end - i,
    {
        buf.set(i, piece.buf[i - start]);
        i = i + 1;
    }
    proof {
        assert(buf@ =~= written(initial, start as int, piece.buf@));
    }
}

/// Counts received pieces and tells when the file is complete.
pub struct PieceCount {
    /// Number of pieces received so far.
    pub received: usize,
    /// Number of pieces in the file.
    pub expected: usize,
}

impl PieceCount {
    /// No piece received yet, out of `expected`.
    pub fn new(expected: usize) -> (res: PieceCount)
        ensures
            res.received == 0,
            res.expected == expected,
    {
        PieceCount { received: 0, expected }
    }

    /// Counts one more piece; `true` exactly when that makes the count reach the number of
    /// pieces in the file, which is when the file is complete.
    pub fn record(&mut self) -> (complete: bool)
        requires
            old(self).received < usize::MAX,
        ensures
            final(self).received == old(self).received + 1,
            final(self).expected == old(self).expected,
            complete == (final(self).received == final(self).expected),
    {
        self.received = self.received + 1;
        self.received == self.expected
    }
}

/// The buffer after each write of `writes` in turn, a write being an offset and the bytes
/// written there.
pub open spec fn write_all(buf: Seq<u8>, writes: Seq<(int, Seq<u8>)>) -> Seq<u8>
    decreases writes.len(),
{
    if writes.len() == 0 {
        buf
    } else {
        written(write_all(buf, writes.drop_last()), writes.last().0, writes.last().1)
    }
}

/// Whether one of the writes covers position `j`.
pub open spec fn covered(writes: Seq<(int, Seq<u8>)>, j: int) -> bool {
    exists|k: int| 0 <= k < writes.len() && #[trigger] writes[k].0 <= j < writes[k].0 + writes[k].1.len()
}

/// Whether each write puts the bytes that `file` has at its place.
pub open spec fn writes_agree(file: Seq<u8>, writes: Seq<(int, Seq<u8>)>) -> bool {
    forall|k: int|
        0 <= k < writes.len() ==> {
            &&& 0 <= #[trigger] writes[k].0
            &&& writes[k].0 + writes[k].1.len() <= file.len()
            &&& writes[k].1 == file.subrange(writes[k].0, writes[k].0 + writes[k].1.len())
        }
}

proof fn lemma_write_all_at(file: Seq<u8>, buf: Seq<u8>, writes: Seq<(int, Seq<u8>)>)
    requires
        buf.len() == file.len(),
        writes_agree(file, writes),
    ensures
        write_all(buf, writes).len() == file.len(),
        forall|j: int|
            0 <= j < file.len() ==> #[trigger] write_all(buf, writes)[j] == if covered(writes, j) {
                file[j]
            } else {
                buf[j]
            },
    decreases writes.len(),
{
    if writes.len() > 0 {
        let init = writes.drop_last();
        assert forall|k: int| 0 <= k < init.len() implies {
            &&& 0 <= #[trigger] init[k].0
            &&& init[k].0 + init[k].1.len() <= file.len()
            &&& init[k].1 == file.subrange(init[k].0, init[k].0 + init[k].1.len())
        } by {
            assert(init[k] == writes[k]);
        }
        lemma_write_all_at(file, buf, init);
        let last = writes.last();
        assert(writes[writes.len() - 1] == last);
        assert forall|j: int| 0 <= j < file.len() implies #[trigger] write_all(buf, writes)[j] == if covered(
            writes,
            j,
        ) {
            file[j]
        } else {
            buf[j]
        } by {
            if last.0 <= j < last.0 + last.1.len() {
                assert(last.1[j - last.0] == file[j]);
                assert(covered(writes, j));
            } else {
                if covered(init, j) {
                    let k = choose|k: int| 0 <= k < init.len() && #[trigger] init[k].0 <= j < init[k].0 + init[k].1.len();
                    assert(writes[k] == init[k]);
                    assert(covered(writes, j));
                }
                if covered(writes, j) {
                    let k = choose|k: int| 0 <= k < writes.len() && #[trigger] writes[k].0 <= j < writes[k].0 + writes[k].1.len();
                    assert(k < writes.len() - 1);
                    assert(init[k] == writes[k]);
                    assert(covered(init, j));
                }
            }
        }
    }
}

/// Writes that each put the bytes of `file` at their place, and together cover all of it, leave
/// the buffer holding the file, whatever order they come in and wherever they overlap.
pub proof fn lemma_covering_writes_give_file(file: Seq<u8>, buf: Seq<u8>, writes: Seq<(int, Seq<u8>)>)
    requires
        buf.len() == file.len(),
        writes_agree(file, writes),
        forall|j: int| 0 <= j < file.len() ==> covered(writes, j),
    ensures
        write_all(buf, writes) == file,
{
    lemma_write_all_at(file, buf, writes);
    assert(write_all(buf, writes) =~= file);
}

/// The writes that storing each of the pieces makes: each piece's data at its place.
pub open spec fn piece_writes(pieces: Seq<(u32, Seq<u8>)>, piece_length: usize) -> Seq<(int, Seq<u8>)> {
    pieces.map_values(|pc: (u32, Seq<u8>)| (piece_start(pc.0, piece_length), pc.1))
}

/// Whether position `j` of a file of `file_len` bytes lies in the place of one of the pieces.
pub open spec fn in_some_piece(pieces: Seq<(u32, Seq<u8>)>, piece_length: usize, file_len: int, j: int) -> bool {
    exists|k: int|
        0 <= k < pieces.len() && piece_start(#[trigger] pieces[k].0, piece_length) <= j < piece_end(
            pieces[k].0,
            piece_length,
            file_len,
        )
}

/// Storing every piece of a file, each holding the file's bytes at its place, puts the file
/// together, in whatever order the pieces arrive.
pub proof fn lemma_pieces_assemble_file(
    file: Seq<u8>,
    buf: Seq<u8>,
    piece_length: usize,
    pieces: Seq<(u32, Seq<u8>)>,
)
    requires
        buf.len() == file.len(),
        forall|k: int|
            0 <= k < pieces.len() ==> {
                &&& piece_fits(#[trigger] pieces[k].0, pieces[k].1.len() as int, piece_length, file.len() as int)
                &&& pieces[k].1 == file.subrange(
                    piece_start(pieces[k].0, piece_length),
                    piece_end(pieces[k].0, piece_length, file.len() as int),
                )
            },
        forall|j: int| 0 <= j < file.len() ==> #[trigger] in_some_piece(pieces, piece_length, file.len() as int, j),
    ensures
        write_all(buf, piece_writes(pieces, piece_length)) == file,
{
    let writes = piece_writes(pieces, piece_length);
    assert forall|k: int| 0 <= k < writes.len() implies {
        &&& 0 <= #[trigger] writes[k].0
        &&& writes[k].0 + writes[k].1.len() <= file.len()
        &&& writes[k].1 == file.subrange(writes[k].0, writes[k].0 + writes[k].1.len())
    } by {
        assert(writes[k] == (piece_start(pieces[k].0, piece_length), pieces[k].1));
        assert(piece_fits(pieces[k].0, pieces[k].1.len() as int, piece_length, file.len() as int));
    }
    assert forall|j: int| 0 <= j < file.len() implies covered(writes, j) by {
        assert(in_some_piece(pieces, piece_length, file.len() as int, j));
        let k = choose|k: int|
            0 <= k < pieces.len() && piece_start(#[trigger] pieces[k].0, piece_length) <= j < piece_end(
                pieces[k].0,
                piece_length,
                file.len() as int,
            );
        assert(writes[k] == (piece_start(pieces[k].0, piece_length), pieces[k].1));
        assert(piece_fits(pieces[k].0, pieces[k].1.len() as int, piece_length, file.len() as int));
        assert(writes[k].0 <= j < writes[k].0 + writes[k].1.len());
    }
    lemma_covering_writes_give_file(file, buf, writes);
}

} // verus!
