//! Setting up a download: the tracker request for a file and the work of downloading its
//! pieces.
use vstd::prelude::*;

use crate::hash::sha1_digest;
use crate::metainfo::{Info, Metainfo};
use crate::piece::{piece_end, piece_start};
use crate::serialise::ser_value;
use crate::torrent::{hashable, info_hash, info_value};
use crate::tracker::{Request, tracker_base_url, tracker_query, tracker_request_fits, url_with_query};
use crate::work::Work;
use crate::PEER_ID;

verus! {

/// The port this client announces to the tracker.
pub const CLIENT_PORT: u32 = 6881;

/// The number of bytes of piece `i` of a file of `length` bytes cut into pieces of
/// `piece_length` bytes: a whole piece, or what is left of the file for the last one (none for
/// a piece past the end).
pub open spec fn piece_size(length: int, piece_length: int, i: int) -> int {
    if length - i * piece_length >= piece_length {
        piece_length
    } else if length - i * piece_length >= 0 {
        length - i * piece_length
    } else {
        0
    }
}

/// The work of downloading each piece of the file: its index, its length (the last piece may be
/// shorter than the others), and the expected hash.
pub fn work_items(info: &Info) -> (res: Vec<Work>)
    ensures
        res@.len() == info.pieces@.len() / 20,
        forall|i: int|
            0 <= i < res@.len() ==> {
                &&& #[trigger] res@[i].index == i as u32
                &&& res@[i].length == piece_size(info.length as int, info.piece_length as int, i) as u32
                &&& res@[i].hash@ == info.pieces@.subrange(20 * i, 20 * i + 20)
            },
{
    let hashes = info.pieces();
    let mut res: Vec<Work> = Vec::new();
    let mut idx: usize = 0;
    while idx < hashes.len()
        invariant
            idx <= hashes@.len(),
            hashes@.len() == info.pieces@.len() / 20,
            forall|i: int| 0 <= i < hashes@.len() ==> #[trigger] hashes@[i]@ == info.pieces@.subrange(20 * i, 20 * i + 20),
            res@.len() == idx,
            forall|i: int|
                0 <= i < idx ==> {
                    &&& #[trigger] res@[i].index == i as u32
                    &&& res@[i].length == piece_size(info.length as int, info.piece_length as int, i) as u32
                    &&& res@[i].hash@ == info.pieces@.subrange(20 * i, 20 * i + 20)
                },
        decreases hashes@.len() - idx,
    {
        let hash = vstd::slice::slice_to_vec(hashes[idx].as_slice());
        let piece_length = info.piece_length as u128;
        let length = info.length as u128;
        assert(idx as u128 * piece_length < 0x1_0000_0000_0000_0000_0000_0000_0000_0000) by (nonlinear_arith)
            requires
                idx < 0x1_0000_0000_0000_0000,
                piece_length < 0x1_0000_0000_0000_0000,
        ;
        let start: u128 = idx as u128 * piece_length;
        let size: u128 = if start <= length && length - start >= piece_length {
            piece_length
        } else if start <= length {
            length - start
        } else {
            0
        };
        res.push(Work { index: idx as u32, length: size as u32, hash });
        idx = idx + 1;
    }
    res
}

/// The request announcing the download of the file to its tracker: this client's peer ID and
/// port, the info hash, and the whole file left; `None` where the announce URL with the info
/// hash is not an absolute URL.
pub fn tracker_request(metainfo: &Metainfo) -> (res: Option<Request>)
    requires
        hashable(metainfo.info),
        tracker_request_fits(metainfo.announce@, PEER_ID@, 20),
    ensures
        ({
            let url = url_with_query(
                tracker_base_url(metainfo.announce@, sha1_digest(ser_value(info_value(metainfo.info)))),
                tracker_query(PEER_ID@, CLIENT_PORT, metainfo.info.length),
            );
            match res {
                Some(r) => url == Some(r.url@),
                None => url is None,
            }
        }),
{
    let hash = info_hash(&metainfo.info);
    Request::try_new(metainfo.announce.as_str(), PEER_ID, CLIENT_PORT, hash, metainfo.info.length)
}


/// The work for a piece that starts within the file is exactly as long as that piece's place
/// in the file, so a downloaded piece fits where it is stored.
pub proof fn lemma_work_fits_its_place(length: usize, piece_length: usize, i: u32)
    requires
        i as int * piece_length as int <= length,
    ensures
        piece_size(length as int, piece_length as int, i as int) == piece_end(i, piece_length, length as int)
            - piece_start(i, piece_length),
{
}

} // verus!
