//! The metainfo (`.torrent`) file and its `info` dictionary.
use vstd::prelude::*;

use crate::parse::{BencodeType2, entry_models, find_key, lemma_entry_models_index};
use crate::text::string_from_utf8;
use crate::value::{BValue, lookup};
use vstd::slice::{slice_subrange, slice_to_vec};
use vstd::utf8::{decode_utf8, encode_utf8, encode_utf8_decode_utf8, valid_utf8};

verus! {

/// Length in bytes of a SHA1 hash, the length of each piece hash.
pub const SHA1_HASH_HEX_OUTPUT_SIZE: usize = 20;

/// The key `announce`.
pub open spec fn announce_key() -> Seq<u8> {
    seq![97u8, 110u8, 110u8, 111u8, 117u8, 110u8, 99u8, 101u8]
}

/// The key `info`.
pub open spec fn info_key() -> Seq<u8> {
    seq![105u8, 110u8, 102u8, 111u8]
}

/// The key `name`.
pub open spec fn name_key() -> Seq<u8> {
    seq![110u8, 97u8, 109u8, 101u8]
}

/// The key `length`.
pub open spec fn length_key() -> Seq<u8> {
    seq![108u8, 101u8, 110u8, 103u8, 116u8, 104u8]
}

/// The key `piece length`.
pub open spec fn piece_length_key() -> Seq<u8> {
    seq![112u8, 105u8, 101u8, 99u8, 101u8, 32u8, 108u8, 101u8, 110u8, 103u8, 116u8, 104u8]
}

/// The key `pieces`.
pub open spec fn pieces_key() -> Seq<u8> {
    seq![112u8, 105u8, 101u8, 99u8, 101u8, 115u8]
}

fn announce_key_bytes() -> (res: Vec<u8>)
    ensures
        res@ == announce_key(),
{
    let res = vec![97u8, 110u8, 110u8, 111u8, 117u8, 110u8, 99u8, 101u8];
    proof {
        assert(res@ =~= announce_key());
    }
    res
}

fn info_key_bytes() -> (res: Vec<u8>)
    ensures
        res@ == info_key(),
{
    let res = vec![105u8, 110u8, 102u8, 111u8];
    proof {
        assert(res@ =~= info_key());
    }
    res
}

fn name_key_bytes() -> (res: Vec<u8>)
    ensures
        res@ == name_key(),
{
    let res = vec![110u8, 97u8, 109u8, 101u8];
    proof {
        assert(res@ =~= name_key());
    }
    res
}

fn length_key_bytes() -> (res: Vec<u8>)
    ensures
        res@ == length_key(),
{
    let res = vec![108u8, 101u8, 110u8, 103u8, 116u8, 104u8];
    proof {
        assert(res@ =~= length_key());
    }
    res
}

fn piece_length_key_bytes() -> (res: Vec<u8>)
    ensures
        res@ == piece_length_key(),
{
    let res = vec![112u8, 105u8, 101u8, 99u8, 101u8, 32u8, 108u8, 101u8, 110u8, 103u8, 116u8, 104u8];
    proof {
        assert(res@ =~= piece_length_key());
    }
    res
}

fn pieces_key_bytes() -> (res: Vec<u8>)
    ensures
        res@ == pieces_key(),
{
    let res = vec![112u8, 105u8, 101u8, 99u8, 101u8, 115u8];
    proof {
        assert(res@ =~= pieces_key());
    }
    res
}

/// Metainfo (`.torrent`) file.
#[derive(Clone)]
pub struct Metainfo {
    /// URL of the tracker.
    pub announce: String,
    /// The `info` dictionary.
    pub info: Info,
}

/// Info dict within the metainfo file.
#[derive(Clone)]
pub struct Info {
    /// Name of the file.
    pub name: String,
    /// Length of the file in bytes.
    pub length: usize,
    /// Length of a piece of the file in bytes.
    pub piece_length: usize,
    /// SHA1 hashes of the pieces, one after another.
    pub pieces: Vec<u8>,
}

/// The error that reading an `info` dictionary comes to, if any: the first of `name`,
/// `length`, `piece length` and `pieces` that is missing.
pub open spec fn info_error(v: BValue) -> Option<Seq<char>> {
    match v {
        BValue::Dict(e) => {
            if lookup(e, name_key()) is None {
                Some("Invalid info dict, the following key is missing: name"@)
            } else if lookup(e, length_key()) is None {
                Some("Invalid info dict, the following key is missing: length"@)
            } else if lookup(e, piece_length_key()) is None {
                Some("Invalid info dict, the following key is missing: piece length"@)
            } else if lookup(e, pieces_key()) is None {
                Some("Invalid info dict, the following key is missing: pieces"@)
            } else {
                None
            }
        },
        _ => None,
    }
}

/// Whether an `info` dictionary that has its four keys has them with usable values: the name
/// a UTF-8 byte string, the lengths integers that fit in a `usize`, the piece hashes a byte
/// string.
pub open spec fn info_fields_usable(e: Seq<(Seq<u8>, BValue)>) -> bool {
    &&& lookup(e, name_key()) matches Some(BValue::Bytes(n)) && valid_utf8(n)
    &&& lookup(e, length_key()) matches Some(BValue::Int(l)) && 0 <= l <= usize::MAX
    &&& lookup(e, piece_length_key()) matches Some(BValue::Int(l)) && 0 <= l <= usize::MAX
    &&& lookup(e, pieces_key()) matches Some(BValue::Bytes(_))
}

/// Whether `info` holds what the `info` dictionary `v` holds.
pub open spec fn info_matches(info: Info, v: BValue) -> bool {
    &&& v matches BValue::Dict(e)
    &&& lookup(e, name_key()) matches Some(BValue::Bytes(n)) && info.name@ == decode_utf8(n)
        && encode_utf8(info.name@) == n
    &&& lookup(e, length_key()) matches Some(BValue::Int(l)) && info.length == l
    &&& lookup(e, piece_length_key()) matches Some(BValue::Int(l)) && info.piece_length == l
    &&& lookup(e, pieces_key()) matches Some(BValue::Bytes(p)) && info.pieces@ == p
}

/// Whether reading `v` as an `info` dictionary gives an error or usable fields (and so does
/// not stop on a value of the wrong type or out of range).
pub open spec fn info_readable(v: BValue) -> bool {
    &&& v matches BValue::Dict(e)
    &&& info_error(v) is None ==> info_fields_usable(e)
}

fn read_info(data: &BencodeType2) -> (res: Option<Result<Info, String>>)
    ensures
        match res {
            Some(Ok(info)) => info_readable(data.model()) && info_error(data.model()) is None
                && info_matches(info, data.model()),
            Some(Err(msg)) => info_readable(data.model()) && info_error(data.model()) == Some(msg@),
            None => !info_readable(data.model()),
        },
{
    let entries = match data {
        BencodeType2::Dict(entries) => entries,
        _ => {
            return None;
        },
    };
    proof {
        lemma_entry_models_index(entries@);
    }
    let name_idx = match find_key(entries, name_key_bytes().as_slice()) {
        Some(i) => i,
        None => {
            return Some(Err("Invalid info dict, the following key is missing: name".to_string()));
        },
    };
    let length_idx = match find_key(entries, length_key_bytes().as_slice()) {
        Some(i) => i,
        None => {
            return Some(Err("Invalid info dict, the following key is missing: length".to_string()));
        },
    };
    let piece_length_idx = match find_key(entries, piece_length_key_bytes().as_slice()) {
        Some(i) => i,
        None => {
            return Some(Err("Invalid info dict, the following key is missing: piece length".to_string()));
        },
    };
    let pieces_idx = match find_key(entries, pieces_key_bytes().as_slice()) {
        Some(i) => i,
        None => {
            return Some(Err("Invalid info dict, the following key is missing: pieces".to_string()));
        },
    };
    let name = match &entries[name_idx].1 {
        BencodeType2::ByteString(val) => match string_from_utf8(val.as_slice()) {
            Some(s) => s,
            None => {
                return None;
            },
        },
        _ => {
            return None;
        },
    };
    let length = match &entries[length_idx].1 {
        BencodeType2::Integer(val) => {
            if *val < 0 || (*val as u64) > (usize::MAX as u64) {
                return None;
            }
            *val as usize
        },
        _ => {
            return None;
        },
    };
    let piece_length = match &entries[piece_length_idx].1 {
        BencodeType2::Integer(val) => {
            if *val < 0 || (*val as u64) > (usize::MAX as u64) {
                return None;
            }
            *val as usize
        },
        _ => {
            return None;
        },
    };
    let pieces = match &entries[pieces_idx].1 {
        BencodeType2::ByteString(val) => slice_to_vec(val.as_slice()),
        _ => {
            return None;
        },
    };
    proof {
        encode_utf8_decode_utf8(name@);
    }
    Some(Ok(Info { name, length, piece_length, pieces }))
}

/// The error that reading a metainfo dictionary comes to, if any.
pub open spec fn metainfo_error(v: BValue) -> Option<Seq<char>> {
    match v {
        BValue::Dict(e) => {
            if lookup(e, announce_key()) is None {
                Some("Invalid input, metainfo dict missing the following key: announce"@)
            } else if lookup(e, info_key()) is None {
                Some("Invalid input, metainfo dict missing the following key: info"@)
            } else if !(lookup(e, announce_key()) matches Some(BValue::Bytes(_))) {
                Some("Invalid input, the following key's value has an incorrect type: announce"@)
            } else if !(lookup(e, info_key()) matches Some(BValue::Dict(_))) {
                Some("Invalid input, the following key's value has an incorrect type: info"@)
            } else {
                info_error(lookup(e, info_key())->0)
            }
        },
        _ => Some("Invalid input, metainfo file must be a dict"@),
    }
}

/// Whether reading `v` as a metainfo dictionary gives an error or a metainfo (and so does not
/// stop on an announce URL that is not UTF-8, or on an unusable `info` dictionary).
pub open spec fn metainfo_readable(v: BValue) -> bool {
    match v {
        BValue::Dict(e) => match (lookup(e, announce_key()), lookup(e, info_key())) {
            (Some(BValue::Bytes(a)), Some(info)) => info is Dict ==> valid_utf8(a) && info_readable(info),
            _ => true,
        },
        _ => true,
    }
}

impl Metainfo {
    /// Reads a metainfo file from its decoded dictionary; `None` where reading it would stop
    /// on an announce URL that is not UTF-8 or on an unusable `info` dictionary.
    pub fn try_new(data: BencodeType2) -> (res: Option<Result<Metainfo, String>>)
        ensures
            res is None <==> !metainfo_readable(data.model()),
            match res {
                Some(Ok(m)) => metainfo_error(data.model()) is None && ({
                    let e = data.model()->Dict_0;
                    &&& lookup(e, announce_key()) matches Some(BValue::Bytes(a)) && m.announce@
                        == decode_utf8(a) && encode_utf8(m.announce@) == a
                    &&& info_matches(m.info, lookup(e, info_key())->0)
                }),
                Some(Err(msg)) => metainfo_error(data.model()) == Some(msg@),
                None => true,
            },
    {
        let entries = match &data {
            BencodeType2::Dict(entries) => entries,
            _ => {
                return Some(Err("Invalid input, metainfo file must be a dict".to_string()));
            },
        };
        proof {
            lemma_entry_models_index(entries@);
        }
        let announce_idx = match find_key(entries, announce_key_bytes().as_slice()) {
            Some(i) => i,
            None => {
                return Some(Err(
                    "Invalid input, metainfo dict missing the following key: announce".to_string(),
                ));
            },
        };
        let info_idx = match find_key(entries, info_key_bytes().as_slice()) {
            Some(i) => i,
            None => {
                return Some(Err(
                    "Invalid input, metainfo dict missing the following key: info".to_string(),
                ));
            },
        };
        let announce_bytes = match &entries[announce_idx].1 {
            BencodeType2::ByteString(val) => val,
            _ => {
                return Some(Err(
                    "Invalid input, the following key's value has an incorrect type: announce".to_string(),
                ));
            },
        };
        let info_value = &entries[info_idx].1;
        match info_value {
            BencodeType2::Dict(_) => {},
            _ => {
                return Some(Err(
                    "Invalid input, the following key's value has an incorrect type: info".to_string(),
                ));
            },
        }
        let announce = match string_from_utf8(announce_bytes.as_slice()) {
            Some(s) => s,
            None => {
                return None;
            },
        };
        proof {
            encode_utf8_decode_utf8(announce@);
        }
        match read_info(info_value) {
            Some(Ok(info)) => Some(Ok(Metainfo { announce, info })),
            Some(Err(msg)) => Some(Err(msg)),
            None => None,
        }
    }

    /// Reads a metainfo file from its decoded dictionary.
    pub fn new(data: BencodeType2) -> (res: Result<Metainfo, String>)
        requires
            metainfo_readable(data.model()),
        ensures
            match res {
                Ok(m) => metainfo_error(data.model()) is None && ({
                    let e = data.model()->Dict_0;
                    &&& lookup(e, announce_key()) matches Some(BValue::Bytes(a)) && m.announce@
                        == decode_utf8(a) && encode_utf8(m.announce@) == a
                    &&& info_matches(m.info, lookup(e, info_key())->0)
                }),
                Err(msg) => metainfo_error(data.model()) == Some(msg@),
            },
    {
        let ghost v = data.model();
        match Metainfo::try_new(data) {
            Some(res) => res,
            None => {
                proof {
                    assert(false);
                }
                Err(String::new())
            },
        }
    }
}

impl Info {
    /// Reads an `info` dictionary.
    pub fn new(data: BencodeType2) -> (res: Result<Info, String>)
        requires
            info_readable(data.model()),
        ensures
            match res {
                Ok(info) => info_error(data.model()) is None && info_matches(info, data.model()),
                Err(msg) => info_error(data.model()) == Some(msg@),
            },
    {
        match read_info(&data) {
            Some(res) => res,
            None => {
                proof {
                    assert(false);
                }
                Err(String::new())
            },
        }
    }

    /// The SHA1 hashes of the pieces, one per piece; bytes past the last whole hash are left
    /// out.
    pub fn pieces(&self) -> (res: Vec<Vec<u8>>)
        ensures
            res@.len() == self.pieces@.len() / 20,
            forall|i: int|
                0 <= i < res@.len() ==> #[trigger] res@[i]@ == self.pieces@.subrange(20 * i, 20 * i + 20),
    {
        let no_of_pieces = self.pieces.len() / SHA1_HASH_HEX_OUTPUT_SIZE;
        let mut res: Vec<Vec<u8>> = Vec::new();
        let mut idx: usize = 0;
        while idx < no_of_pieces
            invariant
                idx <= no_of_pieces,
                no_of_pieces == self.pieces@.len() / 20,
                self.pieces@.len() <= usize::MAX,
                res@.len() == idx,
                forall|i: int|
                    0 <= i < idx ==> #[trigger] res@[i]@ == self.pieces@.subrange(20 * i, 20 * i + 20),
            decreases no_of_pieces - idx,
        {
            assert((idx + 1) * 20 <= self.pieces@.len());
            let piece = slice_to_vec(
                slice_subrange(
                    self.pieces.as_slice(),
                    idx * SHA1_HASH_HEX_OUTPUT_SIZE,
                    (idx + 1) * SHA1_HASH_HEX_OUTPUT_SIZE,
                ),
            );
            res.push(piece);
            idx = idx + 1;
        }
        res
    }

    /// The `info` dictionary with the four keys `name`, `length`, `piece length` and `pieces`.
    pub fn serialise(&self) -> (res: BencodeType2)
        requires
            self.length <= i64::MAX,
            self.piece_length <= i64::MAX,
        ensures
            res.model() == BValue::Dict(
                seq![
                    (name_key(), BValue::Bytes(encode_utf8(self.name@))),
                    (length_key(), BValue::Int(self.length as int)),
                    (piece_length_key(), BValue::Int(self.piece_length as int)),
                    (pieces_key(), BValue::Bytes(self.pieces@)),
                ],
            ),
    {
        let mut entries: Vec<(Vec<u8>, BencodeType2)> = Vec::new();
        entries.push(
            (name_key_bytes(), BencodeType2::ByteString(slice_to_vec(self.name.as_str().as_bytes()))),
        );
        entries.push((length_key_bytes(), BencodeType2::Integer(self.length as i64)));
        entries.push((piece_length_key_bytes(), BencodeType2::Integer(self.piece_length as i64)));
        entries.push((pieces_key_bytes(), BencodeType2::ByteString(slice_to_vec(self.pieces.as_slice()))));
        proof {
            lemma_entry_models_index(entries@);
            assert(entry_models(entries@) =~= seq![
                (name_key(), BValue::Bytes(encode_utf8(self.name@))),
                (length_key(), BValue::Int(self.length as int)),
                (piece_length_key(), BValue::Int(self.piece_length as int)),
                (pieces_key(), BValue::Bytes(self.pieces@)),
            ]);
        }
        BencodeType2::Dict(entries)
    }
}

} // verus!
