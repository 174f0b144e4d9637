//! Decoding bencoded text into [`BencodeType`] values.
use vstd::prelude::*;

use crate::digits::{digits_end, digits_value, scan_digits, scan_signed, signed_decimal};
use crate::text::string_from_utf8;
use crate::value::{BValue, Outcome, all_well_keyed, dict_from_pairs, dict_insert, has_key, keys_unique, lemma_all_well_keyed_push, lemma_dict_insert_well_keyed, values_well_keyed, well_keyed};
use crate::{BencodeType, text_entry_models, text_models};
use vstd::slice::slice_subrange;
use vstd::utf8::{encode_utf8, encode_utf8_decode_utf8, valid_utf8};

verus! {

/// A byte string at `p`: a length in digits, a colon, then that many bytes, which must be
/// valid UTF-8 (a string cannot be cut inside a character).
pub open spec fn text_byte_string(t: Seq<u8>, p: int) -> Outcome {
    let e = digits_end(t, p);
    let n = digits_value(t, p, e);
    if e + 1 + n > t.len() || !valid_utf8(t.subrange(e + 1, e + 1 + n)) {
        Outcome::Abort
    } else {
        Outcome::Parsed(BValue::Bytes(t.subrange(e + 1, e + 1 + n)), e + 1 + n)
    }
}

/// Whether a byte string starts at `p`: digits, then a colon.
pub open spec fn starts_byte_string(t: Seq<u8>, p: int) -> bool {
    let e = digits_end(t, p);
    e > p && e < t.len() && t[e] == 58u8
}

/// An integer at `p`: `i`, an optional minus sign, digits, `e`, its value within an `i64`.
pub open spec fn text_integer(t: Seq<u8>, p: int) -> Outcome {
    if p + 1 < t.len() && t[p + 1] == 43u8 {
        Outcome::Abort
    } else {
        match signed_decimal(t, p + 1) {
            Some((v, q)) => if q < t.len() && t[q] == 101u8 {
                Outcome::Parsed(BValue::Int(v), q + 1)
            } else {
                Outcome::Abort
            },
            None => Outcome::Abort,
        }
    }
}

/// The value at `p`, and the index just past it (past the closing `e` of a list or dictionary).
pub open spec fn text_value(t: Seq<u8>, p: int) -> Outcome
    decreases t.len() - p, 1int,
{
    if p < 0 || p > t.len() {
        Outcome::Abort
    } else if starts_byte_string(t, p) {
        text_byte_string(t, p)
    } else if p >= t.len() {
        Outcome::Abort
    } else if t[p] == 105u8 {
        text_integer(t, p)
    } else if t[p] == 108u8 {
        match text_items(t, p + 1) {
            Outcome::Parsed(BValue::List(items), e) => Outcome::Parsed(BValue::List(items), e + 1),
            _ => Outcome::Abort,
        }
    } else if t[p] == 100u8 {
        match text_entries(t, p + 1) {
            Outcome::Parsed(BValue::Dict(pairs), e) => Outcome::Parsed(
                BValue::Dict(dict_from_pairs(pairs)),
                e + 1,
            ),
            _ => Outcome::Abort,
        }
    } else {
        Outcome::Abort
    }
}

/// The values from `p` up to the next `e` at the start of a value, as a list, and the index of
/// that `e`.
pub open spec fn text_items(t: Seq<u8>, p: int) -> Outcome
    decreases t.len() - p, 2int,
{
    if p < 0 || p >= t.len() {
        Outcome::Abort
    } else if t[p] == 101u8 {
        Outcome::Parsed(BValue::List(seq![]), p)
    } else {
        match text_value(t, p) {
            Outcome::Parsed(v, q) => if p < q <= t.len() {
                match text_items(t, q) {
                    Outcome::Parsed(BValue::List(rest), e) => Outcome::Parsed(
                        BValue::List(seq![v] + rest),
                        e,
                    ),
                    _ => Outcome::Abort,
                }
            } else {
                Outcome::Abort
            },
            _ => Outcome::Abort,
        }
    }
}

/// The key-value pairs from `p` up to the next `e` at the start of a key, in the order read,
/// and the index of that `e`.
/// A key must be a byte string.
pub open spec fn text_entries(t: Seq<u8>, p: int) -> Outcome
    decreases t.len() - p, 2int,
{
    if p < 0 || p >= t.len() {
        Outcome::Abort
    } else if t[p] == 101u8 {
        Outcome::Parsed(BValue::Dict(seq![]), p)
    } else {
        match text_value(t, p) {
            Outcome::Parsed(BValue::Bytes(k), q) => if p < q <= t.len() {
                match text_value(t, q) {
                    Outcome::Parsed(v, r) => if q < r <= t.len() {
                        match text_entries(t, r) {
                            Outcome::Parsed(BValue::Dict(rest), e) => Outcome::Parsed(
                                BValue::Dict(seq![(k, v)] + rest),
                                e,
                            ),
                            _ => Outcome::Abort,
                        }
                    } else {
                        Outcome::Abort
                    },
                    _ => Outcome::Abort,
                }
            } else {
                Outcome::Abort
            },
            _ => Outcome::Abort,
        }
    }
}

/// The models of a sequence of values, element by element.
pub proof fn lemma_text_models_index(s: Seq<BencodeType>)
    ensures
        text_models(s).len() == s.len(),
        forall|i: int| 0 <= i < s.len() ==> #[trigger] text_models(s)[i] == s[i].model(),
    decreases s.len(),
{
    if s.len() > 0 {
        lemma_text_models_index(s.drop_last());
    }
}

/// The models of a sequence of entries, entry by entry.
pub proof fn lemma_text_entry_models_index(s: Seq<(String, BencodeType)>)
    ensures
        text_entry_models(s).len() == s.len(),
        forall|i: int|
            0 <= i < s.len() ==> #[trigger] text_entry_models(s)[i] == (
                encode_utf8(s[i].0@),
                s[i].1.model(),
            ),
    decreases s.len(),
{
    if s.len() > 0 {
        lemma_text_entry_models_index(s.drop_last());
    }
}

/// Whether an executable result is what the outcome describes (a failure being an abort).
pub open spec fn text_agrees(res: Result<(BencodeType, usize), ()>, o: Outcome) -> bool {
    match res {
        Ok((v, e)) => o == Outcome::Parsed(v.model(), e as int),
        Err(()) => o is Abort,
    }
}

/// Two strings are equal exactly where their UTF-8 bytes are.
proof fn lemma_encode_injective(a: Seq<char>, b: Seq<char>)
    ensures
        (a == b) <==> (encode_utf8(a) == encode_utf8(b)),
{
    encode_utf8_decode_utf8(a);
    encode_utf8_decode_utf8(b);
}

/// Inserts an entry as a map does: a key already present has its value replaced where it
/// stands, a new key is added at the end.
fn insert_text_entry(entries: &mut Vec<(String, BencodeType)>, key: String, value: BencodeType)
    requires
        keys_unique(text_entry_models(old(entries)@)),
    ensures
        text_entry_models(final(entries)@) == dict_insert(
            text_entry_models(old(entries)@),
            encode_utf8(key@),
            value.model(),
        ),
        keys_unique(text_entry_models(final(entries)@)),
{
    proof {
        lemma_text_entry_models_index(entries@);
    }
    let ghost m = text_entry_models(entries@);
    let ghost k = encode_utf8(key@);
    let ghost vm = value.model();
    let mut i: usize = 0;
    while i < entries.len()
        invariant
            i <= entries@.len(),
            m == text_entry_models(entries@),
            m == text_entry_models(old(entries)@),
            m.len() == entries@.len(),
            forall|j: int| 0 <= j < entries@.len() ==> #[trigger] m[j] == (encode_utf8(entries@[j].0@), entries@[j].1.model()),
            forall|j: int| 0 <= j < i ==> (#[trigger] m[j]).0 != k,
            k == encode_utf8(key@),
            vm == value.model(),
            keys_unique(m),
        decreases entries@.len() - i,
    {
        if entries[i].0 == key {
            proof {
                lemma_encode_injective(entries@[i as int].0@, key@);
            }
            entries.set(i, (key, value));
            proof {
                lemma_text_entry_models_index(entries@);
                assert(text_entry_models(entries@) =~= m.update(i as int, (k, vm)));
                assert(has_key(m, k)) by {
                    assert(m[i as int].0 == k);
                }
                let c = choose|c: int| 0 <= c < m.len() && #[trigger] m[c].0 == k;
                assert(c == i);
                assert(dict_insert(m, k, vm) == m.update(i as int, (k, vm)));
                let n = text_entry_models(entries@);
                assert forall|a: int, b: int|
                    0 <= a < n.len() && 0 <= b < n.len() && a != b implies #[trigger] n[a].0
                    != #[trigger] n[b].0 by {
                    if a == i {
                        assert(m[b].0 != k);
                    } else if b == i {
                        assert(m[a].0 != k);
                    } else {
                        assert(m[a].0 != m[b].0);
                    }
                }
            }
            return;
        }
        proof {
            lemma_encode_injective(entries@[i as int].0@, key@);
        }
        i = i + 1;
    }
    let ghost old_entries = entries@;
    entries.push((key, value));
    proof {
        assert(entries@.drop_last() =~= old_entries);
        assert(text_entry_models(entries@) == m.push((k, vm)));
        assert(!has_key(m, k));
        lemma_text_entry_models_index(entries@);
        let n = text_entry_models(entries@);
        assert forall|a: int, b: int|
            0 <= a < n.len() && 0 <= b < n.len() && a != b implies #[trigger] n[a].0
            != #[trigger] n[b].0 by {
            if a == m.len() {
                assert(m[b].0 != k);
            } else if b == m.len() {
                assert(m[a].0 != k);
            } else {
                assert(n[a] == m[a] && n[b] == m[b]);
            }
        }
    }
}

fn decode_value_at(t: &[u8], p: usize) -> (res: Result<(BencodeType, usize), ()>)
    requires
        p <= t@.len(),
    ensures
        text_agrees(res, text_value(t@, p as int)),
        res matches Ok((v, e)) ==> p < e <= t@.len(),
        res matches Ok((v, _)) ==> well_keyed(v.model()),
    decreases t@.len() - p, 1int,
{
    let (e, value) = scan_digits(t, p, usize::MAX as u64);
    if e > p && e < t.len() && t[e] == 58 {
        let n = match value {
            Some(n) => n,
            None => {
                return Err(());
            },
        };
        if n > (t.len() - e - 1) as u64 {
            return Err(());
        }
        let stop = e + 1 + n as usize;
        return match string_from_utf8(slice_subrange(t, e + 1, stop)) {
            Some(s) => Ok((BencodeType::ByteString(s), stop)),
            None => Err(()),
        };
    }
    if p >= t.len() {
        return Err(());
    }
    if t[p] == 105 {
        if p + 1 < t.len() && t[p + 1] == 43 {
            return Err(());
        }
        match scan_signed(t, p + 1) {
            Some((v, q)) => {
                if q < t.len() && t[q] == 101 {
                    Ok((BencodeType::Integer(v), q + 1))
                } else {
                    Err(())
                }
            },
            None => Err(()),
        }
    } else if t[p] == 108 {
        match decode_list_at(t, p + 1) {
            Ok((v, e)) => Ok((v, e + 1)),
            Err(()) => Err(()),
        }
    } else if t[p] == 100 {
        match decode_dict_at(t, p + 1) {
            Ok((v, e)) => Ok((v, e + 1)),
            Err(()) => Err(()),
        }
    } else {
        Err(())
    }
}

/// The outcome of reading values after the values `acc` were read.
pub open spec fn after_values(acc: Seq<BValue>, o: Outcome) -> Outcome {
    match o {
        Outcome::Parsed(BValue::List(rest), e) => Outcome::Parsed(BValue::List(acc + rest), e),
        _ => Outcome::Abort,
    }
}

fn decode_list_at(t: &[u8], p: usize) -> (res: Result<(BencodeType, usize), ()>)
    requires
        1 <= p <= t@.len(),
    ensures
        text_agrees(res, text_items(t@, p as int)),
        res matches Ok((v, e)) ==> p <= e < t@.len() && v.model() is List,
        res matches Ok((v, _)) ==> well_keyed(v.model()),
    decreases t@.len() - p + 1, 0int,
{
    let mut items: Vec<BencodeType> = Vec::new();
    let mut cur = p;
    proof {
        assert(after_values(seq![], text_items(t@, cur as int)) == text_items(t@, cur as int)) by {
            match text_items(t@, cur as int) {
                Outcome::Parsed(BValue::List(rest), e) => {
                    assert(seq![] + rest =~= rest);
                },
                Outcome::Parsed(_, _) => {
                    assert(false);
                },
                _ => {},
            }
        }
    }
    loop
        invariant
            p <= cur <= t@.len(),
            1 <= p,
            text_items(t@, p as int) == after_values(text_models(items@), text_items(t@, cur as int)),
            all_well_keyed(text_models(items@)),
        decreases t@.len() - cur,
    {
        if cur >= t.len() {
            return Err(());
        }
        if t[cur] == 101 {
            proof {
                assert(text_models(items@) + seq![] =~= text_models(items@));
            }
            return Ok((BencodeType::List(items), cur));
        }
        let ghost before = text_models(items@);
        match decode_value_at(t, cur) {
            Ok((v, q)) => {
                proof {
                    let rest = text_items(t@, q as int);
                    match rest {
                        Outcome::Parsed(BValue::List(r), e) => {
                            assert(before + (seq![v.model()] + r) =~= before.push(v.model()) + r);
                        },
                        _ => {},
                    }
                }
                let ghost old_items = items@;
                items.push(v);
                proof {
                    assert(items@.drop_last() =~= old_items);
                    assert(text_models(items@) == before.push(v.model()));
                    lemma_all_well_keyed_push(before, v.model());
                }
                cur = q;
            },
            Err(()) => {
                return Err(());
            },
        }
    }
}

/// The outcome of reading pairs after the pairs `acc` were read.
pub open spec fn after_entries(acc: Seq<(Seq<u8>, BValue)>, o: Outcome) -> Outcome {
    match o {
        Outcome::Parsed(BValue::Dict(rest), e) => Outcome::Parsed(BValue::Dict(acc + rest), e),
        _ => Outcome::Abort,
    }
}

fn decode_dict_at(t: &[u8], p: usize) -> (res: Result<(BencodeType, usize), ()>)
    requires
        1 <= p <= t@.len(),
    ensures
        match res {
            Ok((v, e)) => text_entries(t@, p as int) matches Outcome::Parsed(BValue::Dict(pairs), f)
                && f == e && v.model() == BValue::Dict(dict_from_pairs(pairs)),
            Err(()) => !(text_entries(t@, p as int) matches Outcome::Parsed(BValue::Dict(_), _)),
        },
        res matches Ok((v, e)) ==> p <= e < t@.len(),
        res matches Ok((v, _)) ==> well_keyed(v.model()),
    decreases t@.len() - p + 1, 0int,
{
    let mut entries: Vec<(String, BencodeType)> = Vec::new();
    let ghost mut raw: Seq<(Seq<u8>, BValue)> = seq![];
    let mut cur = p;
    proof {
        assert(after_entries(seq![], text_entries(t@, cur as int)) == text_entries(t@, cur as int)) by {
            match text_entries(t@, cur as int) {
                Outcome::Parsed(BValue::Dict(rest), e) => {
                    assert(seq![] + rest =~= rest);
                },
                Outcome::Parsed(_, _) => {
                    assert(false);
                },
                _ => {},
            }
        }
        assert(text_entry_models(entries@) =~= dict_from_pairs(raw));
    }
    loop
        invariant
            p <= cur <= t@.len(),
            1 <= p,
            text_entries(t@, p as int) == after_entries(raw, text_entries(t@, cur as int)),
            text_entry_models(entries@) == dict_from_pairs(raw),
            keys_unique(text_entry_models(entries@)),
            values_well_keyed(text_entry_models(entries@)),
        decreases t@.len() - cur,
    {
        if cur >= t.len() {
            return Err(());
        }
        if t[cur] == 101 {
            proof {
                assert(raw + seq![] =~= raw);
            }
            return Ok((BencodeType::Dict(entries), cur));
        }
        let ghost before = raw;
        let (key, q) = match decode_value_at(t, cur) {
            Ok((BencodeType::ByteString(k), q)) => (k, q),
            _ => {
                return Err(());
            },
        };
        let (value, r) = match decode_value_at(t, q) {
            Ok(x) => x,
            Err(()) => {
                return Err(());
            },
        };
        let ghost pair = (encode_utf8(key@), value.model());
        proof {
            let rest = text_entries(t@, r as int);
            match rest {
                Outcome::Parsed(BValue::Dict(x), f) => {
                    assert(before + (seq![pair] + x) =~= before.push(pair) + x);
                },
                _ => {},
            }
            raw = before.push(pair);
            assert(raw.drop_last() =~= before);
        }
        proof {
            lemma_dict_insert_well_keyed(text_entry_models(entries@), encode_utf8(key@), value.model());
        }
        insert_text_entry(&mut entries, key, value);
        cur = r;
    }
}

/// Decodes the bencoded value at the start of `data`; `None` where the text holds none.
pub fn decode_checked(data: &str) -> (res: Option<BencodeType>)
    ensures
        match text_value(encode_utf8(data@), 0) {
            Outcome::Parsed(v, _) => res matches Some(r) && r.model() == v,
            _ => res is None,
        },
        res matches Some(r) ==> well_keyed(r.model()),
{
    let t = data.as_bytes();
    match decode_value_at(t, 0) {
        Ok((v, _)) => Some(v),
        Err(()) => None,
    }
}

/// Decodes the bencoded value at the start of `data`; what follows it is not read.
pub fn decode(data: &str) -> (res: BencodeType)
    requires
        text_value(encode_utf8(data@), 0) is Parsed,
    ensures
        text_value(encode_utf8(data@), 0) matches Outcome::Parsed(v, _) && res.model() == v,
        well_keyed(res.model()),
{
    match decode_checked(data) {
        Some(v) => v,
        None => {
            proof {
                assert(false);
            }
            BencodeType::Integer(0)
        },
    }
}

} // verus!
