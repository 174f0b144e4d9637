//! Parsing bencoded bytes into [`BencodeType2`] values.
use vstd::prelude::*;

use crate::digits::{signed_decimal, scan_signed};
use crate::value::{BValue, Outcome, all_well_keyed, dict_insert, dict_from_pairs, has_key, is_first_key, keys_unique, lemma_all_well_keyed_push, lemma_dict_insert_well_keyed, lemma_first_key_unique, lookup, values_well_keyed, well_keyed};
use vstd::slice::{slice_subrange, slice_to_vec};

verus! {

/// A bencoded value whose byte strings are raw bytes.
///
/// A dictionary holds its entries in a vector, in the order in which their keys first appeared.
/// What [`parse`] returns has each key at most once in every dictionary (see
/// [`well_keyed`](crate::value::well_keyed)).
#[derive(Debug, PartialEq)]
pub enum BencodeType2 {
    ByteString(Vec<u8>),
    Integer(i64),
    List(Vec<BencodeType2>),
    Dict(Vec<(Vec<u8>, BencodeType2)>),
}

impl BencodeType2 {
    /// The value this one stands for.
    pub open spec fn model(&self) -> BValue
        decreases self,
    {
        match self {
            BencodeType2::ByteString(b) => BValue::Bytes(b@),
            BencodeType2::Integer(i) => BValue::Int(*i as int),
            BencodeType2::List(items) => BValue::List(models(items@)),
            BencodeType2::Dict(entries) => BValue::Dict(entry_models(entries@)),
        }
    }
}

/// The models of a sequence of values.
pub open spec fn models(s: Seq<BencodeType2>) -> Seq<BValue>
    decreases s,
{
    if s.len() == 0 {
        seq![]
    } else {
        models(s.drop_last()).push(s.last().model())
    }
}

/// The models of a sequence of dictionary entries.
pub open spec fn entry_models(s: Seq<(Vec<u8>, BencodeType2)>) -> Seq<(Seq<u8>, BValue)>
    decreases s,
{
    if s.len() == 0 {
        seq![]
    } else {
        entry_models(s.drop_last()).push((s.last().0@, s.last().1.model()))
    }
}


/// A byte string at `p`: its length as an optionally signed decimal, a colon, then that many
/// bytes. A negative length, or one longer than what is left, aborts.
pub open spec fn spec_byte_string(s: Seq<u8>, p: int) -> Outcome {
    match signed_decimal(s, p) {
        Some((n, q)) => {
            if q < s.len() && s[q] == 58u8 {
                if n < 0 || q + 1 + n > s.len() {
                    Outcome::Abort
                } else {
                    Outcome::Parsed(BValue::Bytes(s.subrange(q + 1, q + 1 + n)), q + 1 + n)
                }
            } else {
                Outcome::NoParse
            }
        },
        None => Outcome::NoParse,
    }
}

/// An integer at `p`: `i`, an optionally signed decimal, `e`.
pub open spec fn spec_integer(s: Seq<u8>, p: int) -> Outcome {
    if 0 <= p < s.len() && s[p] == 105u8 {
        match signed_decimal(s, p + 1) {
            Some((v, q)) => if q < s.len() && s[q] == 101u8 {
                Outcome::Parsed(BValue::Int(v), q + 1)
            } else {
                Outcome::NoParse
            },
            None => Outcome::NoParse,
        }
    } else {
        Outcome::NoParse
    }
}

/// A value at `p`: a byte string, an integer, a list or a dictionary, tried in that order.
pub open spec fn spec_element(s: Seq<u8>, p: int) -> Outcome
    decreases s.len() - p, 1int,
{
    match spec_byte_string(s, p) {
        Outcome::NoParse => match spec_integer(s, p) {
            Outcome::NoParse => match spec_list(s, p) {
                Outcome::NoParse => spec_dict(s, p),
                other => other,
            },
            other => other,
        },
        other => other,
    }
}

/// A list at `p`: `l`, its elements, `e`.
pub open spec fn spec_list(s: Seq<u8>, p: int) -> Outcome
    decreases s.len() - p, 0int,
{
    if 0 <= p < s.len() && s[p] == 108u8 {
        match spec_elements(s, p + 1) {
            Outcome::Parsed(BValue::List(items), e) => {
                if e < s.len() && s[e] == 101u8 {
                    Outcome::Parsed(BValue::List(items), e + 1)
                } else {
                    Outcome::NoParse
                }
            },
            Outcome::Abort => Outcome::Abort,
            _ => Outcome::NoParse,
        }
    } else {
        Outcome::NoParse
    }
}

/// As many elements as follow one another from `p`, as a list, with the position after the
/// last of them.
pub open spec fn spec_elements(s: Seq<u8>, p: int) -> Outcome
    decreases s.len() - p, 2int,
{
    if p < 0 || p > s.len() {
        Outcome::NoParse
    } else {
        match spec_element(s, p) {
            Outcome::Parsed(v, q) => {
                if p < q <= s.len() {
                    match spec_elements(s, q) {
                        Outcome::Parsed(BValue::List(rest), e) => Outcome::Parsed(
                            BValue::List(seq![v] + rest),
                            e,
                        ),
                        Outcome::Abort => Outcome::Abort,
                        _ => Outcome::NoParse,
                    }
                } else {
                    Outcome::NoParse
                }
            },
            Outcome::Abort => Outcome::Abort,
            Outcome::NoParse => Outcome::Parsed(BValue::List(seq![]), p),
        }
    }
}

/// A dictionary entry at `p`: a byte string key, then a value.
pub open spec fn spec_pair(s: Seq<u8>, p: int) -> Outcome
    decreases s.len() - p, 2int,
{
    match spec_byte_string(s, p) {
        Outcome::Parsed(BValue::Bytes(k), q) => {
            if p < q <= s.len() {
                match spec_element(s, q) {
                    Outcome::Parsed(v, e) => Outcome::Parsed(BValue::Dict(seq![(k, v)]), e),
                    Outcome::Abort => Outcome::Abort,
                    Outcome::NoParse => Outcome::NoParse,
                }
            } else {
                Outcome::NoParse
            }
        },
        Outcome::Abort => Outcome::Abort,
        _ => Outcome::NoParse,
    }
}

/// As many dictionary entries as follow one another from `p`, in the order read.
pub open spec fn spec_pairs(s: Seq<u8>, p: int) -> Outcome
    decreases s.len() - p, 3int,
{
    if p < 0 || p > s.len() {
        Outcome::NoParse
    } else {
        match spec_pair(s, p) {
            Outcome::Parsed(BValue::Dict(one), q) => {
                if p < q <= s.len() {
                    match spec_pairs(s, q) {
                        Outcome::Parsed(BValue::Dict(rest), e) => Outcome::Parsed(
                            BValue::Dict(one + rest),
                            e,
                        ),
                        Outcome::Abort => Outcome::Abort,
                        _ => Outcome::NoParse,
                    }
                } else {
                    Outcome::NoParse
                }
            },
            Outcome::Abort => Outcome::Abort,
            _ => Outcome::Parsed(BValue::Dict(seq![]), p),
        }
    }
}

/// A dictionary at `p`: `d`, its entries, `e`. A key that comes again replaces the value it had.
pub open spec fn spec_dict(s: Seq<u8>, p: int) -> Outcome
    decreases s.len() - p, 0int,
{
    if 0 <= p < s.len() && s[p] == 100u8 {
        match spec_pairs(s, p + 1) {
            Outcome::Parsed(BValue::Dict(pairs), e) => {
                if e < s.len() && s[e] == 101u8 {
                    Outcome::Parsed(BValue::Dict(dict_from_pairs(pairs)), e + 1)
                } else {
                    Outcome::NoParse
                }
            },
            Outcome::Abort => Outcome::Abort,
            _ => Outcome::NoParse,
        }
    } else {
        Outcome::NoParse
    }
}

/// A value at the start of the input: a byte string, an integer, a list or a dictionary, tried
/// in that order. What follows the value is not read.
pub open spec fn spec_parse(s: Seq<u8>) -> Outcome {
    spec_element(s, 0)
}


/// The models of a sequence of values, element by element.
pub proof fn lemma_models_index(s: Seq<BencodeType2>)
    ensures
        models(s).len() == s.len(),
        forall|i: int| 0 <= i < s.len() ==> #[trigger] models(s)[i] == s[i].model(),
    decreases s.len(),
{
    if s.len() > 0 {
        lemma_models_index(s.drop_last());
    }
}

/// The models of a sequence of entries, entry by entry.
pub proof fn lemma_entry_models_index(s: Seq<(Vec<u8>, BencodeType2)>)
    ensures
        entry_models(s).len() == s.len(),
        forall|i: int|
            0 <= i < s.len() ==> #[trigger] entry_models(s)[i] == (s[i].0@, s[i].1.model()),
    decreases s.len(),
{
    if s.len() > 0 {
        lemma_entry_models_index(s.drop_last());
    }
}

/// Why reading stopped without a value.
pub enum ParseFail {
    /// Nothing of the form tried starts here.
    NoParse,
    /// The input announces a value it does not hold.
    Abort,
}

/// Whether an executable result is what the outcome describes.
pub open spec fn agrees(res: Result<(BencodeType2, usize), ParseFail>, o: Outcome) -> bool {
    match res {
        Ok((v, e)) => o == Outcome::Parsed(v.model(), e as int),
        Err(ParseFail::NoParse) => o is NoParse,
        Err(ParseFail::Abort) => o is Abort,
    }
}

fn parse_byte_string_at(s: &[u8], p: usize) -> (res: Result<(BencodeType2, usize), ParseFail>)
    requires
        p <= s@.len(),
    ensures
        agrees(res, spec_byte_string(s@, p as int)),
        res matches Ok((v, e)) ==> p < e <= s@.len() && v is ByteString,
        res matches Ok((v, _)) ==> well_keyed(v.model()),
{
    match scan_signed(s, p) {
        Some((n, q)) => {
            if q < s.len() && s[q] == 58 {
                if n < 0 {
                    return Err(ParseFail::Abort);
                }
                let start = q + 1;
                if (n as u64) > ((s.len() - start) as u64) {
                    return Err(ParseFail::Abort);
                }
                let end = start + n as usize;
                let bytes = slice_to_vec(slice_subrange(s, start, end));
                Ok((BencodeType2::ByteString(bytes), end))
            } else {
                Err(ParseFail::NoParse)
            }
        },
        None => Err(ParseFail::NoParse),
    }
}

fn parse_integer_at(s: &[u8], p: usize) -> (res: Result<(BencodeType2, usize), ParseFail>)
    requires
        p <= s@.len(),
    ensures
        agrees(res, spec_integer(s@, p as int)),
        res matches Ok((v, e)) ==> p < e <= s@.len(),
        !(res matches Err(ParseFail::Abort)),
        res matches Ok((v, _)) ==> well_keyed(v.model()),
{
    if p < s.len() && s[p] == 105 {
        match scan_signed(s, p + 1) {
            Some((v, q)) => {
                if q < s.len() && s[q] == 101 {
                    Ok((BencodeType2::Integer(v), q + 1))
                } else {
                    Err(ParseFail::NoParse)
                }
            },
            None => Err(ParseFail::NoParse),
        }
    } else {
        Err(ParseFail::NoParse)
    }
}

fn parse_element_at(s: &[u8], p: usize) -> (res: Result<(BencodeType2, usize), ParseFail>)
    requires
        p <= s@.len(),
    ensures
        agrees(res, spec_element(s@, p as int)),
        res matches Ok((v, e)) ==> p < e <= s@.len(),
        res matches Ok((v, _)) ==> well_keyed(v.model()),
    decreases s@.len() - p, 1int,
{
    match parse_byte_string_at(s, p) {
        Err(ParseFail::NoParse) => match parse_integer_at(s, p) {
            Err(ParseFail::NoParse) => match parse_list_at(s, p) {
                Err(ParseFail::NoParse) => parse_dict_at(s, p),
                other => other,
            },
            other => other,
        },
        other => other,
    }
}

/// The outcome of reading elements after the values `acc` were read.
pub open spec fn after_items(acc: Seq<BValue>, o: Outcome) -> Outcome {
    match o {
        Outcome::Parsed(BValue::List(rest), e) => Outcome::Parsed(BValue::List(acc + rest), e),
        Outcome::Abort => Outcome::Abort,
        _ => Outcome::NoParse,
    }
}

fn parse_list_at(s: &[u8], p: usize) -> (res: Result<(BencodeType2, usize), ParseFail>)
    requires
        p <= s@.len(),
    ensures
        agrees(res, spec_list(s@, p as int)),
        res matches Ok((v, e)) ==> p < e <= s@.len(),
        res matches Ok((v, _)) ==> well_keyed(v.model()),
    decreases s@.len() - p, 0int,
{
    if !(p < s.len() && s[p] == 108) {
        return Err(ParseFail::NoParse);
    }
    let mut items: Vec<BencodeType2> = Vec::new();
    let mut cur = p + 1;
    proof {
        assert(after_items(seq![], spec_elements(s@, cur as int)) == spec_elements(s@, cur as int)) by {
            match spec_elements(s@, cur as int) {
                Outcome::Parsed(BValue::List(rest), e) => {
                    assert(seq![] + rest =~= rest);
                },
                _ => {},
            }
        }
    }
    loop
        invariant
            p < cur <= s@.len(),
            s@[p as int] == 108u8,
            spec_elements(s@, p + 1) == after_items(models(items@), spec_elements(s@, cur as int)),
            all_well_keyed(models(items@)),
        decreases s@.len() - cur,
    {
        let ghost before = models(items@);
        match parse_element_at(s, cur) {
            Ok((v, q)) => {
                proof {
                    let rest = spec_elements(s@, q as int);
                    assert(spec_elements(s@, cur as int) == after_items(seq![v.model()], rest));
                    match rest {
                        Outcome::Parsed(BValue::List(r), e) => {
                            assert(before + (seq![v.model()] + r) =~= before.push(v.model()) + r);
                        },
                        _ => {},
                    }
                }
                let ghost old_items = items@;
                items.push(v);
                proof {
                    assert(items@.drop_last() =~= old_items);
                    assert(models(items@) == before.push(v.model()));
                    lemma_all_well_keyed_push(before, v.model());
                }
                cur = q;
            },
            Err(ParseFail::NoParse) => {
                proof {
                    assert(before + seq![] =~= before);
                }
                if cur < s.len() && s[cur] == 101 {
                    return Ok((BencodeType2::List(items), cur + 1));
                }
                return Err(ParseFail::NoParse);
            },
            Err(ParseFail::Abort) => {
                return Err(ParseFail::Abort);
            },
        }
    }
}

/// The outcome of reading entries after the entries `acc` were read.
pub open spec fn after_pairs(acc: Seq<(Seq<u8>, BValue)>, o: Outcome) -> Outcome {
    match o {
        Outcome::Parsed(BValue::Dict(rest), e) => Outcome::Parsed(BValue::Dict(acc + rest), e),
        Outcome::Abort => Outcome::Abort,
        _ => Outcome::NoParse,
    }
}

fn parse_dict_at(s: &[u8], p: usize) -> (res: Result<(BencodeType2, usize), ParseFail>)
    requires
        p <= s@.len(),
    ensures
        agrees(res, spec_dict(s@, p as int)),
        res matches Ok((v, e)) ==> p < e <= s@.len(),
        res matches Ok((v, _)) ==> well_keyed(v.model()),
    decreases s@.len() - p, 0int,
{
    if !(p < s.len() && s[p] == 100) {
        return Err(ParseFail::NoParse);
    }
    let mut entries: Vec<(Vec<u8>, BencodeType2)> = Vec::new();
    let ghost mut raw: Seq<(Seq<u8>, BValue)> = seq![];
    let mut cur = p + 1;
    proof {
        assert(after_pairs(seq![], spec_pairs(s@, cur as int)) == spec_pairs(s@, cur as int)) by {
            match spec_pairs(s@, cur as int) {
                Outcome::Parsed(BValue::Dict(rest), e) => {
                    assert(seq![] + rest =~= rest);
                },
                _ => {},
            }
        }
        assert(entry_models(entries@) =~= dict_from_pairs(raw));
    }
    loop
        invariant
            p < cur <= s@.len(),
            s@[p as int] == 100u8,
            spec_pairs(s@, p + 1) == after_pairs(raw, spec_pairs(s@, cur as int)),
            entry_models(entries@) == dict_from_pairs(raw),
            keys_unique(entry_models(entries@)),
            values_well_keyed(entry_models(entries@)),
        decreases s@.len() - cur,
    {
        proof {
            reveal_with_fuel(spec_pairs, 2);
        }
        let ghost before = raw;
        let key = parse_byte_string_at(s, cur);
        let value = match key {
            Ok((_, q)) => parse_element_at(s, q),
            Err(ParseFail::NoParse) => Err(ParseFail::NoParse),
            Err(ParseFail::Abort) => {
                return Err(ParseFail::Abort);
            },
        };
        match (key, value) {
            (Ok((BencodeType2::ByteString(k), _)), Ok((v, e))) => {
                let ghost pair = (k@, v.model());
                proof {
                    let rest = spec_pairs(s@, e as int);
                    match rest {
                        Outcome::Parsed(BValue::Dict(r), f) => {
                            assert(before + (seq![pair] + r) =~= before.push(pair) + r);
                        },
                        _ => {},
                    }
                    raw = before.push(pair);
                    assert(raw.drop_last() =~= before);
                }
                proof {
                    lemma_dict_insert_well_keyed(entry_models(entries@), k@, v.model());
                }
                insert_entry(&mut entries, k, v);
                cur = e;
            },
            (_, Err(ParseFail::Abort)) => {
                return Err(ParseFail::Abort);
            },
            _ => {
                proof {
                    assert(before + seq![] =~= before);
                }
                if cur < s.len() && s[cur] == 101 {
                    return Ok((BencodeType2::Dict(entries), cur + 1));
                }
                return Err(ParseFail::NoParse);
            },
        }
    }
}

/// Reads the value at the start of the input; `None` where the input holds none, or announces
/// more than it holds.
pub fn parse_checked(input: &[u8]) -> (res: Option<BencodeType2>)
    ensures
        match spec_parse(input@) {
            Outcome::Parsed(v, _) => res matches Some(r) && r.model() == v,
            _ => res is None,
        },
        res matches Some(r) ==> well_keyed(r.model()),
{
    match parse_element_at(input, 0) {
        Ok((v, _)) => Some(v),
        Err(_) => None,
    }
}

/// Reads the bencoded value at the start of the input; what follows it is not read.
pub fn parse(input: &[u8]) -> (res: BencodeType2)
    requires
        spec_parse(input@) is Parsed,
    ensures
        spec_parse(input@) matches Outcome::Parsed(v, _) && res.model() == v,
        well_keyed(res.model()),
{
    match parse_checked(input) {
        Some(v) => v,
        None => {
            proof {
                assert(false);
            }
            BencodeType2::Integer(0)
        },
    }
}

/// The position of the first entry with the given key, if there is one.
pub fn find_key(entries: &Vec<(Vec<u8>, BencodeType2)>, key: &[u8]) -> (res: Option<usize>)
    ensures
        match res {
            Some(i) => is_first_key(entry_models(entries@), key@, i as int) && lookup(
                entry_models(entries@),
                key@,
            ) == Some(entries@[i as int].1.model()),
            None => !has_key(entry_models(entries@), key@) && lookup(entry_models(entries@), key@)
                is None,
        },
{
    proof {
        lemma_entry_models_index(entries@);
    }
    let ghost m = entry_models(entries@);
    let mut i: usize = 0;
    while i < entries.len()
        invariant
            i <= entries@.len(),
            m == entry_models(entries@),
            m.len() == entries@.len(),
            forall|j: int| 0 <= j < entries@.len() ==> #[trigger] m[j] == (entries@[j].0@, entries@[j].1.model()),
            forall|j: int| 0 <= j < i ==> (#[trigger] m[j]).0 != key@,
        decreases entries@.len() - i,
    {
        if bytes_eq(entries[i].0.as_slice(), key) {
            proof {
                assert(is_first_key(m, key@, i as int));
                lemma_first_key_unique(m, key@, i as int);
            }
            return Some(i);
        }
        i = i + 1;
    }
    None
}

/// Whether two byte strings are equal.
pub fn bytes_eq(a: &[u8], b: &[u8]) -> (r: bool)
    ensures
        r == (a@ == b@),
{
    if a.len() != b.len() {
        return false;
    }
    let mut i: usize = 0;
    while i < a.len()
        invariant
            i <= a@.len(),
            a@.len() == b@.len(),
            forall|j: int| 0 <= j < i ==> a@[j] == b@[j],
        decreases a@.len() - i,
    {
        if a[i] != b[i] {
            return false;
        }
        i = i + 1;
    }
    proof {
        assert(a@ =~= b@);
    }
    true
}

/// Inserts an entry as a map does: a key already present has its value replaced where it
/// stands, a new key is added at the end.
pub fn insert_entry(entries: &mut Vec<(Vec<u8>, BencodeType2)>, key: Vec<u8>, value: BencodeType2)
    requires
        keys_unique(entry_models(old(entries)@)),
    ensures
        entry_models(final(entries)@) == dict_insert(
            entry_models(old(entries)@),
            key@,
            value.model(),
        ),
        keys_unique(entry_models(final(entries)@)),
{
    proof {
        lemma_entry_models_index(entries@);
    }
    let ghost m = entry_models(entries@);
    let ghost k = key@;
    let ghost vm = value.model();
    let mut i: usize = 0;
    while i < entries.len()
        invariant
            i <= entries@.len(),
            m == entry_models(entries@),
            m == entry_models(old(entries)@),
            m.len() == entries@.len(),
            forall|j: int| 0 <= j < entries@.len() ==> #[trigger] m[j] == (entries@[j].0@, entries@[j].1.model()),
            forall|j: int| 0 <= j < i ==> (#[trigger] m[j]).0 != k,
            k == key@,
            vm == value.model(),
            keys_unique(m),
        decreases entries@.len() - i,
    {
        if bytes_eq(entries[i].0.as_slice(), key.as_slice()) {
            let ghost old_entries = entries@;
            entries.set(i, (key, value));
            proof {
                lemma_entry_models_index(entries@);
                assert(entry_models(entries@) =~= m.update(i as int, (k, vm)));
                assert(has_key(m, k)) by {
                    assert(m[i as int].0 == k);
                }
                let c = choose|c: int| 0 <= c < m.len() && #[trigger] m[c].0 == k;
                assert(c == i);
                assert(dict_insert(m, k, vm) == m.update(i as int, (k, vm)));
                assert(entry_models(entries@) == dict_insert(m, k, vm));
                assert(keys_unique(entry_models(entries@))) by {
                    let n = entry_models(entries@);
                    assert forall|a: int, b: int|
                        0 <= a < n.len() && 0 <= b < n.len() && a != b implies #[trigger] n[a].0
                        != #[trigger] n[b].0 by {
                        if a == i {
                            assert(m[b].0 != k);
                        } else if b == i {
                            assert(m[a].0 != k);
                        } else {
                            assert(m[a].0 != m[b].0);
                        }
                    }
                }
            }
            return;
        }
        i = i + 1;
    }
    let ghost old_entries = entries@;
    entries.push((key, value));
    proof {
        assert(entries@.drop_last() =~= old_entries);
        assert(entry_models(entries@) == m.push((k, vm)));
        assert(!has_key(m, k));
        lemma_entry_models_index(entries@);
        let n = entry_models(entries@);
        assert forall|a: int, b: int|
            0 <= a < n.len() && 0 <= b < n.len() && a != b implies #[trigger] n[a].0
            != #[trigger] n[b].0 by {
            if a == m.len() {
                assert(m[b].0 != k);
            } else if b == m.len() {
                assert(m[a].0 != k);
            } else {
                assert(n[a] == m[a] && n[b] == m[b]);
            }
        }
    }
}

} // verus!
