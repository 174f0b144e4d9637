//! Reading back what [`serialise`](crate::serialise::serialise) and [`encode`](crate::encode::encode) write.
use vstd::prelude::*;

use crate::digits::{int_text, lemma_int_text_scan, lemma_nat_text_digits, nat_text, signed_decimal, is_digit};
use crate::parse::{spec_byte_string, spec_dict, spec_element, spec_elements, spec_integer, spec_list, spec_pair, spec_pairs, spec_parse};
use crate::serialise::{concat_texts, entry_texts, insert_sorted, lex_lt, ser_bytes, ser_items, ser_value, sort_by_key};
use crate::decode::{starts_byte_string, text_byte_string, text_entries, text_integer, text_items, text_value};
use crate::digits::{digits_end, lemma_digits_end_at, lemma_nat_text_value};
use crate::value::{BValue, Outcome, dict_from_pairs, has_key, keys_unique};
use vstd::utf8::{encode_utf8_valid_utf8, valid_utf8};
use crate::decode::lemma_text_models_index;
use crate::encode::encodable;
use crate::{BencodeType, text_models};

verus! {

/// A value that [`serialise`](crate::serialise::serialise) writes and
/// [`parse`](crate::parse::parse) reads back unchanged: byte strings whose length fits in an
/// `i64`, `i64` integers, lists of such values, and dictionaries whose keys strictly increase
/// (as [`serialise`](crate::serialise::serialise) writes them), with such values.
pub open spec fn canonical(v: BValue) -> bool
    decreases v,
{
    match v {
        BValue::Bytes(b) => b.len() <= i64::MAX,
        BValue::Int(i) => i64::MIN <= i <= i64::MAX,
        BValue::List(items) => all_canonical(items),
        BValue::Dict(entries) => keys_increasing(entries) && entries_canonical(entries),
    }
}

/// Whether every value of the sequence is canonical.
pub open spec fn all_canonical(items: Seq<BValue>) -> bool
    decreases items,
{
    if items.len() == 0 {
        true
    } else {
        all_canonical(items.drop_last()) && canonical(items.last())
    }
}

/// Whether every entry has a key whose length fits in an `i64` and a canonical value.
pub open spec fn entries_canonical(entries: Seq<(Seq<u8>, BValue)>) -> bool
    decreases entries,
{
    if entries.len() == 0 {
        true
    } else {
        entries_canonical(entries.drop_last()) && entries.last().0.len() <= i64::MAX && canonical(
            entries.last().1,
        )
    }
}

/// Whether the keys strictly increase in lexicographic byte order.
pub open spec fn keys_increasing(entries: Seq<(Seq<u8>, BValue)>) -> bool {
    forall|i: int, j: int|
        0 <= i < j < entries.len() ==> lex_lt(#[trigger] entries[i].0, #[trigger] entries[j].0)
}

proof fn lemma_entries_canonical_index(entries: Seq<(Seq<u8>, BValue)>)
    ensures
        entries_canonical(entries) <==> forall|i: int|
            0 <= i < entries.len() ==> canonical(#[trigger] entries[i].1) && entries[i].0.len()
                <= i64::MAX,
    decreases entries.len(),
{
    if entries.len() > 0 {
        let init = entries.drop_last();
        lemma_entries_canonical_index(init);
        assert forall|i: int| 0 <= i < entries.len() - 1 implies init[i] == entries[i] by {}
        assert(entries[entries.len() - 1] == entries.last());
        if entries_canonical(entries) {
            assert forall|i: int| 0 <= i < entries.len() implies canonical(#[trigger] entries[i].1)
                && entries[i].0.len() <= i64::MAX by {
                assert(entries_canonical(init));
                assert(canonical(entries.last().1));
                if i < entries.len() - 1 {
                    assert(init[i] == entries[i]);
                    assert(canonical(init[i].1));
                }
            }
        }
        if forall|i: int|
            0 <= i < entries.len() ==> canonical(#[trigger] entries[i].1) && entries[i].0.len() <= i64::MAX {
            assert forall|i: int| 0 <= i < init.len() implies canonical(#[trigger] init[i].1)
                && init[i].0.len() <= i64::MAX by {
                assert(init[i] == entries[i]);
                assert(canonical(entries[i].1));
            }
            assert(canonical(entries[entries.len() - 1].1));
        }
    }
}

proof fn lemma_all_canonical_index(items: Seq<BValue>)
    ensures
        all_canonical(items) <==> forall|i: int| 0 <= i < items.len() ==> canonical(#[trigger] items[i]),
    decreases items.len(),
{
    if items.len() > 0 {
        lemma_all_canonical_index(items.drop_last());
        assert forall|i: int| 0 <= i < items.len() - 1 implies items.drop_last()[i] == items[i] by {}
        if forall|i: int| 0 <= i < items.len() ==> canonical(#[trigger] items[i]) {
            assert forall|i: int| 0 <= i < items.drop_last().len() implies canonical(#[trigger] items.drop_last()[i]) by {
                assert(items.drop_last()[i] == items[i]);
            }
        }
    }
}

proof fn lemma_ser_value_nonempty(v: BValue)
    ensures
        ser_value(v).len() >= 1,
{
    match v {
        BValue::Bytes(b) => {
            lemma_nat_text_digits(b.len());
        },
        _ => {},
    }
}

proof fn lemma_ser_items_front(items: Seq<BValue>)
    requires
        items.len() > 0,
    ensures
        ser_items(items) == ser_value(items[0]) + ser_items(items.drop_first()),
    decreases items.len(),
{
    if items.len() == 1 {
        assert(items.drop_last() =~= seq![]);
        assert(items.drop_first() =~= seq![]);
        assert(ser_items(items.drop_last()) =~= Seq::<u8>::empty());
        assert(ser_items(items.drop_first()) =~= Seq::<u8>::empty());
        assert(ser_items(items) =~= ser_value(items[0]));
    } else {
        lemma_ser_items_front(items.drop_last());
        assert(items.drop_last().drop_first() =~= items.drop_first().drop_last());
        assert(items.drop_first().last() == items.last());
        assert(ser_items(items) =~= ser_value(items[0]) + ser_items(items.drop_first()));
    }
}

/// The input holds `pattern` at `p`.
pub open spec fn holds_at(t: Seq<u8>, p: int, pattern: Seq<u8>) -> bool {
    0 <= p && p + pattern.len() <= t.len() && t.subrange(p, p + pattern.len()) == pattern
}

proof fn lemma_holds_split(t: Seq<u8>, p: int, a: Seq<u8>, b: Seq<u8>)
    requires
        holds_at(t, p, a + b),
    ensures
        holds_at(t, p, a),
        holds_at(t, p + a.len(), b),
{
    let w = t.subrange(p, p + a.len() + b.len());
    assert(w == a + b);
    assert forall|k: int| 0 <= k < a.len() implies t.subrange(p, p + a.len())[k] == a[k] by {
        assert(w[k] == t[p + k]);
        assert((a + b)[k] == a[k]);
    }
    assert(t.subrange(p, p + a.len()) =~= a);
    assert forall|k: int| 0 <= k < b.len() implies t.subrange(p + a.len(), p + a.len() + b.len())[k]
        == b[k] by {
        assert(w[a.len() + k] == t[p + a.len() + k]);
        assert((a + b)[a.len() + k] == b[k]);
    }
    assert(t.subrange(p + a.len(), p + a.len() + b.len()) =~= b);
}

proof fn lemma_holds_byte(t: Seq<u8>, p: int, a: Seq<u8>, k: int)
    requires
        holds_at(t, p, a),
        0 <= k < a.len(),
    ensures
        t[p + k] == a[k],
{
    assert(t.subrange(p, p + a.len())[k] == t[p + k]);
}

/// At a byte that is neither a sign nor a digit, no integer text starts.
proof fn lemma_no_number(t: Seq<u8>, p: int)
    requires
        0 <= p < t.len(),
        !is_digit(t[p]),
        t[p] != 45u8,
        t[p] != 43u8,
    ensures
        signed_decimal(t, p) is None,
{
}

/// At an `e`, no element starts.
proof fn lemma_no_element_at_end(t: Seq<u8>, p: int)
    requires
        0 <= p < t.len(),
        t[p] == 101u8,
    ensures
        spec_element(t, p) is NoParse,
        spec_pair(t, p) is NoParse,
{
    lemma_no_number(t, p);
    assert(spec_byte_string(t, p) is NoParse);
    assert(spec_integer(t, p) is NoParse);
    assert(spec_list(t, p) is NoParse);
}

/// The bencoding of a byte string reads back as that byte string.
proof fn lemma_read_bytes(t: Seq<u8>, p: int, b: Seq<u8>)
    requires
        b.len() <= i64::MAX,
        holds_at(t, p, ser_bytes(b)),
    ensures
        spec_byte_string(t, p) == Outcome::Parsed(BValue::Bytes(b), p + ser_bytes(b).len()),
{
    let d = nat_text(b.len());
    lemma_holds_split(t, p, d + seq![58u8], b);
    lemma_holds_split(t, p, d, seq![58u8]);
    lemma_holds_byte(t, p + d.len(), seq![58u8], 0);
    assert(int_text(b.len() as int) == d);
    lemma_int_text_scan(t, p, b.len() as int);
    let q = p + d.len();
    assert(t.subrange(q + 1, q + 1 + b.len()) == b);
}

/// The bencoding of a canonical value reads back as that value.
proof fn lemma_read_element(t: Seq<u8>, p: int, v: BValue)
    requires
        canonical(v),
        holds_at(t, p, ser_value(v)),
    ensures
        spec_element(t, p) == Outcome::Parsed(v, p + ser_value(v).len()),
    decreases v,
{
    let s = ser_value(v);
    lemma_ser_value_nonempty(v);
    lemma_holds_byte(t, p, s, 0);
    match v {
        BValue::Bytes(b) => {
            lemma_read_bytes(t, p, b);
        },
        BValue::Int(i) => {
            lemma_no_number(t, p);
            let x = int_text(i);
            lemma_holds_split(t, p, seq![105u8] + x, seq![101u8]);
            lemma_holds_split(t, p, seq![105u8], x);
            lemma_holds_byte(t, p + 1 + x.len(), seq![101u8], 0);
            lemma_int_text_scan(t, p + 1, i);
        },
        BValue::List(items) => {
            lemma_no_number(t, p);
            let x = ser_items(items);
            lemma_holds_split(t, p, seq![108u8] + x, seq![101u8]);
            lemma_holds_split(t, p, seq![108u8], x);
            lemma_holds_byte(t, p + 1 + x.len(), seq![101u8], 0);
            lemma_read_elements(t, p + 1, items);
            assert(spec_byte_string(t, p) is NoParse);
            assert(spec_integer(t, p) is NoParse);
        },
        BValue::Dict(entries) => {
            lemma_no_number(t, p);
            assert(spec_byte_string(t, p) is NoParse);
            assert(spec_integer(t, p) is NoParse);
            assert(spec_list(t, p) is NoParse);
            lemma_entry_texts_index(entries);
            let texts = entry_texts(entries);
            assert forall|i: int, j: int| 0 <= i < j < texts.len() implies lex_lt(
                #[trigger] texts[i].0,
                #[trigger] texts[j].0,
            ) by {
                assert(lex_lt(entries[i].0, entries[j].0));
            }
            lemma_sort_sorted(texts);
            let c = concat_texts(texts);
            assert(s == seq![100u8] + c + seq![101u8]);
            lemma_holds_split(t, p, seq![100u8] + c, seq![101u8]);
            lemma_holds_split(t, p, seq![100u8], c);
            lemma_holds_byte(t, p + 1 + c.len(), seq![101u8], 0);
            lemma_entries_canonical_index(entries);
            lemma_read_pairs(t, p + 1, entries);
            lemma_dict_from_distinct_pairs(entries);
            assert(spec_dict(t, p) == Outcome::Parsed(v, p + s.len()));
        },
    }
}

/// The bencodings of values, followed by an `e`, read back as those values.
proof fn lemma_read_elements(t: Seq<u8>, p: int, items: Seq<BValue>)
    requires
        all_canonical(items),
        holds_at(t, p, ser_items(items)),
        p + ser_items(items).len() < t.len(),
        t[p + ser_items(items).len()] == 101u8,
    ensures
        spec_elements(t, p) == Outcome::Parsed(BValue::List(items), p + ser_items(items).len()),
    decreases items,
{
    if items.len() == 0 {
        lemma_no_element_at_end(t, p);
        assert(items =~= seq![]);
    } else {
        lemma_all_canonical_index(items);
        lemma_all_canonical_index(items.drop_first());
        lemma_ser_items_front(items);
        let first = ser_value(items[0]);
        let rest = items.drop_first();
        lemma_holds_split(t, p, first, ser_items(rest));
        lemma_read_element(t, p, items[0]);
        lemma_ser_value_nonempty(items[0]);
        lemma_read_elements(t, p + first.len(), rest);
        assert(seq![items[0]] + rest =~= items);
    }
}

/// No key comes before itself, and of two keys at most one comes before the other.
pub proof fn lemma_lex_lt_asymmetric(a: Seq<u8>, b: Seq<u8>)
    ensures
        lex_lt(a, b) ==> !lex_lt(b, a),
        !lex_lt(a, a),
    decreases a.len(),
{
    if a.len() > 0 && b.len() > 0 {
        lemma_lex_lt_asymmetric(a.drop_first(), b.drop_first());
    }
    if a.len() > 0 {
        lemma_lex_lt_asymmetric(a.drop_first(), a.drop_first());
    }
}

/// The keys of entry texts are the keys of the entries.
proof fn lemma_entry_texts_index(entries: Seq<(Seq<u8>, BValue)>)
    ensures
        entry_texts(entries).len() == entries.len(),
        forall|i: int|
            0 <= i < entries.len() ==> #[trigger] entry_texts(entries)[i] == (
                entries[i].0,
                ser_bytes(entries[i].0) + ser_value(entries[i].1),
            ),
    decreases entries.len(),
{
    if entries.len() > 0 {
        lemma_entry_texts_index(entries.drop_last());
    }
}

/// Sorting entries whose keys already increase leaves them as they are.
proof fn lemma_sort_sorted(s: Seq<(Seq<u8>, Seq<u8>)>)
    requires
        forall|i: int, j: int| 0 <= i < j < s.len() ==> lex_lt(#[trigger] s[i].0, #[trigger] s[j].0),
    ensures
        sort_by_key(s) == s,
    decreases s.len(),
{
    if s.len() > 0 {
        let init = s.drop_last();
        assert forall|i: int, j: int| 0 <= i < j < init.len() implies lex_lt(
            #[trigger] init[i].0,
            #[trigger] init[j].0,
        ) by {
            assert(init[i] == s[i] && init[j] == s[j]);
        }
        lemma_sort_sorted(init);
        let e = s.last();
        assert forall|i: int| 0 <= i < init.len() implies !lex_lt(e.0, #[trigger] init[i].0) by {
            assert(init[i] == s[i]);
            assert(lex_lt(s[i].0, s[s.len() - 1].0));
            lemma_lex_lt_asymmetric(s[i].0, e.0);
        }
        lemma_insert_at_end(init, e);
        assert(init.push(e) =~= s);
    }
}

proof fn lemma_insert_at_end(s: Seq<(Seq<u8>, Seq<u8>)>, e: (Seq<u8>, Seq<u8>))
    requires
        forall|i: int| 0 <= i < s.len() ==> !lex_lt(e.0, #[trigger] s[i].0),
    ensures
        insert_sorted(s, e) == s.push(e),
    decreases s.len(),
{
    if s.len() > 0 {
        let t = s.drop_first();
        assert forall|i: int| 0 <= i < t.len() implies !lex_lt(e.0, #[trigger] t[i].0) by {
            assert(t[i] == s[i + 1]);
        }
        lemma_insert_at_end(t, e);
        assert(seq![s[0]] + t.push(e) =~= s.push(e));
    }
}

/// Inserting entries whose keys differ, one after another, keeps them as they are.
proof fn lemma_dict_from_distinct_pairs(pairs: Seq<(Seq<u8>, BValue)>)
    requires
        keys_increasing(pairs),
    ensures
        dict_from_pairs(pairs) == pairs,
    decreases pairs.len(),
{
    if pairs.len() > 0 {
        let init = pairs.drop_last();
        assert forall|i: int, j: int| 0 <= i < j < init.len() implies lex_lt(
            #[trigger] init[i].0,
            #[trigger] init[j].0,
        ) by {
            assert(init[i] == pairs[i] && init[j] == pairs[j]);
        }
        lemma_dict_from_distinct_pairs(init);
        let last = pairs.last();
        assert(!has_key(init, last.0)) by {
            if has_key(init, last.0) {
                let i = choose|i: int| 0 <= i < init.len() && #[trigger] init[i].0 == last.0;
                assert(lex_lt(pairs[i].0, pairs[pairs.len() - 1].0));
                lemma_lex_lt_asymmetric(last.0, last.0);
            }
        }
        assert(init.push(last) =~= pairs);
    }
}

proof fn lemma_concat_texts_front(s: Seq<(Seq<u8>, Seq<u8>)>)
    requires
        s.len() > 0,
    ensures
        concat_texts(s) == s[0].1 + concat_texts(s.drop_first()),
    decreases s.len(),
{
    if s.len() == 1 {
        assert(concat_texts(s.drop_last()) =~= Seq::<u8>::empty());
        assert(concat_texts(s.drop_first()) =~= Seq::<u8>::empty());
        assert(concat_texts(s) =~= s[0].1);
    } else {
        lemma_concat_texts_front(s.drop_last());
        assert(s.drop_last().drop_first() =~= s.drop_first().drop_last());
        assert(s.drop_first().last() == s.last());
        assert(concat_texts(s) =~= s[0].1 + concat_texts(s.drop_first()));
    }
}

/// The bencodings of dictionary entries, followed by an `e`, read back as those entries.
proof fn lemma_read_pairs(t: Seq<u8>, p: int, entries: Seq<(Seq<u8>, BValue)>)
    requires
        forall|i: int|
            0 <= i < entries.len() ==> canonical(#[trigger] entries[i].1) && entries[i].0.len()
                <= i64::MAX,
        holds_at(t, p, concat_texts(entry_texts(entries))),
        p + concat_texts(entry_texts(entries)).len() < t.len(),
        t[p + concat_texts(entry_texts(entries)).len()] == 101u8,
    ensures
        spec_pairs(t, p) == Outcome::Parsed(
            BValue::Dict(entries),
            p + concat_texts(entry_texts(entries)).len(),
        ),
    decreases entries,
{
    reveal_with_fuel(spec_pairs, 2);
    lemma_entry_texts_index(entries);
    if entries.len() == 0 {
        lemma_no_element_at_end(t, p);
        assert(entries =~= seq![]);
    } else {
        let texts = entry_texts(entries);
        let rest = entries.drop_first();
        lemma_entry_texts_index(rest);
        assert(texts.drop_first() =~= entry_texts(rest));
        lemma_concat_texts_front(texts);
        let (k, v) = entries[0];
        assert(texts[0].1 == ser_bytes(k) + ser_value(v));
        lemma_holds_split(t, p, texts[0].1, concat_texts(entry_texts(rest)));
        lemma_holds_split(t, p, ser_bytes(k), ser_value(v));
        lemma_read_bytes(t, p, k);
        lemma_read_element(t, p + ser_bytes(k).len(), v);
        lemma_ser_value_nonempty(v);
        assert forall|i: int| 0 <= i < rest.len() implies canonical(#[trigger] rest[i].1)
            && rest[i].0.len() <= i64::MAX by {
            assert(rest[i] == entries[i + 1]);
        }
        lemma_read_pairs(t, p + texts[0].1.len(), rest);
        assert(seq![(k, v)] + rest =~= entries);
    }
}

/// What [`serialise`](crate::serialise::serialise) writes for a canonical value,
/// [`parse`](crate::parse::parse) reads back as that value, using up the whole text.
pub proof fn lemma_parse_serialise_roundtrip(v: BValue)
    requires
        canonical(v),
    ensures
        spec_parse(ser_value(v)) == Outcome::Parsed(v, ser_value(v).len() as int),
{
    let t = ser_value(v);
    assert(t.subrange(0, t.len() as int) =~= t);
    lemma_read_element(t, 0, v);
}

/// A value that [`decode`](crate::decode::decode) reads back unchanged from its bencoding:
/// `i64` integers, byte strings that are valid UTF-8, lists of such values, and dictionaries
/// whose keys are valid UTF-8 and strictly increase (as they are written), with such values.
pub open spec fn decodes_back(v: BValue) -> bool
    decreases v,
{
    match v {
        BValue::Bytes(b) => valid_utf8(b),
        BValue::Int(i) => i64::MIN <= i <= i64::MAX,
        BValue::List(items) => all_decode_back(items),
        BValue::Dict(entries) => keys_increasing(entries) && entries_decode_back(entries),
    }
}

/// Whether every entry has a key that is valid UTF-8 and a value that decodes back.
pub open spec fn entries_decode_back(entries: Seq<(Seq<u8>, BValue)>) -> bool
    decreases entries,
{
    if entries.len() == 0 {
        true
    } else {
        entries_decode_back(entries.drop_last()) && valid_utf8(entries.last().0) && decodes_back(
            entries.last().1,
        )
    }
}

proof fn lemma_entries_decode_back_index(entries: Seq<(Seq<u8>, BValue)>)
    ensures
        entries_decode_back(entries) ==> forall|i: int|
            0 <= i < entries.len() ==> decodes_back(#[trigger] entries[i].1) && valid_utf8(
                entries[i].0,
            ),
    decreases entries.len(),
{
    if entries.len() > 0 {
        let init = entries.drop_last();
        lemma_entries_decode_back_index(init);
        assert(entries[entries.len() - 1] == entries.last());
        if entries_decode_back(entries) {
            assert forall|i: int| 0 <= i < entries.len() implies decodes_back(
                #[trigger] entries[i].1,
            ) && valid_utf8(entries[i].0) by {
                if i < entries.len() - 1 {
                    assert(init[i] == entries[i]);
                }
            }
        }
    }
}

/// Whether every value of the sequence decodes back.
pub open spec fn all_decode_back(items: Seq<BValue>) -> bool
    decreases items,
{
    if items.len() == 0 {
        true
    } else {
        all_decode_back(items.drop_last()) && decodes_back(items.last())
    }
}

proof fn lemma_all_decode_back_index(items: Seq<BValue>)
    ensures
        all_decode_back(items) <==> forall|i: int| 0 <= i < items.len() ==> decodes_back(#[trigger] items[i]),
    decreases items.len(),
{
    if items.len() > 0 {
        lemma_all_decode_back_index(items.drop_last());
        assert forall|i: int| 0 <= i < items.len() - 1 implies items.drop_last()[i] == items[i] by {}
        if forall|i: int| 0 <= i < items.len() ==> decodes_back(#[trigger] items[i]) {
            assert forall|i: int| 0 <= i < items.drop_last().len() implies decodes_back(#[trigger] items.drop_last()[i]) by {
                assert(items.drop_last()[i] == items[i]);
            }
        }
    }
}

/// The decoder reads the bencoding of a valid UTF-8 byte string back as that byte string.
proof fn lemma_text_read_bytes(t: Seq<u8>, p: int, b: Seq<u8>)
    requires
        valid_utf8(b),
        holds_at(t, p, ser_bytes(b)),
    ensures
        text_value(t, p) == Outcome::Parsed(BValue::Bytes(b), p + ser_bytes(b).len()),
{
    let d = nat_text(b.len());
    lemma_nat_text_digits(b.len());
    lemma_holds_split(t, p, d + seq![58u8], b);
    lemma_holds_split(t, p, d, seq![58u8]);
    lemma_holds_byte(t, p + d.len(), seq![58u8], 0);
    assert forall|k: int| p <= k < p + d.len() implies is_digit(#[trigger] t[k]) by {
        lemma_holds_byte(t, p, d, k - p);
    }
    lemma_digits_end_at(t, p, p + d.len());
    lemma_nat_text_value(t, p, b.len());
    assert(starts_byte_string(t, p));
    let e = p + d.len();
    assert(t.subrange(e + 1, e + 1 + b.len()) == b);
    assert(text_byte_string(t, p) == Outcome::Parsed(BValue::Bytes(b), e + 1 + b.len()));
}

/// The decoder reads the encoding of a value back, up to the encoding's end.
proof fn lemma_text_read(t: Seq<u8>, p: int, v: BValue)
    requires
        decodes_back(v),
        holds_at(t, p, ser_value(v)),
    ensures
        text_value(t, p) == Outcome::Parsed(v, p + ser_value(v).len()),
    decreases v,
{
    let s = ser_value(v);
    lemma_ser_value_nonempty(v);
    lemma_holds_byte(t, p, s, 0);
    match v {
        BValue::Bytes(b) => {
            lemma_text_read_bytes(t, p, b);
        },
        BValue::Int(i) => {
            let x = int_text(i);
            lemma_holds_split(t, p, seq![105u8] + x, seq![101u8]);
            lemma_holds_split(t, p, seq![105u8], x);
            lemma_holds_byte(t, p + 1 + x.len(), seq![101u8], 0);
            lemma_int_text_scan(t, p + 1, i);
            lemma_holds_byte(t, p + 1, x, 0);
            lemma_nat_text_digits(if i < 0 { (-i) as nat } else { i as nat });
            assert(x[0] != 43u8);
            assert(digits_end(t, p) == p);
            assert(text_integer(t, p) == Outcome::Parsed(BValue::Int(i), p + s.len()));
        },
        BValue::List(items) => {
            let x = ser_items(items);
            lemma_holds_split(t, p, seq![108u8] + x, seq![101u8]);
            lemma_holds_split(t, p, seq![108u8], x);
            lemma_holds_byte(t, p + 1 + x.len(), seq![101u8], 0);
            assert(digits_end(t, p) == p);
            lemma_text_read_items(t, p + 1, items);
        },
        BValue::Dict(entries) => {
            lemma_entry_texts_index(entries);
            let texts = entry_texts(entries);
            assert forall|i: int, j: int| 0 <= i < j < texts.len() implies lex_lt(
                #[trigger] texts[i].0,
                #[trigger] texts[j].0,
            ) by {
                assert(lex_lt(entries[i].0, entries[j].0));
            }
            lemma_sort_sorted(texts);
            let c = concat_texts(texts);
            assert(s == seq![100u8] + c + seq![101u8]);
            lemma_holds_split(t, p, seq![100u8] + c, seq![101u8]);
            lemma_holds_split(t, p, seq![100u8], c);
            lemma_holds_byte(t, p + 1 + c.len(), seq![101u8], 0);
            assert(digits_end(t, p) == p);
            lemma_entries_decode_back_index(entries);
            lemma_text_read_pairs(t, p + 1, entries);
            lemma_dict_from_distinct_pairs(entries);
        },
    }
}

/// The decoder reads the encodings of values followed by an `e` back as a list, up to that `e`.
proof fn lemma_text_read_items(t: Seq<u8>, p: int, items: Seq<BValue>)
    requires
        all_decode_back(items),
        holds_at(t, p, ser_items(items)),
        p + ser_items(items).len() < t.len(),
        t[p + ser_items(items).len()] == 101u8,
    ensures
        text_items(t, p) == Outcome::Parsed(BValue::List(items), p + ser_items(items).len()),
    decreases items,
{
    if items.len() == 0 {
        assert(items =~= seq![]);
        assert(ser_items(items).len() == 0);
    } else {
        lemma_all_decode_back_index(items);
        lemma_all_decode_back_index(items.drop_first());
        lemma_ser_items_front(items);
        let first = ser_value(items[0]);
        let rest = items.drop_first();
        lemma_holds_split(t, p, first, ser_items(rest));
        lemma_ser_value_nonempty(items[0]);
        lemma_holds_byte(t, p, first, 0);
        if let BValue::Bytes(b) = items[0] {
            lemma_nat_text_digits(b.len());
            assert(first[0] == nat_text(b.len())[0]);
        }
        assert(t[p] != 101u8);
        lemma_text_read(t, p, items[0]);
        lemma_text_read_items(t, p + first.len(), rest);
        assert(seq![items[0]] + rest =~= items);
    }
}

/// The decoder reads the bencodings of dictionary entries, followed by an `e`, back as those
/// entries, up to that `e`.
proof fn lemma_text_read_pairs(t: Seq<u8>, p: int, entries: Seq<(Seq<u8>, BValue)>)
    requires
        forall|i: int|
            0 <= i < entries.len() ==> decodes_back(#[trigger] entries[i].1) && valid_utf8(
                entries[i].0,
            ),
        holds_at(t, p, concat_texts(entry_texts(entries))),
        p + concat_texts(entry_texts(entries)).len() < t.len(),
        t[p + concat_texts(entry_texts(entries)).len()] == 101u8,
    ensures
        text_entries(t, p) == Outcome::Parsed(
            BValue::Dict(entries),
            p + concat_texts(entry_texts(entries)).len(),
        ),
    decreases entries,
{
    lemma_entry_texts_index(entries);
    if entries.len() == 0 {
        assert(entries =~= seq![]);
    } else {
        let texts = entry_texts(entries);
        let rest = entries.drop_first();
        lemma_entry_texts_index(rest);
        assert(texts.drop_first() =~= entry_texts(rest));
        lemma_concat_texts_front(texts);
        let (k, v) = entries[0];
        assert(texts[0].1 == ser_bytes(k) + ser_value(v));
        lemma_holds_split(t, p, texts[0].1, concat_texts(entry_texts(rest)));
        lemma_holds_split(t, p, ser_bytes(k), ser_value(v));
        lemma_nat_text_digits(k.len());
        lemma_holds_byte(t, p, ser_bytes(k), 0);
        assert(ser_bytes(k)[0] == nat_text(k.len())[0]);
        assert(t[p] != 101u8);
        lemma_text_read_bytes(t, p, k);
        lemma_text_read(t, p + ser_bytes(k).len(), v);
        lemma_ser_value_nonempty(v);
        assert forall|i: int| 0 <= i < rest.len() implies decodes_back(#[trigger] rest[i].1)
            && valid_utf8(rest[i].0) by {
            assert(rest[i] == entries[i + 1]);
        }
        lemma_text_read_pairs(t, p + texts[0].1.len(), rest);
        assert(seq![(k, v)] + rest =~= entries);
    }
}

/// [`decode`](crate::decode::decode) reads the bencoding of a value back as the same value,
/// using up the whole text: a list or a dictionary, nested ones included, ends just past its
/// closing `e`, so no entry or item after it is lost.
pub proof fn lemma_decode_encode_roundtrip(v: BValue)
    requires
        decodes_back(v),
    ensures
        text_value(ser_value(v), 0) == Outcome::Parsed(v, ser_value(v).len() as int),
{
    let t = ser_value(v);
    assert(t.subrange(0, t.len() as int) =~= t);
    lemma_text_read(t, 0, v);
}


proof fn lemma_encodable_decodes_back(data: BencodeType)
    requires
        encodable(data),
    ensures
        decodes_back(data.model()),
    decreases data,
{
    match data {
        BencodeType::ByteString(s) => {
            encode_utf8_valid_utf8(s@);
        },
        BencodeType::List(items) => {
            lemma_text_models_index(items@);
            assert forall|i: int| 0 <= i < items@.len() implies decodes_back(#[trigger] text_models(items@)[i]) by {
                assert(decreases_to!(items@ => items@[i]));
                assert(decreases_to!(items => items@));
                lemma_encodable_decodes_back(items@[i]);
            }
            lemma_all_decode_back_index(text_models(items@));
        },
        _ => {},
    }
}

/// Every value that [`encode`](crate::encode::encode) accepts, [`decode`](crate::decode::decode)
/// reads back from its encoding as the same value.
pub proof fn lemma_decode_reads_every_encoding(data: BencodeType)
    requires
        encodable(data),
    ensures
        text_value(ser_value(data.model()), 0) == Outcome::Parsed(
            data.model(),
            ser_value(data.model()).len() as int,
        ),
{
    lemma_encodable_decodes_back(data);
    lemma_decode_encode_roundtrip(data.model());
}


/// Of two different keys, one comes before the other.
pub proof fn lemma_lex_lt_total(a: Seq<u8>, b: Seq<u8>)
    ensures
        a != b ==> lex_lt(a, b) || lex_lt(b, a),
    decreases a.len(),
{
    if a.len() > 0 && b.len() > 0 && a[0] == b[0] {
        lemma_lex_lt_total(a.drop_first(), b.drop_first());
        if a.drop_first() == b.drop_first() {
            assert(a =~= seq![a[0]] + a.drop_first());
            assert(b =~= seq![b[0]] + b.drop_first());
        }
    } else if a.len() == 0 && b.len() == 0 {
        assert(a =~= b);
    }
}

/// A key before a key before a third comes before the third.
pub proof fn lemma_lex_lt_transitive(a: Seq<u8>, b: Seq<u8>, c: Seq<u8>)
    requires
        lex_lt(a, b),
        lex_lt(b, c),
    ensures
        lex_lt(a, c),
    decreases a.len(),
{
    if a.len() > 0 && b.len() > 0 && c.len() > 0 && a[0] == b[0] && b[0] == c[0] {
        lemma_lex_lt_transitive(a.drop_first(), b.drop_first(), c.drop_first());
    }
}

/// Whether no entry has a key that comes before the key of an entry ahead of it.
pub open spec fn keys_sorted(s: Seq<(Seq<u8>, Seq<u8>)>) -> bool {
    forall|i: int, j: int| 0 <= i < j < s.len() ==> !lex_lt(#[trigger] s[j].0, #[trigger] s[i].0)
}

proof fn lemma_insert_sorted_sorted(s: Seq<(Seq<u8>, Seq<u8>)>, e: (Seq<u8>, Seq<u8>))
    requires
        keys_sorted(s),
    ensures
        keys_sorted(insert_sorted(s, e)),
        insert_sorted(s, e).to_multiset() == s.to_multiset().insert(e),
    decreases s.len(),
{
    broadcast use vstd::multiset::group_multiset_axioms, vstd::seq_lib::group_to_multiset_ensures;

    let r = insert_sorted(s, e);
    if s.len() == 0 {
        assert(r =~= Seq::<(Seq<u8>, Seq<u8>)>::empty().push(e));
    } else if lex_lt(e.0, s[0].0) {
        assert(r =~= seq![e] + s);
        vstd::seq_lib::lemma_multiset_commutative(seq![e], s);
        assert(seq![e] =~= Seq::<(Seq<u8>, Seq<u8>)>::empty().push(e));
        assert forall|i: int, j: int| 0 <= i < j < r.len() implies !lex_lt(#[trigger] r[j].0, #[trigger] r[i].0) by {
            if i == 0 {
                assert(r[j] == s[j - 1]);
                if j - 1 > 0 {
                    assert(!lex_lt(s[j - 1].0, s[0].0));
                }
                if lex_lt(s[j - 1].0, e.0) {
                    lemma_lex_lt_transitive(s[j - 1].0, e.0, s[0].0);
                }
                lemma_lex_lt_asymmetric(e.0, s[0].0);
            } else {
                assert(r[i] == s[i - 1] && r[j] == s[j - 1]);
            }
        }
    } else {
        let t = s.drop_first();
        assert(keys_sorted(t)) by {
            assert forall|i: int, j: int| 0 <= i < j < t.len() implies !lex_lt(#[trigger] t[j].0, #[trigger] t[i].0) by {
                assert(t[i] == s[i + 1] && t[j] == s[j + 1]);
            }
        }
        lemma_insert_sorted_sorted(t, e);
        let u = insert_sorted(t, e);
        assert(r =~= seq![s[0]] + u);
        vstd::seq_lib::lemma_multiset_commutative(seq![s[0]], u);
        vstd::seq_lib::lemma_multiset_commutative(seq![s[0]], t);
        assert(seq![s[0]] =~= Seq::<(Seq<u8>, Seq<u8>)>::empty().push(s[0]));
        assert(s =~= seq![s[0]] + t);
        assert forall|i: int, j: int| 0 <= i < j < r.len() implies !lex_lt(#[trigger] r[j].0, #[trigger] r[i].0) by {
            if i == 0 {
                let x = r[j];
                assert(x == u[j - 1]);
                assert(u.to_multiset().count(x) > 0);
                assert(u.contains(x));
                if x != e {
                    assert(t.to_multiset().count(x) > 0);
                    assert(t.contains(x));
                    let k = choose|k: int| 0 <= k < t.len() && t[k] == x;
                    assert(s[k + 1] == x);
                }
            } else {
                assert(r[i] == u[i - 1] && r[j] == u[j - 1]);
            }
        }
    }
}

proof fn lemma_sort_by_key_sorted(s: Seq<(Seq<u8>, Seq<u8>)>)
    ensures
        keys_sorted(sort_by_key(s)),
        sort_by_key(s).to_multiset() == s.to_multiset(),
    decreases s.len(),
{
    broadcast use vstd::multiset::group_multiset_axioms, vstd::seq_lib::group_to_multiset_ensures;

    if s.len() > 0 {
        lemma_sort_by_key_sorted(s.drop_last());
        lemma_insert_sorted_sorted(sort_by_key(s.drop_last()), s.last());
        assert(s =~= s.drop_last().push(s.last()));
    } else {
        assert(sort_by_key(s) =~= s);
    }
}

proof fn lemma_count_two(r: Seq<(Seq<u8>, Seq<u8>)>, i: int, j: int)
    requires
        0 <= i < j < r.len(),
        r[i] == r[j],
    ensures
        r.to_multiset().count(r[i]) >= 2,
    decreases r.len(),
{
    broadcast use vstd::multiset::group_multiset_axioms, vstd::seq_lib::group_to_multiset_ensures;

    let init = r.drop_last();
    assert(r =~= init.push(r.last()));
    if j == r.len() - 1 {
        assert(init[i] == r[i]);
        assert(init.contains(r[i]));
    } else {
        assert(init[i] == r[i] && init[j] == r[j]);
        lemma_count_two(init, i, j);
    }
}

proof fn lemma_count_one_distinct(s: Seq<(Seq<u8>, Seq<u8>)>, a: int)
    requires
        0 <= a < s.len(),
        forall|i: int, j: int| 0 <= i < j < s.len() ==> #[trigger] s[i].0 != #[trigger] s[j].0,
    ensures
        s.to_multiset().count(s[a]) == 1,
    decreases s.len(),
{
    broadcast use vstd::multiset::group_multiset_axioms, vstd::seq_lib::group_to_multiset_ensures;

    let init = s.drop_last();
    assert(s =~= init.push(s.last()));
    assert forall|i: int, j: int| 0 <= i < j < init.len() implies #[trigger] init[i].0 != #[trigger] init[j].0 by {
        assert(init[i] == s[i] && init[j] == s[j]);
    }
    if a == s.len() - 1 {
        assert(!init.contains(s[a])) by {
            if init.contains(s[a]) {
                let k = choose|k: int| 0 <= k < init.len() && init[k] == s[a];
                assert(s[k] == init[k]);
                assert(s[k].0 != s[a].0);
            }
        }
    } else {
        assert(init[a] == s[a]);
        lemma_count_one_distinct(init, a);
        assert(s.last() != s[a]) by {
            assert(s[a].0 != s[s.len() - 1].0);
        }
    }
}

proof fn lemma_count_one(texts: Seq<(Seq<u8>, Seq<u8>)>, a: int, entries: Seq<(Seq<u8>, BValue)>)
    requires
        texts == entry_texts(entries),
        keys_unique(entries),
        0 <= a < texts.len(),
    ensures
        texts.to_multiset().count(texts[a]) == 1,
{
    lemma_entry_texts_index(entries);
    assert forall|i: int, j: int| 0 <= i < j < texts.len() implies #[trigger] texts[i].0 != #[trigger] texts[j].0 by {
        assert(entries[i].0 != entries[j].0);
    }
    lemma_count_one_distinct(texts, a);
}

/// [`serialise`](crate::serialise::serialise) writes the entries of a dictionary whose keys
/// differ in strictly increasing lexicographic order of their keys, each entry once: the
/// entries written are the dictionary's entries, rearranged.
pub proof fn lemma_serialised_keys_increase(entries: Seq<(Seq<u8>, BValue)>)
    requires
        keys_unique(entries),
    ensures
        sort_by_key(entry_texts(entries)).to_multiset() == entry_texts(entries).to_multiset(),
        forall|i: int, j: int|
            0 <= i < j < entries.len() ==> lex_lt(
                #[trigger] sort_by_key(entry_texts(entries))[i].0,
                #[trigger] sort_by_key(entry_texts(entries))[j].0,
            ),
{
    broadcast use vstd::multiset::group_multiset_axioms, vstd::seq_lib::group_to_multiset_ensures;

    let texts = entry_texts(entries);
    let r = sort_by_key(texts);
    lemma_entry_texts_index(entries);
    lemma_sort_by_key_sorted(texts);
    assert(r.len() == texts.len()) by {
        assert(r.to_multiset().len() == texts.to_multiset().len());
    }
    assert forall|i: int, j: int| 0 <= i < j < entries.len() implies lex_lt(#[trigger] r[i].0, #[trigger] r[j].0) by {
        assert(!lex_lt(r[j].0, r[i].0));
        assert(r.contains(r[i]) && r.contains(r[j]));
        assert(texts.to_multiset().count(r[i]) > 0 && texts.to_multiset().count(r[j]) > 0);
        assert(texts.contains(r[i]) && texts.contains(r[j]));
        let a = choose|a: int| 0 <= a < texts.len() && texts[a] == r[i];
        let b = choose|b: int| 0 <= b < texts.len() && texts[b] == r[j];
        if a == b {
            assert(r.to_multiset().count(r[i]) >= 2) by {
                lemma_count_two(r, i, j);
            }
            assert(texts.to_multiset().count(r[i]) == 1) by {
                lemma_count_one(texts, a, entries);
            }
        } else {
            assert(entries[a].0 != entries[b].0);
        }
        lemma_lex_lt_total(r[i].0, r[j].0);
    }
}

} // verus!
