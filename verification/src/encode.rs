//! Encoding [`BencodeType`] values to bencoded text.
use vstd::prelude::*;

use crate::decode::lemma_text_models_index;
use crate::digits::{int_text, is_digit, lemma_nat_text_digits, nat_text, push_int_text, push_nat_text};
use crate::serialise::{COLON_ASCII, ser_items, ser_value};
use crate::text::{all_ascii, lemma_ascii_valid_utf8, string_from_utf8};
use crate::value::BValue;
use crate::{BencodeType, text_models};
use vstd::slice::slice_to_vec;
use vstd::utf8::{encode_utf8, encode_utf8_valid_utf8, valid_utf8, valid_utf8_concat};

verus! {

/// Whether the value is made of integers, byte strings that are valid UTF-8, and lists of such
/// values: no dictionary anywhere.
pub open spec fn is_text_value(v: BValue) -> bool
    decreases v,
{
    match v {
        BValue::Bytes(b) => valid_utf8(b),
        BValue::Int(_) => true,
        BValue::List(items) => all_text_values(items),
        BValue::Dict(_) => false,
    }
}

/// Whether every value of the sequence is a text value.
pub open spec fn all_text_values(items: Seq<BValue>) -> bool
    decreases items,
{
    if items.len() == 0 {
        true
    } else {
        all_text_values(items.drop_last()) && is_text_value(items.last())
    }
}

proof fn lemma_digits_ascii(n: nat)
    ensures
        all_ascii(nat_text(n)),
{
    lemma_nat_text_digits(n);
    assert forall|i: int| 0 <= i < nat_text(n).len() implies #[trigger] nat_text(n)[i] < 128 by {
        assert(is_digit(nat_text(n)[i]));
    }
}

proof fn lemma_ascii_concat(a: Seq<u8>, b: Seq<u8>)
    requires
        all_ascii(a),
        all_ascii(b),
    ensures
        all_ascii(a + b),
{
    assert forall|i: int| 0 <= i < (a + b).len() implies #[trigger] (a + b)[i] < 128 by {
        if i < a.len() {
            assert((a + b)[i] == a[i]);
        } else {
            assert((a + b)[i] == b[i - a.len()]);
        }
    }
}

/// The bencoding of a text value is valid UTF-8.
pub proof fn lemma_encoding_valid_utf8(v: BValue)
    requires
        is_text_value(v),
    ensures
        valid_utf8(ser_value(v)),
    decreases v,
{
    match v {
        BValue::Bytes(b) => {
            lemma_digits_ascii(b.len());
            lemma_ascii_concat(nat_text(b.len()), seq![COLON_ASCII]);
            lemma_ascii_valid_utf8(nat_text(b.len()) + seq![COLON_ASCII]);
            valid_utf8_concat(nat_text(b.len()) + seq![COLON_ASCII], b);
        },
        BValue::Int(i) => {
            let m: nat = if i < 0 { (-i) as nat } else { i as nat };
            lemma_digits_ascii(m);
            if i < 0 {
                lemma_ascii_concat(seq![45u8], nat_text(m));
            }
            lemma_ascii_concat(seq![105u8], int_text(i));
            lemma_ascii_concat(seq![105u8] + int_text(i), seq![101u8]);
            lemma_ascii_valid_utf8(ser_value(v));
        },
        BValue::List(items) => {
            lemma_items_valid_utf8(items);
            lemma_ascii_valid_utf8(seq![108u8]);
            lemma_ascii_valid_utf8(seq![101u8]);
            valid_utf8_concat(seq![108u8], ser_items(items));
            valid_utf8_concat(seq![108u8] + ser_items(items), seq![101u8]);
        },
        BValue::Dict(_) => {},
    }
}

proof fn lemma_items_valid_utf8(items: Seq<BValue>)
    requires
        all_text_values(items),
    ensures
        valid_utf8(ser_items(items)),
    decreases items,
{
    if items.len() == 0 {
        lemma_ascii_valid_utf8(ser_items(items));
    } else {
        lemma_items_valid_utf8(items.drop_last());
        lemma_encoding_valid_utf8(items.last());
        valid_utf8_concat(ser_items(items.drop_last()), ser_value(items.last()));
    }
}

/// Appends the bencoding of `data` to `out`.
fn encode_into(data: &BencodeType, out: &mut Vec<u8>)
    requires
        is_text_value(data.model()),
    ensures
        final(out)@ == old(out)@ + ser_value(data.model()),
    decreases data,
{
    match data {
        BencodeType::Integer(value) => {
            out.push(105);
            push_int_text(out, *value);
            out.push(101);
            proof {
                assert(final(out)@ =~= old(out)@ + ser_value(data.model()));
            }
        },
        BencodeType::ByteString(string) => {
            let bytes = string.as_str().as_bytes();
            push_nat_text(out, bytes.len() as u64);
            out.push(COLON_ASCII);
            let mut tail = slice_to_vec(bytes);
            out.append(&mut tail);
            proof {
                assert(final(out)@ =~= old(out)@ + ser_value(data.model()));
            }
        },
        BencodeType::List(items) => {
            out.push(108);
            proof {
                lemma_text_models_index(items@);
                lemma_all_text_values_index(text_models(items@));
            }
            let ghost start = out@;
            let mut i: usize = 0;
            while i < items.len()
                invariant
                    *data == BencodeType::List(*items),
                    i <= items@.len(),
                    text_models(items@).len() == items@.len(),
                    forall|k: int| 0 <= k < items@.len() ==> #[trigger] text_models(items@)[k] == items@[k].model(),
                    forall|k: int| 0 <= k < items@.len() ==> is_text_value(#[trigger] text_models(items@)[k]),
                    out@ == start + ser_items(text_models(items@).take(i as int)),
                decreases items@.len() - i,
            {
                proof {
                    assert(decreases_to!(items@ => items@[i as int]));
                    assert(decreases_to!(*items => items@));
                    assert(decreases_to!(*data => (*data)->List_0));
                    assert(is_text_value(text_models(items@)[i as int]));
                }
                encode_into(&items[i], out);
                proof {
                    let m = text_models(items@);
                    assert(m.take(i + 1).drop_last() =~= m.take(i as int));
                    assert(m.take(i + 1).last() == items@[i as int].model());
                }
                i = i + 1;
            }
            out.push(101);
            proof {
                assert(text_models(items@).take(items@.len() as int) =~= text_models(items@));
                assert(final(out)@ =~= old(out)@ + ser_value(data.model()));
            }
        },
        BencodeType::Dict(_) => {
            proof {
                assert(false);
            }
        },
    }
}

proof fn lemma_all_text_values_index(items: Seq<BValue>)
    ensures
        all_text_values(items) <==> forall|i: int| 0 <= i < items.len() ==> is_text_value(#[trigger] items[i]),
    decreases items.len(),
{
    if items.len() > 0 {
        lemma_all_text_values_index(items.drop_last());
        if forall|i: int| 0 <= i < items.len() ==> is_text_value(#[trigger] items[i]) {
            assert forall|i: int| 0 <= i < items.drop_last().len() implies is_text_value(#[trigger] items.drop_last()[i]) by {
                assert(items.drop_last()[i] == items[i]);
            }
        }
        if all_text_values(items) {
            assert forall|i: int| 0 <= i < items.len() implies is_text_value(#[trigger] items[i]) by {
                if i < items.len() - 1 {
                    assert(items.drop_last()[i] == items[i]);
                }
            }
        }
    }
}

/// Whether the value holds no dictionary anywhere (a dictionary cannot be encoded).
pub open spec fn encodable(data: BencodeType) -> bool
    decreases data,
{
    match data {
        BencodeType::Integer(_) => true,
        BencodeType::ByteString(_) => true,
        BencodeType::List(items) => forall|i: int| 0 <= i < items@.len() ==> encodable(#[trigger] items@[i]),
        BencodeType::Dict(_) => false,
    }
}

proof fn lemma_encodable_is_text(data: BencodeType)
    requires
        encodable(data),
    ensures
        is_text_value(data.model()),
    decreases data,
{
    match data {
        BencodeType::ByteString(s) => {
            encode_utf8_valid_utf8(s@);
        },
        BencodeType::List(items) => {
            lemma_text_models_index(items@);
            assert forall|i: int| 0 <= i < items@.len() implies is_text_value(#[trigger] text_models(items@)[i]) by {
                assert(decreases_to!(items@ => items@[i]));
                assert(decreases_to!(items => items@));
                lemma_encodable_is_text(items@[i]);
            }
            lemma_all_text_values_index(text_models(items@));
        },
        _ => {},
    }
}

/// Encodes `data` as bencoded text: an integer as `i`, its decimal digits, `e`; a string as its
/// length in bytes, a colon, the string; a list as `l`, its elements, `e`.
pub fn encode(data: BencodeType) -> (res: String)
    requires
        encodable(data),
    ensures
        encode_utf8(res@) == ser_value(data.model()),
{
    proof {
        lemma_encodable_is_text(data);
        lemma_encoding_valid_utf8(data.model());
    }
    let mut out: Vec<u8> = Vec::new();
    encode_into(&data, &mut out);
    proof {
        assert(out@ =~= ser_value(data.model()));
    }
    match string_from_utf8(out.as_slice()) {
        Some(s) => s,
        None => {
            proof {
                assert(false);
            }
            String::new()
        },
    }
}

} // verus!
