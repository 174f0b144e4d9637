//! Serialising [`BencodeType2`] values to bencoded bytes, dictionary keys in sorted order.
use vstd::prelude::*;

use crate::digits::{int_text, nat_text, push_int_text, push_nat_text};
use crate::parse::{BencodeType2, entry_models, lemma_entry_models_index, lemma_models_index, models};
use crate::value::BValue;
use vstd::slice::slice_to_vec;

verus! {

/// ASCII code of `:`.
pub const COLON_ASCII: u8 = 58;

/// Whether `a` comes strictly before `b` in lexicographic byte order.
pub open spec fn lex_lt(a: Seq<u8>, b: Seq<u8>) -> bool
    decreases a.len(),
{
    if a.len() == 0 {
        b.len() > 0
    } else if b.len() == 0 {
        false
    } else if a[0] < b[0] {
        true
    } else if a[0] > b[0] {
        false
    } else {
        lex_lt(a.drop_first(), b.drop_first())
    }
}

/// Inserts `e` into `sorted` just before the first entry whose key is greater than its own.
pub open spec fn insert_sorted(sorted: Seq<(Seq<u8>, Seq<u8>)>, e: (Seq<u8>, Seq<u8>)) -> Seq<
    (Seq<u8>, Seq<u8>),
>
    decreases sorted.len(),
{
    if sorted.len() == 0 {
        seq![e]
    } else if lex_lt(e.0, sorted[0].0) {
        seq![e] + sorted
    } else {
        seq![sorted[0]] + insert_sorted(sorted.drop_first(), e)
    }
}

/// The entries ordered by key; entries with equal keys keep their order.
pub open spec fn sort_by_key(s: Seq<(Seq<u8>, Seq<u8>)>) -> Seq<(Seq<u8>, Seq<u8>)>
    decreases s.len(),
{
    if s.len() == 0 {
        seq![]
    } else {
        insert_sorted(sort_by_key(s.drop_last()), s.last())
    }
}

/// The texts of the entries, one after another.
pub open spec fn concat_texts(s: Seq<(Seq<u8>, Seq<u8>)>) -> Seq<u8>
    decreases s.len(),
{
    if s.len() == 0 {
        seq![]
    } else {
        concat_texts(s.drop_last()) + s.last().1
    }
}

/// A bencoded byte string: its length in decimal, a colon, the bytes.
pub open spec fn ser_bytes(b: Seq<u8>) -> Seq<u8> {
    nat_text(b.len()) + seq![COLON_ASCII] + b
}

/// The bencoding of a value.
pub open spec fn ser_value(v: BValue) -> Seq<u8>
    decreases v,
{
    match v {
        BValue::Bytes(b) => ser_bytes(b),
        BValue::Int(i) => seq![105u8] + int_text(i) + seq![101u8],
        BValue::List(items) => seq![108u8] + ser_items(items) + seq![101u8],
        BValue::Dict(entries) => seq![100u8] + concat_texts(sort_by_key(entry_texts(entries)))
            + seq![101u8],
    }
}

/// The bencodings of the values, one after another.
pub open spec fn ser_items(items: Seq<BValue>) -> Seq<u8>
    decreases items,
{
    if items.len() == 0 {
        seq![]
    } else {
        ser_items(items.drop_last()) + ser_value(items.last())
    }
}

/// Each entry's key, with the text that bencodes the entry: the key as a byte string, then the
/// value.
pub open spec fn entry_texts(entries: Seq<(Seq<u8>, BValue)>) -> Seq<(Seq<u8>, Seq<u8>)>
    decreases entries,
{
    if entries.len() == 0 {
        seq![]
    } else {
        entry_texts(entries.drop_last()).push(
            (entries.last().0, ser_bytes(entries.last().0) + ser_value(entries.last().1)),
        )
    }
}


/// Whether `a` comes strictly before `b` in lexicographic byte order.
pub fn bytes_lt(a: &[u8], b: &[u8]) -> (r: bool)
    ensures
        r == lex_lt(a@, b@),
{
    let mut i: usize = 0;
    proof {
        assert(a@.skip(0) =~= a@);
        assert(b@.skip(0) =~= b@);
    }
    while i < a.len() && i < b.len() && a[i] == b[i]
        invariant
            i <= a@.len(),
            i <= b@.len(),
            lex_lt(a@, b@) == lex_lt(a@.skip(i as int), b@.skip(i as int)),
        decreases a@.len() - i,
    {
        proof {
            let x = a@.skip(i as int);
            let y = b@.skip(i as int);
            assert(x.drop_first() =~= a@.skip(i + 1));
            assert(y.drop_first() =~= b@.skip(i + 1));
        }
        i = i + 1;
    }
    proof {
        let x = a@.skip(i as int);
        let y = b@.skip(i as int);
        if i < a.len() && i < b.len() {
            assert(x[0] == a@[i as int] && y[0] == b@[i as int]);
        }
    }
    if i == a.len() {
        i < b.len()
    } else if i == b.len() {
        false
    } else {
        a[i] < b[i]
    }
}

/// The views of text entries.
pub open spec fn text_views(s: Seq<(Vec<u8>, Vec<u8>)>) -> Seq<(Seq<u8>, Seq<u8>)> {
    s.map_values(|e: (Vec<u8>, Vec<u8>)| (e.0@, e.1@))
}

/// Inserting before the first greater key is splicing the entry in at that position.
proof fn lemma_insert_sorted_at(s: Seq<(Seq<u8>, Seq<u8>)>, e: (Seq<u8>, Seq<u8>), j: int)
    requires
        0 <= j <= s.len(),
        forall|i: int| 0 <= i < j ==> !lex_lt(e.0, #[trigger] s[i].0),
        j == s.len() || lex_lt(e.0, s[j].0),
    ensures
        insert_sorted(s, e) == s.take(j) + seq![e] + s.skip(j),
    decreases s.len(),
{
    if s.len() == 0 {
        assert(s.take(j) + seq![e] + s.skip(j) =~= seq![e]);
    } else if j == 0 {
        assert(s.take(j) + seq![e] + s.skip(j) =~= seq![e] + s);
    } else {
        let t = s.drop_first();
        assert forall|i: int| 0 <= i < j - 1 implies !lex_lt(e.0, #[trigger] t[i].0) by {
            assert(t[i] == s[i + 1]);
        }
        if j < s.len() {
            assert(t[j - 1] == s[j]);
        }
        lemma_insert_sorted_at(t, e, j - 1);
        assert(seq![s[0]] + (t.take(j - 1) + seq![e] + t.skip(j - 1)) =~= s.take(j) + seq![e]
            + s.skip(j));
    }
}

/// Inserts `e` before the first entry whose key is greater than its own.
fn insert_by_key(sorted: &mut Vec<(Vec<u8>, Vec<u8>)>, e: (Vec<u8>, Vec<u8>))
    ensures
        text_views(final(sorted)@) == insert_sorted(text_views(old(sorted)@), (e.0@, e.1@)),
{
    let ghost s = text_views(sorted@);
    let mut j: usize = 0;
    while j < sorted.len() && !bytes_lt(e.0.as_slice(), sorted[j].0.as_slice())
        invariant
            j <= sorted@.len(),
            s == text_views(sorted@),
            sorted@ == old(sorted)@,
            forall|i: int| 0 <= i < j ==> !lex_lt(e.0@, #[trigger] s[i].0),
        decreases sorted@.len() - j,
    {
        j = j + 1;
    }
    proof {
        lemma_insert_sorted_at(s, (e.0@, e.1@), j as int);
    }
    sorted.insert(j, e);
    proof {
        assert(text_views(sorted@) =~= s.take(j as int) + seq![(e.0@, e.1@)] + s.skip(j as int));
    }
}

/// Appends the bencoding of a byte string to `out`.
pub fn push_byte_string(out: &mut Vec<u8>, b: &[u8])
    ensures
        final(out)@ == old(out)@ + ser_bytes(b@),
{
    push_nat_text(out, b.len() as u64);
    out.push(COLON_ASCII);
    let mut tail = slice_to_vec(b);
    out.append(&mut tail);
    proof {
        assert(final(out)@ =~= old(out)@ + ser_bytes(b@));
    }
}

/// Appends the bencoding of `data` to `out`.
pub fn serialise_into(data: &BencodeType2, out: &mut Vec<u8>)
    ensures
        final(out)@ == old(out)@ + ser_value(data.model()),
    decreases data,
{
    match data {
        BencodeType2::Integer(value) => {
            out.push(105);
            push_int_text(out, *value);
            out.push(101);
            proof {
                assert(final(out)@ =~= old(out)@ + ser_value(data.model()));
            }
        },
        BencodeType2::ByteString(bytes) => {
            push_byte_string(out, bytes.as_slice());
        },
        BencodeType2::List(items) => {
            out.push(108);
            proof {
                lemma_models_index(items@);
            }
            let ghost start = out@;
            let mut i: usize = 0;
            while i < items.len()
                invariant
                    *data == BencodeType2::List(*items),
                    i <= items@.len(),
                    models(items@).len() == items@.len(),
                    forall|k: int| 0 <= k < items@.len() ==> #[trigger] models(items@)[k] == items@[k].model(),
                    out@ == start + ser_items(models(items@).take(i as int)),
                decreases items@.len() - i,
            {
                proof {
                    assert(decreases_to!(items@ => items@[i as int]));
                    assert(decreases_to!(*items => items@));
                    assert(*items == (*data)->List_0);
                    assert(decreases_to!(*data => (*data)->List_0));
                }
                serialise_into(&items[i], out);
                proof {
                    let m = models(items@);
                    assert(m.take(i + 1).drop_last() =~= m.take(i as int));
                    assert(m.take(i + 1).last() == items@[i as int].model());
                }
                i = i + 1;
            }
            out.push(101);
            proof {
                assert(models(items@).take(items@.len() as int) =~= models(items@));
                assert(final(out)@ =~= old(out)@ + ser_value(data.model()));
            }
        },
        BencodeType2::Dict(entries) => {
            out.push(100);
            proof {
                lemma_entry_models_index(entries@);
            }
            let ghost texts = entry_texts(entry_models(entries@));
            let mut sorted: Vec<(Vec<u8>, Vec<u8>)> = Vec::new();
            let mut i: usize = 0;
            while i < entries.len()
                invariant
                    *data == BencodeType2::Dict(*entries),
                    i <= entries@.len(),
                    entry_models(entries@).len() == entries@.len(),
                    forall|k: int| 0 <= k < entries@.len() ==> #[trigger] entry_models(entries@)[k]
                        == (entries@[k].0@, entries@[k].1.model()),
                    texts == entry_texts(entry_models(entries@)),
                    text_views(sorted@) == sort_by_key(entry_texts(entry_models(entries@).take(i as int))),
                decreases entries@.len() - i,
            {
                let key = slice_to_vec(entries[i].0.as_slice());
                let mut text: Vec<u8> = Vec::new();
                push_byte_string(&mut text, entries[i].0.as_slice());
                proof {
                    assert(decreases_to!(entries@[i as int] => entries@[i as int].1));
                    assert(decreases_to!(entries@ => entries@[i as int]));
                    assert(decreases_to!(*entries => entries@));
                    assert(*entries == (*data)->Dict_0);
                    assert(decreases_to!(*data => (*data)->Dict_0));
                }
                serialise_into(&entries[i].1, &mut text);
                proof {
                    let m = entry_models(entries@);
                    assert(m.take(i + 1).drop_last() =~= m.take(i as int));
                    assert(entry_texts(m.take(i + 1)).drop_last() == entry_texts(m.take(i as int)));
                }
                insert_by_key(&mut sorted, (key, text));
                i = i + 1;
            }
            proof {
                assert(entry_models(entries@).take(entries@.len() as int) =~= entry_models(entries@));
            }
            let ghost before = out@;
            let mut k: usize = 0;
            while k < sorted.len()
                invariant
                    k <= sorted@.len(),
                    out@ == before + concat_texts(text_views(sorted@).take(k as int)),
                decreases sorted@.len() - k,
            {
                let mut piece = slice_to_vec(sorted[k].1.as_slice());
                out.append(&mut piece);
                proof {
                    let t = text_views(sorted@);
                    assert(t.take(k + 1).drop_last() =~= t.take(k as int));
                }
                k = k + 1;
            }
            out.push(101);
            proof {
                assert(text_views(sorted@).take(sorted@.len() as int) =~= text_views(sorted@));
                assert(final(out)@ =~= old(out)@ + ser_value(data.model()));
            }
        },
    }
}

/// The bencoding of `data`; dictionary entries come in increasing order of their keys.
pub fn serialise(data: BencodeType2) -> (res: Vec<u8>)
    ensures
        res@ == ser_value(data.model()),
{
    let mut out: Vec<u8> = Vec::new();
    serialise_into(&data, &mut out);
    proof {
        assert(out@ =~= ser_value(data.model()));
    }
    out
}


/// Lexicographic byte order: `a` comes before `b` exactly when `a` is a proper prefix of `b`, or
/// at the first index where the two differ `a` has the smaller byte.
pub proof fn lemma_lex_lt_is_lexicographic(a: Seq<u8>, b: Seq<u8>)
    ensures
        lex_lt(a, b) <==> (a.len() < b.len() && b.take(a.len() as int) == a) || exists|i: int|
            0 <= i < a.len() && i < b.len() && a.take(i) == b.take(i) && #[trigger] a[i] < b[i],
    decreases a.len(),
{
    if a.len() == 0 {
        assert(b.take(0) =~= a);
    } else if b.len() == 0 {
    } else if a[0] < b[0] {
        assert(a.take(0) =~= b.take(0));
        assert(a[0] < b[0]);
    } else if a[0] > b[0] {
        if exists|i: int| 0 <= i < a.len() && i < b.len() && a.take(i) == b.take(i) && #[trigger] a[i] < b[i] {
            let i = choose|i: int| 0 <= i < a.len() && i < b.len() && a.take(i) == b.take(i) && #[trigger] a[i] < b[i];
            if i > 0 {
                assert(a.take(i)[0] == b.take(i)[0]);
            }
        }
        if a.len() < b.len() && b.take(a.len() as int) == a {
            assert(b.take(a.len() as int)[0] == a[0]);
        }
    } else {
        let x = a.drop_first();
        let y = b.drop_first();
        lemma_lex_lt_is_lexicographic(x, y);
        if x.len() < y.len() && y.take(x.len() as int) == x {
            assert(b.take(a.len() as int) =~= seq![a[0]] + x);
            assert(a =~= seq![a[0]] + x);
        }
        if a.len() < b.len() && b.take(a.len() as int) == a {
            let yt = y.take(x.len() as int);
            assert(yt =~= x) by {
                assert forall|k: int| 0 <= k < x.len() implies #[trigger] yt[k] == x[k] by {
                    assert(b.take(a.len() as int)[k + 1] == a[k + 1]);
                }
            }
        }
        if exists|j: int| 0 <= j < x.len() && j < y.len() && x.take(j) == y.take(j) && #[trigger] x[j] < y[j] {
            let j = choose|j: int| 0 <= j < x.len() && j < y.len() && x.take(j) == y.take(j) && #[trigger] x[j] < y[j];
            let at = a.take(j + 1);
            let bt = b.take(j + 1);
            assert(at =~= bt) by {
                assert forall|k: int| 0 <= k < j + 1 implies #[trigger] at[k] == bt[k] by {
                    if k > 0 {
                        assert(x.take(j)[k - 1] == y.take(j)[k - 1]);
                    }
                }
            }
            assert(a[j + 1] < b[j + 1]);
        }
        if exists|i: int| 0 <= i < a.len() && i < b.len() && a.take(i) == b.take(i) && #[trigger] a[i] < b[i] {
            let i = choose|i: int| 0 <= i < a.len() && i < b.len() && a.take(i) == b.take(i) && #[trigger] a[i] < b[i];
            assert(i > 0);
            let xt = x.take(i - 1);
            let yt = y.take(i - 1);
            assert(xt =~= yt) by {
                assert forall|k: int| 0 <= k < i - 1 implies #[trigger] xt[k] == yt[k] by {
                    assert(a.take(i)[k + 1] == b.take(i)[k + 1]);
                }
            }
            assert(x[i - 1] < y[i - 1]);
        }
    }
}

} // verus!
