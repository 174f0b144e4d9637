//! The mathematical model of a bencoded value, shared by both value types of the library.
use vstd::prelude::*;

verus! {

/// A bencoded value: byte strings, integers, lists, and dictionaries whose entries keep their
/// order.
pub enum BValue {
    Bytes(Seq<u8>),
    Int(int),
    List(Seq<BValue>),
    Dict(Seq<(Seq<u8>, BValue)>),
}

/// What reading a value at some position of the input comes to.
pub enum Outcome {
    /// The value read, and the position just past it.
    Parsed(BValue, int),
    /// Nothing of this form starts here; another form may be tried.
    NoParse,
    /// The input announces a value it does not hold (such as a byte string longer than what is
    /// left): reading stops.
    Abort,
}

/// Whether `key` is a key of one of the entries.
pub open spec fn has_key(entries: Seq<(Seq<u8>, BValue)>, key: Seq<u8>) -> bool {
    exists|i: int| 0 <= i < entries.len() && #[trigger] entries[i].0 == key
}

/// Whether no two entries have the same key.
pub open spec fn keys_unique(entries: Seq<(Seq<u8>, BValue)>) -> bool {
    forall|i: int, j: int|
        0 <= i < entries.len() && 0 <= j < entries.len() && i != j ==> #[trigger] entries[i].0
            != #[trigger] entries[j].0
}

/// Entries after a map-style insertion: the value of an existing key is replaced where it
/// stands; a new key is added at the end.
pub open spec fn dict_insert(entries: Seq<(Seq<u8>, BValue)>, key: Seq<u8>, value: BValue) -> Seq<
    (Seq<u8>, BValue),
> {
    if has_key(entries, key) {
        let i = choose|i: int| 0 <= i < entries.len() && #[trigger] entries[i].0 == key;
        entries.update(i, (key, value))
    } else {
        entries.push((key, value))
    }
}

/// The dictionary that results from inserting the pairs one after another, as a map does.
pub open spec fn dict_from_pairs(pairs: Seq<(Seq<u8>, BValue)>) -> Seq<(Seq<u8>, BValue)>
    decreases pairs.len(),
{
    if pairs.len() == 0 {
        seq![]
    } else {
        let last = pairs.last();
        dict_insert(dict_from_pairs(pairs.drop_last()), last.0, last.1)
    }
}

/// Whether `i` is the first position whose entry has key `key`.
pub open spec fn is_first_key(entries: Seq<(Seq<u8>, BValue)>, key: Seq<u8>, i: int) -> bool {
    &&& 0 <= i < entries.len()
    &&& entries[i].0 == key
    &&& forall|j: int| 0 <= j < i ==> (#[trigger] entries[j]).0 != key
}

/// The value of the first entry with the given key, if there is one.
pub open spec fn lookup(entries: Seq<(Seq<u8>, BValue)>, key: Seq<u8>) -> Option<BValue> {
    if has_key(entries, key) {
        let i = choose|i: int| is_first_key(entries, key, i);
        Some(entries[i].1)
    } else {
        None
    }
}

/// The first position of a key is the only one.
pub proof fn lemma_first_key_unique(entries: Seq<(Seq<u8>, BValue)>, key: Seq<u8>, i: int)
    requires
        is_first_key(entries, key, i),
    ensures
        has_key(entries, key),
        lookup(entries, key) == Some(entries[i].1),
{
    assert(entries[i].0 == key);
    let c = choose|c: int| is_first_key(entries, key, c);
    assert(is_first_key(entries, key, c));
    if c < i {
        assert(entries[c].0 != key);
    } else if c > i {
        assert(entries[i].0 != key);
    }
}


/// Whether every dictionary in the value, at any depth, has each key at most once.
pub open spec fn well_keyed(v: BValue) -> bool
    decreases v,
{
    match v {
        BValue::List(items) => all_well_keyed(items),
        BValue::Dict(entries) => keys_unique(entries) && values_well_keyed(entries),
        _ => true,
    }
}

/// Whether every value of the sequence is well keyed.
pub open spec fn all_well_keyed(items: Seq<BValue>) -> bool
    decreases items,
{
    if items.len() == 0 {
        true
    } else {
        all_well_keyed(items.drop_last()) && well_keyed(items.last())
    }
}

/// Whether the value of every entry is well keyed.
pub open spec fn values_well_keyed(entries: Seq<(Seq<u8>, BValue)>) -> bool
    decreases entries,
{
    if entries.len() == 0 {
        true
    } else {
        values_well_keyed(entries.drop_last()) && well_keyed(entries.last().1)
    }
}

/// Values pushed one by one onto a sequence of well-keyed values keep it well keyed.
pub proof fn lemma_all_well_keyed_push(items: Seq<BValue>, v: BValue)
    requires
        all_well_keyed(items),
        well_keyed(v),
    ensures
        all_well_keyed(items.push(v)),
{
    assert(items.push(v).drop_last() =~= items);
}

proof fn lemma_values_well_keyed_index(entries: Seq<(Seq<u8>, BValue)>)
    ensures
        values_well_keyed(entries) <==> forall|i: int|
            0 <= i < entries.len() ==> well_keyed(#[trigger] entries[i].1),
    decreases entries.len(),
{
    if entries.len() > 0 {
        let init = entries.drop_last();
        lemma_values_well_keyed_index(init);
        assert forall|i: int| 0 <= i < entries.len() - 1 implies init[i] == entries[i] by {}
        assert(entries[entries.len() - 1] == entries.last());
        if values_well_keyed(entries) {
            assert forall|i: int| 0 <= i < entries.len() implies well_keyed(#[trigger] entries[i].1) by {
                if i < entries.len() - 1 {
                    assert(init[i] == entries[i]);
                    assert(well_keyed(init[i].1));
                }
            }
        }
        if forall|i: int| 0 <= i < entries.len() ==> well_keyed(#[trigger] entries[i].1) {
            assert forall|i: int| 0 <= i < init.len() implies well_keyed(#[trigger] init[i].1) by {
                assert(init[i] == entries[i]);
                assert(well_keyed(entries[i].1));
            }
            assert(well_keyed(entries[entries.len() - 1].1));
        }
    }
}

/// A map-style insertion of a well-keyed value keeps every value well keyed.
pub proof fn lemma_dict_insert_well_keyed(entries: Seq<(Seq<u8>, BValue)>, key: Seq<u8>, value: BValue)
    requires
        values_well_keyed(entries),
        well_keyed(value),
    ensures
        values_well_keyed(dict_insert(entries, key, value)),
{
    lemma_values_well_keyed_index(entries);
    let n = dict_insert(entries, key, value);
    lemma_values_well_keyed_index(n);
    if has_key(entries, key) {
        assert forall|j: int| 0 <= j < n.len() implies well_keyed(#[trigger] n[j].1) by {
            assert(n[j] == entries[j] || n[j] == (key, value));
            if n[j] == entries[j] {
                assert(well_keyed(entries[j].1));
            }
        }
    } else {
        assert forall|j: int| 0 <= j < n.len() implies well_keyed(#[trigger] n[j].1) by {
            if j < entries.len() {
                assert(n[j] == entries[j]);
            }
        }
    }
}

} // verus!
