//! Turning bytes into strings.
use vstd::prelude::*;
use vstd::utf8::{decode_utf8, encode_utf8, encode_utf8_decode_utf8, valid_utf8, valid_first_scalar, pop_first_scalar};

verus! {

/// Whether every byte is an ASCII code.
pub open spec fn all_ascii(bytes: Seq<u8>) -> bool {
    forall|i: int| 0 <= i < bytes.len() ==> #[trigger] bytes[i] < 128
}

/// Bytes that are all ASCII codes are valid UTF-8.
pub proof fn lemma_ascii_valid_utf8(bytes: Seq<u8>)
    requires
        all_ascii(bytes),
    ensures
        valid_utf8(bytes),
    decreases bytes.len(),
{
    if bytes.len() > 0 {
        assert(bytes[0] < 128);
        assert(valid_first_scalar(bytes));
        let rest = pop_first_scalar(bytes);
        assert(rest =~= bytes.subrange(1, bytes.len() as int));
        assert forall|i: int| 0 <= i < rest.len() implies #[trigger] rest[i] < 128 by {
            assert(rest[i] == bytes[i + 1]);
        }
        lemma_ascii_valid_utf8(rest);
    }
}

/// The characters whose codes are the given ASCII bytes.
pub open spec fn ascii_chars(bytes: Seq<u8>) -> Seq<char> {
    bytes.map_values(|b: u8| b as char)
}

/// ASCII bytes decode, as UTF-8, to the characters with those codes.
pub proof fn lemma_decode_ascii(bytes: Seq<u8>)
    requires
        all_ascii(bytes),
    ensures
        valid_utf8(bytes),
        decode_utf8(bytes) == ascii_chars(bytes),
    decreases bytes.len(),
{
    lemma_ascii_valid_utf8(bytes);
    if bytes.len() > 0 {
        let rest = pop_first_scalar(bytes);
        assert(rest =~= bytes.subrange(1, bytes.len() as int));
        assert forall|i: int| 0 <= i < rest.len() implies #[trigger] rest[i] < 128 by {
            assert(rest[i] == bytes[i + 1]);
        }
        lemma_decode_ascii(rest);
        let b = bytes[0];
        assert(b & 0x7F == b) by (bit_vector)
            requires
                b < 128u8,
        ;
        assert(decode_utf8(bytes) == seq![(b as u32) as char] + decode_utf8(rest));
        assert(decode_utf8(bytes) =~= ascii_chars(bytes));
    } else {
        assert(decode_utf8(bytes) =~= ascii_chars(bytes));
    }
}

/// The string whose UTF-8 encoding is `bytes`, where `bytes` is valid UTF-8.
///
/// Calls `String::from_utf8` of the standard library. The contract claims what its
/// documentation states: it succeeds exactly on valid UTF-8 (taken here as vstd's `valid_utf8`),
/// and the string then holds those very bytes.
#[verifier::external_body]
pub(crate) fn string_from_utf8(bytes: &[u8]) -> (res: Option<String>)
    ensures
        res is Some <==> valid_utf8(bytes@),
        res matches Some(s) ==> encode_utf8(s@) == bytes@,
{
    String::from_utf8(bytes.to_vec()).ok()
}

/// The string made of the ASCII characters whose codes are `bytes`.
pub fn ascii_string(bytes: &[u8]) -> (res: String)
    requires
        all_ascii(bytes@),
    ensures
        encode_utf8(res@) == bytes@,
        res@ == ascii_chars(bytes@),
{
    proof {
        lemma_decode_ascii(bytes@);
    }
    match string_from_utf8(bytes) {
        Some(s) => {
            proof {
                encode_utf8_decode_utf8(s@);
            }
            s
        },
        None => {
            proof {
                assert(false);
            }
            String::new()
        },
    }
}

} // verus!
