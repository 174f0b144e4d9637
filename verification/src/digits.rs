//! Decimal text of integers, in both directions.
use vstd::prelude::*;

verus! {

/// ASCII code of `'0'`.
pub const ZERO_ASCII: u8 = 48;

/// Whether a byte is an ASCII decimal digit.
pub open spec fn is_digit(b: u8) -> bool {
    48 <= b <= 57
}

/// Decimal digits of a natural number, most significant first, without leading zeros.
pub open spec fn nat_text(n: nat) -> Seq<u8>
    decreases n,
{
    if n < 10 {
        seq![(48 + n) as u8]
    } else {
        nat_text(n / 10).push((48 + n % 10) as u8)
    }
}

/// Decimal text of an integer: a minus sign for negative values, then the digits of its magnitude.
pub open spec fn int_text(i: int) -> Seq<u8> {
    if i < 0 {
        seq![45u8] + nat_text((-i) as nat)
    } else {
        nat_text(i as nat)
    }
}

/// Appends the decimal digits of `n` to `out`.
pub fn push_nat_text(out: &mut Vec<u8>, n: u64)
    ensures
        final(out)@ == old(out)@ + nat_text(n as nat),
    decreases n,
{
    if n >= 10 {
        push_nat_text(out, n / 10);
    }
    out.push(48 + (n % 10) as u8);
    proof {
        assert(final(out)@ =~= old(out)@ + nat_text(n as nat));
    }
}


/// Index of the first byte at or after `p` that is not a decimal digit (or the length of `s`).
pub open spec fn digits_end(s: Seq<u8>, p: int) -> int
    decreases s.len() - p,
{
    if p < 0 || p >= s.len() || !is_digit(s[p]) {
        p
    } else {
        digits_end(s, p + 1)
    }
}

/// Value of the decimal digits `s[p..e]`.
pub open spec fn digits_value(s: Seq<u8>, p: int, e: int) -> nat
    decreases e - p,
{
    if e <= p {
        0
    } else {
        digits_value(s, p, e - 1) * 10 + (s[e - 1] - 48) as nat
    }
}

/// A run of digits never has a smaller value than any of its prefixes.
pub proof fn lemma_digits_value_monotone(s: Seq<u8>, p: int, i: int, e: int)
    requires
        p <= i <= e,
    ensures
        digits_value(s, p, i) <= digits_value(s, p, e),
    decreases e - i,
{
    if i < e {
        lemma_digits_value_monotone(s, p, i, e - 1);
    }
}

proof fn lemma_digits_end_bounds(s: Seq<u8>, p: int)
    requires
        0 <= p <= s.len(),
    ensures
        p <= digits_end(s, p) <= s.len(),
        forall|k: int| p <= k < digits_end(s, p) ==> is_digit(#[trigger] s[k]),
        digits_end(s, p) < s.len() ==> !is_digit(s[digits_end(s, p)]),
    decreases s.len() - p,
{
    if p < s.len() && is_digit(s[p]) {
        lemma_digits_end_bounds(s, p + 1);
    }
}

/// Scans the digits that start at `p`: returns where they end and their value, the value only
/// where it does not exceed `limit`.
pub fn scan_digits(s: &[u8], p: usize, limit: u64) -> (res: (usize, Option<u64>))
    requires
        p <= s@.len(),
    ensures
        res.0 as int == digits_end(s@, p as int),
        p <= res.0 <= s@.len(),
        res.1 is Some <==> digits_value(s@, p as int, res.0 as int) <= limit,
        res.1 matches Some(v) ==> v as nat == digits_value(s@, p as int, res.0 as int),
{
    proof {
        lemma_digits_end_bounds(s@, p as int);
    }
    let ghost end = digits_end(s@, p as int);
    let mut i = p;
    let mut value: u64 = 0;
    let mut overflow = false;
    while i < s.len() && 48 <= s[i] && s[i] <= 57
        invariant
            p <= i <= end,
            end == digits_end(s@, p as int),
            p <= end <= s@.len(),
            forall|k: int| p <= k < end ==> is_digit(#[trigger] s@[k]),
            end < s@.len() ==> !is_digit(s@[end]),
            !overflow ==> value as nat == digits_value(s@, p as int, i as int) && value <= limit,
            overflow ==> digits_value(s@, p as int, i as int) > limit,
        decreases s@.len() - i,
    {
        let d = (s[i] - 48) as u64;
        let ghost was_overflow = overflow;
        let ghost old_value = value;
        if !overflow {
            if value > (u64::MAX - d) / 10 {
                overflow = true;
            } else {
                let next = value * 10 + d;
                if next > limit {
                    overflow = true;
                } else {
                    value = next;
                }
            }
        }
        i = i + 1;
        proof {
            assert(digits_value(s@, p as int, i as int) == digits_value(s@, p as int, i - 1) * 10
                + (s@[i - 1] - 48) as nat);
            assert(d == (s@[i - 1] - 48) as nat);

        }
    }
    if overflow {
        (i, None)
    } else {
        (i, Some(value))
    }
}


/// An optionally signed decimal integer at `p` (a `-` or `+`, then at least one digit), read as
/// far as the digits go: its value and the index just past it, or `None` where there is no digit
/// or the value does not fit in an `i64`.
pub open spec fn signed_decimal(s: Seq<u8>, p: int) -> Option<(int, int)> {
    let has_sign = p < s.len() && (s[p] == 45u8 || s[p] == 43u8);
    let q = if has_sign { p + 1 } else { p };
    let e = digits_end(s, q);
    let magnitude = digits_value(s, q, e);
    let v = if has_sign && s[p] == 45u8 { -magnitude } else { magnitude as int };
    if e == q || v < i64::MIN || v > i64::MAX {
        None
    } else {
        Some((v, e))
    }
}

/// Reads an optionally signed decimal integer at `p`, as [`signed_decimal`] describes.
pub fn scan_signed(s: &[u8], p: usize) -> (res: Option<(i64, usize)>)
    requires
        p <= s@.len(),
    ensures
        match res {
            Some((v, e)) => signed_decimal(s@, p as int) == Some((v as int, e as int)),
            None => signed_decimal(s@, p as int) is None,
        },
        res matches Some((v, e)) ==> p < e <= s@.len(),
{
    let has_sign = p < s.len() && (s[p] == 45 || s[p] == 43);
    let negative = has_sign && s[p] == 45;
    let q = if has_sign { p + 1 } else { p };
    let limit: u64 = if negative { 0x8000_0000_0000_0000u64 } else { 0x7fff_ffff_ffff_ffffu64 };
    let (e, value) = scan_digits(s, q, limit);
    if e == q {
        return None;
    }
    match value {
        None => None,
        Some(m) => {
            if negative {
                if m == 0x8000_0000_0000_0000u64 {
                    Some((i64::MIN, e))
                } else {
                    Some((0 - (m as i64), e))
                }
            } else {
                Some((m as i64, e))
            }
        },
    }
}

/// The decimal text of a natural number is made of digits, at least one.
pub proof fn lemma_nat_text_digits(n: nat)
    ensures
        nat_text(n).len() >= 1,
        forall|k: int| 0 <= k < nat_text(n).len() ==> is_digit(#[trigger] nat_text(n)[k]),
    decreases n,
{
    if n >= 10 {
        lemma_nat_text_digits(n / 10);
    }
}

/// Reading back the decimal text of `n` gives `n`.
pub proof fn lemma_nat_text_value(s: Seq<u8>, p: int, n: nat)
    requires
        0 <= p,
        p + nat_text(n).len() <= s.len(),
        s.subrange(p, p + nat_text(n).len()) == nat_text(n),
    ensures
        digits_value(s, p, p + nat_text(n).len()) == n,
    decreases n,
{
    let t = nat_text(n);
    let l = t.len() as int;
    assert(s[p + l - 1] == t[l - 1]);
    assert(digits_value(s, p, p + l) == digits_value(s, p, p + l - 1) * 10 + (s[p + l - 1] - 48) as nat);
    if n >= 10 {
        let t0 = nat_text(n / 10);
        assert(t == t0.push((48 + n % 10) as u8));
        assert(s.subrange(p, p + t0.len()) =~= t0) by {
            assert forall|k: int| 0 <= k < t0.len() implies s.subrange(p, p + t0.len())[k] == t0[k] by {
                assert(s[p + k] == t[k]);
            }
        }
        lemma_nat_text_value(s, p, n / 10);
        assert((n / 10) * 10 + n % 10 == n);
    } else {
        assert(digits_value(s, p, p) == 0);
    }
}

/// Where the digits `s[p..e]` are followed by a non-digit or the end, they end at `e`.
pub proof fn lemma_digits_end_at(s: Seq<u8>, p: int, e: int)
    requires
        0 <= p <= e <= s.len(),
        forall|k: int| p <= k < e ==> is_digit(#[trigger] s[k]),
        e == s.len() || !is_digit(s[e]),
    ensures
        digits_end(s, p) == e,
    decreases e - p,
{
    if p < e {
        lemma_digits_end_at(s, p + 1, e);
    }
}

/// Where `s` holds the decimal text of `i` at `p`, followed by the end or by a byte that is not
/// a digit, [`signed_decimal`] reads back `i`.
pub proof fn lemma_int_text_scan(s: Seq<u8>, p: int, i: int)
    requires
        0 <= p,
        i64::MIN <= i <= i64::MAX,
        p + int_text(i).len() <= s.len(),
        s.subrange(p, p + int_text(i).len()) == int_text(i),
        p + int_text(i).len() == s.len() || !is_digit(s[p + int_text(i).len()]),
    ensures
        signed_decimal(s, p) == Some((i, p + int_text(i).len())),
{
    let t = int_text(i);
    let m: nat = if i < 0 { (-i) as nat } else { i as nat };
    let q = if i < 0 { p + 1 } else { p };
    lemma_nat_text_digits(m);
    let d = nat_text(m);
    assert(s.subrange(q, q + d.len()) =~= d) by {
        assert forall|k: int| 0 <= k < d.len() implies s.subrange(q, q + d.len())[k] == d[k] by {
            assert(s[q + k] == t[q - p + k]);
        }
    }
    assert forall|k: int| q <= k < q + d.len() implies is_digit(#[trigger] s[k]) by {
        assert(s[k] == t[k - p]);
        assert(d[k - q] == t[k - p]);
    }
    lemma_nat_text_value(s, q, m);
    lemma_digits_end_at(s, q, q + d.len());
    if i < 0 {
        assert(s[p] == t[0]);
    } else {
        assert(s[p] == d[0]);
    }
}

/// Appends the decimal text of `v` to `out`.
pub fn push_int_text(out: &mut Vec<u8>, v: i64)
    ensures
        final(out)@ == old(out)@ + int_text(v as int),
{
    if v < 0 {
        out.push(45);
        let magnitude: u64 = ((0 - (v + 1)) as u64) + 1;
        push_nat_text(out, magnitude);
    } else {
        push_nat_text(out, v as u64);
    }
    proof {
        assert(final(out)@ =~= old(out)@ + int_text(v as int));
    }
}

} // verus!
