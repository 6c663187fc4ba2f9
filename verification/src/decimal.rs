//! Natural numbers written in decimal, as ASCII bytes.
//!
//! [`decimal`] says what the numeral of a number is; [`push_decimal`] writes
//! it and [`read_decimal`] reads it back. A numeral has no sign and no
//! leading zero, so every number has exactly one.

use vstd::prelude::*;

verus! {

/// The byte for the digit `0`. The other digits follow it in order.
pub const ZERO: u8 = 48;

/// The byte for the digit `9`.
pub const NINE: u8 = 57;

/// The byte is one of `0` to `9`.
pub open spec fn is_digit(b: u8) -> bool {
    ZERO <= b <= NINE
}

/// The byte that stands for the digit `d`.
pub open spec fn digit(d: nat) -> u8
    recommends
        d < 10,
{
    (ZERO + d) as u8
}

/// The numeral of `n`: its decimal digits, most significant first.
pub open spec fn decimal(n: nat) -> Seq<u8>
    decreases n,
{
    if n < 10 {
        seq![digit(n)]
    } else {
        decimal(n / 10).push(digit(n % 10))
    }
}

/// The number that a string of digits stands for, leading zeros allowed.
pub open spec fn digits_value(s: Seq<u8>) -> nat
    decreases s.len(),
{
    if s.len() == 0 {
        0
    } else {
        digits_value(s.drop_last()) * 10 + (s.last() - ZERO) as nat
    }
}

/// Every byte of `s` is a digit.
pub open spec fn all_digits(s: Seq<u8>) -> bool {
    forall|k: int| 0 <= k < s.len() ==> is_digit(#[trigger] s[k])
}

/// `s` is the numeral of some number: digits only, at least one, and no
/// leading zero in front of another digit.
pub open spec fn is_numeral(s: Seq<u8>) -> bool {
    &&& s.len() > 0
    &&& all_digits(s)
    &&& s.len() > 1 ==> s[0] != ZERO
}

/// The numeral of `n` stands in `s` from `pos` up to `end`, and no digit
/// follows it.
pub open spec fn numeral_at(s: Seq<u8>, pos: int, end: int, n: nat) -> bool {
    &&& 0 <= pos < end <= s.len()
    &&& s.subrange(pos, end) == decimal(n)
    &&& end < s.len() ==> !is_digit(s[end])
}

/// What [`decimal`] returns is a numeral, and it stands for the number it was
/// made from.
pub proof fn lemma_decimal_is_numeral(n: nat)
    ensures
        is_numeral(decimal(n)),
        digits_value(decimal(n)) == n,
        n > 0 ==> decimal(n)[0] != ZERO,
        n < 10 <==> decimal(n).len() == 1,
    decreases n,
{
    if n < 10 {
        assert(decimal(n).drop_last() =~= Seq::<u8>::empty());
        assert(digits_value(Seq::<u8>::empty()) == 0);
    } else {
        let q = n / 10;
        lemma_decimal_is_numeral(q);
        assert(decimal(n).drop_last() =~= decimal(q));
        assert(decimal(n)[0] == decimal(q)[0]);
    }
}

/// A string of digits that does not start with zero stands for a positive
/// number.
proof fn lemma_value_positive(s: Seq<u8>)
    requires
        all_digits(s),
        s.len() > 0,
        s[0] != ZERO,
    ensures
        digits_value(s) > 0,
    decreases s.len(),
{
    if s.len() == 1 {
        assert(s.drop_last() =~= Seq::<u8>::empty());
        assert(digits_value(Seq::<u8>::empty()) == 0);
    } else {
        lemma_value_positive(s.drop_last());
    }
}

/// A numeral is the numeral of the number it stands for.
pub proof fn lemma_numeral_is_decimal(s: Seq<u8>)
    requires
        is_numeral(s),
    ensures
        decimal(digits_value(s)) == s,
    decreases s.len(),
{
    let p = s.drop_last();
    let d = (s.last() - ZERO) as nat;
    if s.len() == 1 {
        assert(p =~= Seq::<u8>::empty());
        assert(digits_value(p) == 0);
        assert(decimal(d) =~= s);
    } else {
        assert(p[0] == s[0]);
        lemma_value_positive(p);
        lemma_numeral_is_decimal(p);
        let v = digits_value(s);
        assert(v / 10 == digits_value(p) && v % 10 == d);
        assert(decimal(v) =~= s);
    }
}

/// Two numbers with the same numeral are the same number.
pub proof fn lemma_decimal_injective(a: nat, b: nat)
    requires
        decimal(a) == decimal(b),
    ensures
        a == b,
{
    lemma_decimal_is_numeral(a);
    lemma_decimal_is_numeral(b);
}

/// A string of digits stands for at least as much as any of its prefixes.
proof fn lemma_value_of_prefix(s: Seq<u8>, k: int)
    requires
        all_digits(s),
        0 <= k <= s.len(),
    ensures
        digits_value(s.take(k)) <= digits_value(s),
    decreases s.len() - k,
{
    if k == s.len() {
        assert(s.take(k) =~= s);
    } else {
        lemma_value_of_prefix(s.drop_last(), k);
        assert(s.drop_last().take(k) =~= s.take(k));
    }
}

/// At one place of a byte string there is at most one numeral.
pub proof fn lemma_numeral_at_unique(s: Seq<u8>, pos: int, e1: int, n1: nat, e2: int, n2: nat)
    requires
        numeral_at(s, pos, e1, n1),
        numeral_at(s, pos, e2, n2),
    ensures
        e1 == e2,
        n1 == n2,
{
    lemma_decimal_is_numeral(n1);
    lemma_decimal_is_numeral(n2);
    if e1 < e2 {
        assert(s.subrange(pos, e2)[e1 - pos] == s[e1]);
    }
    if e2 < e1 {
        assert(s.subrange(pos, e1)[e2 - pos] == s[e2]);
    }
    lemma_decimal_injective(n1, n2);
}

/// A numeral at `pos` reaches at least as far as the digits do.
proof fn lemma_numeral_at_covers(s: Seq<u8>, pos: int, end: int, n: nat, k: int)
    requires
        numeral_at(s, pos, end, n),
        pos <= k <= s.len(),
        all_digits(s.subrange(pos, k)),
    ensures
        k <= end,
{
    if end < k {
        assert(s.subrange(pos, k)[end - pos] == s[end]);
    }
}

/// Appends the numeral of `n` to `out`.
pub fn push_decimal(out: &mut Vec<u8>, n: usize)
    ensures
        final(out)@ == old(out)@ + decimal(n as nat),
    decreases n,
{
    if n >= 10 {
        push_decimal(out, n / 10);
    }
    let d: u8 = (n % 10) as u8;
    out.push(ZERO + d);
    assert(final(out)@ =~= old(out)@ + decimal(n as nat));
}

/// Reads the numeral that starts at `pos`, if there is one and it stands for
/// no more than `limit`. Returns the number and the place where the numeral
/// ends.
pub fn read_decimal(bytes: &[u8], pos: usize, limit: usize) -> (r: Option<(usize, usize)>)
    ensures
        r matches Some((n, end)) ==> n <= limit && numeral_at(
            bytes@,
            pos as int,
            end as int,
            n as nat,
        ),
        r is None ==> forall|n: nat, end: int|
            n <= limit ==> !numeral_at(bytes@, pos as int, end, n),
{
    let len = bytes.len();
    if pos >= len || bytes[pos] < ZERO || bytes[pos] > NINE {
        proof {
            assert forall|n: nat, end: int| n <= limit implies !numeral_at(
                bytes@,
                pos as int,
                end,
                n,
            ) by {
                if numeral_at(bytes@, pos as int, end, n) {
                    lemma_decimal_is_numeral(n);
                    assert(bytes@.subrange(pos as int, end)[0] == bytes@[pos as int]);
                }
            }
        }
        return None;
    }
    let first = bytes[pos];
    let mut value: usize = (first - ZERO) as usize;
    let mut end: usize = pos + 1;
    proof {
        let t = bytes@.subrange(pos as int, end as int);
        assert(t.drop_last() =~= Seq::<u8>::empty());
        assert(digits_value(Seq::<u8>::empty()) == 0);
    }
    if value > limit {
        proof {
            assert forall|n: nat, e: int| n <= limit implies !numeral_at(
                bytes@,
                pos as int,
                e,
                n,
            ) by {
                if numeral_at(bytes@, pos as int, e, n) {
                    lemma_decimal_is_numeral(n);
                    let t = bytes@.subrange(pos as int, e);
                    lemma_value_of_prefix(t, 1);
                    assert(t.take(1) =~= bytes@.subrange(pos as int, end as int));
                }
            }
        }
        return None;
    }
    while end < len && ZERO <= bytes[end] && bytes[end] <= NINE
        invariant
            len == bytes@.len(),
            pos < end <= len,
            first == bytes@[pos as int],
            is_numeral(bytes@.subrange(pos as int, end as int)),
            digits_value(bytes@.subrange(pos as int, end as int)) == value,
            value <= limit,
        decreases len - end,
    {
        let ghost t = bytes@.subrange(pos as int, end as int);
        let ghost t1 = bytes@.subrange(pos as int, end + 1);
        proof {
            assert(t1.drop_last() =~= t);
            assert(t1.last() == bytes@[end as int]);
            assert(all_digits(t1)) by {
                assert forall|k: int| 0 <= k < t1.len() implies is_digit(#[trigger] t1[k]) by {
                    if k < t.len() {
                        assert(t1[k] == t[k]);
                    }
                }
            }
        }
        let d: usize = (bytes[end] - ZERO) as usize;
        if first == ZERO || limit < d || value > (limit - d) / 10 {
            proof {
                assert forall|n: nat, e: int| n <= limit implies !numeral_at(
                    bytes@,
                    pos as int,
                    e,
                    n,
                ) by {
                    if numeral_at(bytes@, pos as int, e, n) {
                        lemma_decimal_is_numeral(n);
                        lemma_numeral_at_covers(bytes@, pos as int, e, n, end + 1);
                        let w = bytes@.subrange(pos as int, e);
                        assert(w[0] == bytes@[pos as int]);
                        lemma_value_of_prefix(w, end + 1 - pos);
                        assert(w.take(end + 1 - pos) =~= t1);
                    }
                }
            }
            return None;
        }
        value = value * 10 + d;
        end += 1;
        proof {
            assert(t1[0] == t[0]);
        }
    }
    proof {
        lemma_numeral_is_decimal(bytes@.subrange(pos as int, end as int));
    }
    Some((value, end))
}

} // verus!
