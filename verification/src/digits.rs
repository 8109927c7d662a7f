//! Decimal text for the numeric fields of the wire format: canonical digit
//! sequences for unsigned and signed values, and a strict parser for them.

use vstd::prelude::*;

verus! {

/// Numeric lines longer than 19 digits are rejected: every accepted value
/// fits in a `u64`, and every length or count a frame can carry in practice
/// stays far below this bound.
pub const DEC_LIMIT: u64 = 10_000_000_000_000_000_000;

pub open spec fn is_digit(b: u8) -> bool {
    48 <= b <= 57
}

/// The canonical base-10 digit string of `n`, most significant digit first.
pub open spec fn dec_digits(n: nat) -> Seq<u8>
    decreases n,
{
    if n < 10 {
        seq![(48 + n) as u8]
    } else {
        dec_digits(n / 10).push((48 + n % 10) as u8)
    }
}

/// The canonical digit string of a signed value: a minus sign before the
/// digits of the magnitude when the value is negative.
pub open spec fn dec_digits_signed(v: int) -> Seq<u8> {
    if v < 0 {
        seq![45u8] + dec_digits((-v) as nat)
    } else {
        dec_digits(v as nat)
    }
}

/// The value of a digit string, most significant digit first.
pub open spec fn dec_value(t: Seq<u8>) -> nat
    decreases t.len(),
{
    if t.len() == 0 {
        0
    } else {
        dec_value(t.drop_last()) * 10 + (t.last() - 48) as nat
    }
}

/// A numeric line the decoder accepts: non-empty, at most 19 digits, all
/// decimal digits, and no leading zero except for "0" itself.
pub open spec fn digits_ok(t: Seq<u8>) -> bool {
    &&& 1 <= t.len() <= 19
    &&& (forall|i: int| 0 <= i < t.len() ==> is_digit(t[i]))
    &&& (t[0] != 48 || t.len() == 1)
}

pub open spec fn pow10(k: nat) -> nat
    decreases k,
{
    if k == 0 {
        1
    } else {
        10 * pow10((k - 1) as nat)
    }
}

pub proof fn lemma_pow10_19()
    ensures
        pow10(19) == DEC_LIMIT,
{
    reveal_with_fuel(pow10, 20);
}

pub proof fn lemma_pow10_increases(a: nat, b: nat)
    requires
        a <= b,
    ensures
        pow10(a) <= pow10(b),
    decreases b,
{
    if a < b {
        lemma_pow10_increases(a, (b - 1) as nat);
    }
}

/// An all-digit string's value is below `pow10` of its length.
pub proof fn lemma_dec_value_bound(t: Seq<u8>)
    requires
        forall|i: int| 0 <= i < t.len() ==> is_digit(t[i]),
    ensures
        dec_value(t) < pow10(t.len()),
    decreases t.len(),
{
    if t.len() > 0 {
        lemma_dec_value_bound(t.drop_last());
    }
}

/// The canonical digit string of `n` is a well-formed numeric line whose
/// value is `n` again, as long as `n` stays below the 19-digit limit.
pub proof fn lemma_dec_digits_ok(n: nat)
    requires
        n < DEC_LIMIT,
    ensures
        digits_ok(dec_digits(n)),
        dec_value(dec_digits(n)) == n,
        dec_digits(n).len() <= 19,
    decreases n,
{
    lemma_pow10_19();
    lemma_dec_digits_len(n, 19);
    lemma_dec_digits_shape(n);
    lemma_dec_digits_value(n);
}

/// Every byte of `dec_digits(n)` is a digit, the string is non-empty, and it
/// has no leading zero unless it is exactly "0".
proof fn lemma_dec_digits_shape(n: nat)
    ensures
        dec_digits(n).len() >= 1,
        forall|i: int| 0 <= i < dec_digits(n).len() ==> is_digit(#[trigger] dec_digits(n)[i]),
        dec_digits(n)[0] != 48 || dec_digits(n).len() == 1,
    decreases n,
{
    if n < 10 {
        assert((48 + n) as u8 as nat == 48 + n);
    } else {
        lemma_dec_digits_shape(n / 10);
        assert((48 + n % 10) as u8 as nat == 48 + n % 10);
        assert(dec_digits(n)[0] == dec_digits(n / 10)[0]);
        if n / 10 < 10 {
            assert(dec_digits(n / 10) == seq![(48 + n / 10) as u8]);
            assert(n / 10 >= 1);
            assert((48 + n / 10) as u8 as nat == 48 + n / 10);
            assert(dec_digits(n / 10)[0] != 48);
        } else {
            lemma_dec_digits_shape(n / 100);
            assert(dec_digits(n / 10) == dec_digits(n / 100).push((48 + n / 10 % 10) as u8));
            assert(dec_digits(n / 10).len() >= 2);
        }
        assert forall|i: int| 0 <= i < dec_digits(n).len() implies is_digit(
            #[trigger] dec_digits(n)[i],
        ) by {
            if i < dec_digits(n / 10).len() {
                assert(dec_digits(n)[i] == dec_digits(n / 10)[i]);
            }
        }
    }
}

proof fn lemma_dec_digits_value(n: nat)
    ensures
        dec_value(dec_digits(n)) == n,
    decreases n,
{
    if n < 10 {
        let t = dec_digits(n);
        assert(t =~= seq![(48 + n) as u8]);
        assert(t.drop_last() =~= Seq::<u8>::empty());
        assert(dec_value(t.drop_last()) == 0);
        assert(t.last() == (48 + n) as u8);
        assert((48 + n) as u8 as nat == 48 + n);
        assert(dec_value(t) == (t.last() - 48) as nat);
    } else {
        lemma_dec_digits_value(n / 10);
        let t = dec_digits(n);
        assert(t == dec_digits(n / 10).push((48 + n % 10) as u8));
        assert(t.drop_last() =~= dec_digits(n / 10));
        assert(t.last() == (48 + n % 10) as u8);
        assert((48 + n % 10) as u8 as nat == 48 + n % 10);
        assert(dec_value(t) == dec_value(t.drop_last()) * 10 + (t.last() - 48) as nat);
        assert(dec_value(t) == (n / 10) * 10 + n % 10);
    }
}

/// If `n < pow10(k)` then its digit string has at most `k` digits.
proof fn lemma_dec_digits_len(n: nat, k: nat)
    requires
        k >= 1,
        n < pow10(k),
    ensures
        dec_digits(n).len() <= k,
    decreases n,
{
    if n >= 10 {
        assert(pow10(k) == 10 * pow10((k - 1) as nat));
        lemma_dec_digits_len(n / 10, (k - 1) as nat);
    }
}

/// A digit string with a non-zero leading digit is worth at least
/// `pow10` of the remaining length.
proof fn lemma_dec_value_lower(t: Seq<u8>)
    requires
        t.len() >= 1,
        forall|i: int| 0 <= i < t.len() ==> is_digit(t[i]),
        t[0] != 48,
    ensures
        dec_value(t) >= pow10((t.len() - 1) as nat),
    decreases t.len(),
{
    if t.len() == 1 {
        assert(dec_value(t.drop_last()) == 0);
    } else {
        let dl = t.drop_last();
        assert(dl[0] == t[0]);
        lemma_dec_value_lower(dl);
        assert(pow10((t.len() - 1) as nat) == 10 * pow10((t.len() - 2) as nat));
    }
}

/// A well-formed numeric line is the canonical digit string of its own
/// value: the decimal notation the decoder accepts is unique.
pub proof fn lemma_dec_canonical(t: Seq<u8>)
    requires
        digits_ok(t),
    ensures
        dec_digits(dec_value(t)) == t,
    decreases t.len(),
{
    if t.len() == 1 {
        assert(dec_value(t.drop_last()) == 0);
        assert(dec_value(t) == (t[0] - 48) as nat);
        assert(dec_digits(dec_value(t)) =~= seq![(48 + (t[0] - 48) as nat) as u8]);
        assert(dec_digits(dec_value(t)) =~= t);
    } else {
        let dl = t.drop_last();
        let d = (t.last() - 48) as nat;
        assert(dl[0] == t[0]);
        assert(digits_ok(dl));
        lemma_dec_canonical(dl);
        lemma_dec_value_lower(dl);
        let v = dec_value(t);
        assert(v == dec_value(dl) * 10 + d);
        assert(dec_value(dl) >= 1);
        assert(v >= 10);
        assert(v / 10 == dec_value(dl) && v % 10 == d);
        assert(dec_digits(v) == dec_digits(dec_value(dl)).push((48 + d) as u8));
        assert((48 + d) as u8 == t.last());
        assert(dec_digits(v) =~= t);
    }
}

/// Appends the canonical decimal digits of `n` to `out`.
pub fn push_dec_u64(out: &mut Vec<u8>, n: u64)
    ensures
        final(out)@ == old(out)@ + dec_digits(n as nat),
    decreases n,
{
    if n >= 10 {
        push_dec_u64(out, n / 10);
    }
    out.push(48 + (n % 10) as u8);
    assert(out@ =~= old(out)@ + dec_digits(n as nat));
}

/// Appends the canonical signed decimal digits of `v` to `out`.
pub fn push_dec_i64(out: &mut Vec<u8>, v: i64)
    ensures
        final(out)@ == old(out)@ + dec_digits_signed(v as int),
{
    if v < 0 {
        out.push(45);
        let mag: u64 = (-(v as i128)) as u64;
        assert(mag as nat == (-(v as int)) as nat);
        push_dec_u64(out, mag);
        assert(out@ =~= old(out)@ + dec_digits_signed(v as int));
    } else {
        push_dec_u64(out, v as u64);
    }
}

/// Parses the bytes of `buf` in `[start, end)` as a numeric line, returning
/// its value exactly when the bytes form a well-formed numeric line.
pub fn parse_u64_digits(buf: &Vec<u8>, start: usize, end: usize) -> (r: Option<u64>)
    requires
        start <= end <= buf.len(),
    ensures
        match r {
            Some(v) => digits_ok(buf@.subrange(start as int, end as int)) && v as nat == dec_value(
                buf@.subrange(start as int, end as int),
            ),
            None => !digits_ok(buf@.subrange(start as int, end as int)),
        },
{
    let ghost t = buf@.subrange(start as int, end as int);
    let len = end - start;
    if len < 1 || len > 19 {
        return None;
    }
    if buf[start] == 48 && len > 1 {
        return None;
    }
    let mut acc: u64 = 0;
    let mut i = start;
    while i < end
        invariant
            start <= i <= end <= buf.len(),
            end - start <= 19,
            t == buf@.subrange(start as int, end as int),
            forall|k: int| 0 <= k < i - start ==> is_digit(t[k]),
            acc as nat == dec_value(t.take(i - start)),
            acc < pow10((i - start) as nat),
        decreases end - i,
    {
        let b = buf[i];
        if b < 48 || b > 57 {
            assert(!is_digit(t[i - start]));
            return None;
        }
        proof {
            assert(t.take(i + 1 - start).drop_last() =~= t.take(i - start));
            lemma_pow10_increases((i + 1 - start) as nat, 19);
            lemma_pow10_19();
        }
        acc = acc * 10 + (b - 48) as u64;
        i = i + 1;
    }
    assert(t.take(end - start) =~= t);
    Some(acc)
}

} // verus!
