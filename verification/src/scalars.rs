//! Scalar number parsers: a maximal run of decimal digits, validated to fit
//! an unsigned 32-bit or 64-bit integer.

use vstd::prelude::*;
use vstd::slice::slice_subrange;

use crate::chars::spec_is_digit;
use crate::outcome::{outcome_of, ParseError, SpecParse};

verus! {

/// Length of the maximal prefix of `s` made of decimal digit bytes.
pub open spec fn digit_run(s: Seq<u8>) -> nat
    decreases s.len(),
{
    if s.len() == 0 || !spec_is_digit(s[0]) {
        0
    } else {
        (1 + digit_run(s.skip(1))) as nat
    }
}

/// The digit run is exactly `k` when the first `k` bytes are digits and the
/// byte after them (if any) is not.
pub proof fn lemma_digit_run_is(s: Seq<u8>, k: int)
    requires
        0 <= k <= s.len(),
        forall|j: int| 0 <= j < k ==> spec_is_digit(s[j]),
        k < s.len() ==> !spec_is_digit(s[k]),
    ensures
        digit_run(s) == k,
    decreases k,
{
    if k == 0 {
    } else {
        assert(spec_is_digit(s[0]));
        assert forall|j: int| 0 <= j < k - 1 implies spec_is_digit(s.skip(1)[j]) by {
            assert(s.skip(1)[j] == s[j + 1]);
        }
        if k - 1 < s.skip(1).len() {
            assert(s.skip(1)[k - 1] == s[k]);
        }
        lemma_digit_run_is(s.skip(1), k - 1);
    }
}

/// The value of a digit byte.
pub open spec fn digit_val(c: u8) -> nat {
    if 0x30 <= c {
        (c - 0x30) as nat
    } else {
        0
    }
}

/// The numeric value of a run of decimal digit bytes, most significant first.
pub open spec fn decimal_value(s: Seq<u8>) -> nat
    decreases s.len(),
{
    if s.len() == 0 {
        0
    } else {
        10 * decimal_value(s.drop_last()) + digit_val(s.last())
    }
}

/// Extending a digit run never decreases its value.
pub proof fn lemma_decimal_value_prefix(s: Seq<u8>, j: int, m: int)
    requires
        0 <= j <= m <= s.len(),
    ensures
        decimal_value(s.take(j)) <= decimal_value(s.take(m)),
    decreases m - j,
{
    if j < m {
        lemma_decimal_value_prefix(s, j, m - 1);
        assert(s.take(m).drop_last() =~= s.take(m - 1));
        assert(decimal_value(s.take(m)) == 10 * decimal_value(s.take(m - 1)) + digit_val(
            s.take(m).last(),
        ));
    }
}

/// `number` over mathematical sequences: consume the maximal digit run and
/// read it as an unsigned 32-bit value. A run that reaches the end of the
/// available input may still grow, so it asks for more input; an empty run or
/// a value of 2^32 or more is a definite grammar violation.
pub open spec fn spec_number(s: Seq<u8>) -> SpecParse<u32> {
    let k = digit_run(s) as int;
    if k == s.len() {
        SpecParse::More(Option::None)
    } else if k == 0 {
        SpecParse::Bad
    } else if decimal_value(s.take(k)) < 0x1_0000_0000 {
        SpecParse::Done(decimal_value(s.take(k)) as u32, s.skip(k))
    } else {
        SpecParse::Bad
    }
}

/// `number_64`: as `spec_number`, for unsigned 64-bit values.
pub open spec fn spec_number_64(s: Seq<u8>) -> SpecParse<u64> {
    let k = digit_run(s) as int;
    if k == s.len() {
        SpecParse::More(Option::None)
    } else if k == 0 {
        SpecParse::Bad
    } else if decimal_value(s.take(k)) < 0x1_0000_0000_0000_0000 {
        SpecParse::Done(decimal_value(s.take(k)) as u64, s.skip(k))
    } else {
        SpecParse::Bad
    }
}

/// Length of the maximal digit prefix of `i`.
fn scan_digits(i: &[u8]) -> (k: usize)
    ensures
        k == digit_run(i@),
        k <= i@.len(),
        forall|j: int| 0 <= j < k ==> spec_is_digit(i@[j]),
        k < i@.len() ==> !spec_is_digit(i@[k as int]),
{
    let mut k: usize = 0;
    while k < i.len() && i[k] >= 0x30 && i[k] <= 0x39
        invariant
            0 <= k <= i@.len(),
            forall|j: int| 0 <= j < k ==> spec_is_digit(i@[j]),
        decreases i@.len() - k,
    {
        k = k + 1;
    }
    proof {
        lemma_digit_run_is(i@, k as int);
    }
    k
}

/// number = 1*DIGIT, an unsigned 32-bit integer (0 <= n < 4,294,967,296).
pub fn number(i: &[u8]) -> (r: Result<(&[u8], u32), ParseError>)
    ensures
        outcome_of(r) == spec_number(i@),
{
    let k = scan_digits(i);
    if k == i.len() {
        return Err(ParseError::Incomplete(None));
    }
    if k == 0 {
        return Err(ParseError::Malformed);
    }
    let mut acc: u64 = 0;
    let mut j: usize = 0;
    while j < k
        invariant
            0 <= j <= k,
            0 < k < i@.len(),
            k == digit_run(i@),
            forall|jj: int| 0 <= jj < k ==> spec_is_digit(i@[jj]),
            acc == decimal_value(i@.take(j as int)),
            acc <= 0xffff_ffff,
        decreases k - j,
    {
        let d: u64 = (i[j] - 0x30) as u64;
        acc = acc * 10 + d;
        proof {
            assert(i@.take(j + 1).drop_last() =~= i@.take(j as int));
            assert(i@.take(j + 1).last() == i@[j as int]);
        }
        if acc > 0xffff_ffff {
            proof {
                lemma_decimal_value_prefix(i@, j + 1, k as int);
            }
            return Err(ParseError::Malformed);
        }
        j = j + 1;
    }
    let rest = slice_subrange(i, k, i.len());
    proof {
        assert(rest@ =~= i@.skip(k as int));
    }
    Ok((rest, acc as u32))
}

/// Same grammar as `number`, read as an unsigned 64-bit integer.
pub fn number_64(i: &[u8]) -> (r: Result<(&[u8], u64), ParseError>)
    ensures
        outcome_of(r) == spec_number_64(i@),
{
    let k = scan_digits(i);
    if k == i.len() {
        return Err(ParseError::Incomplete(None));
    }
    if k == 0 {
        return Err(ParseError::Malformed);
    }
    let mut acc: u64 = 0;
    let mut j: usize = 0;
    while j < k
        invariant
            0 <= j <= k,
            0 < k < i@.len(),
            k == digit_run(i@),
            forall|jj: int| 0 <= jj < k ==> spec_is_digit(i@[jj]),
            acc == decimal_value(i@.take(j as int)),
        decreases k - j,
    {
        let d: u64 = (i[j] - 0x30) as u64;
        proof {
            assert(i@.take(j + 1).drop_last() =~= i@.take(j as int));
            assert(i@.take(j + 1).last() == i@[j as int]);
        }
        if acc > 0x1999_9999_9999_9999 || (acc == 0x1999_9999_9999_9999 && d > 5) {
            proof {
                lemma_decimal_value_prefix(i@, j + 1, k as int);
            }
            return Err(ParseError::Malformed);
        }
        acc = acc * 10 + d;
        j = j + 1;
    }
    let rest = slice_subrange(i, k, i.len());
    proof {
        assert(rest@ =~= i@.skip(k as int));
    }
    Ok((rest, acc))
}

/// Law: a run of digits whose value fits in 32 bits, followed by anything
/// that does not begin with a digit, parses as that value with the tail left
/// untouched.
pub proof fn lemma_number_accepts_digits(d: Seq<u8>, rest: Seq<u8>)
    requires
        d.len() > 0,
        forall|j: int| 0 <= j < d.len() ==> spec_is_digit(d[j]),
        decimal_value(d) < 0x1_0000_0000,
        rest.len() > 0,
        !spec_is_digit(rest[0]),
    ensures
        spec_number(d + rest) == SpecParse::<u32>::Done(decimal_value(d) as u32, rest),
{
    let s = d + rest;
    assert forall|j: int| 0 <= j < d.len() implies spec_is_digit(s[j]) by {
        assert(s[j] == d[j]);
    }
    assert(s[d.len() as int] == rest[0]);
    lemma_digit_run_is(s, d.len() as int);
    assert(s.take(d.len() as int) =~= d);
    assert(s.skip(d.len() as int) =~= rest);
}

/// Law: a run of digits whose value is 2^32 or more, followed by anything
/// that does not begin with a digit, is rejected as malformed — the value is
/// never wrapped or truncated.
pub proof fn lemma_number_rejects_overflow(d: Seq<u8>, rest: Seq<u8>)
    requires
        d.len() > 0,
        forall|j: int| 0 <= j < d.len() ==> spec_is_digit(d[j]),
        decimal_value(d) >= 0x1_0000_0000,
        rest.len() > 0,
        !spec_is_digit(rest[0]),
    ensures
        spec_number(d + rest) == SpecParse::<u32>::Bad,
{
    let s = d + rest;
    assert forall|j: int| 0 <= j < d.len() implies spec_is_digit(s[j]) by {
        assert(s[j] == d[j]);
    }
    assert(s[d.len() as int] == rest[0]);
    lemma_digit_run_is(s, d.len() as int);
    assert(s.take(d.len() as int) =~= d);
}

/// The canonical decimal digit string of `n`, most significant digit first.
pub open spec fn dec_repr(n: nat) -> Seq<u8>
    decreases n,
{
    if n < 10 {
        seq![(0x30 + n) as u8]
    } else {
        dec_repr(n / 10).push((0x30 + (n % 10)) as u8)
    }
}

/// The canonical digit string is nonempty, made of digits, and reads back as
/// `n`.
pub proof fn lemma_dec_repr(n: nat)
    ensures
        dec_repr(n).len() >= 1,
        forall|j: int| 0 <= j < dec_repr(n).len() ==> spec_is_digit(dec_repr(n)[j]),
        decimal_value(dec_repr(n)) == n,
    decreases n,
{
    if n < 10 {
        assert(dec_repr(n).drop_last() =~= Seq::<u8>::empty());
        assert(dec_repr(n).last() == (0x30 + n) as u8);
        assert(digit_val((0x30 + n) as u8) == n);
        assert(decimal_value(dec_repr(n)) == 10 * decimal_value(Seq::<u8>::empty()) + n);
    } else {
        lemma_dec_repr(n / 10);
        let d = dec_repr(n / 10);
        let last = (0x30 + (n % 10)) as u8;
        assert(d.push(last).drop_last() =~= d);
        assert(d.push(last).last() == last);
        vstd::arithmetic::div_mod::lemma_fundamental_div_mod(n as int, 10);
        assert(decimal_value(dec_repr(n)) == 10 * (n / 10) + (n % 10));
        assert forall|j: int| 0 <= j < dec_repr(n).len() implies spec_is_digit(
            dec_repr(n)[j],
        ) by {
            if j < d.len() {
                assert(dec_repr(n)[j] == d[j]);
            } else {
                assert(dec_repr(n)[j] == last);
            }
        }
    }
}

/// The digit run never exceeds the input length.
pub proof fn lemma_digit_run_le(s: Seq<u8>)
    ensures
        digit_run(s) <= s.len(),
    decreases s.len(),
{
    if s.len() > 0 && spec_is_digit(s[0]) {
        lemma_digit_run_le(s.skip(1));
    }
}

} // verus!
