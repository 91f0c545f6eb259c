//! Literals: the length-prefixed, binary-safe form `"{" number "}" CRLF`
//! followed by exactly that many raw bytes. Payload bytes are taken verbatim
//! and never token-scanned; only NUL is forbidden.

use vstd::prelude::*;
use vstd::slice::slice_subrange;

use crate::chars::{is_char8, spec_is_digit};
use crate::outcome::{outcome_of, ParseError, SpecParse};
use crate::scalars::{
    decimal_value, dec_repr, lemma_dec_repr, lemma_number_accepts_digits, number, spec_number,
};

verus! {

/// literal = "{" number "}" CRLF *CHAR8, over mathematical sequences. The
/// declared count governs how many payload bytes follow, regardless of their
/// content; when fewer are available the outcome asks for exactly the
/// missing amount, and a NUL payload byte is a definite violation.
pub open spec fn spec_literal(s: Seq<u8>) -> SpecParse<Seq<u8>> {
    if s.len() == 0 {
        SpecParse::More(Option::None)
    } else if s[0] != 0x7b {
        SpecParse::Bad
    } else {
        match spec_number(s.skip(1)) {
            SpecParse::More(h) => SpecParse::More(h),
            SpecParse::Bad => SpecParse::Bad,
            SpecParse::Done(n, r1) => {
                if r1.len() == 0 {
                    SpecParse::More(Option::None)
                } else if r1[0] != 0x7d {
                    SpecParse::Bad
                } else if r1.len() == 1 {
                    SpecParse::More(Option::None)
                } else if r1[1] != 0x0d {
                    SpecParse::Bad
                } else if r1.len() == 2 {
                    SpecParse::More(Option::None)
                } else if r1[2] != 0x0a {
                    SpecParse::Bad
                } else {
                    let r2 = r1.skip(3);
                    if r2.len() < n {
                        SpecParse::More(Option::Some((n - r2.len()) as nat))
                    } else if exists|j: int| 0 <= j < n && r2[j] == 0 {
                        SpecParse::Bad
                    } else {
                        SpecParse::Done(r2.take(n as int), r2.skip(n as int))
                    }
                }
            },
        }
    }
}

/// True when one of the first `limit` bytes of `b` is NUL.
fn has_nul_among(b: &[u8], limit: usize) -> (r: bool)
    requires
        limit <= b@.len(),
    ensures
        r == exists|j: int| 0 <= j < limit && b@[j] == 0,
{
    let mut j: usize = 0;
    while j < limit
        invariant
            0 <= j <= limit,
            limit <= b@.len(),
            forall|jj: int| 0 <= jj < j ==> b@[jj] != 0,
        decreases limit - j,
    {
        if !is_char8(b[j]) {
            return true;
        }
        j = j + 1;
    }
    false
}

/// literal = "{" number "}" CRLF *CHAR8; the count declares the number of
/// CHAR8 payload bytes.
pub fn literal(input: &[u8]) -> (r: Result<(&[u8], &[u8]), ParseError>)
    ensures
        outcome_of(r) == spec_literal(input@),
{
    if input.len() == 0 {
        return Err(ParseError::Incomplete(None));
    }
    if input[0] != 0x7b {
        return Err(ParseError::Malformed);
    }
    let inner = slice_subrange(input, 1, input.len());
    proof {
        assert(inner@ =~= input@.skip(1));
    }
    let (r1, n) = match number(inner) {
        Ok(p) => p,
        Err(e) => {
            return Err(e);
        },
    };
    if r1.len() == 0 {
        return Err(ParseError::Incomplete(None));
    }
    if r1[0] != 0x7d {
        return Err(ParseError::Malformed);
    }
    if r1.len() == 1 {
        return Err(ParseError::Incomplete(None));
    }
    if r1[1] != 0x0d {
        return Err(ParseError::Malformed);
    }
    if r1.len() == 2 {
        return Err(ParseError::Incomplete(None));
    }
    if r1[2] != 0x0a {
        return Err(ParseError::Malformed);
    }
    let r2 = slice_subrange(r1, 3, r1.len());
    proof {
        assert(r2@ =~= r1@.skip(3));
    }
    let count = n as usize;
    if r2.len() < count {
        return Err(ParseError::Incomplete(Some(count - r2.len())));
    }
    if has_nul_among(r2, count) {
        return Err(ParseError::Malformed);
    }
    let data = slice_subrange(r2, 0, count);
    let rest = slice_subrange(r2, count, r2.len());
    proof {
        assert(data@ =~= r2@.take(count as int));
        assert(rest@ =~= r2@.skip(count as int));
    }
    Ok((rest, data))
}

/// How a well-formed literal header `{n}\r\n` followed by `body` parses: it
/// asks for the missing bytes when fewer than `n` are available, rejects a
/// NUL among the first `n`, and otherwise splits `body` after `n` bytes.
pub proof fn lemma_literal_header(n: nat, body: Seq<u8>)
    requires
        n < 0x1_0000_0000,
    ensures
        spec_literal(seq![0x7bu8] + dec_repr(n) + seq![0x7du8, 0x0du8, 0x0au8] + body) == (
        if body.len() < n {
            SpecParse::<Seq<u8>>::More(Option::Some((n - body.len()) as nat))
        } else if exists|j: int| 0 <= j < n && body[j] == 0 {
            SpecParse::<Seq<u8>>::Bad
        } else {
            SpecParse::<Seq<u8>>::Done(body.take(n as int), body.skip(n as int))
        }),
{
    let d = dec_repr(n);
    lemma_dec_repr(n);
    let s = seq![0x7bu8] + d + seq![0x7du8, 0x0du8, 0x0au8] + body;
    let after = seq![0x7du8, 0x0du8, 0x0au8] + body;
    assert(s[0] == 0x7b);
    assert(s.skip(1) =~= d + after);
    assert(!spec_is_digit(after[0]));
    lemma_number_accepts_digits(d, after);
    assert(spec_number(s.skip(1)) == SpecParse::<u32>::Done(decimal_value(d) as u32, after));
    assert(decimal_value(d) as u32 == n as u32);
    assert(after[0] == 0x7d && after[1] == 0x0d && after[2] == 0x0a);
    assert(after.skip(3) =~= body);
}

/// Law (round trip): for any byte count `n` below 2^32 and any `n` NUL-free
/// payload bytes, parsing `{n}\r\n` followed by the payload and an arbitrary
/// tail yields the payload exactly and leaves the tail untouched — whatever
/// bytes the tail holds.
pub proof fn lemma_literal_round_trip(payload: Seq<u8>, tail: Seq<u8>)
    requires
        payload.len() < 0x1_0000_0000,
        forall|j: int| 0 <= j < payload.len() ==> payload[j] != 0,
    ensures
        spec_literal(
            seq![0x7bu8] + dec_repr(payload.len() as nat) + seq![0x7du8, 0x0du8, 0x0au8] + payload
                + tail,
        ) == SpecParse::<Seq<u8>>::Done(payload, tail),
{
    let n = payload.len() as nat;
    let body = payload + tail;
    lemma_literal_header(n, body);
    assert(seq![0x7bu8] + dec_repr(n) + seq![0x7du8, 0x0du8, 0x0au8] + (payload + tail) =~= seq![
        0x7bu8,
    ] + dec_repr(n) + seq![0x7du8, 0x0du8, 0x0au8] + payload + tail);
    assert forall|j: int| 0 <= j < n implies body[j] != 0 by {
        assert(body[j] == payload[j]);
    }
    assert(body.take(n as int) =~= payload);
    assert(body.skip(n as int) =~= tail);
}

/// Law: a literal whose payload holds a NUL byte is malformed, however many
/// bytes follow.
pub proof fn lemma_literal_rejects_nul(payload: Seq<u8>, tail: Seq<u8>, j: int)
    requires
        payload.len() < 0x1_0000_0000,
        0 <= j < payload.len(),
        payload[j] == 0,
    ensures
        spec_literal(
            seq![0x7bu8] + dec_repr(payload.len() as nat) + seq![0x7du8, 0x0du8, 0x0au8] + payload
                + tail,
        ) == SpecParse::<Seq<u8>>::Bad,
{
    let n = payload.len() as nat;
    let body = payload + tail;
    lemma_literal_header(n, body);
    assert(seq![0x7bu8] + dec_repr(n) + seq![0x7du8, 0x0du8, 0x0au8] + (payload + tail) =~= seq![
        0x7bu8,
    ] + dec_repr(n) + seq![0x7du8, 0x0du8, 0x0au8] + payload + tail);
    assert(body[j] == 0);
}

/// Law: a literal whose declared count exceeds the bytes currently available
/// asks for exactly the missing amount rather than truncating.
pub proof fn lemma_literal_deficit(n: nat, avail: Seq<u8>)
    requires
        n < 0x1_0000_0000,
        avail.len() < n,
    ensures
        spec_literal(seq![0x7bu8] + dec_repr(n) + seq![0x7du8, 0x0du8, 0x0au8] + avail)
            == SpecParse::<Seq<u8>>::More(Option::Some((n - avail.len()) as nat)),
{
    lemma_literal_header(n, avail);
}

} // verus!
