//! Quoted strings: `"`-delimited and escape-aware. The returned value is the
//! raw byte span between the delimiters, escape markers included; decoding
//! the escapes is left to the caller.

use vstd::prelude::*;
use vstd::slice::slice_subrange;

use crate::outcome::{outcome_of, ParseError, SpecParse};

verus! {

/// The number of bytes the quoted-data scan consumes from `s`: everything up
/// to (not including) the first unescaped double quote, or all of `s` when no
/// such quote is present. A backslash consumes the byte after it, whatever
/// that byte is: the scan is deliberately permissive about which bytes may be
/// escaped.
pub open spec fn quoted_data_len(s: Seq<u8>) -> nat
    decreases s.len(),
{
    if s.len() == 0 {
        0
    } else if s[0] == 0x22 {
        0
    } else if s[0] == 0x5c {
        if s.len() == 1 {
            1
        } else {
            (2 + quoted_data_len(s.skip(2))) as nat
        }
    } else {
        (1 + quoted_data_len(s.skip(1))) as nat
    }
}

/// The scan never overruns the input, and when it stops short of the end it
/// stops on an unescaped double quote.
pub proof fn lemma_quoted_data_len_stops(s: Seq<u8>)
    ensures
        quoted_data_len(s) <= s.len(),
        quoted_data_len(s) < s.len() ==> s[quoted_data_len(s) as int] == 0x22,
    decreases s.len(),
{
    if s.len() == 0 {
    } else if s[0] == 0x22 {
    } else if s[0] == 0x5c {
        if s.len() > 1 {
            lemma_quoted_data_len_stops(s.skip(2));
            let k = quoted_data_len(s.skip(2)) as int;
            if k < s.skip(2).len() {
                assert(s.skip(2)[k] == s[k + 2]);
            }
        }
    } else {
        lemma_quoted_data_len_stops(s.skip(1));
        let k = quoted_data_len(s.skip(1)) as int;
        if k < s.skip(1).len() {
            assert(s.skip(1)[k] == s[k + 1]);
        }
    }
}

/// `quoted_data` over mathematical sequences: always succeeds, splitting the
/// input at the first unescaped double quote (or consuming all of it).
pub open spec fn spec_quoted_data(s: Seq<u8>) -> SpecParse<Seq<u8>> {
    SpecParse::Done(s.take(quoted_data_len(s) as int), s.skip(quoted_data_len(s) as int))
}

/// Length of the prefix of `i` consumed by the quoted-data scan.
fn quoted_data_scan(i: &[u8]) -> (idx: usize)
    ensures
        idx == quoted_data_len(i@),
        idx <= i@.len(),
{
    let mut idx: usize = 0;
    proof {
        assert(i@.skip(0) =~= i@);
    }
    while idx < i.len() && i[idx] != 0x22
        invariant
            0 <= idx <= i@.len(),
            quoted_data_len(i@) == idx + quoted_data_len(i@.skip(idx as int)),
        decreases i@.len() - idx,
    {
        proof {
            if i@[idx as int] == 0x5c && idx + 1 < i@.len() {
                assert(i@.skip(idx as int).skip(2) =~= i@.skip(idx + 2));
            } else {
                assert(i@.skip(idx as int).skip(1) =~= i@.skip(idx + 1));
            }
        }
        if i[idx] == 0x5c && idx + 1 < i.len() {
            idx = idx + 2;
        } else {
            idx = idx + 1;
        }
    }
    proof {
        if idx < i@.len() {
            assert(quoted_data_len(i@.skip(idx as int)) == 0);
        } else {
            assert(i@.skip(idx as int).len() == 0);
        }
    }
    idx
}

/// QUOTED-CHAR data: the span between the delimiters of a quoted string.
/// Never fails; an input with no unescaped quote is consumed whole.
pub fn quoted_data(i: &[u8]) -> (r: Result<(&[u8], &[u8]), ParseError>)
    ensures
        outcome_of(r) == spec_quoted_data(i@),
{
    let idx = quoted_data_scan(i);
    let data = slice_subrange(i, 0, idx);
    let rest = slice_subrange(i, idx, i.len());
    proof {
        assert(data@ =~= i@.take(idx as int));
        assert(rest@ =~= i@.skip(idx as int));
    }
    Ok((rest, data))
}

/// quoted = DQUOTE *QUOTED-CHAR DQUOTE, over mathematical sequences. An input
/// whose closing quote has not arrived yet asks for more bytes; one that does
/// not start with a quote is a definite mismatch.
pub open spec fn spec_quoted(s: Seq<u8>) -> SpecParse<Seq<u8>> {
    if s.len() == 0 {
        SpecParse::More(Option::None)
    } else if s[0] != 0x22 {
        SpecParse::Bad
    } else {
        let k = quoted_data_len(s.skip(1)) as int;
        if 1 + k == s.len() {
            SpecParse::More(Option::None)
        } else {
            SpecParse::Done(s.subrange(1, 1 + k), s.skip(2 + k))
        }
    }
}

/// quoted = DQUOTE *QUOTED-CHAR DQUOTE. The value is the raw span between
/// the quotes, backslash escape markers retained.
pub fn quoted(i: &[u8]) -> (r: Result<(&[u8], &[u8]), ParseError>)
    ensures
        outcome_of(r) == spec_quoted(i@),
{
    if i.len() == 0 {
        return Err(ParseError::Incomplete(None));
    }
    if i[0] != 0x22 {
        return Err(ParseError::Malformed);
    }
    let inner = slice_subrange(i, 1, i.len());
    proof {
        assert(inner@ =~= i@.skip(1));
    }
    let k = quoted_data_scan(inner);
    proof {
        lemma_quoted_data_len_stops(inner@);
    }
    if k == inner.len() {
        return Err(ParseError::Incomplete(None));
    }
    let data = slice_subrange(i, 1, 1 + k);
    let rest = slice_subrange(i, 2 + k, i.len());
    proof {
        assert(data@ =~= i@.subrange(1, 1 + k as int));
        assert(rest@ =~= i@.skip(2 + k as int));
    }
    Ok((rest, data))
}

/// Law: a quoted string whose closing quote is not among the currently
/// available bytes (the escape-aware scan consumes them all) asks for more
/// input; it is never reported as malformed.
pub proof fn lemma_quoted_unterminated(s: Seq<u8>)
    requires
        s.len() >= 1,
        s[0] == 0x22,
        quoted_data_len(s.skip(1)) == s.len() - 1,
    ensures
        spec_quoted(s) == SpecParse::<Seq<u8>>::More(Option::None),
{
}

} // verus!
