//! The string family and composite parsers: the quoted/literal union, bare
//! atoms, astrings, the nullable string, free text, and their UTF-8
//! validating variants.

use vstd::prelude::*;
use vstd::slice::slice_subrange;
use vstd::string::StringSliceAdditionalSpecFns;
use vstd::utf8::{
    decode_utf8, encode_utf8_decode_utf8, partial_valid_utf8_extend_ascii_block, valid_utf8,
};

use crate::chars::{spec_is_astring_char, spec_is_atom_char, spec_is_text_char};
use crate::chars::{is_astring_char, is_atom_char, is_text_char};
use crate::literal::{literal, spec_literal};
use crate::outcome::{outcome_of, ParseError, SpecParse};
use crate::quoted::{quoted, spec_quoted};

verus! {

/// Relies on `std::str::from_utf8`: it returns `Ok` exactly when the bytes
/// are a valid UTF-8 encoding, and the returned string slice is backed by
/// those same bytes.
#[verifier::external_body]
fn bytes_as_utf8(b: &[u8]) -> (r: Option<&str>)
    ensures
        r is Some <==> valid_utf8(b@),
        r matches Some(s) ==> s.spec_bytes() == b@,
{
    std::str::from_utf8(b).ok()
}

/// A sequence of 7-bit bytes is a valid UTF-8 encoding.
pub proof fn lemma_ascii_valid_utf8(b: Seq<u8>)
    requires
        forall|j: int| 0 <= j < b.len() ==> b[j] < 0x80,
    ensures
        valid_utf8(b),
{
    assert(b.subrange(0, 0) =~= Seq::<u8>::empty());
    assert(valid_utf8(b.subrange(0, 0)));
    partial_valid_utf8_extend_ascii_block(b, 0, b.len() as int);
    assert(b.subrange(0, b.len() as int) =~= b);
}

/// UTF-8 validation applied to the value of a successful byte-level parse:
/// the bytes must form a valid encoding, or the outcome becomes malformed.
pub open spec fn utf8_lift(m: SpecParse<Seq<u8>>) -> SpecParse<Seq<char>> {
    match m {
        SpecParse::Done(v, rest) => {
            if valid_utf8(v) {
                SpecParse::Done(decode_utf8(v), rest)
            } else {
                SpecParse::Bad
            }
        },
        SpecParse::More(h) => SpecParse::More(h),
        SpecParse::Bad => SpecParse::Bad,
    }
}

/// string = quoted / literal, over mathematical sequences. The two forms are
/// told apart by their first byte, so no backtracking is ever needed; an
/// incomplete first alternative is propagated, never downgraded.
pub open spec fn spec_string(s: Seq<u8>) -> SpecParse<Seq<u8>> {
    if s.len() == 0 {
        SpecParse::More(Option::None)
    } else if s[0] == 0x22 {
        spec_quoted(s)
    } else if s[0] == 0x7b {
        spec_literal(s)
    } else {
        SpecParse::Bad
    }
}

/// string = quoted / literal.
pub fn string(i: &[u8]) -> (r: Result<(&[u8], &[u8]), ParseError>)
    ensures
        outcome_of(r) == spec_string(i@),
{
    if i.len() == 0 {
        return Err(ParseError::Incomplete(None));
    }
    if i[0] == 0x22 {
        quoted(i)
    } else if i[0] == 0x7b {
        literal(i)
    } else {
        Err(ParseError::Malformed)
    }
}

/// string bytes validated as UTF-8.
pub open spec fn spec_string_utf8(s: Seq<u8>) -> SpecParse<Seq<char>> {
    utf8_lift(spec_string(s))
}

/// string = quoted / literal, validated as UTF-8. Literals in particular are
/// not inherently UTF-8, so a byte-level success may still be malformed here.
pub fn string_utf8(i: &[u8]) -> (r: Result<(&[u8], &str), ParseError>)
    ensures
        outcome_of(r) == spec_string_utf8(i@),
{
    let (rest, v) = match string(i) {
        Ok(p) => p,
        Err(e) => {
            return Err(e);
        },
    };
    proof {
        assert(v.deep_view() =~= v@);
    }
    match bytes_as_utf8(v) {
        Some(st) => {
            proof {
                encode_utf8_decode_utf8(st@);
            }
            Ok((rest, st))
        },
        None => Err(ParseError::Malformed),
    }
}

/// quoted bytes validated as UTF-8.
pub open spec fn spec_quoted_utf8(s: Seq<u8>) -> SpecParse<Seq<char>> {
    utf8_lift(spec_quoted(s))
}

/// quoted = DQUOTE *QUOTED-CHAR DQUOTE, validated as UTF-8.
pub fn quoted_utf8(i: &[u8]) -> (r: Result<(&[u8], &str), ParseError>)
    ensures
        outcome_of(r) == spec_quoted_utf8(i@),
{
    let (rest, v) = match quoted(i) {
        Ok(p) => p,
        Err(e) => {
            return Err(e);
        },
    };
    proof {
        assert(v.deep_view() =~= v@);
    }
    match bytes_as_utf8(v) {
        Some(st) => {
            proof {
                encode_utf8_decode_utf8(st@);
            }
            Ok((rest, st))
        },
        None => Err(ParseError::Malformed),
    }
}

/// Length of the maximal prefix of `s` made of ASTRING-CHAR bytes.
pub open spec fn astring_run(s: Seq<u8>) -> nat
    decreases s.len(),
{
    if s.len() == 0 || !spec_is_astring_char(s[0]) {
        0
    } else {
        (1 + astring_run(s.skip(1))) as nat
    }
}

/// The astring run is exactly `k` when the first `k` bytes are ASTRING-CHARs
/// and the byte after them (if any) is not.
pub proof fn lemma_astring_run_is(s: Seq<u8>, k: int)
    requires
        0 <= k <= s.len(),
        forall|j: int| 0 <= j < k ==> spec_is_astring_char(s[j]),
        k < s.len() ==> !spec_is_astring_char(s[k]),
    ensures
        astring_run(s) == k,
    decreases k,
{
    if k > 0 {
        assert forall|j: int| 0 <= j < k - 1 implies spec_is_astring_char(s.skip(1)[j]) by {
            assert(s.skip(1)[j] == s[j + 1]);
        }
        if k - 1 < s.skip(1).len() {
            assert(s.skip(1)[k - 1] == s[k]);
        }
        lemma_astring_run_is(s.skip(1), k - 1);
    }
}

/// Length of the maximal prefix of `s` made of ATOM-CHAR bytes.
pub open spec fn atom_run(s: Seq<u8>) -> nat
    decreases s.len(),
{
    if s.len() == 0 || !spec_is_atom_char(s[0]) {
        0
    } else {
        (1 + atom_run(s.skip(1))) as nat
    }
}

/// The atom run is exactly `k` when the first `k` bytes are ATOM-CHARs and
/// the byte after them (if any) is not.
pub proof fn lemma_atom_run_is(s: Seq<u8>, k: int)
    requires
        0 <= k <= s.len(),
        forall|j: int| 0 <= j < k ==> spec_is_atom_char(s[j]),
        k < s.len() ==> !spec_is_atom_char(s[k]),
    ensures
        atom_run(s) == k,
    decreases k,
{
    if k > 0 {
        assert forall|j: int| 0 <= j < k - 1 implies spec_is_atom_char(s.skip(1)[j]) by {
            assert(s.skip(1)[j] == s[j + 1]);
        }
        if k - 1 < s.skip(1).len() {
            assert(s.skip(1)[k - 1] == s[k]);
        }
        lemma_atom_run_is(s.skip(1), k - 1);
    }
}

/// Length of the maximal prefix of `s` made of TEXT-CHAR bytes.
pub open spec fn text_run(s: Seq<u8>) -> nat
    decreases s.len(),
{
    if s.len() == 0 || !spec_is_text_char(s[0]) {
        0
    } else {
        (1 + text_run(s.skip(1))) as nat
    }
}

/// The text run is exactly `k` when the first `k` bytes are TEXT-CHARs and
/// the byte after them (if any) is not.
pub proof fn lemma_text_run_is(s: Seq<u8>, k: int)
    requires
        0 <= k <= s.len(),
        forall|j: int| 0 <= j < k ==> spec_is_text_char(s[j]),
        k < s.len() ==> !spec_is_text_char(s[k]),
    ensures
        text_run(s) == k,
    decreases k,
{
    if k > 0 {
        assert forall|j: int| 0 <= j < k - 1 implies spec_is_text_char(s.skip(1)[j]) by {
            assert(s.skip(1)[j] == s[j + 1]);
        }
        if k - 1 < s.skip(1).len() {
            assert(s.skip(1)[k - 1] == s[k]);
        }
        lemma_text_run_is(s.skip(1), k - 1);
    }
}

/// astring = 1*ASTRING-CHAR / string, over mathematical sequences. A bare
/// run that reaches the end of the available input may still grow, so it
/// asks for more; an empty bare run falls back to the quoted/literal union.
pub open spec fn spec_astring(s: Seq<u8>) -> SpecParse<Seq<u8>> {
    let k = astring_run(s) as int;
    if k == s.len() {
        SpecParse::More(Option::None)
    } else if k == 0 {
        spec_string(s)
    } else {
        SpecParse::Done(s.take(k), s.skip(k))
    }
}

/// astring = 1*ASTRING-CHAR / string.
pub fn astring(i: &[u8]) -> (r: Result<(&[u8], &[u8]), ParseError>)
    ensures
        outcome_of(r) == spec_astring(i@),
{
    let mut k: usize = 0;
    while k < i.len() && is_astring_char(i[k])
        invariant
            0 <= k <= i@.len(),
            forall|j: int| 0 <= j < k ==> spec_is_astring_char(i@[j]),
        decreases i@.len() - k,
    {
        k = k + 1;
    }
    proof {
        lemma_astring_run_is(i@, k as int);
    }
    if k == i.len() {
        return Err(ParseError::Incomplete(None));
    }
    if k == 0 {
        return string(i);
    }
    let data = slice_subrange(i, 0, k);
    let rest = slice_subrange(i, k, i.len());
    proof {
        assert(data@ =~= i@.take(k as int));
        assert(rest@ =~= i@.skip(k as int));
    }
    Ok((rest, data))
}

/// astring bytes validated as UTF-8.
pub open spec fn spec_astring_utf8(s: Seq<u8>) -> SpecParse<Seq<char>> {
    utf8_lift(spec_astring(s))
}

/// astring = 1*ASTRING-CHAR / string, validated as UTF-8.
pub fn astring_utf8(i: &[u8]) -> (r: Result<(&[u8], &str), ParseError>)
    ensures
        outcome_of(r) == spec_astring_utf8(i@),
{
    let (rest, v) = match astring(i) {
        Ok(p) => p,
        Err(e) => {
            return Err(e);
        },
    };
    proof {
        assert(v.deep_view() =~= v@);
    }
    match bytes_as_utf8(v) {
        Some(st) => {
            proof {
                encode_utf8_decode_utf8(st@);
            }
            Ok((rest, st))
        },
        None => Err(ParseError::Malformed),
    }
}

/// atom = 1*ATOM-CHAR, over mathematical sequences. At least one character
/// is required: empty input or a leading non-ATOM-CHAR is malformed, while a
/// run that reaches the end of a nonempty input may still grow.
pub open spec fn spec_atom(s: Seq<u8>) -> SpecParse<Seq<char>> {
    if s.len() == 0 {
        SpecParse::Bad
    } else {
        let k = atom_run(s) as int;
        if k == 0 {
            SpecParse::Bad
        } else if k == s.len() {
            SpecParse::More(Option::None)
        } else {
            SpecParse::Done(decode_utf8(s.take(k)), s.skip(k))
        }
    }
}

/// atom = 1*ATOM-CHAR.
pub fn atom(i: &[u8]) -> (r: Result<(&[u8], &str), ParseError>)
    ensures
        outcome_of(r) == spec_atom(i@),
{
    if i.len() == 0 {
        return Err(ParseError::Malformed);
    }
    let mut k: usize = 0;
    while k < i.len() && is_atom_char(i[k])
        invariant
            0 <= k <= i@.len(),
            forall|j: int| 0 <= j < k ==> spec_is_atom_char(i@[j]),
        decreases i@.len() - k,
    {
        k = k + 1;
    }
    proof {
        lemma_atom_run_is(i@, k as int);
    }
    if k == 0 {
        return Err(ParseError::Malformed);
    }
    if k == i.len() {
        return Err(ParseError::Incomplete(None));
    }
    let data = slice_subrange(i, 0, k);
    let rest = slice_subrange(i, k, i.len());
    proof {
        assert(data@ =~= i@.take(k as int));
        assert(rest@ =~= i@.skip(k as int));
    }
    match bytes_as_utf8(data) {
        Some(st) => {
            proof {
                encode_utf8_decode_utf8(st@);
            }
            Ok((rest, st))
        },
        None => {
            proof {
                lemma_ascii_valid_utf8(data@);
            }
            Err(ParseError::Malformed)
        },
    }
}

/// The ASCII lower-case fold of a byte.
pub open spec fn ascii_lower(c: u8) -> u8 {
    if 0x41 <= c <= 0x5a {
        (c + 0x20) as u8
    } else {
        c
    }
}

fn to_lower(c: u8) -> (r: u8)
    ensures
        r == ascii_lower(c),
{
    if c >= 0x41 && c <= 0x5a {
        c + 0x20
    } else {
        c
    }
}

/// nil = "NIL", matched case-insensitively, over mathematical sequences. A
/// shorter input that is still a case-insensitive prefix of NIL asks for
/// more bytes.
pub open spec fn spec_nil(s: Seq<u8>) -> SpecParse<Seq<u8>> {
    if s.len() >= 3 {
        if ascii_lower(s[0]) == 0x6e && ascii_lower(s[1]) == 0x69 && ascii_lower(s[2]) == 0x6c {
            SpecParse::Done(s.take(3), s.skip(3))
        } else {
            SpecParse::Bad
        }
    } else {
        if (s.len() >= 1 ==> ascii_lower(s[0]) == 0x6e) && (s.len() >= 2 ==> ascii_lower(s[1])
            == 0x69) {
            SpecParse::More(Option::None)
        } else {
            SpecParse::Bad
        }
    }
}

/// nil = "NIL" (case-insensitive). The value is the matched input span, in
/// its original case.
pub fn nil(i: &[u8]) -> (r: Result<(&[u8], &[u8]), ParseError>)
    ensures
        outcome_of(r) == spec_nil(i@),
{
    if i.len() >= 3 {
        if to_lower(i[0]) == 0x6e && to_lower(i[1]) == 0x69 && to_lower(i[2]) == 0x6c {
            let data = slice_subrange(i, 0, 3);
            let rest = slice_subrange(i, 3, i.len());
            proof {
                assert(data@ =~= i@.take(3));
                assert(rest@ =~= i@.skip(3));
            }
            Ok((rest, data))
        } else {
            Err(ParseError::Malformed)
        }
    } else {
        let p0 = i.len() < 1 || to_lower(i[0]) == 0x6e;
        let p1 = i.len() < 2 || to_lower(i[1]) == 0x69;
        if p0 && p1 {
            Err(ParseError::Incomplete(None))
        } else {
            Err(ParseError::Malformed)
        }
    }
}

/// nstring = nil / string, over mathematical sequences. The bare,
/// case-insensitive NIL token maps to the absent value; only when NIL is a
/// definite mismatch is the quoted/literal union tried, so the quoted string
/// "NIL" is a present value.
pub open spec fn spec_nstring(s: Seq<u8>) -> SpecParse<Option<Seq<u8>>> {
    match spec_nil(s) {
        SpecParse::Done(v, r) => SpecParse::Done(Option::None, r),
        SpecParse::More(h) => SpecParse::More(h),
        SpecParse::Bad => match spec_string(s) {
            SpecParse::Done(v, r) => SpecParse::Done(Option::Some(v), r),
            SpecParse::More(h) => SpecParse::More(h),
            SpecParse::Bad => SpecParse::Bad,
        },
    }
}

/// nstring = nil / string: `None` for the bare NIL sentinel, `Some` for a
/// present string value.
pub fn nstring(i: &[u8]) -> (r: Result<(&[u8], Option<&[u8]>), ParseError>)
    ensures
        outcome_of(r) == spec_nstring(i@),
{
    match nil(i) {
        Ok((rest, _)) => Ok((rest, None)),
        Err(ParseError::Incomplete(h)) => Err(ParseError::Incomplete(h)),
        Err(ParseError::Malformed) => match string(i) {
            Ok((rest, v)) => Ok((rest, Some(v))),
            Err(e) => Err(e),
        },
    }
}

/// nstring bytes validated as UTF-8 in the present case.
pub open spec fn spec_nstring_utf8(s: Seq<u8>) -> SpecParse<Option<Seq<char>>> {
    match spec_nil(s) {
        SpecParse::Done(v, r) => SpecParse::Done(Option::None, r),
        SpecParse::More(h) => SpecParse::More(h),
        SpecParse::Bad => match spec_string_utf8(s) {
            SpecParse::Done(v, r) => SpecParse::Done(Option::Some(v), r),
            SpecParse::More(h) => SpecParse::More(h),
            SpecParse::Bad => SpecParse::Bad,
        },
    }
}

/// nstring = nil / string, the present case validated as UTF-8.
pub fn nstring_utf8(i: &[u8]) -> (r: Result<(&[u8], Option<&str>), ParseError>)
    ensures
        outcome_of(r) == spec_nstring_utf8(i@),
{
    match nil(i) {
        Ok((rest, _)) => Ok((rest, None)),
        Err(ParseError::Incomplete(h)) => Err(ParseError::Incomplete(h)),
        Err(ParseError::Malformed) => match string_utf8(i) {
            Ok((rest, v)) => Ok((rest, Some(v))),
            Err(e) => Err(e),
        },
    }
}

/// text = *TEXT-CHAR, over mathematical sequences: the maximal run of
/// TEXT-CHAR bytes. It always succeeds, and zero length is allowed.
pub open spec fn spec_text(s: Seq<u8>) -> SpecParse<Seq<char>> {
    let k = text_run(s) as int;
    SpecParse::Done(decode_utf8(s.take(k)), s.skip(k))
}

/// text = *TEXT-CHAR; the run may be empty.
pub fn text(i: &[u8]) -> (r: Result<(&[u8], &str), ParseError>)
    ensures
        outcome_of(r) == spec_text(i@),
{
    let mut k: usize = 0;
    while k < i.len() && is_text_char(i[k])
        invariant
            0 <= k <= i@.len(),
            forall|j: int| 0 <= j < k ==> spec_is_text_char(i@[j]),
        decreases i@.len() - k,
    {
        k = k + 1;
    }
    proof {
        lemma_text_run_is(i@, k as int);
    }
    let data = slice_subrange(i, 0, k);
    let rest = slice_subrange(i, k, i.len());
    proof {
        assert(data@ =~= i@.take(k as int));
        assert(rest@ =~= i@.skip(k as int));
    }
    match bytes_as_utf8(data) {
        Some(st) => {
            proof {
                encode_utf8_decode_utf8(st@);
            }
            Ok((rest, st))
        },
        None => {
            proof {
                lemma_ascii_valid_utf8(data@);
            }
            Err(ParseError::Malformed)
        },
    }
}

/// Law: an atom requires at least one character — empty input, or input
/// beginning with a byte outside the ATOM-CHAR class, is malformed rather
/// than incomplete.
pub proof fn lemma_atom_rejects_empty(s: Seq<u8>)
    requires
        s.len() == 0 || !spec_is_atom_char(s[0]),
    ensures
        spec_atom(s) == SpecParse::<Seq<char>>::Bad,
{
}

/// Law: text allows zero length — it succeeds on every input, and on empty
/// input yields an empty value with nothing consumed.
pub proof fn lemma_text_total(s: Seq<u8>)
    ensures
        spec_text(s) is Done,
        s.len() == 0 ==> spec_text(s) == SpecParse::<Seq<char>>::Done(Seq::<char>::empty(), s),
{
    if s.len() == 0 {
        assert(s.take(0) =~= Seq::<u8>::empty());
        assert(s.skip(0) =~= s);
    }
}

/// Law: a bare token that case-insensitively spells NIL denotes the absent
/// value, whatever mix of cases it uses.
pub proof fn lemma_nstring_nil_absent(s: Seq<u8>)
    requires
        s.len() >= 3,
        ascii_lower(s[0]) == 0x6e,
        ascii_lower(s[1]) == 0x69,
        ascii_lower(s[2]) == 0x6c,
    ensures
        spec_nstring(s) == SpecParse::<Option<Seq<u8>>>::Done(Option::None, s.skip(3)),
{
}

/// The astring run never exceeds the input length.
pub proof fn lemma_astring_run_le(s: Seq<u8>)
    ensures
        astring_run(s) <= s.len(),
    decreases s.len(),
{
    if s.len() > 0 && spec_is_astring_char(s[0]) {
        lemma_astring_run_le(s.skip(1));
    }
}

/// The atom run never exceeds the input length.
pub proof fn lemma_atom_run_le(s: Seq<u8>)
    ensures
        atom_run(s) <= s.len(),
    decreases s.len(),
{
    if s.len() > 0 && spec_is_atom_char(s[0]) {
        lemma_atom_run_le(s.skip(1));
    }
}

/// The text run never exceeds the input length.
pub proof fn lemma_text_run_le(s: Seq<u8>)
    ensures
        text_run(s) <= s.len(),
    decreases s.len(),
{
    if s.len() > 0 && spec_is_text_char(s[0]) {
        lemma_text_run_le(s.skip(1));
    }
}

} // verus!
