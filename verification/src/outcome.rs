//! The tri-state outcome every parser reports, and its specification-level
//! counterpart.

use vstd::prelude::*;

verus! {

/// Why a parse did not produce a value.
///
/// The distinction is the central invariant of this layer: `Incomplete` means
/// the input ended before a decision could be made (buffer more bytes and
/// retry the same parse from the same offset), while `Malformed` means the
/// bytes present definitely violate the grammar and waiting cannot help.
#[derive(Debug, Clone, Copy, PartialEq, Eq)]
pub enum ParseError {
    /// More input is needed. `Some(n)` promises that at least `n` further
    /// bytes are required; `None` leaves the amount open.
    Incomplete(Option<usize>),
    /// The available bytes definitely violate the grammar.
    Malformed,
}

/// The outcome of a parse at the specification level: a value together with
/// the remaining (unconsumed) suffix of the input, a request for more input,
/// or a definite grammar violation.
#[verifier::ext_equal]
pub enum SpecParse<V> {
    Done(V, Seq<u8>),
    More(Option<nat>),
    Bad,
}

/// The incompleteness hint as a mathematical quantity.
pub open spec fn hint_of(h: Option<usize>) -> Option<nat> {
    match h {
        Option::Some(n) => Option::Some(n as nat),
        Option::None => Option::None,
    }
}

/// The specification-level reading of an executable parse result.
pub open spec fn outcome_of<T: DeepView>(r: Result<(&[u8], T), ParseError>) -> SpecParse<T::V> {
    match r {
        Result::Ok((rest, v)) => SpecParse::Done(v.deep_view(), rest@),
        Result::Err(ParseError::Incomplete(h)) => SpecParse::More(hint_of(h)),
        Result::Err(ParseError::Malformed) => SpecParse::Bad,
    }
}

/// True when `rest` is a suffix of `s`.
pub open spec fn is_suffix_of(rest: Seq<u8>, s: Seq<u8>) -> bool {
    exists|c: int| 0 <= c <= s.len() && rest == s.skip(c)
}

/// Dropping a prefix leaves a suffix.
pub proof fn lemma_skip_is_suffix(s: Seq<u8>, c: int)
    requires
        0 <= c <= s.len(),
    ensures
        is_suffix_of(s.skip(c), s),
{
    assert(0 <= c <= s.len() && s.skip(c) == s.skip(c));
}

/// A suffix is never longer than the sequence it comes from.
pub proof fn lemma_suffix_len(rest: Seq<u8>, s: Seq<u8>)
    requires
        is_suffix_of(rest, s),
    ensures
        rest.len() <= s.len(),
{
    let c = choose|c: int| 0 <= c <= s.len() && rest == s.skip(c);
    assert(rest.len() == s.len() - c);
}

/// A suffix of a suffix of `s` is a suffix of `s`.
pub proof fn lemma_suffix_transitive(r2: Seq<u8>, r1: Seq<u8>, s: Seq<u8>)
    requires
        is_suffix_of(r2, r1),
        is_suffix_of(r1, s),
    ensures
        is_suffix_of(r2, s),
{
    let c2 = choose|c: int| 0 <= c <= r1.len() && r2 == r1.skip(c);
    let c1 = choose|c: int| 0 <= c <= s.len() && r1 == s.skip(c);
    assert(r2 =~= s.skip(c1 + c2));
}

} // verus!
