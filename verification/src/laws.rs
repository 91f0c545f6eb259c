//! Cross-cutting laws of the parser family.

use vstd::prelude::*;

use crate::literal::spec_literal;
use crate::outcome::{is_suffix_of, lemma_skip_is_suffix, lemma_suffix_transitive, SpecParse};
use crate::quoted::{lemma_quoted_data_len_stops, quoted_data_len, spec_quoted, spec_quoted_data};
use crate::scalars::{digit_run, lemma_digit_run_le, spec_number, spec_number_64};
use crate::strings::{
    astring_run, atom_run, lemma_astring_run_le, lemma_atom_run_le, lemma_text_run_le,
    spec_astring, spec_astring_utf8, spec_atom, spec_nil, spec_nstring, spec_nstring_utf8,
    spec_quoted_utf8, spec_string, spec_string_utf8, spec_text, text_run,
};

verus! {

/// The remaining input of a number parse is a suffix of the input.
proof fn suffix_after_number(s: Seq<u8>)
    ensures
        spec_number(s) matches SpecParse::Done(_, rest) ==> is_suffix_of(rest, s),
        spec_number_64(s) matches SpecParse::Done(_, rest) ==> is_suffix_of(rest, s),
{
    lemma_digit_run_le(s);
    let k = digit_run(s) as int;
    if k < s.len() {
        lemma_skip_is_suffix(s, k);
    }
}

/// The remaining input of a quoted-string parse is a suffix of the input.
proof fn suffix_after_quoted(s: Seq<u8>)
    ensures
        spec_quoted(s) matches SpecParse::Done(_, rest) ==> is_suffix_of(rest, s),
{
    if s.len() > 0 && s[0] == 0x22 {
        lemma_quoted_data_len_stops(s.skip(1));
        let k = quoted_data_len(s.skip(1)) as int;
        if 1 + k < s.len() {
            lemma_skip_is_suffix(s, 2 + k);
        }
    }
}

/// The remaining input of a literal parse is a suffix of the input.
proof fn suffix_after_literal(s: Seq<u8>)
    ensures
        spec_literal(s) matches SpecParse::Done(_, rest) ==> is_suffix_of(rest, s),
{
    if spec_literal(s) is Done {
        let t = s.skip(1);
        lemma_digit_run_le(t);
        let k = digit_run(t) as int;
        let r1 = t.skip(k);
        lemma_skip_is_suffix(s, 1);
        lemma_skip_is_suffix(t, k);
        lemma_suffix_transitive(r1, t, s);
        let r2 = r1.skip(3);
        lemma_skip_is_suffix(r1, 3);
        lemma_suffix_transitive(r2, r1, s);
        let n = spec_number(t)->Done_0;
        lemma_skip_is_suffix(r2, n as int);
        lemma_suffix_transitive(r2.skip(n as int), r2, s);
    }
}

/// The remaining input of a string-union parse is a suffix of the input.
proof fn suffix_after_string(s: Seq<u8>)
    ensures
        spec_string(s) matches SpecParse::Done(_, rest) ==> is_suffix_of(rest, s),
{
    suffix_after_quoted(s);
    suffix_after_literal(s);
}

/// Law: a successful parse consumes a prefix of its input. The remaining
/// input that every parser of this crate hands back on success is a suffix
/// of the input it was given, so a caller that re-parses the remainder — as
/// the streaming discipline prescribes after every success — never re-reads
/// a byte that was already consumed.
pub proof fn lemma_remaining_is_suffix(s: Seq<u8>)
    ensures
        spec_quoted_data(s) matches SpecParse::Done(_, rest) ==> is_suffix_of(rest, s),
        spec_number(s) matches SpecParse::Done(_, rest) ==> is_suffix_of(rest, s),
        spec_number_64(s) matches SpecParse::Done(_, rest) ==> is_suffix_of(rest, s),
        spec_quoted(s) matches SpecParse::Done(_, rest) ==> is_suffix_of(rest, s),
        spec_literal(s) matches SpecParse::Done(_, rest) ==> is_suffix_of(rest, s),
        spec_string(s) matches SpecParse::Done(_, rest) ==> is_suffix_of(rest, s),
        spec_astring(s) matches SpecParse::Done(_, rest) ==> is_suffix_of(rest, s),
        spec_atom(s) matches SpecParse::Done(_, rest) ==> is_suffix_of(rest, s),
        spec_nil(s) matches SpecParse::Done(_, rest) ==> is_suffix_of(rest, s),
        spec_nstring(s) matches SpecParse::Done(_, rest) ==> is_suffix_of(rest, s),
        spec_text(s) matches SpecParse::Done(_, rest) ==> is_suffix_of(rest, s),
        spec_string_utf8(s) matches SpecParse::Done(_, rest) ==> is_suffix_of(rest, s),
        spec_quoted_utf8(s) matches SpecParse::Done(_, rest) ==> is_suffix_of(rest, s),
        spec_astring_utf8(s) matches SpecParse::Done(_, rest) ==> is_suffix_of(rest, s),
        spec_nstring_utf8(s) matches SpecParse::Done(_, rest) ==> is_suffix_of(rest, s),
{
    lemma_quoted_data_len_stops(s);
    lemma_skip_is_suffix(s, quoted_data_len(s) as int);
    suffix_after_number(s);
    suffix_after_quoted(s);
    suffix_after_literal(s);
    suffix_after_string(s);
    lemma_astring_run_le(s);
    let ka = astring_run(s) as int;
    if ka < s.len() && ka > 0 {
        lemma_skip_is_suffix(s, ka);
    }
    lemma_atom_run_le(s);
    let kt = atom_run(s) as int;
    if 0 < kt < s.len() {
        lemma_skip_is_suffix(s, kt);
    }
    if s.len() >= 3 {
        lemma_skip_is_suffix(s, 3);
    }
    lemma_text_run_le(s);
    lemma_skip_is_suffix(s, text_run(s) as int);
}

} // verus!
