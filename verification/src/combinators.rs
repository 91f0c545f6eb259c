//! Combinator helpers: parenthesized wrappers around a caller-supplied
//! sub-parser, and an adapter that turns a definite sub-parser failure into
//! an absent-value success.
//!
//! The sub-parser is an arbitrary function value, so these contracts speak
//! of its behaviour through `call_ensures`: every result the wrapper returns
//! is tied, case by case, to a chain of outcomes the sub-parser produced on
//! the successive remainders of the input.

use vstd::prelude::*;
use vstd::slice::slice_subrange;

use crate::outcome::{is_suffix_of, lemma_suffix_len, ParseError};

verus! {

/// How a parenthesized wrapper finishes once the sub-parser has returned `m`
/// on the bytes after the opening parenthesis: a sub-parser failure is passed
/// through, and after a sub-parser success the closing parenthesis is
/// required.
pub open spec fn paren_close_rel<'a, T>(
    m: Result<(&'a [u8], T), ParseError>,
    r: Result<(&'a [u8], T), ParseError>,
) -> bool {
    match m {
        Ok((mr, v)) => {
            if mr@.len() == 0 {
                r matches Err(e) && e == ParseError::Incomplete(Option::None)
            } else if mr@[0] == 0x29 {
                r matches Ok((rest, w)) && w == v && rest@ == mr@.skip(1)
            } else {
                r matches Err(e) && e == ParseError::Malformed
            }
        },
        Err(e) => r matches Err(e2) && e2 == e,
    }
}

/// A literal `(`, the sub-parser, then a literal `)`, with no interior
/// structure assumed.
pub fn paren_delimited<'a, T, F: Fn(&'a [u8]) -> Result<(&'a [u8], T), ParseError>>(
    f: F,
    i: &'a [u8],
) -> (r: Result<(&'a [u8], T), ParseError>)
    requires
        forall|x: &'a [u8]| call_requires(f, (x,)),
    ensures
        i@.len() == 0 ==> (r matches Err(e) && e == ParseError::Incomplete(Option::None)),
        i@.len() > 0 && i@[0] != 0x28 ==> (r matches Err(e) && e == ParseError::Malformed),
        i@.len() > 0 && i@[0] == 0x28 ==> exists|
            sub: &'a [u8],
            m: Result<(&'a [u8], T), ParseError>,
        | sub@ == i@.skip(1) && #[trigger] call_ensures(f, (sub,), m) && paren_close_rel(m, r),
{
    if i.len() == 0 {
        return Err(ParseError::Incomplete(None));
    }
    if i[0] != 0x28 {
        return Err(ParseError::Malformed);
    }
    let sub = slice_subrange(i, 1, i.len());
    proof {
        assert(sub@ =~= i@.skip(1));
    }
    let m = f(sub);
    let ghost gm = m;
    match m {
        Ok((mr, v)) => {
            if mr.len() == 0 {
                proof {
                    assert(call_ensures(f, (sub,), gm));
                }
                Err(ParseError::Incomplete(None))
            } else if mr[0] == 0x29 {
                let rest = slice_subrange(mr, 1, mr.len());
                proof {
                    assert(rest@ =~= mr@.skip(1));
                    assert(call_ensures(f, (sub,), gm));
                }
                Ok((rest, v))
            } else {
                proof {
                    assert(call_ensures(f, (sub,), gm));
                }
                Err(ParseError::Malformed)
            }
        },
        Err(e) => {
            proof {
                assert(call_ensures(f, (sub,), gm));
            }
            Err(e)
        },
    }
}

/// The sub-parser consumes a prefix of whatever input it is given: on
/// success, the remainder it returns is a suffix of that input. Every parser
/// of this crate has this shape.
pub open spec fn consumes_prefix<'a, T, F: Fn(&'a [u8]) -> Result<(&'a [u8], T), ParseError>>(
    f: F,
) -> bool {
    forall|x: &'a [u8], m: Result<(&'a [u8], T), ParseError>|
        #[trigger] call_ensures(f, (x,), m) ==> (m matches Ok((rr, v)) ==> is_suffix_of(rr@, x@))
}

/// Where the sub-parser is invoked next while gathering a list: the first
/// element is tried on the current bytes themselves, every later element
/// needs a single leading space.
pub open spec fn list_step_input<T>(vs: Seq<T>, cur: Seq<u8>, sub_view: Seq<u8>) -> bool {
    if vs.len() == 0 {
        sub_view == cur
    } else {
        cur.len() > 0 && cur[0] == 0x20 && sub_view == cur.skip(1)
    }
}

/// A reachable intermediate state of list gathering: starting from `start`
/// (the bytes after the opening parenthesis), the sub-parser accepted the
/// elements of `vs` one by one — each after the first preceded by a single
/// space — and `cur` is the remainder its last success returned.
pub open spec fn list_state_rel<'a, T, F: Fn(&'a [u8]) -> Result<(&'a [u8], T), ParseError>>(
    f: F,
    start: Seq<u8>,
    vs: Seq<T>,
    cur: Seq<u8>,
) -> bool
    decreases vs.len(),
{
    if vs.len() == 0 {
        cur == start
    } else {
        exists|prev: Seq<u8>, sub: &'a [u8], rr: &'a [u8]|
            #![trigger list_step_input(vs.drop_last(), prev, sub@), call_ensures(f, (sub,), Ok((rr, vs.last())))]
            {
                &&& list_state_rel(f, start, vs.drop_last(), prev)
                &&& list_step_input(vs.drop_last(), prev, sub@)
                &&& call_ensures(f, (sub,), Ok((rr, vs.last())))
                &&& cur == rr@
            }
    }
}

/// Extending a reachable state by one accepted element reaches the state
/// after it.
proof fn lemma_list_state_step<'a, T, F: Fn(&'a [u8]) -> Result<(&'a [u8], T), ParseError>>(
    f: F,
    start: Seq<u8>,
    vs: Seq<T>,
    prev: Seq<u8>,
    sub: &'a [u8],
    rr: &'a [u8],
    v: T,
)
    requires
        list_state_rel(f, start, vs, prev),
        list_step_input(vs, prev, sub@),
        call_ensures(f, (sub,), Ok((rr, v))),
    ensures
        list_state_rel(f, start, vs.push(v), rr@),
{
    let vs2 = vs.push(v);
    assert(vs2.drop_last() =~= vs);
    assert(vs2.last() == v);
    assert(list_state_rel(f, start, vs2.drop_last(), prev));
    assert(list_step_input(vs2.drop_last(), prev, sub@));
    assert(call_ensures(f, (sub,), Ok((rr, vs2.last()))));
}

/// Why list gathering stopped at state (`vs`, `cur`): with no element yet,
/// the sub-parser definitely failed on the opening bytes (the empty list);
/// with elements gathered, either no separating space follows, or one does
/// and the sub-parser definitely failed after it.
pub open spec fn list_stop_rel<'a, T, F: Fn(&'a [u8]) -> Result<(&'a [u8], T), ParseError>>(
    f: F,
    vs: Seq<T>,
    cur: Seq<u8>,
) -> bool {
    if vs.len() == 0 {
        exists|sub: &'a [u8]|
            sub@ == cur && #[trigger] call_ensures(f, (sub,), Err(ParseError::Malformed))
    } else {
        cur.len() > 0 && (cur[0] != 0x20 || exists|sub: &'a [u8]|
            sub@ == cur.skip(1) && #[trigger] call_ensures(f, (sub,), Err(ParseError::Malformed)))
    }
}

/// The closing step of list gathering at state (`vs`, `cur`): the end of the
/// available input asks for more bytes; a closing parenthesis yields exactly
/// the gathered elements, in order, with the remainder after it; any other
/// byte is malformed. With a leading space left by a failed continuation the
/// third branch applies: a trailing space before `)` is malformed.
pub open spec fn list_close_rel<'a, T>(
    vs: Seq<T>,
    cur: Seq<u8>,
    r: Result<(&'a [u8], Vec<T>), ParseError>,
) -> bool {
    if cur.len() == 0 {
        r matches Err(e) && e == ParseError::Incomplete(Option::None)
    } else if cur[0] == 0x29 {
        r matches Ok((rest, w)) && w@ == vs && rest@ == cur.skip(1)
    } else {
        r matches Err(e) && e == ParseError::Malformed
    }
}

/// The whole behaviour of a parenthesized list: empty input and a missing
/// opening parenthesis are decided by the wrapper itself; after the `(`, the
/// result is explained by a chain of sub-parser outcomes on the successive
/// remainders — an `Incomplete` among them is propagated with its hint, the
/// end of input between elements asks for more, a definite failure on the
/// first element is the whole list's failure when one element is required,
/// and otherwise gathering stopped and the closing step decides.
pub open spec fn list_result_rel<'a, T, F: Fn(&'a [u8]) -> Result<(&'a [u8], T), ParseError>>(
    f: F,
    input: Seq<u8>,
    need_one: bool,
    r: Result<(&'a [u8], Vec<T>), ParseError>,
) -> bool {
    if input.len() == 0 {
        r matches Err(e) && e == ParseError::Incomplete(Option::None)
    } else if input[0] != 0x28 {
        r matches Err(e) && e == ParseError::Malformed
    } else {
        let start = input.skip(1);
        ||| exists|vs: Seq<T>, cur: Seq<u8>, sub: &'a [u8], h: Option<usize>|
            #![trigger list_state_rel(f, start, vs, cur), call_ensures(f, (sub,), Err(ParseError::Incomplete(h)))]
            {
                &&& list_state_rel(f, start, vs, cur)
                &&& list_step_input(vs, cur, sub@)
                &&& call_ensures(f, (sub,), Err(ParseError::Incomplete(h)))
                &&& (r matches Err(e) && e == ParseError::Incomplete(h))
            }
        ||| exists|vs: Seq<T>, cur: Seq<u8>|
            #![trigger list_state_rel(f, start, vs, cur)]
            {
                &&& list_state_rel(f, start, vs, cur)
                &&& vs.len() >= 1
                &&& cur.len() == 0
                &&& (r matches Err(e) && e == ParseError::Incomplete(Option::None))
            }
        ||| (need_one && (exists|sub: &'a [u8]|
            sub@ == start && #[trigger] call_ensures(f, (sub,), Err(ParseError::Malformed))) && (
        r matches Err(e) && e == ParseError::Malformed))
        ||| exists|vs: Seq<T>, cur: Seq<u8>|
            #![trigger list_state_rel(f, start, vs, cur)]
            {
                &&& list_state_rel(f, start, vs, cur)
                &&& (need_one ==> vs.len() >= 1)
                &&& list_stop_rel(f, vs, cur)
                &&& list_close_rel(vs, cur, r)
            }
    }
}

/// A space-separated, possibly empty sequence of sub-parser values between
/// parentheses. On success the returned vector holds exactly the values the
/// sub-parser accepted, in input order, and the remainder follows the `)`.
pub fn parenthesized_list<'a, T, F: Fn(&'a [u8]) -> Result<(&'a [u8], T), ParseError>>(
    f: F,
    i: &'a [u8],
) -> (r: Result<(&'a [u8], Vec<T>), ParseError>)
    requires
        forall|x: &'a [u8]| call_requires(f, (x,)),
        consumes_prefix(f),
    ensures
        list_result_rel(f, i@, false, r),
{
    parenthesized_items(f, i, false)
}

/// As `parenthesized_list`, but at least one element is required: empty
/// parentheses are malformed, and a success holds one element or more.
pub fn parenthesized_nonempty_list<'a, T, F: Fn(&'a [u8]) -> Result<(&'a [u8], T), ParseError>>(
    f: F,
    i: &'a [u8],
) -> (r: Result<(&'a [u8], Vec<T>), ParseError>)
    requires
        forall|x: &'a [u8]| call_requires(f, (x,)),
        consumes_prefix(f),
    ensures
        list_result_rel(f, i@, true, r),
{
    parenthesized_items(f, i, true)
}

/// Shared body of the two parenthesized-list forms: `need_one` decides
/// whether a sub-parser failure on the first element is a malformed list or
/// an empty one.
fn parenthesized_items<'a, T, F: Fn(&'a [u8]) -> Result<(&'a [u8], T), ParseError>>(
    f: F,
    i: &'a [u8],
    need_one: bool,
) -> (r: Result<(&'a [u8], Vec<T>), ParseError>)
    requires
        forall|x: &'a [u8]| call_requires(f, (x,)),
        consumes_prefix(f),
    ensures
        list_result_rel(f, i@, need_one, r),
{
    if i.len() == 0 {
        return Err(ParseError::Incomplete(None));
    }
    if i[0] != 0x28 {
        return Err(ParseError::Malformed);
    }
    let ghost start = i@.skip(1);
    let mut cur = slice_subrange(i, 1, i.len());
    proof {
        assert(cur@ =~= start);
        assert(list_state_rel(f, start, Seq::<T>::empty(), start));
    }
    let mut vs: Vec<T> = Vec::new();
    let m0 = f(cur);
    let ghost gm0 = m0;
    match m0 {
        Err(ParseError::Incomplete(h)) => {
            proof {
                assert(call_ensures(f, (cur,), Err(ParseError::Incomplete(h))));
                assert(list_step_input(Seq::<T>::empty(), start, cur@));
            }
            return Err(ParseError::Incomplete(h));
        },
        Err(ParseError::Malformed) => {
            proof {
                assert(call_ensures(f, (cur,), Err(ParseError::Malformed)));
            }
            if need_one {
                return Err(ParseError::Malformed);
            }
        },
        Ok((r1, v)) => {
            let ghost gv = v;
            proof {
                assert(call_ensures(f, (cur,), Ok((r1, gv))));
            }
            vs.push(v);
            proof {
                assert(list_step_input(Seq::<T>::empty(), start, cur@));
                lemma_list_state_step(f, start, Seq::<T>::empty(), start, cur, r1, gv);
                assert(vs@ =~= Seq::<T>::empty().push(gv));
            }
            cur = r1;
            let mut more = true;
            while more
                invariant
                    forall|x: &'a [u8]| call_requires(f, (x,)),
                    consumes_prefix(f),
                    i@.len() > 0 && i@[0] == 0x28,
                    start == i@.skip(1),
                    vs@.len() >= 1,
                    list_state_rel(f, start, vs@, cur@),
                    !more ==> list_stop_rel(f, vs@, cur@),
                decreases cur@.len() + (if more {
                    1int
                } else {
                    0int
                }),
            {
                if cur.len() == 0 {
                    return Err(ParseError::Incomplete(None));
                }
                if cur[0] != 0x20 {
                    more = false;
                } else {
                    let after_sp = slice_subrange(cur, 1, cur.len());
                    proof {
                        assert(after_sp@ =~= cur@.skip(1));
                    }
                    let me = f(after_sp);
                    let ghost gme = me;
                    match me {
                        Ok((r2, v2)) => {
                            let ghost gv2 = v2;
                            let ghost prev = cur@;
                            let ghost old_vs = vs@;
                            proof {
                                assert(call_ensures(f, (after_sp,), Ok((r2, gv2))));
                                lemma_suffix_len(r2@, after_sp@);
                            }
                            vs.push(v2);
                            proof {
                                assert(list_step_input(old_vs, prev, after_sp@));
                                lemma_list_state_step(f, start, old_vs, prev, after_sp, r2, gv2);
                                assert(vs@ =~= old_vs.push(gv2));
                            }
                            cur = r2;
                        },
                        Err(ParseError::Malformed) => {
                            proof {
                                assert(call_ensures(f, (after_sp,), Err(ParseError::Malformed)));
                            }
                            more = false;
                        },
                        Err(ParseError::Incomplete(h)) => {
                            proof {
                                assert(call_ensures(
                                    f,
                                    (after_sp,),
                                    Err(ParseError::Incomplete(h)),
                                ));
                                assert(list_step_input(vs@, cur@, after_sp@));
                            }
                            return Err(ParseError::Incomplete(h));
                        },
                    }
                }
            }
        },
    }
    if cur.len() == 0 {
        return Err(ParseError::Incomplete(None));
    }
    if cur[0] != 0x29 {
        return Err(ParseError::Malformed);
    }
    let rest = slice_subrange(cur, 1, cur.len());
    proof {
        assert(rest@ =~= cur@.skip(1));
    }
    Ok((rest, vs))
}

/// How `opt_opt` derives its result from the sub-parser's outcome `m`: a
/// definite failure becomes an absent value with the input left unconsumed;
/// anything else — a success or a request for more input — passes through.
pub open spec fn opt_fallback_rel<'a, T>(
    m: Result<(&'a [u8], Option<T>), ParseError>,
    input: Seq<u8>,
    r: Result<(&'a [u8], Option<T>), ParseError>,
) -> bool {
    match m {
        Err(ParseError::Malformed) => r matches Ok((rest, v)) && rest@ == input && v is None,
        _ => r == m,
    }
}

/// Adapts a sub-parser that itself returns an optional value, so that a
/// definite parse failure degrades to an absent value with the input left
/// unconsumed. Incompleteness is never intercepted: a request for more input
/// passes through unchanged.
pub fn opt_opt<'a, T, F: Fn(&'a [u8]) -> Result<(&'a [u8], Option<T>), ParseError>>(
    f: F,
    i: &'a [u8],
) -> (r: Result<(&'a [u8], Option<T>), ParseError>)
    requires
        call_requires(f, (i,)),
    ensures
        exists|m: Result<(&'a [u8], Option<T>), ParseError>|
            #[trigger] call_ensures(f, (i,), m) && opt_fallback_rel(m, i@, r),
{
    let m = f(i);
    let ghost gm = m;
    match m {
        Err(ParseError::Malformed) => {
            proof {
                assert(call_ensures(f, (i,), gm));
            }
            Ok((i, None))
        },
        Ok(p) => {
            proof {
                assert(call_ensures(f, (i,), gm));
            }
            Ok(p)
        },
        Err(e) => {
            proof {
                assert(call_ensures(f, (i,), gm));
            }
            Err(e)
        },
    }
}

} // verus!
