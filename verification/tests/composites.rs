use imap_proto::combinators::{opt_opt, paren_delimited, parenthesized_list,
    parenthesized_nonempty_list};
use imap_proto::outcome::ParseError;
use imap_proto::strings::{astring, astring_utf8, atom, nil, nstring, nstring_utf8, quoted_utf8,
    string, string_utf8, text};

#[test]
fn test_string_literal() {
    match string(b"{3}\r\nXYZ") {
        Ok((_, value)) => {
            assert_eq!(value, b"XYZ");
        }
        rsp => panic!("unexpected response {:?}", rsp),
    }
}

#[test]
fn test_astring() {
    match astring(b"text ") {
        Ok((_, value)) => {
            assert_eq!(value, b"text");
        }
        rsp => panic!("unexpected response {:?}", rsp),
    }
}

#[test]
fn string_takes_either_form() {
    let r = string(b"\"hi\" there").unwrap();
    assert_eq!(r.1, b"hi");
    assert_eq!(r.0, b" there");
    let r = string(b"{2}\r\nhi there").unwrap();
    assert_eq!(r.1, b"hi");
    assert_eq!(r.0, b" there");
    assert_eq!(string(b"bare"), Err(ParseError::Malformed));
    assert_eq!(string(b""), Err(ParseError::Incomplete(None)));
}

#[test]
fn string_utf8_validates() {
    let r = string_utf8(b"{2}\r\n\xc3\xa9!").unwrap();
    assert_eq!(r.1, "\u{e9}");
    assert_eq!(r.0, b"!");
    assert_eq!(string_utf8(b"{1}\r\n\xff!"), Err(ParseError::Malformed));
}

#[test]
fn quoted_utf8_validates() {
    let r = quoted_utf8(b"\"ok\" ").unwrap();
    assert_eq!(r.1, "ok");
    assert_eq!(quoted_utf8(b"\"\xff\" "), Err(ParseError::Malformed));
}

#[test]
fn astring_leaves_the_space() {
    let r = astring(b"text ").unwrap();
    assert_eq!(r.1, b"text");
    assert_eq!(r.0, b" ");
}

#[test]
fn astring_falls_back_to_string() {
    let r = astring(b"\"has space\" x").unwrap();
    assert_eq!(r.1, b"has space");
    assert_eq!(r.0, b" x");
    let r = astring(b"{1}\r\nq x").unwrap();
    assert_eq!(r.1, b"q");
}

#[test]
fn astring_includes_resp_specials() {
    let r = astring(b"a]b ").unwrap();
    assert_eq!(r.1, b"a]b");
}

#[test]
fn astring_run_to_end_is_incomplete() {
    assert_eq!(astring(b"text"), Err(ParseError::Incomplete(None)));
    assert_eq!(astring(b""), Err(ParseError::Incomplete(None)));
}

#[test]
fn astring_utf8_ascii_token() {
    let r = astring_utf8(b"tok ").unwrap();
    assert_eq!(r.1, "tok");
}

#[test]
fn atom_requires_one_char() {
    assert_eq!(atom(b""), Err(ParseError::Malformed));
    assert_eq!(atom(b" x"), Err(ParseError::Malformed));
    assert_eq!(atom(b"(x"), Err(ParseError::Malformed));
}

#[test]
fn atom_reads_token() {
    let r = atom(b"abc ").unwrap();
    assert_eq!(r.1, "abc");
    assert_eq!(r.0, b" ");
    assert_eq!(atom(b"abc"), Err(ParseError::Incomplete(None)));
}

#[test]
fn atom_stops_at_resp_special() {
    let r = atom(b"abc]").unwrap();
    assert_eq!(r.1, "abc");
    assert_eq!(r.0, b"]");
}

#[test]
fn nil_is_case_insensitive() {
    let r = nil(b"NIL ").unwrap();
    assert_eq!(r.1, b"NIL");
    let r = nil(b"nIl ").unwrap();
    assert_eq!(r.1, b"nIl");
    assert_eq!(nil(b"NI"), Err(ParseError::Incomplete(None)));
    assert_eq!(nil(b"NX"), Err(ParseError::Malformed));
}

#[test]
fn nstring_case_variants_are_absent() {
    assert_eq!(nstring(b"NIL ").unwrap(), (&b" "[..], None));
    assert_eq!(nstring(b"nil ").unwrap(), (&b" "[..], None));
    assert_eq!(nstring(b"Nil ").unwrap(), (&b" "[..], None));
}

#[test]
fn nstring_quoted_nil_is_present() {
    let r = nstring(b"\"NIL\" ").unwrap();
    assert_eq!(r.1, Some(&b"NIL"[..]));
    assert_eq!(r.0, b" ");
}

#[test]
fn nstring_propagates_errors() {
    assert_eq!(nstring(b"NI"), Err(ParseError::Incomplete(None)));
    assert_eq!(nstring(b"bare"), Err(ParseError::Malformed));
    assert_eq!(nstring(b"\"open"), Err(ParseError::Incomplete(None)));
}

#[test]
fn nstring_utf8_variants() {
    assert_eq!(nstring_utf8(b"nil ").unwrap(), (&b" "[..], None));
    let r = nstring_utf8(b"\"NIL\" ").unwrap();
    assert_eq!(r.1, Some("NIL"));
    assert_eq!(nstring_utf8(b"{1}\r\n\xff!"), Err(ParseError::Malformed));
}

#[test]
fn text_allows_empty() {
    let r = text(b"").unwrap();
    assert_eq!(r.1, "");
    assert_eq!(r.0, b"");
}

#[test]
fn text_stops_at_crlf() {
    let r = text(b"hello world\r\n").unwrap();
    assert_eq!(r.1, "hello world");
    assert_eq!(r.0, b"\r\n");
}

#[test]
fn text_stops_at_high_bit() {
    let r = text(b"ab\x80").unwrap();
    assert_eq!(r.1, "ab");
    assert_eq!(r.0, b"\x80");
}

#[test]
fn paren_delimited_wraps_a_parser() {
    let r = paren_delimited(atom, b"(abc) ").unwrap();
    assert_eq!(r.1, "abc");
    assert_eq!(r.0, b" ");
    assert_eq!(paren_delimited(atom, b""), Err(ParseError::Incomplete(None)));
    assert_eq!(paren_delimited(atom, b"x"), Err(ParseError::Malformed));
    assert_eq!(paren_delimited(atom, b"(abc"), Err(ParseError::Incomplete(None)));
}

#[test]
fn parenthesized_list_elements() {
    let r = parenthesized_list(atom, b"(a b c) ").unwrap();
    assert_eq!(r.1, vec!["a", "b", "c"]);
    assert_eq!(r.0, b" ");
}

#[test]
fn parenthesized_list_allows_empty() {
    let r = parenthesized_list(atom, b"() ").unwrap();
    assert_eq!(r.1, Vec::<&str>::new());
    assert_eq!(r.0, b" ");
}

#[test]
fn parenthesized_nonempty_list_rejects_empty() {
    assert_eq!(parenthesized_nonempty_list(atom, b"() "), Err(ParseError::Malformed));
    let r = parenthesized_nonempty_list(atom, b"(a b) ").unwrap();
    assert_eq!(r.1, vec!["a", "b"]);
    assert_eq!(r.0, b" ");
}

#[test]
fn parenthesized_list_rejects_trailing_space() {
    assert_eq!(parenthesized_list(atom, b"(a ) "), Err(ParseError::Malformed));
}

#[test]
fn parenthesized_list_propagates_incomplete() {
    assert_eq!(parenthesized_list(atom, b"(a b"), Err(ParseError::Incomplete(None)));
    assert_eq!(parenthesized_list(atom, b"(a"), Err(ParseError::Incomplete(None)));
}

#[test]
fn opt_opt_softens_hard_failures_only() {
    let r = opt_opt(nstring, b"??rest").unwrap();
    assert_eq!(r.1, None);
    assert_eq!(r.0, b"??rest");
    let r = opt_opt(nstring, b"\"v\" ").unwrap();
    assert_eq!(r.1, Some(&b"v"[..]));
    assert_eq!(opt_opt(nstring, b"NI"), Err(ParseError::Incomplete(None)));
}
