use imap_proto::chars::{
    is_astring_char, is_atom_char, is_atom_specials, is_char, is_char8, is_list_wildcards,
    is_quoted_specials, is_resp_specials, is_text_char,
};
use imap_proto::literal::literal;
use imap_proto::outcome::ParseError;
use imap_proto::quoted::{quoted, quoted_data};
use imap_proto::scalars::{number, number_64};

#[test]
fn classifier_boundary_bytes() {
    assert!(!is_char8(0x00));
    assert!(is_char8(0x01));
    assert!(is_char8(0xff));

    assert!(!is_char(0x00));
    assert!(is_char(0x01));
    assert!(is_char(0x1f));
    assert!(is_char(0x20));
    assert!(is_char(0x7f));
    assert!(!is_char(0x80));

    assert!(is_text_char(b'a'));
    assert!(!is_text_char(b'\r'));
    assert!(!is_text_char(b'\n'));
    assert!(!is_text_char(0x80));

    assert!(is_quoted_specials(b'"'));
    assert!(is_quoted_specials(b'\\'));
    assert!(!is_quoted_specials(b'a'));

    assert!(is_resp_specials(b']'));
    assert!(!is_resp_specials(b'['));

    assert!(is_list_wildcards(b'%'));
    assert!(is_list_wildcards(b'*'));
    assert!(!is_list_wildcards(b'+'));
}

#[test]
fn classifier_atom_hierarchy() {
    assert!(is_atom_specials(b'('));
    assert!(is_atom_specials(b')'));
    assert!(is_atom_specials(b'{'));
    assert!(is_atom_specials(b' '));
    assert!(is_atom_specials(0x1f));
    assert!(is_atom_specials(b'%'));
    assert!(is_atom_specials(b'"'));
    assert!(is_atom_specials(b']'));
    assert!(!is_atom_specials(b'a'));

    assert!(is_atom_char(b'a'));
    assert!(!is_atom_char(b']'));
    assert!(!is_atom_char(0x80));
    assert!(!is_atom_char(b' '));

    assert!(is_astring_char(b'a'));
    assert!(is_astring_char(b']'));
    assert!(!is_astring_char(b'%'));
}

#[test]
fn number_reads_digit_run() {
    let r = number(b"123 rest").unwrap();
    assert_eq!(r.1, 123);
    assert_eq!(r.0, b" rest");
}

#[test]
fn number_with_leading_zeros() {
    let r = number(b"00042)").unwrap();
    assert_eq!(r.1, 42);
    assert_eq!(r.0, b")");
}

#[test]
fn number_needs_a_terminator() {
    assert_eq!(number(b""), Err(ParseError::Incomplete(None)));
    assert_eq!(number(b"123"), Err(ParseError::Incomplete(None)));
}

#[test]
fn number_rejects_nondigit() {
    assert_eq!(number(b"abc"), Err(ParseError::Malformed));
    assert_eq!(number(b" 1"), Err(ParseError::Malformed));
}

#[test]
fn number_rejects_overflow() {
    assert_eq!(number(b"4294967296}"), Err(ParseError::Malformed));
    let r = number(b"4294967295}").unwrap();
    assert_eq!(r.1, 4294967295);
}

#[test]
fn number_64_width() {
    let r = number_64(b"4294967296}").unwrap();
    assert_eq!(r.1, 4294967296);
    let r = number_64(b"18446744073709551615}").unwrap();
    assert_eq!(r.1, 18446744073709551615);
    assert_eq!(number_64(b"18446744073709551616}"), Err(ParseError::Malformed));
}

#[test]
fn quoted_keeps_escape_markers() {
    let r = quoted(b"\"a\\\"b\"tail").unwrap();
    assert_eq!(r.1, b"a\\\"b");
    assert_eq!(r.0, b"tail");
}

#[test]
fn quoted_empty_value() {
    let r = quoted(b"\"\"x").unwrap();
    assert_eq!(r.1, b"");
    assert_eq!(r.0, b"x");
}

#[test]
fn quoted_unterminated_is_incomplete() {
    assert_eq!(quoted(b""), Err(ParseError::Incomplete(None)));
    assert_eq!(quoted(b"\"abc"), Err(ParseError::Incomplete(None)));
    assert_eq!(quoted(b"\"ab\\\""), Err(ParseError::Incomplete(None)));
}

#[test]
fn quoted_wrong_delimiter_is_malformed() {
    assert_eq!(quoted(b"x\""), Err(ParseError::Malformed));
}

#[test]
fn quoted_data_splits_at_unescaped_quote() {
    let r = quoted_data(b"ab\"cd").unwrap();
    assert_eq!(r.1, b"ab");
    assert_eq!(r.0, b"\"cd");
    let r = quoted_data(b"no quote").unwrap();
    assert_eq!(r.1, b"no quote");
    assert_eq!(r.0, b"");
}

#[test]
fn literal_round_trip_with_odd_tail() {
    let r = literal(b"{3}\r\nXYZtail").unwrap();
    assert_eq!(r.1, b"XYZ");
    assert_eq!(r.0, b"tail");
    let r = literal(b"{2}\r\nab{\"\r\n").unwrap();
    assert_eq!(r.1, b"ab");
    assert_eq!(r.0, b"{\"\r\n");
}

#[test]
fn literal_payload_is_binary_safe() {
    let r = literal(b"{6}\r\n\x01\r\n\"()rest").unwrap();
    assert_eq!(r.1, b"\x01\r\n\"()");
    assert_eq!(r.0, b"rest");
}

#[test]
fn literal_rejects_nul_payload() {
    assert_eq!(literal(b"{3}\r\nX\x00Z"), Err(ParseError::Malformed));
}

#[test]
fn literal_deficit_is_precise() {
    assert_eq!(literal(b"{5}\r\nab"), Err(ParseError::Incomplete(Some(3))));
    assert_eq!(literal(b"{5}\r\n"), Err(ParseError::Incomplete(Some(5))));
}

#[test]
fn literal_header_forms() {
    assert_eq!(literal(b""), Err(ParseError::Incomplete(None)));
    assert_eq!(literal(b"{"), Err(ParseError::Incomplete(None)));
    assert_eq!(literal(b"{3"), Err(ParseError::Incomplete(None)));
    assert_eq!(literal(b"{3}"), Err(ParseError::Incomplete(None)));
    assert_eq!(literal(b"{3}\r"), Err(ParseError::Incomplete(None)));
    assert_eq!(literal(b"x"), Err(ParseError::Malformed));
    assert_eq!(literal(b"{}"), Err(ParseError::Malformed));
    assert_eq!(literal(b"{3}x"), Err(ParseError::Malformed));
    assert_eq!(literal(b"{3}\rx"), Err(ParseError::Malformed));
    assert_eq!(literal(b"{4294967296}\r\n"), Err(ParseError::Malformed));
}
