//! Tests of the physical ADI parser: tokenizing, specifier framing,
//! header and record termination, lengths and filler handling.

use adif::AdifParseError;
use adif::adi::AdiParseState;
use adif::adi::adi_parse;
use adif::adi::adi_parse_string;
use adif::adi_tokens::AdiToken;

#[test]
fn empty_input_parses_to_empty_file() {
    let f = adi_parse_string("").expect("empty input must parse");
    assert!(f.adi_header.is_none());
    assert_eq!(f.adi_records.len(), 0);
}

#[test]
fn specifier_with_filler_decodes_name_and_value() {
    let f = adi_parse_string("<NAME:5>VALUEthis is filler<eor>").expect("must parse");
    assert!(f.adi_header.is_none());
    assert_eq!(f.adi_records.len(), 1);
    let rec = &f.adi_records[0];
    assert_eq!(rec.adir_fields.len(), 1);
    let spec = &rec.adir_fields[0];
    assert_eq!(spec.adif_name, "NAME");
    assert_eq!(spec.adif_name_canon, "name");
    assert_eq!(spec.adif_length, 5);
    assert_eq!(spec.adif_bytes, b"VALUE".to_vec());
    assert!(spec.adif_type.is_none());
}

#[test]
fn delimiters_inside_declared_length_are_data() {
    // length 3, value bytes literally '<', ':', '>'
    let f = adi_parse_string("<f:3><:><eor>").expect("must parse");
    assert_eq!(f.adi_records.len(), 1);
    let spec = &f.adi_records[0].adir_fields[0];
    assert_eq!(spec.adif_name_canon, "f");
    assert_eq!(spec.adif_bytes, b"<:>".to_vec());
}

#[test]
fn value_spanning_many_delimiter_tokens() {
    let f = adi_parse_string("<f:5><<:>><eor>").expect("must parse");
    let spec = &f.adi_records[0].adir_fields[0];
    assert_eq!(spec.adif_bytes, b"<<:>>".to_vec());
}

#[test]
fn value_truncates_overlong_run() {
    let f = adi_parse_string("<a:2>abcdef<eor>").expect("must parse");
    let spec = &f.adi_records[0].adir_fields[0];
    assert_eq!(spec.adif_bytes, b"ab".to_vec());
}

#[test]
fn eoh_case_variants_terminate_identically() {
    for marker in ["<EOH>", "<eoh>", "<EoH>"] {
        let input = format!("preamble{}", marker);
        let f = adi_parse_string(&input).expect("header must terminate");
        let h = f.adi_header.expect("header present");
        assert_eq!(h.adih_content, b"preamble".to_vec());
        assert_eq!(h.adih_fields.len(), 0);
        assert_eq!(f.adi_records.len(), 0);
    }
}

#[test]
fn eor_case_variants_terminate_identically() {
    for marker in ["<EOR>", "<eor>", "<EoR>"] {
        let input = format!("x<eoh><call:6>KK6ZBI{}", marker);
        let f = adi_parse_string(&input).expect("record must terminate");
        assert_eq!(f.adi_records.len(), 1);
        assert_eq!(f.adi_records[0].adir_fields.len(), 1);
        assert_eq!(f.adi_records[0].adir_fields[0].adif_bytes, b"KK6ZBI".to_vec());
    }
}

#[test]
fn length_over_maximum_fails_with_enough_bytes() {
    let mut input = String::from("<f:1025>");
    input.push_str(&"x".repeat(1025));
    input.push_str("<eor>");
    match adi_parse_string(&input) {
        Err(AdifParseError::ADIF_EBADINPUT(_)) => {}
        other => panic!("expected malformed input, got {:?}", other.is_ok()),
    }
}

#[test]
fn length_over_maximum_fails_without_enough_bytes() {
    match adi_parse_string("<f:2000>xy") {
        Err(AdifParseError::ADIF_EBADINPUT(_)) => {}
        other => panic!("expected malformed input, got {:?}", other.is_ok()),
    }
}

#[test]
fn length_at_maximum_is_accepted() {
    let mut input = String::from("<f:1024>");
    input.push_str(&"y".repeat(1024));
    input.push_str("<eor>");
    let f = adi_parse_string(&input).expect("maximum length must parse");
    assert_eq!(f.adi_records[0].adir_fields[0].adif_bytes.len(), 1024);
}

#[test]
fn length_must_be_plain_digits() {
    match adi_parse_string("<a:+3>abc<eor>") {
        Err(AdifParseError::ADIF_EBADINPUT(_)) => {}
        other => panic!("expected malformed input, got {:?}", other.is_ok()),
    }
}

#[test]
fn length_with_leading_zero_is_accepted() {
    let f = adi_parse_string("<a:03>abc<eor>").expect("must parse");
    assert_eq!(f.adi_records[0].adir_fields[0].adif_length, 3);
    assert_eq!(f.adi_records[0].adir_fields[0].adif_bytes, b"abc".to_vec());
}

#[test]
fn header_without_eoh_fails() {
    match adi_parse_string("foobar") {
        Err(AdifParseError::ADIF_EBADINPUT(msg)) => {
            assert!(msg.contains("unexpected end of input"));
        }
        other => panic!("expected malformed input, got {:?}", other.is_ok()),
    }
}

#[test]
fn header_with_specifier_but_no_eoh_fails() {
    match adi_parse_string("foobar<eoh:3>789") {
        Err(AdifParseError::ADIF_EBADINPUT(_)) => {}
        other => panic!("expected malformed input, got {:?}", other.is_ok()),
    }
}

#[test]
fn header_keeps_stray_colon_and_rab_as_text() {
    let f = adi_parse_string("a:b>c<eoh>").expect("must parse");
    let h = f.adi_header.expect("header present");
    assert_eq!(h.adih_content, b"a:b>c".to_vec());
}

#[test]
fn header_collects_specifiers() {
    let f = adi_parse_string("pre<foo:3>123<bar:4>4567<eoh>").expect("must parse");
    let h = f.adi_header.expect("header present");
    assert_eq!(h.adih_content, b"pre".to_vec());
    assert_eq!(h.adih_fields.len(), 2);
    assert_eq!(h.adih_fields[0].adif_name_canon, "foo");
    assert_eq!(h.adih_fields[0].adif_bytes, b"123".to_vec());
    assert_eq!(h.adih_fields[1].adif_name_canon, "bar");
    assert_eq!(h.adih_fields[1].adif_bytes, b"4567".to_vec());
}

#[test]
fn type_tagged_specifier_is_not_yet_implemented() {
    match adi_parse_string("<call:6:S>KK6ZBI<eor>") {
        Err(AdifParseError::ADIF_ENOT_YET_IMPLEMENTED(msg)) => {
            assert!(msg.contains("typed values"));
        }
        other => panic!("expected not-yet-implemented, got {:?}", other.is_ok()),
    }
}

#[test]
fn record_without_eor_fails() {
    match adi_parse_string("<call:1>x") {
        Err(AdifParseError::ADIF_EBADINPUT(_)) => {}
        other => panic!("expected malformed input, got {:?}", other.is_ok()),
    }
}

#[test]
fn control_byte_in_input_fails() {
    match adi_parse(b"<call:6>KK6\x01BI<eor>") {
        Err(AdifParseError::ADIF_EBADINPUT(msg)) => {
            assert!(msg.contains("ASCII"));
        }
        other => panic!("expected malformed input, got {:?}", other.is_ok()),
    }
}

#[test]
fn non_ascii_byte_in_input_fails() {
    match adi_parse(b"<call:2>\xc3\xa9<eor>") {
        Err(AdifParseError::ADIF_EBADINPUT(_)) => {}
        other => panic!("expected malformed input, got {:?}", other.is_ok()),
    }
}

#[test]
fn crlf_bytes_are_accepted_in_runs() {
    let f = adi_parse_string("line1\r\nline2<eoh>\r\n<call:6>KK6ZBI\r\n<eor>\r\n")
        .expect("must parse");
    let h = f.adi_header.expect("header present");
    assert_eq!(h.adih_content, b"line1\r\nline2".to_vec());
    assert_eq!(f.adi_records.len(), 1);
}

#[test]
fn eoh_at_start_has_no_header_and_fails_as_record() {
    // An input that begins with '<' has no header, so "<eoh>" alone is
    // taken for a record and its frame is malformed.
    match adi_parse_string("<eoh>") {
        Err(AdifParseError::ADIF_EBADINPUT(_)) => {}
        other => panic!("expected malformed input, got {:?}", other.is_ok()),
    }
}

#[test]
fn lone_bracket_name_fails() {
    match adi_parse_string("<foobar>") {
        Err(AdifParseError::ADIF_EBADINPUT(_)) => {}
        other => panic!("expected malformed input, got {:?}", other.is_ok()),
    }
}

#[test]
fn empty_record_is_allowed() {
    let f = adi_parse_string("x<eoh><eor>").expect("must parse");
    assert_eq!(f.adi_records.len(), 1);
    assert_eq!(f.adi_records[0].adir_fields.len(), 0);
}

#[test]
fn multiple_records_parse_in_order() {
    let f = adi_parse_string("<call:6>kk6zbi<junk:3>123<eor><call:6>kb1hcn<eor>")
        .expect("must parse");
    assert_eq!(f.adi_records.len(), 2);
    assert_eq!(f.adi_records[0].adir_fields.len(), 2);
    assert_eq!(f.adi_records[1].adir_fields.len(), 1);
    assert_eq!(f.adi_records[1].adir_fields[0].adif_bytes, b"kb1hcn".to_vec());
}

#[test]
fn peek_beyond_end_returns_sticky_eof() {
    let mut aps = AdiParseState::new(b"");
    for which in [0u8, 1, 5, 100] {
        match aps.adi_parse_peek_token(which) {
            Ok(AdiToken::ADI_TOK_EOF) => {}
            _ => panic!("expected the end-of-stream token"),
        }
    }
    // The end-of-stream token is never removed: it is still there after
    // further peeks.
    match aps.adi_parse_peek_token(0) {
        Ok(AdiToken::ADI_TOK_EOF) => {}
        _ => panic!("expected the end-of-stream token"),
    }
}

#[test]
fn peek_and_consume_walk_the_token_stream() {
    let mut aps = AdiParseState::new(b"<ab:1>x");
    match aps.adi_parse_peek_token(0) {
        Ok(AdiToken::ADI_TOK_LAB) => {}
        _ => panic!("expected '<'"),
    }
    match aps.adi_parse_peek_token(1) {
        Ok(AdiToken::ADI_TOK_BYTES(b)) => assert_eq!(b, b"ab".to_vec()),
        _ => panic!("expected a raw byte run"),
    }
    aps.adi_parse_consume_tokens(2);
    match aps.adi_parse_peek_token(0) {
        Ok(AdiToken::ADI_TOK_COLON) => {}
        _ => panic!("expected ':'"),
    }
    // Peeking does not consume: the same token comes back.
    match aps.adi_parse_peek_token(0) {
        Ok(AdiToken::ADI_TOK_COLON) => {}
        _ => panic!("expected ':'"),
    }
}

#[test]
fn tokenizer_fault_reaches_peek_after_queued_tokens() {
    // The bad byte sits behind two good tokens: peeking the good tokens
    // succeeds, peeking past them reports the fault.
    let mut aps = AdiParseState::new(b"ok<\x02x");
    match aps.adi_parse_peek_token(0) {
        Ok(AdiToken::ADI_TOK_BYTES(b)) => assert_eq!(b, b"ok".to_vec()),
        _ => panic!("expected a raw byte run"),
    }
    match aps.adi_parse_peek_token(1) {
        Ok(AdiToken::ADI_TOK_LAB) => {}
        _ => panic!("expected '<'"),
    }
    match aps.adi_parse_peek_token(2) {
        Err(AdifParseError::ADIF_EBADINPUT(_)) => {}
        _ => panic!("expected the tokenizer fault"),
    }
    // The state is now permanently faulted: further peeks fail
    // immediately, even at offsets that were readable before.
    match aps.adi_parse_peek_token(0) {
        Err(AdifParseError::ADIF_EBADINPUT(_)) => {}
        _ => panic!("expected the faulted state to refuse the peek"),
    }
}
