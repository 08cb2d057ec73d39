//! Tests of the logical layer: metadata lifting, record mappings,
//! duplicate detection, value decoding and the end-to-end entry points.

use adif::AdifParseError;
use adif::adi::AdiDataSpecifier;
use adif::adif::adif_parse_adi;
use adif::adif::adif_string;
use adif::adif_parse;

fn spec(name: &str, value: &str, ty: Option<&str>) -> AdiDataSpecifier {
    AdiDataSpecifier {
        adif_name: String::from(name),
        adif_name_canon: name.to_lowercase(),
        adif_length: value.len(),
        adif_bytes: value.as_bytes().to_vec(),
        adif_type: ty.map(String::from),
    }
}

#[test]
fn end_to_end_example() {
    let input =
        "preamble<foo:3>123<bar:4>4567<eoh>\n<call:6>KK6ZBI\n<qso_date:8>20181129\n<eor>";
    let adi = adif::adi::adi_parse_string(input).expect("physical parse must succeed");
    let h = adi.adi_header.as_ref().expect("header present");
    assert_eq!(h.adih_content, b"preamble".to_vec());
    assert_eq!(h.adih_fields.len(), 2);
    assert_eq!(h.adih_fields[0].adif_name_canon, "foo");
    assert_eq!(h.adih_fields[0].adif_bytes, b"123".to_vec());
    assert_eq!(h.adih_fields[1].adif_name_canon, "bar");
    assert_eq!(h.adih_fields[1].adif_bytes, b"4567".to_vec());

    let f = adif_parse("example", input.as_bytes()).expect("logical parse must succeed");
    assert_eq!(f.adif_label, "example");
    assert_eq!(f.adif_records.len(), 1);
    let rec = &f.adif_records[0];
    assert_eq!(rec.adir_field_values.get("call").expect("call present").as_str(), "KK6ZBI");
    assert_eq!(
        rec.adir_field_values.get("qso_date").expect("qso_date present").as_str(),
        "20181129"
    );
    assert!(rec.adir_field_values.get("bar").is_none());
}

#[test]
fn duplicate_field_names_record_and_field() {
    let input = "<eoh><Call:3>ABC<CALL:3>DEF<eor>";
    // An input beginning with '<' has no header; "<eoh>" would be a
    // malformed record, so use a real header first.
    let input = format!("x{}", input);
    match adif_parse("dup", input.as_bytes()) {
        Err(AdifParseError::ADIF_EBADINPUT(msg)) => {
            assert_eq!(msg, "record 1: duplicate value for field \"call\"");
        }
        other => panic!("expected malformed input, got ok={}", other.is_ok()),
    }
}

#[test]
fn duplicate_field_in_second_record_counts_from_one() {
    let input = "x<eoh><call:1>a<eor><foo:1>b<FOO:1>c<eor>";
    match adif_parse("dup2", input.as_bytes()) {
        Err(AdifParseError::ADIF_EBADINPUT(msg)) => {
            assert_eq!(msg, "record 2: duplicate value for field \"foo\"");
        }
        other => panic!("expected malformed input, got ok={}", other.is_ok()),
    }
}

#[test]
fn type_tag_other_than_s_fails_decoding() {
    // The physical layer accepts such a specifier when built directly;
    // logical decoding must reject it.
    let adf = spec("call", "KK6ZBI", Some("N"));
    match adif_string(&adf) {
        Err(AdifParseError::ADIF_EBADINPUT(msg)) => {
            assert_eq!(
                msg,
                "field \"call\": expected string value, but found type \"N\""
            );
        }
        other => panic!("expected malformed input, got ok={}", other.is_ok()),
    }
}

#[test]
fn type_tag_s_is_accepted() {
    let adf = spec("call", "KK6ZBI", Some("S"));
    assert_eq!(adif_string(&adf).expect("plain string tag"), "KK6ZBI");
}

#[test]
fn type_tag_is_case_sensitive() {
    let adf = spec("call", "KK6ZBI", Some("s"));
    assert!(adif_string(&adf).is_err());
}

#[test]
fn record_with_bad_type_tag_fails_interpretation() {
    let adi = adif::adi::AdiFile {
        adi_header: None,
        adi_records: vec![adif::adi::AdiRecord {
            adir_fields: vec![spec("call", "KK6ZBI", Some("N"))],
        }],
    };
    match adif_parse_adi("tagged", &adi) {
        Err(AdifParseError::ADIF_EBADINPUT(_)) => {}
        other => panic!("expected malformed input, got ok={}", other.is_ok()),
    }
}

#[test]
fn invalid_utf8_value_fails_decoding() {
    let adf = AdiDataSpecifier {
        adif_name: String::from("data"),
        adif_name_canon: String::from("data"),
        adif_length: 2,
        adif_bytes: vec![0xff, 0xfe],
        adif_type: None,
    };
    match adif_string(&adf) {
        Err(AdifParseError::ADIF_EBADINPUT(msg)) => {
            assert_eq!(
                msg,
                "field \"data\": value contained invalid bytes for UTF-8 string"
            );
        }
        other => panic!("expected malformed input, got ok={}", other.is_ok()),
    }
}

#[test]
fn well_known_header_fields_become_metadata() {
    let input = "x<adif_ver:5>3.0.8<programid:7>monolog<programversion:3>1.2\
        <created_timestamp:15>20181129 123456<eoh><call:6>KK6ZBI<eor>";
    let f = adif_parse("meta", input.as_bytes()).expect("must parse");
    assert_eq!(f.adif_adif_version.as_deref(), Some("3.0.8"));
    assert_eq!(f.adif_program_id.as_deref(), Some("monolog"));
    assert_eq!(f.adif_program_version.as_deref(), Some("1.2"));
    assert_eq!(f.adif_created_timestamp.as_deref(), Some("20181129 123456"));
}

#[test]
fn unrecognized_header_fields_are_ignored() {
    let input = "x<userdef1:3>abc<eoh><call:6>KK6ZBI<eor>";
    let f = adif_parse("ignored", input.as_bytes()).expect("must parse");
    assert!(f.adif_adif_version.is_none());
    assert!(f.adif_program_id.is_none());
    assert_eq!(f.adif_records.len(), 1);
}

#[test]
fn later_metadata_occurrence_wins() {
    let input = "x<programid:5>first<programid:6>second<eoh><eor>";
    let f = adif_parse("twice", input.as_bytes()).expect("must parse");
    assert_eq!(f.adif_program_id.as_deref(), Some("second"));
}

#[test]
fn metadata_names_are_canonicalized() {
    let input = "x<ADIF_Ver:5>3.0.8<eoh><eor>";
    let f = adif_parse("canon", input.as_bytes()).expect("must parse");
    assert_eq!(f.adif_adif_version.as_deref(), Some("3.0.8"));
}

#[test]
fn no_header_yields_no_metadata() {
    let f = adif_parse("bare", b"<call:6>KK6ZBI<eor>").expect("must parse");
    assert!(f.adif_adif_version.is_none());
    assert!(f.adif_program_id.is_none());
    assert!(f.adif_program_version.is_none());
    assert!(f.adif_created_timestamp.is_none());
    assert_eq!(f.adif_records.len(), 1);
}

#[test]
fn physical_errors_pass_through_adif_parse() {
    match adif_parse("bad", b"foobar") {
        Err(AdifParseError::ADIF_EBADINPUT(_)) => {}
        other => panic!("expected malformed input, got ok={}", other.is_ok()),
    }
    match adif_parse("nyi", b"<call:6:S>KK6ZBI<eor>") {
        Err(AdifParseError::ADIF_ENOT_YET_IMPLEMENTED(_)) => {}
        other => panic!("expected not-yet-implemented, got ok={}", other.is_ok()),
    }
}

#[test]
fn error_messages_render_with_kind_prefix() {
    let e = AdifParseError::ADIF_EBADINPUT(String::from("boom"));
    assert_eq!(e.to_message(), "input error: boom");
    let e = AdifParseError::ADIF_ENOT_YET_IMPLEMENTED(String::from("later"));
    assert_eq!(e.to_message(), "not yet implemented: later");
    let e = AdifParseError::ADIF_EIO(String::from("broken pipe"));
    assert_eq!(e.to_message(), "broken pipe");
}

#[test]
fn field_map_keeps_insertion_order() {
    let f = adif_parse("order", b"<b:1>1<a:1>2<c:1>3<eor>").expect("must parse");
    let m = &f.adif_records[0].adir_field_values;
    assert_eq!(m.len(), 3);
    assert_eq!(m.entry_at(0).0.as_str(), "b");
    assert_eq!(m.entry_at(1).0.as_str(), "a");
    assert_eq!(m.entry_at(2).0.as_str(), "c");
    assert!(m.contains_key("a"));
    assert!(!m.contains_key("d"));
    assert_eq!(m.get("c").expect("c present").as_str(), "3");
}
