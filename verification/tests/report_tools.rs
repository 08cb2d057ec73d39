//! Tests of the reporting helpers: filters, signatures, record
//! matching, diffing and the human-readable renderings.

use adif::adi::adi_dump;
use adif::adi::adi_parse_string;
use adif::adif_parse;
use adif::adifutil::byteseq_equal_ci;
use adif::adifutil::usize_to_string;
use adif::report::adif_file_describe;
use adif::report::adif_find_match;
use adif::report::adif_record_columns;
use adif::report::adif_record_describe;
use adif::report::adif_record_matches;
use adif::report::make_qso_sig;
use adif::report::parse_filter;
use adif::report::qso_grid_diff;

#[test]
fn parse_filter_splits_at_first_equals() {
    assert_eq!(
        parse_filter("call=KK6ZBI"),
        Some((String::from("call"), String::from("KK6ZBI")))
    );
    assert_eq!(parse_filter("k=v=w"), Some((String::from("k"), String::from("v=w"))));
    assert_eq!(parse_filter("=x"), Some((String::from(""), String::from("x"))));
    assert_eq!(parse_filter("k="), Some((String::from("k"), String::from(""))));
    assert_eq!(parse_filter("nofilter"), None);
    assert_eq!(parse_filter(""), None);
}

#[test]
fn qso_sig_concatenates_date_and_call() {
    let f = adif_parse("sig", b"<qso_date:8>20181129<call:6>KK6ZBI<eor>").expect("must parse");
    let sig = make_qso_sig(&f.adif_records[0]);
    assert_eq!(sig, "20181129 QSO with KK6ZBI");
}

#[test]
fn record_matching_honours_filters() {
    let f = adif_parse("match", b"<call:6>KK6ZBI<band:3>20m<eor>").expect("must parse");
    let rec = &f.adif_records[0];
    let both = vec![
        (String::from("call"), String::from("KK6ZBI")),
        (String::from("band"), String::from("20m")),
    ];
    assert!(adif_record_matches(rec, &both));
    let wrong = vec![(String::from("call"), String::from("KB1HCN"))];
    assert!(!adif_record_matches(rec, &wrong));
    // A field required to be empty may be absent.
    let absent_empty = vec![(String::from("gridsquare"), String::from(""))];
    assert!(adif_record_matches(rec, &absent_empty));
    let absent_nonempty = vec![(String::from("gridsquare"), String::from("CM87"))];
    assert!(!adif_record_matches(rec, &absent_nonempty));
    assert!(adif_record_matches(rec, &vec![]));
}

#[test]
fn find_match_returns_first_matching_record() {
    let f = adif_parse(
        "find",
        b"<qso_date:8>20181129<call:6>KK6ZBI<eor>\
          <qso_date:8>20181130<call:6>KB1HCN<eor>\
          <qso_date:8>20181130<call:6>KB1HCN<eor>",
    )
    .expect("must parse");
    let recs = &f.adif_records;
    assert_eq!(adif_find_match("20181130 QSO with KB1HCN", recs), Some(1));
    assert_eq!(adif_find_match("20181129 QSO with KK6ZBI", recs), Some(0));
    assert_eq!(adif_find_match("20190101 QSO with NOBODY", recs), None);
}

#[test]
fn grid_diff_reports_disagreements_only() {
    let f = adif_parse(
        "grid",
        b"<call:1>a<gridsquare:4>CM87<eor>\
          <call:1>b<gridsquare:4>CM88<eor>\
          <call:1>c<eor>\
          <call:1>d<gridsquare:4>CM87<eor>",
    )
    .expect("must parse");
    let r = &f.adif_records;
    assert_eq!(qso_grid_diff(&r[0], &r[3]), None);
    assert_eq!(qso_grid_diff(&r[2], &r[2]), None);
    assert_eq!(
        qso_grid_diff(&r[0], &r[1]),
        Some((Some(String::from("CM87")), Some(String::from("CM88"))))
    );
    assert_eq!(
        qso_grid_diff(&r[0], &r[2]),
        Some((Some(String::from("CM87")), None))
    );
    assert_eq!(
        qso_grid_diff(&r[2], &r[1]),
        Some((None, Some(String::from("CM88"))))
    );
}

#[test]
fn file_description_renders_metadata() {
    let f = adif_parse(
        "log.adi",
        b"x<programid:7>monolog<programversion:3>1.2\
          <created_timestamp:15>20181129 123456<eoh><call:6>KK6ZBI<eor>",
    )
    .expect("must parse");
    let text = adif_file_describe(&f);
    assert_eq!(
        text,
        "ADIF file:  log.adi\n\
         Created at: 20181129 123456\n\
         Created by: program \"monolog\" version \"1.2\"\n\
         Total records: 1\n"
    );
}

#[test]
fn file_description_defaults_for_missing_metadata() {
    let f = adif_parse("bare.adi", b"<call:6>KK6ZBI<eor>").expect("must parse");
    let text = adif_file_describe(&f);
    assert_eq!(
        text,
        "ADIF file:  bare.adi\n\
         Created at: unknown\n\
         Created by: unknown program unknown version\n\
         Total records: 1\n"
    );
}

#[test]
fn record_description_aligns_fields() {
    let f = adif_parse("rec", b"<call:6>KK6ZBI<a_very_long_field_name:1>x<eor>")
        .expect("must parse");
    let text = adif_record_describe(&f.adif_records[0]);
    assert_eq!(
        text,
        "RECORD:\n    call                : KK6ZBI\n    a_very_long_field_name: x\n"
    );
}

#[test]
fn record_columns_render_values_and_dashes() {
    let f = adif_parse("cols", b"<call:6>KK6ZBI<band:3>20m<eor>").expect("must parse");
    let cols = vec![
        String::from("call"),
        String::from("gridsquare"),
        String::from("band"),
    ];
    let line = adif_record_columns(&f.adif_records[0], &cols);
    assert_eq!(line, "KK6ZBI\t-\t20m\t\n");
}

#[test]
fn dump_renders_physical_structure() {
    let f = adi_parse_string("hello<eoh><call:6>KK6ZBI<eor>").expect("must parse");
    let text = adi_dump(f);
    assert_eq!(text, "hello<eoh>\n    <call:6>KK6ZBI\n<eor>\n");
}

#[test]
fn dump_notes_missing_header() {
    let f = adi_parse_string("<call:6>KK6ZBI<eor>").expect("must parse");
    let text = adi_dump(f);
    assert_eq!(text, "(no header present)    <call:6>KK6ZBI\n<eor>\n");
}

#[test]
fn dump_renders_header_fields_and_types() {
    let f = adi_parse_string("note<Foo:2>hi<eoh>").expect("must parse");
    let text = adi_dump(f);
    assert_eq!(text, "note    <foo:2>hi\n<eoh>\n");
}

#[test]
fn byteseq_ci_comparison() {
    assert!(byteseq_equal_ci(&b"eoh".to_vec(), "EOH"));
    assert!(byteseq_equal_ci(&b"EoR".to_vec(), "eor"));
    assert!(!byteseq_equal_ci(&b"eo".to_vec(), "eoh"));
    assert!(!byteseq_equal_ci(&b"eox".to_vec(), "eoh"));
    assert!(byteseq_equal_ci(&b"".to_vec(), ""));
    assert!(!byteseq_equal_ci(&vec![0xffu8, b'a'], "xa"));
    assert!(!byteseq_equal_ci(&vec![0xffu8], "\u{ff}"));
}

#[test]
fn decimal_rendering() {
    assert_eq!(usize_to_string(0), "0");
    assert_eq!(usize_to_string(7), "7");
    assert_eq!(usize_to_string(10), "10");
    assert_eq!(usize_to_string(1024), "1024");
    assert_eq!(usize_to_string(98765), "98765");
}
