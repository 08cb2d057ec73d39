//! Exercises construction, dumping, tokenizing and parsing on a set of
//! sample inputs.

use adif::AdifParseError;
use adif::adi::AdiDataSpecifier;
use adif::adi::AdiFile;
use adif::adi::AdiHeader;
use adif::adi::AdiRecord;
use adif::adi::adi_dump;
use adif::adi::adi_parse_string;
use adif::adi_tokens::AdiToken;
use adif::adi_tokens::adi_import_read_token;

fn make_file_basic() -> AdiFile {
    let header = None;
    let records = vec![];
    AdiFile { adi_header: header, adi_records: records }
}

fn make_file_header() -> AdiFile {
    let headerstr = String::from("This is a test file!\n").as_bytes().to_vec();
    let header = AdiHeader { adih_content: headerstr, adih_fields: vec![] };
    let records = vec![];
    AdiFile { adi_header: Some(header), adi_records: records }
}

fn make_file_complex() -> AdiFile {
    let headerstr = String::from(r#"This is a string.<adif_VERSion:3>1.0\nMore content"#)
        .as_bytes()
        .to_vec();
    let header = AdiHeader {
        adih_content: headerstr,
        adih_fields: vec![AdiDataSpecifier {
            adif_name: String::from("adif_VERSion"),
            adif_name_canon: String::from("adif_version"),
            adif_length: 3,
            adif_bytes: String::from("1.0").as_bytes().to_vec(),
            adif_type: None,
        }],
    };
    let records = vec![
        AdiRecord {
            adir_fields: vec![
                AdiDataSpecifier {
                    adif_name: String::from("call"),
                    adif_name_canon: String::from("call"),
                    adif_length: 6,
                    adif_bytes: String::from("KK6ZBI").as_bytes().to_vec(),
                    adif_type: None,
                },
                AdiDataSpecifier {
                    adif_name: String::from("QSO_date"),
                    adif_name_canon: String::from("qso_date"),
                    adif_length: 8,
                    adif_bytes: String::from("20181129").as_bytes().to_vec(),
                    adif_type: None,
                },
            ],
        },
        AdiRecord {
            adir_fields: vec![
                AdiDataSpecifier {
                    adif_name: String::from("call"),
                    adif_name_canon: String::from("call"),
                    adif_length: 6,
                    adif_bytes: String::from("KB1HCN").as_bytes().to_vec(),
                    adif_type: Some(String::from("S")),
                },
                AdiDataSpecifier {
                    adif_name: String::from("QSO_date"),
                    adif_name_canon: String::from("qso_date"),
                    adif_length: 8,
                    adif_bytes: String::from("20181130").as_bytes().to_vec(),
                    adif_type: None,
                },
            ],
        },
    ];
    AdiFile { adi_header: Some(header), adi_records: records }
}

fn import_test(input: &str) {
    println!("\n\ntokenizing string:\n{}\n\n", input);

    let bytes = input.as_bytes();
    let mut pos = 0;
    let mut maxiters = 100;

    loop {
        if maxiters == 0 {
            panic!("bailing out after max tokens reached!");
        }
        maxiters -= 1;

        let rtoken = adi_import_read_token(bytes, pos);
        match rtoken {
            Err(AdifParseError::ADIF_EIO(ioe)) => {
                println!("unexpected I/O error: {}", ioe);
                return;
            }
            Err(AdifParseError::ADIF_EBADINPUT(msg)) => {
                println!("bad input: {}", msg);
                return;
            }
            Err(AdifParseError::ADIF_ENOT_YET_IMPLEMENTED(msg)) => {
                println!("not yet implemented: {}", msg);
                return;
            }

            Ok((AdiToken::ADI_TOK_LAB, newpos)) => {
                println!("token: '<'");
                pos = newpos;
            }
            Ok((AdiToken::ADI_TOK_RAB, newpos)) => {
                println!("token: '>'");
                pos = newpos;
            }
            Ok((AdiToken::ADI_TOK_COLON, newpos)) => {
                println!("token: ':'");
                pos = newpos;
            }
            Ok((AdiToken::ADI_TOK_BYTES(buf), newpos)) => {
                println!("token: raw bytes: {}", String::from_utf8(buf).unwrap());
                pos = newpos;
            }
            Ok((AdiToken::ADI_TOK_EOF, _)) => {
                println!("token: EOF");
                return;
            }
        }
    }
}

#[test]
fn do_stuff() {
    let adf = make_file_basic();
    println!("{}", adi_dump(adf));
    let adf = make_file_header();
    println!("{}", adi_dump(adf));
    let adf = make_file_complex();
    println!("{}", adi_dump(adf));
    import_test(
        r#"
            header stuff here<eoh>
            <call:6>KK6ZBI
            <bupkis:3>123
            <eor>
        "#,
    );

    println!("\n\nparse tests\n");
    parse_test_string(r"foobar");
    parse_test_string(r"<foobar>");
    parse_test_string(r"<eoh>"); // should be disallowed later
    parse_test_string(r"foobar<eoh>");
    parse_test_string(r"foobar<eoh:3>789");
    parse_test_string(r"foobar<foo:3>123<eoh>");
    parse_test_string(r"preamble<foo:3>12345<bar:7>123456789<eoh>");
    parse_test_string(
        r"preamble<foo:3>12345<bar:7>123456789<eoh>
            <call:6>kk6zbi
            <junk:3>123456
            <eor>
            <call:6>kb1hcn
            <junk:7>123456789:0
            <eor>",
    );
}

fn parse_test_string(s: &str) {
    println!("test input:\n{}\n", s);
    test_print(adi_parse_string(s));
}

fn test_print(r: Result<AdiFile, AdifParseError>) {
    match r {
        Err(e) => {
            println!("error:\n{:?}", e);
        }
        Ok(adf) => {
            println!("success:\n{}", adi_dump(adf));
        }
    }
}
