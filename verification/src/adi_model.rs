//! Mathematical model of the ADI physical parser.
//!
//! The functions here define, over the token sequence of an input, exactly
//! what each parsing pass returns: the data-specifier parser, the header
//! parser, the record and records parsers, and the whole-file parse.  The
//! executable parsers are proved to return precisely these values.
//!
//! A parse works on a pair of a finite token sequence and a `clean` flag:
//! the sequence holds the tokens up to the end of the input or up to the
//! first tokenizer error, and the flag tells which of the two ended it.
//! Peeking beyond the sequence yields the end-of-stream token when the
//! stream is clean and a malformed-input failure otherwise.

use vstd::prelude::*;

use crate::adi_tokens::AdiTokModel;
use crate::adifutil::spec_all_digits;
use crate::adifutil::spec_ascii_chars;
use crate::adifutil::spec_bytes_eq_ci;
use crate::adifutil::spec_dec_val;
use crate::adifutil::spec_lower_bytes;

verus! {

/// The maximum accepted value length, to ensure graceful failure on
/// inputs that would otherwise use unbounded memory.
pub const ADI_MAX_FIELDLEN: usize = 1024;

/// Mathematical value of a parsed data specifier.
pub struct SpecifierModel {
    /// Field name as written.
    pub name: Seq<char>,
    /// Lower-cased canonical field name.
    pub canon: Seq<char>,
    /// Declared value length in bytes.
    pub length: nat,
    /// The value: exactly `length` bytes.
    pub bytes: Seq<u8>,
    /// Type tag, if one was written (never set by the supported syntax).
    pub ty: Option<Seq<char>>,
}

/// Mathematical value of a parsed header.
pub struct HeaderModel {
    /// Free-form header text, including stray `:` and `>` bytes.
    pub content: Seq<u8>,
    /// Header data specifiers, in order of appearance.
    pub fields: Seq<SpecifierModel>,
}

/// Mathematical value of a parsed record.
pub struct RecordModel {
    /// The record's data specifiers, in order of appearance.
    pub fields: Seq<SpecifierModel>,
}

/// Mathematical value of a parsed file.
pub struct FileModel {
    /// The header, absent when the input starts with a specifier or is
    /// empty.
    pub header: Option<HeaderModel>,
    /// The records, in order of appearance.
    pub records: Seq<RecordModel>,
}

/// What one parsing pass yields: a value together with the tokens it did
/// not consume, a malformed-input failure, or an unsupported construct.
pub enum ParseOutcome<T> {
    Parsed(T, Seq<AdiTokModel>),
    Malformed,
    Unsupported,
}

/// The token at offset `i` of the stream: the end-of-stream token stands
/// beyond a clean end, and nothing can be read beyond a tokenizer fault.
pub open spec fn sp_peek(toks: Seq<AdiTokModel>, clean: bool, i: int) -> Option<AdiTokModel> {
    if 0 <= i < toks.len() {
        Some(toks[i])
    } else if clean {
        Some(AdiTokModel::Eof)
    } else {
        None
    }
}

/// The bytes of the end-of-header marker name.
pub open spec fn spec_eoh() -> Seq<u8> {
    seq![0x65u8, 0x6fu8, 0x68u8]
}

/// The bytes of the end-of-record marker name.
pub open spec fn spec_eor() -> Seq<u8> {
    seq![0x65u8, 0x6fu8, 0x72u8]
}

/// True when every byte of a raw byte run may appear in a textual token:
/// ASCII, with carriage-return and line-feed the only control bytes.
pub open spec fn spec_text_ok(b: Seq<u8>) -> bool {
    forall|i: int| 0 <= i < b.len() ==> crate::adi_tokens::spec_byte_ok(b[i])
}

/// Value accumulation for a data specifier: tokens contribute bytes until
/// `need` bytes are gathered.  A delimiter token contributes its one
/// literal byte; a raw byte run contributes its bytes, truncated to the
/// remaining need; reaching the end of the stream first is malformed
/// input.
pub open spec fn sp_value(toks: Seq<AdiTokModel>, clean: bool, need: nat) -> ParseOutcome<Seq<u8>>
    decreases toks.len(),
{
    if need == 0 {
        ParseOutcome::Parsed(Seq::empty(), toks)
    } else if toks.len() == 0 {
        ParseOutcome::Malformed
    } else {
        match toks[0] {
            AdiTokModel::Lab => sp_value_prepend(
                seq![0x3cu8],
                sp_value(toks.skip(1), clean, (need - 1) as nat),
            ),
            AdiTokModel::Colon => sp_value_prepend(
                seq![0x3au8],
                sp_value(toks.skip(1), clean, (need - 1) as nat),
            ),
            AdiTokModel::Rab => sp_value_prepend(
                seq![0x3eu8],
                sp_value(toks.skip(1), clean, (need - 1) as nat),
            ),
            AdiTokModel::Bytes(b) => if b.len() >= need {
                ParseOutcome::Parsed(b.take(need as int), toks.skip(1))
            } else {
                sp_value_prepend(b, sp_value(toks.skip(1), clean, (need - b.len()) as nat))
            },
            AdiTokModel::Eof => ParseOutcome::Malformed,
        }
    }
}

/// Prefixes the value of a successful accumulation with already-gathered
/// bytes.
pub open spec fn sp_value_prepend(prefix: Seq<u8>, o: ParseOutcome<Seq<u8>>) -> ParseOutcome<
    Seq<u8>,
> {
    match o {
        ParseOutcome::Parsed(v, rest) => ParseOutcome::Parsed(prefix + v, rest),
        ParseOutcome::Malformed => ParseOutcome::Malformed,
        ParseOutcome::Unsupported => ParseOutcome::Unsupported,
    }
}

/// Gathering bytes in two steps prefixes in two steps.
pub proof fn lemma_sp_value_prepend_assoc(a: Seq<u8>, b: Seq<u8>, o: ParseOutcome<Seq<u8>>)
    ensures
        sp_value_prepend(a, sp_value_prepend(b, o)) == sp_value_prepend(a + b, o),
{
    match o {
        ParseOutcome::Parsed(v, rest) => {
            assert(a + (b + v) =~= (a + b) + v);
        },
        ParseOutcome::Malformed => {},
        ParseOutcome::Unsupported => {},
    }
}

/// Discards tokens up to the next left bracket or the end of the stream:
/// a data specifier may be followed by arbitrary bytes before the next
/// specifier or marker.
pub open spec fn sp_filler(toks: Seq<AdiTokModel>, clean: bool) -> ParseOutcome<()>
    decreases toks.len(),
{
    if toks.len() == 0 {
        if clean {
            ParseOutcome::Parsed((), toks)
        } else {
            ParseOutcome::Malformed
        }
    } else if toks[0] is Lab {
        ParseOutcome::Parsed((), toks)
    } else {
        sp_filler(toks.skip(1), clean)
    }
}

/// The data-specifier parse: `<name:length>` followed by exactly `length`
/// value bytes and discarded filler.  The name and length tokens must be
/// textual raw byte runs; the length must be a decimal number of at most
/// `ADI_MAX_FIELDLEN`; a second colon after the length announces a typed
/// value, which is not supported.
pub open spec fn sp_specifier(toks: Seq<AdiTokModel>, clean: bool) -> ParseOutcome<
    SpecifierModel,
> {
    if sp_peek(toks, clean, 0) != Some(AdiTokModel::Lab) {
        ParseOutcome::Malformed
    } else if sp_peek(toks, clean, 1) is None || sp_peek(toks, clean, 2) is None || sp_peek(
        toks,
        clean,
        3,
    ) is None || sp_peek(toks, clean, 4) is None {
        ParseOutcome::Malformed
    } else {
        let t1 = sp_peek(toks, clean, 1)->0;
        let t2 = sp_peek(toks, clean, 2)->0;
        let t3 = sp_peek(toks, clean, 3)->0;
        let t4 = sp_peek(toks, clean, 4)->0;
        if !(t1 is Bytes) || !spec_text_ok(t1->Bytes_0) {
            ParseOutcome::Malformed
        } else if !(t2 is Colon) {
            ParseOutcome::Malformed
        } else if !(t3 is Bytes) || !spec_text_ok(t3->Bytes_0) {
            ParseOutcome::Malformed
        } else if !(t3->Bytes_0.len() >= 1 && spec_all_digits(t3->Bytes_0)) {
            ParseOutcome::Malformed
        } else if spec_dec_val(t3->Bytes_0) > ADI_MAX_FIELDLEN {
            ParseOutcome::Malformed
        } else if t4 is Colon {
            ParseOutcome::Unsupported
        } else if !(t4 is Rab) {
            ParseOutcome::Malformed
        } else {
            let nb = t1->Bytes_0;
            let n = spec_dec_val(t3->Bytes_0);
            match sp_value(toks.skip(5), clean, n) {
                ParseOutcome::Parsed(v, rest) => match sp_filler(rest, clean) {
                    ParseOutcome::Parsed(_, rest2) => ParseOutcome::Parsed(
                        SpecifierModel {
                            name: spec_ascii_chars(nb),
                            canon: spec_ascii_chars(spec_lower_bytes(nb)),
                            length: n,
                            bytes: v,
                            ty: None,
                        },
                        rest2,
                    ),
                    ParseOutcome::Malformed => ParseOutcome::Malformed,
                    ParseOutcome::Unsupported => ParseOutcome::Unsupported,
                },
                ParseOutcome::Malformed => ParseOutcome::Malformed,
                ParseOutcome::Unsupported => ParseOutcome::Unsupported,
            }
        }
    }
}

/// A successful value accumulation consumes no more tokens than exist and
/// yields exactly the requested number of bytes.
pub proof fn lemma_sp_value_len(toks: Seq<AdiTokModel>, clean: bool, need: nat)
    ensures
        sp_value(toks, clean, need) matches ParseOutcome::Parsed(v, rest) ==> rest.len()
            <= toks.len() && v.len() == need,
        !(sp_value(toks, clean, need) is Unsupported),
    decreases toks.len(),
{
    if need == 0 || toks.len() == 0 {
    } else {
        match toks[0] {
            AdiTokModel::Lab => lemma_sp_value_len(toks.skip(1), clean, (need - 1) as nat),
            AdiTokModel::Colon => lemma_sp_value_len(toks.skip(1), clean, (need - 1) as nat),
            AdiTokModel::Rab => lemma_sp_value_len(toks.skip(1), clean, (need - 1) as nat),
            AdiTokModel::Bytes(b) => {
                if b.len() >= need {
                } else {
                    lemma_sp_value_len(toks.skip(1), clean, (need - b.len()) as nat);
                }
            },
            AdiTokModel::Eof => {},
        }
    }
}

/// Skipping filler consumes no more tokens than exist and never reports
/// an unsupported construct.
pub proof fn lemma_sp_filler_len(toks: Seq<AdiTokModel>, clean: bool)
    ensures
        sp_filler(toks, clean) matches ParseOutcome::Parsed(u, rest) ==> rest.len() <= toks.len(),
        !(sp_filler(toks, clean) is Unsupported),
    decreases toks.len(),
{
    if toks.len() == 0 || toks[0] is Lab {
    } else {
        lemma_sp_filler_len(toks.skip(1), clean);
    }
}

/// A successful data-specifier parse consumes at least the five tokens of
/// the `<name:length>` frame.
pub proof fn lemma_sp_specifier_len(toks: Seq<AdiTokModel>, clean: bool)
    ensures
        sp_specifier(toks, clean) matches ParseOutcome::Parsed(s, rest) ==> rest.len() + 5
            <= toks.len(),
{
    if sp_specifier(toks, clean) is Parsed {
        let t4 = sp_peek(toks, clean, 4)->0;
        assert(t4 is Rab);
        assert(toks.len() >= 5);
        let n = spec_dec_val(sp_peek(toks, clean, 3)->0->Bytes_0);
        lemma_sp_value_len(toks.skip(5), clean, n);
        match sp_value(toks.skip(5), clean, n) {
            ParseOutcome::Parsed(v, rest) => {
                lemma_sp_filler_len(rest, clean);
            },
            ParseOutcome::Malformed => {},
            ParseOutcome::Unsupported => {},
        }
    }
}

/// The header parse, carrying the text and fields gathered so far.  Loose
/// text, colons and right brackets go to the header text; a left bracket
/// either begins the end-of-header marker, recognized case-insensitively
/// by two tokens of lookahead, or begins a data specifier; the end of the
/// stream before the marker is malformed input.
pub open spec fn sp_header(
    toks: Seq<AdiTokModel>,
    clean: bool,
    content: Seq<u8>,
    fields: Seq<SpecifierModel>,
) -> ParseOutcome<HeaderModel>
    decreases toks.len(), 1int,
{
    match sp_peek(toks, clean, 0) {
        Option::None => ParseOutcome::Malformed,
        Option::Some(t0) => match t0 {
            AdiTokModel::Bytes(b) => sp_header(toks.skip(1), clean, content + b, fields),
            AdiTokModel::Colon => sp_header(toks.skip(1), clean, content.push(0x3au8), fields),
            AdiTokModel::Rab => sp_header(toks.skip(1), clean, content.push(0x3eu8), fields),
            AdiTokModel::Eof => ParseOutcome::Malformed,
            AdiTokModel::Lab => match sp_peek(toks, clean, 1) {
                Option::None => ParseOutcome::Malformed,
                Option::Some(t1) => if t1 matches AdiTokModel::Bytes(s) && spec_bytes_eq_ci(
                    s,
                    spec_eoh(),
                ) {
                    match sp_peek(toks, clean, 2) {
                        Option::None => ParseOutcome::Malformed,
                        Option::Some(AdiTokModel::Rab) => ParseOutcome::Parsed(
                            HeaderModel { content, fields },
                            toks.skip(3),
                        ),
                        Option::Some(_) => sp_header_field(toks, clean, content, fields),
                    }
                } else {
                    sp_header_field(toks, clean, content, fields)
                },
            },
        },
    }
}

/// The data-specifier arm of the header parse.
pub open spec fn sp_header_field(
    toks: Seq<AdiTokModel>,
    clean: bool,
    content: Seq<u8>,
    fields: Seq<SpecifierModel>,
) -> ParseOutcome<HeaderModel>
    decreases toks.len(), 0int,
        via sp_header_field_dec
{
    match sp_specifier(toks, clean) {
        ParseOutcome::Parsed(s, rest) => sp_header(rest, clean, content, fields.push(s)),
        ParseOutcome::Malformed => ParseOutcome::Malformed,
        ParseOutcome::Unsupported => ParseOutcome::Unsupported,
    }
}

#[via_fn]
proof fn sp_header_field_dec(
    toks: Seq<AdiTokModel>,
    clean: bool,
    content: Seq<u8>,
    fields: Seq<SpecifierModel>,
) {
    lemma_sp_specifier_len(toks, clean);
}

/// The record parse, carrying the fields gathered so far.  When the next
/// three tokens are the end-of-record marker, recognized
/// case-insensitively, the record is complete and trailing filler is
/// discarded; otherwise a data specifier is parsed and appended.
pub open spec fn sp_record(toks: Seq<AdiTokModel>, clean: bool, fields: Seq<SpecifierModel>) -> ParseOutcome<
    RecordModel,
>
    decreases toks.len(), 1int,
{
    if sp_peek(toks, clean, 0) is None || sp_peek(toks, clean, 1) is None || sp_peek(
        toks,
        clean,
        2,
    ) is None {
        ParseOutcome::Malformed
    } else {
        let t0 = sp_peek(toks, clean, 0)->0;
        let t1 = sp_peek(toks, clean, 1)->0;
        let t2 = sp_peek(toks, clean, 2)->0;
        if t0 is Lab && (t1 matches AdiTokModel::Bytes(s) && spec_bytes_eq_ci(s, spec_eor()))
            && t2 is Rab {
            match sp_filler(toks.skip(3), clean) {
                ParseOutcome::Parsed(u, rest) => ParseOutcome::Parsed(
                    RecordModel { fields },
                    rest,
                ),
                ParseOutcome::Malformed => ParseOutcome::Malformed,
                ParseOutcome::Unsupported => ParseOutcome::Unsupported,
            }
        } else {
            sp_record_field(toks, clean, fields)
        }
    }
}

/// The data-specifier arm of the record parse.
pub open spec fn sp_record_field(
    toks: Seq<AdiTokModel>,
    clean: bool,
    fields: Seq<SpecifierModel>,
) -> ParseOutcome<RecordModel>
    decreases toks.len(), 0int,
        via sp_record_field_dec
{
    match sp_specifier(toks, clean) {
        ParseOutcome::Parsed(s, rest) => sp_record(rest, clean, fields.push(s)),
        ParseOutcome::Malformed => ParseOutcome::Malformed,
        ParseOutcome::Unsupported => ParseOutcome::Unsupported,
    }
}

#[via_fn]
proof fn sp_record_field_dec(toks: Seq<AdiTokModel>, clean: bool, fields: Seq<SpecifierModel>) {
    lemma_sp_specifier_len(toks, clean);
}

/// A successful record parse consumes at least the three tokens of the
/// end-of-record marker.
pub proof fn lemma_sp_record_len(toks: Seq<AdiTokModel>, clean: bool, fields: Seq<SpecifierModel>)
    ensures
        sp_record(toks, clean, fields) matches ParseOutcome::Parsed(r, rest) ==> rest.len() + 3
            <= toks.len(),
    decreases toks.len(),
{
    if sp_record(toks, clean, fields) is Parsed {
        let t0 = sp_peek(toks, clean, 0)->0;
        let t1 = sp_peek(toks, clean, 1)->0;
        let t2 = sp_peek(toks, clean, 2)->0;
        if t0 is Lab && (t1 matches AdiTokModel::Bytes(s) && spec_bytes_eq_ci(s, spec_eor()))
            && t2 is Rab {
            assert(toks.len() >= 3);
            lemma_sp_filler_len(toks.skip(3), clean);
        } else {
            lemma_sp_specifier_len(toks, clean);
            match sp_specifier(toks, clean) {
                ParseOutcome::Parsed(s, rest) => {
                    lemma_sp_record_len(rest, clean, fields.push(s));
                },
                ParseOutcome::Malformed => {},
                ParseOutcome::Unsupported => {},
            }
        }
    }
}

/// The records parse: whole records, one after another, until the end of
/// the stream.
pub open spec fn sp_records(toks: Seq<AdiTokModel>, clean: bool, recs: Seq<RecordModel>) -> ParseOutcome<
    Seq<RecordModel>,
>
    decreases toks.len(),
        via sp_records_dec
{
    match sp_peek(toks, clean, 0) {
        Option::None => ParseOutcome::Malformed,
        Option::Some(AdiTokModel::Eof) => ParseOutcome::Parsed(recs, toks),
        Option::Some(t0) => match sp_record(toks, clean, Seq::empty()) {
            ParseOutcome::Parsed(r, rest) => sp_records(rest, clean, recs.push(r)),
            ParseOutcome::Malformed => ParseOutcome::Malformed,
            ParseOutcome::Unsupported => ParseOutcome::Unsupported,
        },
    }
}

#[via_fn]
proof fn sp_records_dec(toks: Seq<AdiTokModel>, clean: bool, recs: Seq<RecordModel>) {
    lemma_sp_record_len(toks, clean, Seq::empty());
}

/// The record pass of the file body: discarded filler, then records
/// until the end of the stream.
pub open spec fn sp_records_pass(toks: Seq<AdiTokModel>, clean: bool) -> ParseOutcome<
    Seq<RecordModel>,
> {
    match sp_filler(toks, clean) {
        ParseOutcome::Parsed(u, rest) => sp_records(rest, clean, Seq::empty()),
        ParseOutcome::Malformed => ParseOutcome::Malformed,
        ParseOutcome::Unsupported => ParseOutcome::Unsupported,
    }
}

/// The body of the file after the header: the record pass, assembled
/// with the header into the file value.
pub open spec fn sp_body(toks: Seq<AdiTokModel>, clean: bool, header: Option<HeaderModel>) -> ParseOutcome<
    FileModel,
> {
    match sp_records_pass(toks, clean) {
        ParseOutcome::Parsed(rs, rest) => ParseOutcome::Parsed(
            FileModel { header, records: rs },
            rest,
        ),
        ParseOutcome::Malformed => ParseOutcome::Malformed,
        ParseOutcome::Unsupported => ParseOutcome::Unsupported,
    }
}

/// The whole-file parse over a token stream: a header is present unless
/// the input begins with a specifier's left bracket or is empty, and the
/// records follow.
pub open spec fn sp_file_toks(toks: Seq<AdiTokModel>, clean: bool) -> ParseOutcome<FileModel> {
    match sp_peek(toks, clean, 0) {
        Option::None => ParseOutcome::Malformed,
        Option::Some(AdiTokModel::Lab) => sp_body(toks, clean, Option::None),
        Option::Some(AdiTokModel::Eof) => sp_body(toks, clean, Option::None),
        Option::Some(t0) => match sp_header(toks, clean, Seq::empty(), Seq::empty()) {
            ParseOutcome::Parsed(h, rest) => sp_body(rest, clean, Option::Some(h)),
            ParseOutcome::Malformed => ParseOutcome::Malformed,
            ParseOutcome::Unsupported => ParseOutcome::Unsupported,
        },
    }
}

/// The whole-file parse over the raw input bytes.
pub open spec fn sp_file(input: Seq<u8>) -> ParseOutcome<FileModel> {
    sp_file_toks(
        crate::adi_tokens::spec_tokens_from(input, 0),
        crate::adi_tokens::spec_clean_from(input, 0),
    )
}

/// An empty input — no header, no records — parses successfully to a
/// file with no header and an empty record list.
pub proof fn lemma_empty_input()
    ensures
        sp_file(Seq::empty()) == ParseOutcome::Parsed(
            FileModel { header: Option::None, records: Seq::<RecordModel>::empty() },
            Seq::<AdiTokModel>::empty(),
        ),
{
    let input = Seq::<u8>::empty();
    let toks = crate::adi_tokens::spec_tokens_from(input, 0);
    assert(toks =~= Seq::<AdiTokModel>::empty());
    assert(crate::adi_tokens::spec_clean_from(input, 0));
    assert(sp_filler(toks, true) == ParseOutcome::Parsed((), toks));
    assert(sp_records(toks, true, Seq::empty()) == ParseOutcome::Parsed(
        Seq::<RecordModel>::empty(),
        toks,
    ));
}

/// A well-formed specifier frame decodes to its declared name and value.
///
/// For every name, declared length and value: a stream that begins
/// `<name:length>` followed by a raw byte run of at least `length` bytes
/// parses to a specifier whose name is the name as written, whose
/// canonical name is its ASCII lower-casing, and whose value is exactly
/// the first `length` bytes of the run — whatever arbitrary filler
/// follows, as long as the filler pass accepts it.
pub proof fn lemma_specifier_frame(
    name: Seq<u8>,
    lenb: Seq<u8>,
    w: Seq<u8>,
    rest: Seq<AdiTokModel>,
    clean: bool,
)
    requires
        name.len() >= 1,
        spec_text_ok(name),
        lenb.len() >= 1,
        spec_all_digits(lenb),
        1 <= spec_dec_val(lenb) <= ADI_MAX_FIELDLEN,
        w.len() >= spec_dec_val(lenb),
        sp_filler(rest, clean) is Parsed,
    ensures
        ({
            let toks = seq![
                AdiTokModel::Lab,
                AdiTokModel::Bytes(name),
                AdiTokModel::Colon,
                AdiTokModel::Bytes(lenb),
                AdiTokModel::Rab,
                AdiTokModel::Bytes(w),
            ] + rest;
            sp_specifier(toks, clean) == ParseOutcome::Parsed(
                SpecifierModel {
                    name: spec_ascii_chars(name),
                    canon: spec_ascii_chars(spec_lower_bytes(name)),
                    length: spec_dec_val(lenb),
                    bytes: w.take(spec_dec_val(lenb) as int),
                    ty: Option::<Seq<char>>::None,
                },
                sp_filler(rest, clean)->Parsed_1,
            )
        }),
{
    let frame = seq![
        AdiTokModel::Lab,
        AdiTokModel::Bytes(name),
        AdiTokModel::Colon,
        AdiTokModel::Bytes(lenb),
        AdiTokModel::Rab,
        AdiTokModel::Bytes(w),
    ];
    let toks = frame + rest;
    let n = spec_dec_val(lenb);
    assert(toks[0] == AdiTokModel::Lab);
    assert(toks[1] == AdiTokModel::Bytes(name));
    assert(toks[2] == AdiTokModel::Colon);
    assert(toks[3] == AdiTokModel::Bytes(lenb));
    assert(toks[4] == AdiTokModel::Rab);
    assert(toks[5] == AdiTokModel::Bytes(w));
    assert forall|i: int| 0 <= i < lenb.len() implies crate::adi_tokens::spec_byte_ok(
        lenb[i],
    ) by {
        assert(crate::adifutil::spec_is_digit(lenb[i]));
    }
    assert(spec_text_ok(lenb));
    assert(toks.skip(5) =~= seq![AdiTokModel::Bytes(w)] + rest);
    let vtoks = toks.skip(5);
    assert(vtoks[0] == AdiTokModel::Bytes(w));
    assert(vtoks.skip(1) =~= rest);
    assert(sp_value(vtoks, clean, n) == ParseOutcome::Parsed(w.take(n as int), rest));
    match sp_filler(rest, clean) {
        ParseOutcome::Parsed(u, frest) => {},
        ParseOutcome::Malformed => {
            assert(false);
        },
        ParseOutcome::Unsupported => {
            assert(false);
        },
    }
}

/// True when every raw-byte-run token of the stream is textual.  Streams
/// produced by the tokenizer always are.
pub open spec fn stream_runs_ok(toks: Seq<AdiTokModel>) -> bool {
    forall|i: int|
        0 <= i < toks.len() ==> ((#[trigger] toks[i]) matches AdiTokModel::Bytes(b)
            ==> spec_text_ok(b))
}

/// True when every field's value is textual.
pub open spec fn fields_text_ok(fs: Seq<SpecifierModel>) -> bool {
    forall|i: int| 0 <= i < fs.len() ==> spec_text_ok((#[trigger] fs[i]).bytes)
}

/// True when every record's values are textual.
pub open spec fn records_text_ok(rs: Seq<RecordModel>) -> bool {
    forall|i: int| 0 <= i < rs.len() ==> fields_text_ok((#[trigger] rs[i]).fields)
}

/// Dropping tokens from the front keeps the stream textual.
proof fn lemma_runs_ok_skip(toks: Seq<AdiTokModel>, k: int)
    requires
        stream_runs_ok(toks),
        0 <= k <= toks.len(),
    ensures
        stream_runs_ok(toks.skip(k)),
{
    assert forall|i: int|
        0 <= i < toks.skip(k).len() implies ((#[trigger] toks.skip(k)[i])
        matches AdiTokModel::Bytes(b) ==> spec_text_ok(b)) by {
        assert(toks.skip(k)[i] == toks[i + k]);
    }
}

/// The tokenizer only yields textual raw byte runs.
pub proof fn lemma_tokens_from_text(input: Seq<u8>, p: int)
    requires
        0 <= p <= input.len(),
    ensures
        stream_runs_ok(crate::adi_tokens::spec_tokens_from(input, p)),
    decreases input.len() - p,
{
    crate::adi_tokens::lemma_run_len(input, p);
    let toks = crate::adi_tokens::spec_tokens_from(input, p);
    if p >= input.len() || !crate::adi_tokens::spec_token_ok(input, p) {
    } else {
        let q = p + crate::adi_tokens::spec_token_len(input, p);
        lemma_tokens_from_text(input, q);
        let rest = crate::adi_tokens::spec_tokens_from(input, q);
        assert forall|i: int|
            0 <= i < toks.len() implies ((#[trigger] toks[i]) matches AdiTokModel::Bytes(b)
            ==> spec_text_ok(b)) by {
            if i == 0 {
                assert(toks[0] == crate::adi_tokens::spec_token_at(input, p));
            } else {
                assert(toks[i] == rest[i - 1]);
            }
        }
    }
}

/// Value accumulation over a textual stream yields textual bytes and a
/// textual remainder: delimiter tokens contribute printable delimiter
/// bytes, and runs contribute their own textual bytes.
pub proof fn lemma_sp_value_text(toks: Seq<AdiTokModel>, clean: bool, need: nat)
    requires
        stream_runs_ok(toks),
    ensures
        sp_value(toks, clean, need) matches ParseOutcome::Parsed(v, rest) ==> spec_text_ok(v)
            && stream_runs_ok(rest),
    decreases toks.len(),
{
    if need == 0 || toks.len() == 0 {
    } else {
        lemma_runs_ok_skip(toks, 1);
        match toks[0] {
            AdiTokModel::Lab => {
                lemma_sp_value_text(toks.skip(1), clean, (need - 1) as nat);
                lemma_prepend_text(seq![0x3cu8], sp_value(toks.skip(1), clean, (need - 1) as nat));
            },
            AdiTokModel::Colon => {
                lemma_sp_value_text(toks.skip(1), clean, (need - 1) as nat);
                lemma_prepend_text(seq![0x3au8], sp_value(toks.skip(1), clean, (need - 1) as nat));
            },
            AdiTokModel::Rab => {
                lemma_sp_value_text(toks.skip(1), clean, (need - 1) as nat);
                lemma_prepend_text(seq![0x3eu8], sp_value(toks.skip(1), clean, (need - 1) as nat));
            },
            AdiTokModel::Bytes(b) => {
                assert(spec_text_ok(b));
                if b.len() >= need {
                    assert forall|i: int|
                        0 <= i < b.take(need as int).len() implies crate::adi_tokens::spec_byte_ok(
                        #[trigger] b.take(need as int)[i],
                    ) by {
                        assert(b.take(need as int)[i] == b[i]);
                    }
                } else {
                    lemma_sp_value_text(toks.skip(1), clean, (need - b.len()) as nat);
                    lemma_prepend_text(b, sp_value(toks.skip(1), clean, (need - b.len()) as nat));
                }
            },
            AdiTokModel::Eof => {},
        }
    }
}

/// Prefixing textual bytes to a textual accumulation stays textual.
proof fn lemma_prepend_text(prefix: Seq<u8>, o: ParseOutcome<Seq<u8>>)
    requires
        spec_text_ok(prefix),
    ensures
        (o matches ParseOutcome::Parsed(v, rest) && spec_text_ok(v)) ==> (sp_value_prepend(
            prefix,
            o,
        ) matches ParseOutcome::Parsed(v2, rest2) && spec_text_ok(v2) && rest2 == o->Parsed_1),
{
    match o {
        ParseOutcome::Parsed(v, rest) => {
            if spec_text_ok(v) {
                assert forall|i: int|
                    0 <= i < (prefix + v).len() implies crate::adi_tokens::spec_byte_ok(
                    #[trigger] (prefix + v)[i],
                ) by {
                    if i < prefix.len() {
                        assert((prefix + v)[i] == prefix[i]);
                    } else {
                        assert((prefix + v)[i] == v[i - prefix.len()]);
                    }
                }
            }
        },
        ParseOutcome::Malformed => {},
        ParseOutcome::Unsupported => {},
    }
}

/// The filler pass leaves a textual stream textual.
pub proof fn lemma_sp_filler_text(toks: Seq<AdiTokModel>, clean: bool)
    requires
        stream_runs_ok(toks),
    ensures
        sp_filler(toks, clean) matches ParseOutcome::Parsed(u, rest) ==> stream_runs_ok(rest),
    decreases toks.len(),
{
    if toks.len() == 0 || toks[0] is Lab {
    } else {
        lemma_runs_ok_skip(toks, 1);
        lemma_sp_filler_text(toks.skip(1), clean);
    }
}

/// A specifier parsed from a textual stream has a textual value, no type
/// tag, and leaves the stream textual.
pub proof fn lemma_sp_specifier_text(toks: Seq<AdiTokModel>, clean: bool)
    requires
        stream_runs_ok(toks),
    ensures
        sp_specifier(toks, clean) matches ParseOutcome::Parsed(m, rest) ==> spec_text_ok(m.bytes)
            && m.ty is None && stream_runs_ok(rest),
{
    if sp_specifier(toks, clean) is Parsed {
        let n = spec_dec_val(sp_peek(toks, clean, 3)->0->Bytes_0);
        assert(toks.len() >= 5);
        lemma_runs_ok_skip(toks, 5);
        lemma_sp_value_text(toks.skip(5), clean, n);
        match sp_value(toks.skip(5), clean, n) {
            ParseOutcome::Parsed(v, rest) => {
                lemma_sp_filler_text(rest, clean);
            },
            ParseOutcome::Malformed => {},
            ParseOutcome::Unsupported => {},
        }
    }
}

/// A header parsed from a textual stream has textual content and fields
/// and leaves the stream textual.
#[verifier::rlimit(50)]
pub proof fn lemma_sp_header_text(
    toks: Seq<AdiTokModel>,
    clean: bool,
    content: Seq<u8>,
    fields: Seq<SpecifierModel>,
)
    requires
        stream_runs_ok(toks),
        spec_text_ok(content),
        fields_text_ok(fields),
    ensures
        sp_header(toks, clean, content, fields) matches ParseOutcome::Parsed(h, rest)
            ==> spec_text_ok(h.content) && fields_text_ok(h.fields) && stream_runs_ok(rest),
    decreases toks.len(),
{
    if sp_header(toks, clean, content, fields) is Parsed {
        match sp_peek(toks, clean, 0) {
            Option::None => {},
            Option::Some(t0) => match t0 {
                AdiTokModel::Bytes(b) => {
                    assert(toks[0] == t0);
                    assert(spec_text_ok(b));
                    lemma_runs_ok_skip(toks, 1);
                    lemma_concat_text(content, b);
                    lemma_sp_header_text(toks.skip(1), clean, content + b, fields);
                    assert(sp_header(toks, clean, content, fields) matches ParseOutcome::Parsed(h, rest)
                        ==> spec_text_ok(h.content) && fields_text_ok(h.fields)
                        && stream_runs_ok(rest));
                },
                AdiTokModel::Colon => {
                    assert(toks[0] == t0);
                    lemma_runs_ok_skip(toks, 1);
                    lemma_concat_text(content, seq![0x3au8]);
                    assert(content.push(0x3au8) =~= content + seq![0x3au8]);
                    lemma_sp_header_text(toks.skip(1), clean, content.push(0x3au8), fields);
                    assert(sp_header(toks, clean, content, fields) matches ParseOutcome::Parsed(h, rest)
                        ==> spec_text_ok(h.content) && fields_text_ok(h.fields)
                        && stream_runs_ok(rest));
                },
                AdiTokModel::Rab => {
                    assert(toks[0] == t0);
                    lemma_runs_ok_skip(toks, 1);
                    lemma_concat_text(content, seq![0x3eu8]);
                    assert(content.push(0x3eu8) =~= content + seq![0x3eu8]);
                    lemma_sp_header_text(toks.skip(1), clean, content.push(0x3eu8), fields);
                    assert(sp_header(toks, clean, content, fields) matches ParseOutcome::Parsed(h, rest)
                        ==> spec_text_ok(h.content) && fields_text_ok(h.fields)
                        && stream_runs_ok(rest));
                },
                AdiTokModel::Eof => {},
                AdiTokModel::Lab => {
                    let marker = sp_peek(toks, clean, 1) matches Option::Some(t1) && (t1
                        matches AdiTokModel::Bytes(s) && spec_bytes_eq_ci(s, spec_eoh()))
                        && sp_peek(toks, clean, 2) == Option::Some(AdiTokModel::Rab);
                    if !marker {
                        lemma_sp_specifier_text(toks, clean);
                        lemma_sp_specifier_len(toks, clean);
                        match sp_specifier(toks, clean) {
                            ParseOutcome::Parsed(s, rest) => {
                                lemma_fields_push_text(fields, s);
                                lemma_sp_header_text(rest, clean, content, fields.push(s));
                                assert(sp_header_field(toks, clean, content, fields)
                                    == sp_header(rest, clean, content, fields.push(s)));
                                assert(sp_header(toks, clean, content, fields) matches ParseOutcome::Parsed(h, rest)
                                    ==> spec_text_ok(h.content) && fields_text_ok(h.fields)
                                    && stream_runs_ok(rest));
                            },
                            ParseOutcome::Malformed => {},
                            ParseOutcome::Unsupported => {},
                        }
                    } else {
                        assert(toks.len() >= 3);
                        lemma_runs_ok_skip(toks, 3);
                        assert(stream_runs_ok(toks.skip(3)));
                        assert(sp_header(toks, clean, content, fields) == ParseOutcome::Parsed(
                            HeaderModel { content, fields },
                            toks.skip(3),
                        ));
                    }
                    assert(sp_header(toks, clean, content, fields) matches ParseOutcome::Parsed(h, rest)
                        ==> spec_text_ok(h.content) && fields_text_ok(h.fields)
                        && stream_runs_ok(rest));
                },
            },
        }
    }
}

/// Concatenating textual byte sequences stays textual.
proof fn lemma_concat_text(a: Seq<u8>, b: Seq<u8>)
    requires
        spec_text_ok(a),
        spec_text_ok(b),
    ensures
        spec_text_ok(a + b),
{
    assert forall|i: int|
        0 <= i < (a + b).len() implies crate::adi_tokens::spec_byte_ok(#[trigger] (a + b)[i]) by {
        if i < a.len() {
            assert((a + b)[i] == a[i]);
        } else {
            assert((a + b)[i] == b[i - a.len()]);
        }
    }
}

/// Appending a textual field keeps a field list textual.
proof fn lemma_fields_push_text(fields: Seq<SpecifierModel>, s: SpecifierModel)
    requires
        fields_text_ok(fields),
        spec_text_ok(s.bytes),
    ensures
        fields_text_ok(fields.push(s)),
{
    assert forall|i: int|
        0 <= i < fields.push(s).len() implies spec_text_ok(
        (#[trigger] fields.push(s)[i]).bytes,
    ) by {
        if i < fields.len() {
            assert(fields.push(s)[i] == fields[i]);
        } else {
            assert(fields.push(s)[i] == s);
        }
    }
}

/// A record parsed from a textual stream has textual fields and leaves
/// the stream textual.
pub proof fn lemma_sp_record_text(toks: Seq<AdiTokModel>, clean: bool, fields: Seq<SpecifierModel>)
    requires
        stream_runs_ok(toks),
        fields_text_ok(fields),
    ensures
        sp_record(toks, clean, fields) matches ParseOutcome::Parsed(m, rest) ==> fields_text_ok(
            m.fields,
        ) && stream_runs_ok(rest),
    decreases toks.len(),
{
    if sp_record(toks, clean, fields) is Parsed {
        let t0 = sp_peek(toks, clean, 0)->0;
        let t1 = sp_peek(toks, clean, 1)->0;
        let t2 = sp_peek(toks, clean, 2)->0;
        if t0 is Lab && (t1 matches AdiTokModel::Bytes(s) && spec_bytes_eq_ci(s, spec_eor()))
            && t2 is Rab {
            assert(toks.len() >= 3);
            lemma_runs_ok_skip(toks, 3);
            lemma_sp_filler_text(toks.skip(3), clean);
        } else {
            lemma_sp_specifier_text(toks, clean);
            lemma_sp_specifier_len(toks, clean);
            match sp_specifier(toks, clean) {
                ParseOutcome::Parsed(s, rest) => {
                    lemma_fields_push_text(fields, s);
                    lemma_sp_record_text(rest, clean, fields.push(s));
                },
                ParseOutcome::Malformed => {},
                ParseOutcome::Unsupported => {},
            }
        }
    }
}

/// Records parsed from a textual stream are all textual.
pub proof fn lemma_sp_records_text(toks: Seq<AdiTokModel>, clean: bool, recs: Seq<RecordModel>)
    requires
        stream_runs_ok(toks),
        records_text_ok(recs),
    ensures
        sp_records(toks, clean, recs) matches ParseOutcome::Parsed(rs, rest) ==> records_text_ok(
            rs,
        ),
    decreases toks.len(),
{
    if sp_records(toks, clean, recs) is Parsed {
        match sp_peek(toks, clean, 0) {
            Option::None => {},
            Option::Some(AdiTokModel::Eof) => {},
            Option::Some(t0) => {
                lemma_sp_record_text(toks, clean, Seq::empty());
                lemma_sp_record_len(toks, clean, Seq::empty());
                match sp_record(toks, clean, Seq::empty()) {
                    ParseOutcome::Parsed(r, rest) => {
                        assert forall|i: int|
                            0 <= i < recs.push(r).len() implies fields_text_ok(
                            (#[trigger] recs.push(r)[i]).fields,
                        ) by {
                            if i < recs.len() {
                                assert(recs.push(r)[i] == recs[i]);
                            } else {
                                assert(recs.push(r)[i] == r);
                            }
                        }
                        lemma_sp_records_text(rest, clean, recs.push(r));
                    },
                    ParseOutcome::Malformed => {},
                    ParseOutcome::Unsupported => {},
                }
            },
        }
    }
}

/// Every file the parser yields carries only textual bytes: the header
/// text and every field value.
pub proof fn lemma_sp_file_text(input: Seq<u8>)
    ensures
        sp_file(input) matches ParseOutcome::Parsed(f, rest) ==> (match f.header {
            Option::Some(h) => spec_text_ok(h.content) && fields_text_ok(h.fields),
            Option::None => true,
        }) && records_text_ok(f.records),
{
    if sp_file(input) is Parsed {
        let toks = crate::adi_tokens::spec_tokens_from(input, 0);
        let clean = crate::adi_tokens::spec_clean_from(input, 0);
        lemma_tokens_from_text(input, 0);
        match sp_peek(toks, clean, 0) {
            Option::None => {},
            Option::Some(AdiTokModel::Lab) => {
                lemma_body_text(toks, clean);
            },
            Option::Some(AdiTokModel::Eof) => {
                lemma_body_text(toks, clean);
            },
            Option::Some(t0) => {
                lemma_sp_header_text(toks, clean, Seq::empty(), Seq::empty());
                match sp_header(toks, clean, Seq::empty(), Seq::empty()) {
                    ParseOutcome::Parsed(h, rest) => {
                        lemma_body_text(rest, clean);
                    },
                    ParseOutcome::Malformed => {},
                    ParseOutcome::Unsupported => {},
                }
            },
        }
    }
}

/// Helper for `lemma_sp_file_text`: the record pass over a textual
/// stream yields textual records.
proof fn lemma_body_text(toks: Seq<AdiTokModel>, clean: bool)
    requires
        stream_runs_ok(toks),
    ensures
        sp_records_pass(toks, clean) matches ParseOutcome::Parsed(rs, rest) ==> records_text_ok(
            rs,
        ),
{
    lemma_sp_filler_text(toks, clean);
    match sp_filler(toks, clean) {
        ParseOutcome::Parsed(u, rest) => {
            lemma_sp_records_text(rest, clean, Seq::empty());
        },
        ParseOutcome::Malformed => {},
        ParseOutcome::Unsupported => {},
    }
}

/// True when a byte sequence can form one raw byte run: non-empty,
/// delimiter-free, and textual.
pub open spec fn spec_run_bytes(b: Seq<u8>) -> bool {
    &&& b.len() >= 1
    &&& forall|i: int| 0 <= i < b.len() ==> !crate::adi_tokens::spec_is_delim(#[trigger] b[i])
    &&& forall|i: int| 0 <= i < b.len() ==> crate::adi_tokens::spec_byte_ok(#[trigger] b[i])
}

/// The byte-level form of the specifier law: an input that reads
/// `<name:length>` followed by at least `length` delimiter-free value
/// bytes — and then either nothing or the next bracket — parses to a
/// specifier with that name, its lower-cased canonical form, and exactly
/// the first `length` value bytes, the surplus discarded as filler.
#[verifier::rlimit(50)]
pub proof fn lemma_specifier_bytes(name: Seq<u8>, lenb: Seq<u8>, w: Seq<u8>, rest: Seq<u8>)
    requires
        spec_run_bytes(name),
        spec_run_bytes(lenb),
        spec_all_digits(lenb),
        1 <= spec_dec_val(lenb) <= ADI_MAX_FIELDLEN,
        spec_run_bytes(w),
        w.len() >= spec_dec_val(lenb),
        rest.len() == 0 || rest[0] == 0x3c,
    ensures
        ({
            let input = seq![0x3cu8] + name + seq![0x3au8] + lenb + seq![0x3eu8] + w + rest;
            let toks = crate::adi_tokens::spec_tokens_from(input, 0);
            let clean = crate::adi_tokens::spec_clean_from(input, 0);
            sp_specifier(toks, clean) matches ParseOutcome::Parsed(m, rem) && m
                == (SpecifierModel {
                name: spec_ascii_chars(name),
                canon: spec_ascii_chars(spec_lower_bytes(name)),
                length: spec_dec_val(lenb),
                bytes: w.take(spec_dec_val(lenb) as int),
                ty: Option::<Seq<char>>::None,
            })
        }),
{
    let input = seq![0x3cu8] + name + seq![0x3au8] + lenb + seq![0x3eu8] + w + rest;
    let n1 = name.len() as int;
    let n2 = lenb.len() as int;
    let n3 = w.len() as int;
    let p6 = 3 + n1 + n2 + n3;
    assert(input.len() == p6 + rest.len());
    assert(input[0] == 0x3c);
    assert forall|i: int| 1 <= i < 1 + n1 implies input[i] == name[i - 1] by {}
    assert(input[1 + n1] == 0x3a);
    assert forall|i: int| 2 + n1 <= i < 2 + n1 + n2 implies input[i] == lenb[i - 2 - n1] by {}
    assert(input[2 + n1 + n2] == 0x3e);
    assert forall|i: int| 3 + n1 + n2 <= i < p6 implies input[i] == w[i - 3 - n1 - n2] by {}
    assert(rest.len() > 0 ==> input[p6] == rest[0]);
    assert(input.subrange(1, 1 + n1) =~= name);
    assert(input.subrange(2 + n1, 2 + n1 + n2) =~= lenb);
    assert(input.subrange(3 + n1 + n2, p6) =~= w);
    crate::adi_tokens::lemma_tokens_step_delim(input, 0);
    crate::adi_tokens::lemma_tokens_step_run(input, 1, 1 + n1);
    crate::adi_tokens::lemma_tokens_step_delim(input, 1 + n1);
    crate::adi_tokens::lemma_tokens_step_run(input, 2 + n1, 2 + n1 + n2);
    crate::adi_tokens::lemma_tokens_step_delim(input, 2 + n1 + n2);
    crate::adi_tokens::lemma_tokens_step_run(input, 3 + n1 + n2, p6);
    let tail = crate::adi_tokens::spec_tokens_from(input, p6);
    let toks = crate::adi_tokens::spec_tokens_from(input, 0);
    let clean = crate::adi_tokens::spec_clean_from(input, 0);
    assert(crate::adi_tokens::spec_token_at(input, 0) == AdiTokModel::Lab);
    assert(crate::adi_tokens::spec_token_at(input, 1 + n1) == AdiTokModel::Colon);
    assert(crate::adi_tokens::spec_token_at(input, 2 + n1 + n2) == AdiTokModel::Rab);
    assert(toks =~= seq![
        AdiTokModel::Lab,
        AdiTokModel::Bytes(name),
        AdiTokModel::Colon,
        AdiTokModel::Bytes(lenb),
        AdiTokModel::Rab,
        AdiTokModel::Bytes(w),
    ] + tail);
    assert(clean == crate::adi_tokens::spec_clean_from(input, p6));
    if rest.len() == 0 {
        assert(p6 == input.len());
        assert(tail =~= Seq::<AdiTokModel>::empty());
        assert(clean);
        assert(sp_filler(tail, clean) is Parsed);
    } else {
        assert(input[p6] == 0x3c);
        crate::adi_tokens::lemma_tokens_step_delim(input, p6);
        assert(crate::adi_tokens::spec_token_at(input, p6) == AdiTokModel::Lab);
        assert(tail.len() >= 1 && tail[0] is Lab);
        assert(sp_filler(tail, clean) is Parsed);
    }
    lemma_specifier_frame(name, lenb, w, tail, clean);
}

/// Case variants of the end-of-header marker all terminate a header
/// identically.
///
/// For every marker spelling that equals `eoh` case-insensitively, a
/// header parse whose stream continues `<`, the spelling, `>` ends right
/// there with exactly the text and fields gathered so far, leaving the
/// tokens after the marker untouched — whatever the spelling's case.
pub proof fn lemma_header_marker_ci(
    s: Seq<u8>,
    rest: Seq<AdiTokModel>,
    clean: bool,
    content: Seq<u8>,
    fields: Seq<SpecifierModel>,
)
    requires
        spec_bytes_eq_ci(s, spec_eoh()),
    ensures
        sp_header(
            seq![AdiTokModel::Lab, AdiTokModel::Bytes(s), AdiTokModel::Rab] + rest,
            clean,
            content,
            fields,
        ) == ParseOutcome::Parsed(HeaderModel { content, fields }, rest),
{
    let toks = seq![AdiTokModel::Lab, AdiTokModel::Bytes(s), AdiTokModel::Rab] + rest;
    assert(toks[0] == AdiTokModel::Lab);
    assert(toks[1] == AdiTokModel::Bytes(s));
    assert(toks[2] == AdiTokModel::Rab);
    assert(toks.skip(3) =~= rest);
}

/// Case variants of the end-of-record marker all terminate a record
/// identically.
///
/// For every marker spelling that equals `eor` case-insensitively, a
/// record parse whose stream continues `<`, the spelling, `>` completes
/// right there with exactly the fields gathered so far, discarding the
/// same trailing filler — whatever the spelling's case.
pub proof fn lemma_record_marker_ci(
    s: Seq<u8>,
    rest: Seq<AdiTokModel>,
    clean: bool,
    fields: Seq<SpecifierModel>,
)
    requires
        spec_bytes_eq_ci(s, spec_eor()),
        sp_filler(rest, clean) is Parsed,
    ensures
        sp_record(
            seq![AdiTokModel::Lab, AdiTokModel::Bytes(s), AdiTokModel::Rab] + rest,
            clean,
            fields,
        ) == ParseOutcome::Parsed(RecordModel { fields }, sp_filler(rest, clean)->Parsed_1),
{
    let toks = seq![AdiTokModel::Lab, AdiTokModel::Bytes(s), AdiTokModel::Rab] + rest;
    assert(toks[0] == AdiTokModel::Lab);
    assert(toks[1] == AdiTokModel::Bytes(s));
    assert(toks[2] == AdiTokModel::Rab);
    assert(toks.skip(3) =~= rest);
    match sp_filler(rest, clean) {
        ParseOutcome::Parsed(u, frest) => {},
        ParseOutcome::Malformed => {
            assert(false);
        },
        ParseOutcome::Unsupported => {
            assert(false);
        },
    }
}

/// A declared length above the fixed maximum is malformed input,
/// regardless of what follows.
///
/// For every specifier frame whose length token denotes a number above
/// `ADI_MAX_FIELDLEN`, the specifier parse fails as malformed input,
/// whatever tokens follow the length — in particular, whether or not
/// enough value bytes actually follow.
pub proof fn lemma_length_over_max(
    name: Seq<u8>,
    lenb: Seq<u8>,
    rest: Seq<AdiTokModel>,
    clean: bool,
)
    requires
        lenb.len() >= 1,
        spec_all_digits(lenb),
        spec_dec_val(lenb) > ADI_MAX_FIELDLEN,
    ensures
        sp_specifier(
            seq![AdiTokModel::Lab, AdiTokModel::Bytes(name), AdiTokModel::Colon, AdiTokModel::Bytes(
                lenb,
            )] + rest,
            clean,
        ) is Malformed,
{
    let toks = seq![
        AdiTokModel::Lab,
        AdiTokModel::Bytes(name),
        AdiTokModel::Colon,
        AdiTokModel::Bytes(lenb),
    ] + rest;
    assert(toks[0] == AdiTokModel::Lab);
    assert(toks[1] == AdiTokModel::Bytes(name));
    assert(toks[2] == AdiTokModel::Colon);
    assert(toks[3] == AdiTokModel::Bytes(lenb));
}

/// A header whose stream holds no left bracket never terminates: the end
/// of the input, or a tokenizer fault, comes first, and the parse fails
/// as malformed input.
pub proof fn lemma_header_unterminated(
    toks: Seq<AdiTokModel>,
    clean: bool,
    content: Seq<u8>,
    fields: Seq<SpecifierModel>,
)
    requires
        forall|i: int| 0 <= i < toks.len() ==> !(#[trigger] toks[i] is Lab),
    ensures
        sp_header(toks, clean, content, fields) is Malformed,
    decreases toks.len(), 1int,
{
    match sp_peek(toks, clean, 0) {
        Option::None => {},
        Option::Some(t0) => match t0 {
            AdiTokModel::Bytes(b) => {
                assert(toks[0] == t0);
                lemma_header_unterminated_skip(toks, clean, content + b, fields);
            },
            AdiTokModel::Colon => {
                assert(toks[0] == t0);
                lemma_header_unterminated_skip(toks, clean, content.push(0x3au8), fields);
            },
            AdiTokModel::Rab => {
                assert(toks[0] == t0);
                lemma_header_unterminated_skip(toks, clean, content.push(0x3eu8), fields);
            },
            AdiTokModel::Eof => {},
            AdiTokModel::Lab => {
                assert(false);
            },
        },
    }
}

/// Helper for `lemma_header_unterminated`: the recursive step.
proof fn lemma_header_unterminated_skip(
    toks: Seq<AdiTokModel>,
    clean: bool,
    content: Seq<u8>,
    fields: Seq<SpecifierModel>,
)
    requires
        toks.len() >= 1,
        forall|i: int| 0 <= i < toks.len() ==> !(#[trigger] toks[i] is Lab),
    ensures
        sp_header(toks.skip(1), clean, content, fields) is Malformed,
    decreases toks.len(), 0int,
{
    assert forall|i: int| 0 <= i < toks.skip(1).len() implies !(#[trigger] toks.skip(1)[i]
        is Lab) by {
        assert(toks.skip(1)[i] == toks[i + 1]);
    }
    lemma_header_unterminated(toks.skip(1), clean, content, fields);
}

} // verus!
