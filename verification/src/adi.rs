//! Physical layer of the ADI file format: data structures and parser.
//!
//! The parser is layered.  At the bottom, the tokenizer of `adi_tokens`
//! reads one token at a time from the input bytes.  Above it,
//! `AdiParseState` keeps a queue of tokens that have been read but not
//! consumed, so that the parsers can peek several tokens ahead before
//! committing; the queue plus the untokenized remainder of the input
//! always make up exactly the unconsumed input, and the end-of-stream
//! token, once enqueued, is never removed.  On top of that sit the
//! specifier, header, record and whole-file parsers, each proved to
//! return exactly what the corresponding model function of `adi_model`
//! describes.

use vstd::prelude::*;
use vstd::string::StringExecFns;
use vstd::string::StringSliceAdditionalSpecFns;

use crate::AdifParseError;
use crate::adi_model::ADI_MAX_FIELDLEN;
use crate::adi_model::FileModel;
use crate::adi_model::HeaderModel;
use crate::adi_model::ParseOutcome;
use crate::adi_model::RecordModel;
use crate::adi_model::SpecifierModel;
use crate::adi_model::sp_peek;
use crate::adi_tokens::AdiToken;
use crate::adi_tokens::AdiTokModel;
use crate::adi_tokens::adi_import_read_token;
use crate::adi_tokens::spec_clean_from;
use crate::adi_tokens::spec_token_at;
use crate::adi_tokens::spec_token_len;
use crate::adi_tokens::spec_token_ok;
use crate::adi_tokens::spec_tokens_from;
use crate::adifutil::spec_all_ascii;
use crate::adifutil::spec_ascii_chars;
use crate::adifutil::ascii_to_string;

verus! {

/// A complete ADI file: an optional header followed by records.  The
/// whole file is materialized; this is not a streaming representation.
pub struct AdiFile {
    /// File header, if present.
    pub adi_header: Option<AdiHeader>,
    /// List of records in the file.
    pub adi_records: Vec<AdiRecord>,
}

/// The header of an ADI file: free-form text interleaved with data
/// specifiers, up to the end-of-header marker.
pub struct AdiHeader {
    /// Complete header text content.
    pub adih_content: Vec<u8>,
    /// Header data specifiers.
    pub adih_fields: Vec<AdiDataSpecifier>,
}

/// One record of an ADI file: the data specifiers up to the
/// end-of-record marker.
pub struct AdiRecord {
    /// The record's data specifiers.
    pub adir_fields: Vec<AdiDataSpecifier>,
}

/// A data specifier: one `<name:length>value` unit, essentially a
/// key-value pair.  The members reflect exactly what appears in the
/// file; in particular the type tag is kept only if one was written, and
/// higher layers fill in defaults.
pub struct AdiDataSpecifier {
    /// Name of the field, as written.
    pub adif_name: String,
    /// Canonicalized (lower-case) name.
    pub adif_name_canon: String,
    /// Size in bytes of the field's value.
    pub adif_length: usize,
    /// The field's value, exactly `adif_length` bytes.
    pub adif_bytes: Vec<u8>,
    /// Type tag for the field, if one was provided.
    pub adif_type: Option<String>,
}

impl View for AdiDataSpecifier {
    type V = SpecifierModel;

    open spec fn view(&self) -> SpecifierModel {
        SpecifierModel {
            name: self.adif_name@,
            canon: self.adif_name_canon@,
            length: self.adif_length as nat,
            bytes: self.adif_bytes@,
            ty: match self.adif_type {
                Option::Some(t) => Option::Some(t@),
                Option::None => Option::None,
            },
        }
    }
}

/// The models of a list of data specifiers.
pub open spec fn specs_view(v: Seq<AdiDataSpecifier>) -> Seq<SpecifierModel> {
    v.map_values(|d: AdiDataSpecifier| d@)
}

impl View for AdiHeader {
    type V = HeaderModel;

    open spec fn view(&self) -> HeaderModel {
        HeaderModel { content: self.adih_content@, fields: specs_view(self.adih_fields@) }
    }
}

impl View for AdiRecord {
    type V = RecordModel;

    open spec fn view(&self) -> RecordModel {
        RecordModel { fields: specs_view(self.adir_fields@) }
    }
}

/// The models of a list of records.
pub open spec fn records_view(v: Seq<AdiRecord>) -> Seq<RecordModel> {
    v.map_values(|r: AdiRecord| r@)
}

impl View for AdiFile {
    type V = FileModel;

    open spec fn view(&self) -> FileModel {
        FileModel {
            header: match self.adi_header {
                Option::Some(h) => Option::Some(h@),
                Option::None => Option::None,
            },
            records: records_view(self.adi_records@),
        }
    }
}

/// The queued tokens `toks` are exactly the tokens that tokenization
/// yields one after another from byte position `q` to byte position
/// `end`.
pub open spec fn token_chain(input: Seq<u8>, q: int, toks: Seq<AdiTokModel>, end: int) -> bool
    decreases toks.len(),
{
    if toks.len() == 0 {
        q == end
    } else {
        &&& 0 <= q < input.len()
        &&& spec_token_ok(input, q)
        &&& toks[0] == spec_token_at(input, q)
        &&& token_chain(input, q + spec_token_len(input, q), toks.skip(1), end)
    }
}

/// A chain may be extended by reading the next token at its end.
proof fn lemma_chain_push(input: Seq<u8>, q: int, toks: Seq<AdiTokModel>, end: int)
    requires
        token_chain(input, q, toks, end),
        0 <= end < input.len(),
        spec_token_ok(input, end),
    ensures
        token_chain(
            input,
            q,
            toks.push(spec_token_at(input, end)),
            end + spec_token_len(input, end),
        ),
    decreases toks.len(),
{
    let t = spec_token_at(input, end);
    let end2 = end + spec_token_len(input, end);
    if toks.len() == 0 {
        assert(toks.push(t)[0] == t);
        assert(toks.push(t).skip(1) =~= Seq::<AdiTokModel>::empty());
        assert(token_chain(input, q + spec_token_len(input, q), toks.push(t).skip(1), end2));
        assert(token_chain(input, q, toks.push(t), end2));
    } else {
        lemma_chain_push(input, q + spec_token_len(input, q), toks.skip(1), end);
        assert(toks.push(t).skip(1) =~= toks.skip(1).push(t));
        assert(toks.push(t)[0] == toks[0]);
        assert(token_chain(input, q, toks.push(t), end2));
    }
}

/// A chain from `q` to `end` splits tokenization at `q` into the chained
/// tokens followed by tokenization at `end`, with cleanliness carried
/// over.
proof fn lemma_chain_stream(input: Seq<u8>, q: int, toks: Seq<AdiTokModel>, end: int)
    requires
        token_chain(input, q, toks, end),
        0 <= q,
        end <= input.len(),
    ensures
        q <= end,
        spec_tokens_from(input, q) == toks + spec_tokens_from(input, end),
        spec_clean_from(input, q) == spec_clean_from(input, end),
    decreases toks.len(),
{
    if toks.len() == 0 {
        assert(spec_tokens_from(input, q) =~= toks + spec_tokens_from(input, end));
    } else {
        crate::adi_tokens::lemma_run_len(input, q);
        lemma_chain_stream(input, q + spec_token_len(input, q), toks.skip(1), end);
        assert(spec_tokens_from(input, q) =~= toks + spec_tokens_from(input, end));
    }
}

/// Tokenization never yields the end-of-stream token, and every raw byte
/// run it yields is non-empty.
pub proof fn lemma_tokens_from_wf(input: Seq<u8>, p: int)
    requires
        0 <= p <= input.len(),
    ensures
        forall|i: int|
            0 <= i < spec_tokens_from(input, p).len() ==> !(#[trigger] spec_tokens_from(
                input,
                p,
            )[i] is Eof),
        forall|i: int|
            0 <= i < spec_tokens_from(input, p).len() ==> (#[trigger] spec_tokens_from(input, p)[i]
                matches AdiTokModel::Bytes(b) ==> b.len() >= 1),
    decreases input.len() - p,
{
    crate::adi_tokens::lemma_run_len(input, p);
    if p >= input.len() || !spec_token_ok(input, p) {
    } else {
        lemma_tokens_from_wf(input, p + spec_token_len(input, p));
    }
}

/// Parse state for one ADI parse: the input bytes, the queue of tokens
/// read but not yet consumed, and the fault and end-of-stream flags.
pub struct AdiParseState<'a> {
    aps_source: &'a [u8],         // underlying ADI input
    aps_pos: usize,               // first byte not yet tokenized
    aps_tokens: Vec<AdiToken>,    // next unconsumed tokens
    aps_error: bool,              // if true, we've encountered an error
    aps_done: bool,               // if true, we've read EOF
    aps_start: Ghost<int>,        // byte position of the first unconsumed token
}

impl<'a> AdiParseState<'a> {
    /// The input bytes being parsed.
    pub closed spec fn inp(self) -> Seq<u8> {
        self.aps_source@
    }

    /// The models of the queued tokens, the end-of-stream token left out.
    pub closed spec fn qmodels(self) -> Seq<AdiTokModel> {
        if self.aps_done {
            self.aps_tokens@.map_values(|t: AdiToken| t@).drop_last()
        } else {
            self.aps_tokens@.map_values(|t: AdiToken| t@)
        }
    }

    /// How many tokens are queued and consumable.
    pub closed spec fn qlen(self) -> int {
        self.qmodels().len() as int
    }

    /// The unconsumed tokens: the queue followed by what tokenization of
    /// the remaining input yields.
    pub closed spec fn toks(self) -> Seq<AdiTokModel> {
        self.qmodels() + spec_tokens_from(self.inp(), self.aps_pos as int)
    }

    /// True when the remaining input tokenizes without error.
    pub closed spec fn clean(self) -> bool {
        spec_clean_from(self.inp(), self.aps_pos as int)
    }

    /// True after an unrecoverable error: no further reads are attempted.
    pub closed spec fn faulted(self) -> bool {
        self.aps_error
    }

    /// True once the end-of-stream token has been read and enqueued.
    pub closed spec fn ended(self) -> bool {
        self.aps_done
    }

    /// Structural invariant: the queue chains the tokens between the
    /// consumed part of the input and the untokenized part, and the
    /// end-of-stream token, read exactly at the end of the input, stays
    /// last in the queue.
    pub closed spec fn wf(self) -> bool {
        &&& self.aps_pos <= self.inp().len()
        &&& 0 <= self.aps_start@
        &&& (self.aps_done ==> self.aps_tokens@.len() >= 1 && self.aps_tokens@.last()@ is Eof
            && self.aps_pos == self.inp().len())
        &&& token_chain(self.inp(), self.aps_start@, self.qmodels(), self.aps_pos as int)
    }

    /// A fresh parse state whose unconsumed input is the whole source.
    pub fn new(source: &'a [u8]) -> (r: AdiParseState<'a>)
        ensures
            r.wf(),
            !r.faulted(),
            r.inp() == source@,
            r.toks() == spec_tokens_from(source@, 0),
            r.clean() == spec_clean_from(source@, 0),
    {
        let r = AdiParseState {
            aps_source: source,
            aps_pos: 0,
            aps_tokens: Vec::new(),
            aps_error: false,
            aps_done: false,
            aps_start: Ghost(0int),
        };
        proof {
            assert(r.qmodels() =~= Seq::<AdiTokModel>::empty());
            assert(r.toks() =~= spec_tokens_from(source@, 0));
        }
        r
    }

    /// Ensures that at least `howmany` tokens have been read from the
    /// input into the queue, or that the end of the stream was reached
    /// first.  A tokenizer error faults the state permanently.
    fn adi_parse_advance_tokens(&mut self, howmany: usize) -> (r: Result<(), AdifParseError>)
        requires
            old(self).wf(),
            !old(self).faulted(),
        ensures
            final(self).wf(),
            final(self).inp() == old(self).inp(),
            final(self).toks() == old(self).toks(),
            final(self).clean() == old(self).clean(),
            final(self).qlen() >= old(self).qlen(),
            match r {
                Ok(u) => !final(self).faulted() && (final(self).qraw() >= howmany
                    || final(self).ended()),
                Err(e) => final(self).faulted() && e is ADIF_EBADINPUT && old(self).toks().len()
                    < howmany && !old(self).clean(),
            },
    {
        while !self.aps_done && self.aps_tokens.len() < howmany
            invariant
                self.wf(),
                !self.faulted(),
                self.inp() == old(self).inp(),
                self.toks() == old(self).toks(),
                self.clean() == old(self).clean(),
                self.qlen() >= old(self).qlen(),
            decreases howmany - self.aps_tokens@.len(),
        {
            let ghost pre = *self;
            let res = adi_import_read_token(self.aps_source, self.aps_pos);
            match res {
                Ok((t, newpos)) => {
                    proof {
                        if !(t@ is Eof) {
                            assert(self.aps_pos < self.inp().len());
                            lemma_chain_push(
                                self.inp(),
                                self.aps_start@,
                                self.qmodels(),
                                self.aps_pos as int,
                            );
                        }
                    }
                    let is_eof = matches!(t, AdiToken::ADI_TOK_EOF);
                    if is_eof {
                        self.aps_done = true;
                    }
                    self.aps_tokens.push(t);
                    self.aps_pos = newpos;
                    proof {
                        if pre.ended() {
                            assert(false);
                        }
                        if is_eof {
                            assert(self.aps_tokens@.map_values(|x: AdiToken| x@).drop_last()
                                =~= pre.aps_tokens@.map_values(|x: AdiToken| x@));
                            assert(self.qmodels() =~= pre.qmodels());
                            assert(self.toks() =~= pre.toks());
                        } else {
                            assert(self.aps_tokens@.map_values(|x: AdiToken| x@)
                                =~= pre.aps_tokens@.map_values(|x: AdiToken| x@).push(t@));
                            assert(self.qmodels() =~= pre.qmodels().push(t@));
                            assert(spec_tokens_from(pre.inp(), pre.aps_pos as int)
                                =~= seq![t@] + spec_tokens_from(pre.inp(), newpos as int));
                            assert(self.toks() =~= pre.toks());
                        }
                    }
                },
                Err(e) => {
                    self.aps_error = true;
                    proof {
                        assert(spec_tokens_from(self.inp(), self.aps_pos as int)
                            =~= Seq::<AdiTokModel>::empty());
                        assert(self.toks() =~= self.qmodels());
                        assert(self.qmodels().len() == self.aps_tokens@.len());
                        assert(!self.clean());
                    }
                    return Err(e);
                },
            }
        }
        Ok(())
    }

    /// Examines the token at offset `which` from the start of the
    /// unconsumed input without removing anything.  Once the
    /// end-of-stream token has been read, it is returned for every
    /// offset at or beyond it.  On a faulted state the peek fails
    /// immediately, without re-invoking the tokenizer.
    pub fn adi_parse_peek_token(&mut self, which: u8) -> (r: Result<AdiToken, AdifParseError>)
        requires
            old(self).wf(),
        ensures
            final(self).wf(),
            final(self).inp() == old(self).inp(),
            final(self).toks() == old(self).toks(),
            final(self).clean() == old(self).clean(),
            final(self).qlen() >= old(self).qlen(),
            old(self).faulted() ==> r is Err && final(self).faulted(),
            !old(self).faulted() ==> match r {
                Ok(t) => !final(self).faulted() && Option::Some(t@) == sp_peek(
                    old(self).toks(),
                    old(self).clean(),
                    which as int,
                ) && (!(t@ is Eof) ==> final(self).qlen() > which as int),
                Err(e) => final(self).faulted() && e is ADIF_EBADINPUT && sp_peek(
                    old(self).toks(),
                    old(self).clean(),
                    which as int,
                ) is None,
            },
    {
        if self.aps_error {
            return Err(
                AdifParseError::ADIF_EBADINPUT(
                    String::from_str("peek on a faulted parse state"),
                ),
            );
        }
        let howmany = which as usize + 1;
        match self.adi_parse_advance_tokens(howmany) {
            Ok(u) => {},
            Err(e) => {
                proof {
                    assert(old(self).toks().len() < which as int + 1);
                }
                return Err(e);
            },
        }
        proof {
            lemma_chain_no_eof(
                self.inp(),
                self.aps_start@,
                self.qmodels(),
                self.aps_pos as int,
            );
        }
        let wu = which as usize;
        if wu < self.aps_tokens.len() {
            let t = self.aps_tokens[wu].duplicate();
            proof {
                if self.aps_done && wu == self.aps_tokens@.len() - 1 {
                    assert(t@ is Eof);
                    assert(spec_tokens_from(self.inp(), self.aps_pos as int)
                        =~= Seq::<AdiTokModel>::empty());
                    assert(self.toks().len() == self.qlen());
                    assert(self.clean());
                } else {
                    assert(t@ == self.qmodels()[wu as int]);
                    assert(self.toks()[wu as int] == t@);
                    assert(!(t@ is Eof));
                }
            }
            return Ok(t);
        }
        // Beyond the queue: the stream must have ended, and the
        // end-of-stream token is the last queued token.
        assert(self.aps_done);
        let n = self.aps_tokens.len();
        let t = self.aps_tokens[n - 1].duplicate();
        proof {
            assert(t@ is Eof);
            assert(spec_tokens_from(self.inp(), self.aps_pos as int)
                =~= Seq::<AdiTokModel>::empty());
            assert(self.toks().len() == self.qlen());
            assert(self.clean());
        }
        Ok(t)
    }

    /// Removes the first `howmany` queued tokens.  Only tokens that have
    /// been examined with `adi_parse_peek_token` may be consumed, and the
    /// end-of-stream token is never among them.
    pub fn adi_parse_consume_tokens(&mut self, howmany: u8)
        requires
            old(self).wf(),
            !old(self).faulted(),
            howmany as int <= old(self).qlen(),
        ensures
            final(self).wf(),
            !final(self).faulted(),
            final(self).inp() == old(self).inp(),
            final(self).toks() == old(self).toks().skip(howmany as int),
            final(self).clean() == old(self).clean(),
            final(self).qlen() == old(self).qlen() - howmany as int,
    {
        let mut count: u8 = 0;
        while count < howmany
            invariant
                self.wf(),
                !self.faulted(),
                count <= howmany,
                self.inp() == old(self).inp(),
                howmany as int - count as int <= self.qlen(),
                self.toks() == old(self).toks().skip(count as int),
                self.clean() == old(self).clean(),
                self.qlen() == old(self).qlen() - count as int,
            decreases howmany as int - count as int,
        {
            let ghost pre = *self;
            let ghost ns = self.aps_start@ + spec_token_len(self.inp(), self.aps_start@);
            self.aps_tokens.remove(0);
            self.aps_start = Ghost(ns);
            count += 1;
            proof {
                assert(pre.qmodels().len() >= 1);
                if pre.aps_done {
                    assert(self.aps_tokens@.map_values(|x: AdiToken| x@).drop_last()
                        =~= pre.qmodels().skip(1));
                } else {
                    assert(self.aps_tokens@.map_values(|x: AdiToken| x@)
                        =~= pre.qmodels().skip(1));
                }
                assert(self.qmodels() =~= pre.qmodels().skip(1));
                assert(token_chain(self.inp(), ns, self.qmodels(), self.aps_pos as int));
                assert(self.toks() =~= pre.toks().skip(1));
                assert(old(self).toks().skip(count - 1).skip(1) =~= old(self).toks().skip(
                    count as int,
                ));
            }
        }
    }

    /// The number of queued tokens, the end-of-stream token included.
    closed spec fn qraw(self) -> int {
        self.aps_tokens@.len() as int
    }
}

impl<'a> AdiParseState<'a> {
    /// The stream of a well-formed state never holds the end-of-stream
    /// token: that token only stands for the region beyond the stream.
    proof fn lemma_stream_wf(self)
        requires
            self.wf(),
        ensures
            forall|i: int| 0 <= i < self.toks().len() ==> !(#[trigger] self.toks()[i] is Eof),
    {
        lemma_chain_no_eof(self.inp(), self.aps_start@, self.qmodels(), self.aps_pos as int);
        lemma_tokens_from_wf(self.inp(), self.aps_pos as int);
        assert forall|i: int| 0 <= i < self.toks().len() implies !(#[trigger] self.toks()[i]
            is Eof) by {
            if i < self.qmodels().len() {
                assert(self.toks()[i] == self.qmodels()[i]);
            } else {
                assert(self.toks()[i] == spec_tokens_from(self.inp(), self.aps_pos as int)[i
                    - self.qmodels().len()]);
            }
        }
    }
}

/// Returns a string summary of a token, generally in quotes, for use in
/// error messages.
pub fn adi_token_text(token: &AdiToken) -> (r: String)
    ensures
        r@ == match token@ {
            AdiTokModel::Bytes(b) => "bytes"@,
            AdiTokModel::Lab => "\"<\""@,
            AdiTokModel::Rab => "\">\""@,
            AdiTokModel::Colon => "\":\""@,
            AdiTokModel::Eof => "end of input"@,
        },
{
    String::from_str(
        match token {
            AdiToken::ADI_TOK_BYTES(b) => "bytes",
            AdiToken::ADI_TOK_LAB => "\"<\"",
            AdiToken::ADI_TOK_RAB => "\">\"",
            AdiToken::ADI_TOK_COLON => "\":\"",
            AdiToken::ADI_TOK_EOF => "end of input",
        },
    )
}

/// Returns the string represented by a raw-byte-run token.  The token
/// must be a raw byte run of textual bytes: ASCII, with carriage-return
/// and line-feed the only control bytes accepted; anything else is
/// malformed input.
pub fn adi_token_string(token: &AdiToken, label: &str) -> (r: Result<String, AdifParseError>)
    ensures
        match token@ {
            AdiTokModel::Bytes(b) => {
                if crate::adi_model::spec_text_ok(b) {
                    r matches Ok(s) && s@ == spec_ascii_chars(b)
                } else {
                    r matches Err(e) && e is ADIF_EBADINPUT
                }
            },
            _ => r matches Err(e) && e is ADIF_EBADINPUT,
        },
{
    match token {
        AdiToken::ADI_TOK_BYTES(buf) => {
            let mut i: usize = 0;
            while i < buf.len()
                invariant
                    token@ == AdiTokModel::Bytes(buf@),
                    0 <= i <= buf@.len(),
                    forall|j: int|
                        0 <= j < i ==> crate::adi_tokens::spec_byte_ok(#[trigger] buf@[j]),
                decreases buf@.len() - i,
            {
                let c = buf[i];
                if !(c < 0x80 && c != 0x7f && (c >= 0x20 || c == 0x0d || c == 0x0a)) {
                    proof {
                        assert(!crate::adi_tokens::spec_byte_ok(buf@[i as int]));
                        assert(!crate::adi_model::spec_text_ok(buf@));
                    }
                    let mut msg = String::from_str(label);
                    msg.append(": expected ASCII character, but found byte ");
                    msg.append(crate::adifutil::usize_to_string(c as usize).as_str());
                    return Err(AdifParseError::ADIF_EBADINPUT(msg));
                }
                i += 1;
            }
            Ok(ascii_to_string(buf))
        },
        _ => {
            let mut msg = String::from_str(label);
            msg.append(": expected ASCII string, but found ");
            msg.append(adi_token_text(token).as_str());
            Err(AdifParseError::ADIF_EBADINPUT(msg))
        },
    }
}

/// Consumes tokens until the next left bracket or the end of the stream.
/// ADI allows a data specifier to be followed by arbitrary bytes before
/// the next data specifier or marker; they are discarded here.
pub fn adi_parse_consume_until_lab(aps: &mut AdiParseState) -> (r: Result<(), AdifParseError>)
    requires
        old(aps).wf(),
        !old(aps).faulted(),
    ensures
        final(aps).wf(),
        final(aps).inp() == old(aps).inp(),
        final(aps).clean() == old(aps).clean(),
        match crate::adi_model::sp_filler(old(aps).toks(), old(aps).clean()) {
            ParseOutcome::Parsed(u, rest) => r is Ok && !final(aps).faulted() && final(aps).toks()
                == rest,
            ParseOutcome::Malformed => r matches Err(e) && e is ADIF_EBADINPUT
                && final(aps).faulted(),
            ParseOutcome::Unsupported => false,
        },
{
    proof {
        crate::adi_model::lemma_sp_filler_len(old(aps).toks(), old(aps).clean());
    }
    loop
        invariant
            aps.wf(),
            !aps.faulted(),
            aps.inp() == old(aps).inp(),
            aps.clean() == old(aps).clean(),
            crate::adi_model::sp_filler(old(aps).toks(), old(aps).clean())
                == crate::adi_model::sp_filler(aps.toks(), aps.clean()),
            !(crate::adi_model::sp_filler(old(aps).toks(), old(aps).clean()) is Unsupported),
        decreases aps.toks().len(),
    {
        proof {
            aps.lemma_stream_wf();
        }
        let t_next = match aps.adi_parse_peek_token(0) {
            Ok(t) => t,
            Err(e) => {
                return Err(e);
            },
        };
        match t_next {
            AdiToken::ADI_TOK_LAB => {
                return Ok(());
            },
            AdiToken::ADI_TOK_EOF => {
                proof {
                    assert(aps.toks().len() == 0);
                    assert(aps.toks() =~= Seq::<AdiTokModel>::empty());
                }
                return Ok(());
            },
            _ => {
                aps.adi_parse_consume_tokens(1);
            },
        }
    }
}

/// Accumulates the value bytes of a data specifier until `fieldlength`
/// bytes are gathered.  A delimiter token contributes its one literal
/// byte — ADI values may legally contain `<`, `:` and `>` before the
/// declared length is satisfied — and a raw byte run contributes its
/// bytes, truncated to the remaining need; the end of the stream first
/// is malformed input.
fn adi_parse_specifier_value(aps: &mut AdiParseState, fieldlength: usize) -> (r: Result<
    Vec<u8>,
    AdifParseError,
>)
    requires
        old(aps).wf(),
        !old(aps).faulted(),
    ensures
        final(aps).wf(),
        final(aps).inp() == old(aps).inp(),
        final(aps).clean() == old(aps).clean(),
        match crate::adi_model::sp_value(old(aps).toks(), old(aps).clean(), fieldlength as nat) {
            ParseOutcome::Parsed(v, rest) => r matches Ok(fv) && fv@ == v && final(aps).toks()
                == rest && !final(aps).faulted(),
            ParseOutcome::Malformed => r matches Err(e) && e is ADIF_EBADINPUT,
            ParseOutcome::Unsupported => false,
        },
{
    proof {
        crate::adi_model::lemma_sp_value_len(old(aps).toks(), old(aps).clean(), fieldlength as nat);
    }
    let mut fieldvalue: Vec<u8> = Vec::with_capacity(fieldlength);
    while fieldvalue.len() < fieldlength
        invariant
            aps.wf(),
            !aps.faulted(),
            aps.inp() == old(aps).inp(),
            aps.clean() == old(aps).clean(),
            fieldvalue@.len() <= fieldlength,
            crate::adi_model::sp_value(old(aps).toks(), old(aps).clean(), fieldlength as nat)
                == crate::adi_model::sp_value_prepend(
                fieldvalue@,
                crate::adi_model::sp_value(
                    aps.toks(),
                    aps.clean(),
                    (fieldlength - fieldvalue@.len()) as nat,
                ),
            ),
        decreases fieldlength - fieldvalue@.len(), aps.toks().len(),
    {
        proof {
            aps.lemma_stream_wf();
        }
        let ghost cur_toks = aps.toks();
        let ghost rem = (fieldlength - fieldvalue@.len()) as nat;
        let t_value = match aps.adi_parse_peek_token(0) {
            Ok(t) => t,
            Err(e) => {
                return Err(e);
            },
        };
        match t_value {
            AdiToken::ADI_TOK_EOF => {
                proof {
                    assert(cur_toks.len() == 0);
                }
                return Err(
                    AdifParseError::ADIF_EBADINPUT(
                        String::from_str(
                            "parsing data specifier: unexpected end of input in value",
                        ),
                    ),
                );
            },
            AdiToken::ADI_TOK_COLON => {
                aps.adi_parse_consume_tokens(1);
                proof {
                    crate::adi_model::lemma_sp_value_prepend_assoc(
                        fieldvalue@,
                        seq![0x3au8],
                        crate::adi_model::sp_value(aps.toks(), aps.clean(), (rem - 1) as nat),
                    );
                    assert(fieldvalue@.push(0x3au8) =~= fieldvalue@ + seq![0x3au8]);
                }
                fieldvalue.push(0x3a);
            },
            AdiToken::ADI_TOK_LAB => {
                aps.adi_parse_consume_tokens(1);
                proof {
                    crate::adi_model::lemma_sp_value_prepend_assoc(
                        fieldvalue@,
                        seq![0x3cu8],
                        crate::adi_model::sp_value(aps.toks(), aps.clean(), (rem - 1) as nat),
                    );
                    assert(fieldvalue@.push(0x3cu8) =~= fieldvalue@ + seq![0x3cu8]);
                }
                fieldvalue.push(0x3c);
            },
            AdiToken::ADI_TOK_RAB => {
                aps.adi_parse_consume_tokens(1);
                proof {
                    crate::adi_model::lemma_sp_value_prepend_assoc(
                        fieldvalue@,
                        seq![0x3eu8],
                        crate::adi_model::sp_value(aps.toks(), aps.clean(), (rem - 1) as nat),
                    );
                    assert(fieldvalue@.push(0x3eu8) =~= fieldvalue@ + seq![0x3eu8]);
                }
                fieldvalue.push(0x3e);
            },
            AdiToken::ADI_TOK_BYTES(buf) => {
                aps.adi_parse_consume_tokens(1);
                let remaining = fieldlength - fieldvalue.len();
                let nbytes = if buf.len() < remaining {
                    buf.len()
                } else {
                    remaining
                };
                let ghost pre_value = fieldvalue@;
                let mut k: usize = 0;
                while k < nbytes
                    invariant
                        0 <= k <= nbytes,
                        nbytes <= buf@.len(),
                        fieldvalue@ =~= pre_value + buf@.take(k as int),
                    decreases nbytes - k,
                {
                    fieldvalue.push(buf[k]);
                    proof {
                        assert(fieldvalue@ =~= pre_value + buf@.take(k + 1));
                    }
                    k += 1;
                }
                proof {
                    if buf@.len() >= rem {
                        assert(fieldvalue@ =~= pre_value + buf@.take(rem as int));
                    } else {
                        assert(fieldvalue@ =~= pre_value + buf@);
                        crate::adi_model::lemma_sp_value_prepend_assoc(
                            pre_value,
                            buf@,
                            crate::adi_model::sp_value(
                                aps.toks(),
                                aps.clean(),
                                (rem - buf@.len()) as nat,
                            ),
                        );
                    }
                }
            },
        }
    }
    proof {
        assert(crate::adi_model::sp_value(aps.toks(), aps.clean(), 0nat)
            == ParseOutcome::<Seq<u8>>::Parsed(Seq::empty(), aps.toks()));
        assert(fieldvalue@ + Seq::<u8>::empty() =~= fieldvalue@);
    }
    Ok(fieldvalue)
}

/// Parses a data specifier: the five tokens of the `<name:length>` frame,
/// then the declared number of value bytes, then discarded filler.  The
/// caller is responsible for ensuring that the front token is a left
/// bracket.  A colon after the length announces a type-tagged value,
/// which is not yet supported.
pub fn adi_parse_data_specifier(aps: &mut AdiParseState) -> (r: Result<
    AdiDataSpecifier,
    AdifParseError,
>)
    requires
        old(aps).wf(),
        !old(aps).faulted(),
    ensures
        final(aps).wf(),
        final(aps).inp() == old(aps).inp(),
        final(aps).clean() == old(aps).clean(),
        match crate::adi_model::sp_specifier(old(aps).toks(), old(aps).clean()) {
            ParseOutcome::Parsed(m, rest) => r matches Ok(ds) && ds@ == m && final(aps).toks()
                == rest && !final(aps).faulted(),
            ParseOutcome::Malformed => r matches Err(e) && e is ADIF_EBADINPUT,
            ParseOutcome::Unsupported => r matches Err(e) && e is ADIF_ENOT_YET_IMPLEMENTED,
        },
{
    let ghost toks0 = old(aps).toks();
    let t0 = match aps.adi_parse_peek_token(0) {
        Ok(t) => t,
        Err(e) => {
            return Err(e);
        },
    };
    match t0 {
        AdiToken::ADI_TOK_LAB => {},
        _ => {
            return Err(
                AdifParseError::ADIF_EBADINPUT(
                    String::from_str("parsing data specifier: expected \"<\""),
                ),
            );
        },
    }
    let t_fieldname = match aps.adi_parse_peek_token(1) {
        Ok(t) => t,
        Err(e) => {
            return Err(e);
        },
    };
    let t_colon = match aps.adi_parse_peek_token(2) {
        Ok(t) => t,
        Err(e) => {
            return Err(e);
        },
    };
    let t_fieldlength = match aps.adi_parse_peek_token(3) {
        Ok(t) => t,
        Err(e) => {
            return Err(e);
        },
    };
    let t_rab = match aps.adi_parse_peek_token(4) {
        Ok(t) => t,
        Err(e) => {
            return Err(e);
        },
    };
    let fieldname = match adi_token_string(&t_fieldname, "parsing data specifier") {
        Ok(s) => s,
        Err(e) => {
            return Err(e);
        },
    };
    match t_colon {
        AdiToken::ADI_TOK_COLON => {},
        _ => {
            let mut msg = String::from_str("parsing data specifier: expected \":\", but found ");
            msg.append(adi_token_text(&t_colon).as_str());
            return Err(AdifParseError::ADIF_EBADINPUT(msg));
        },
    }
    match adi_token_string(&t_fieldlength, "parsing data specifier length") {
        Ok(s) => {},
        Err(e) => {
            return Err(e);
        },
    }
    let fieldlength: usize = match &t_fieldlength {
        AdiToken::ADI_TOK_BYTES(b) => {
            match crate::adifutil::parse_dec_bounded(b, ADI_MAX_FIELDLEN) {
                crate::adifutil::DecParse::Value(n) => n,
                crate::adifutil::DecParse::TooBig => {
                    let mut msg = String::from_str(
                        "parsing data specifier: max supported size is ",
                    );
                    msg.append(crate::adifutil::usize_to_string(ADI_MAX_FIELDLEN).as_str());
                    msg.append(" bytes");
                    return Err(AdifParseError::ADIF_EBADINPUT(msg));
                },
                crate::adifutil::DecParse::NotANumber => {
                    return Err(
                        AdifParseError::ADIF_EBADINPUT(
                            String::from_str(
                                "parsing data specifier length: invalid digit found in string",
                            ),
                        ),
                    );
                },
            }
        },
        _ => vstd::pervasive::unreached(),
    };
    match t_rab {
        AdiToken::ADI_TOK_RAB => {},
        AdiToken::ADI_TOK_COLON => {
            return Err(
                AdifParseError::ADIF_ENOT_YET_IMPLEMENTED(
                    String::from_str("parsing data specifier: typed values are not supported"),
                ),
            );
        },
        _ => {
            let mut msg = String::from_str("parsing data specifier: expected \">\", but found ");
            msg.append(adi_token_text(&t_rab).as_str());
            return Err(AdifParseError::ADIF_EBADINPUT(msg));
        },
    }
    aps.adi_parse_consume_tokens(5);
    let fieldvalue = match adi_parse_specifier_value(aps, fieldlength) {
        Ok(v) => v,
        Err(e) => {
            return Err(e);
        },
    };
    match adi_parse_consume_until_lab(aps) {
        Ok(u) => {},
        Err(e) => {
            return Err(e);
        },
    }
    // Canonical name: the ASCII lower-casing of the name as written.
    let canon_bytes = crate::adifutil::lower_bytes_vec(fieldname.as_str().as_bytes());
    proof {
        let nb = toks0[1]->Bytes_0;
        crate::adifutil::lemma_ascii_encode(nb);
        assert(vstd::utf8::encode_utf8(fieldname@) == nb);
        assert forall|i: int| 0 <= i < canon_bytes@.len() implies canon_bytes@[i] < 0x80 by {
            assert(canon_bytes@[i] == crate::adifutil::spec_lower_byte(nb[i]));
        }
    }
    let canon = ascii_to_string(&canon_bytes);
    Ok(
        AdiDataSpecifier {
            adif_name_canon: canon,
            adif_name: fieldname,
            adif_length: fieldlength,
            adif_bytes: fieldvalue,
            adif_type: Option::None,
        },
    )
}

/// The rendering of one data specifier in the diagnostic dump format:
/// the canonical name, length and optional type tag in a bracket frame,
/// then the decoded value.
pub open spec fn spec_dump_specifier(f: SpecifierModel) -> Seq<char> {
    "    <"@ + f.canon + ":"@ + crate::adifutil::spec_dec_chars(f.length) + (match f.ty {
        Option::Some(t) => ":"@ + t,
        Option::None => Seq::<char>::empty(),
    }) + ">"@ + vstd::utf8::decode_utf8(f.bytes) + "\n"@
}

/// The rendering of a list of data specifiers, one per line.
pub open spec fn spec_dump_fields(fs: Seq<SpecifierModel>) -> Seq<char>
    decreases fs.len(),
{
    if fs.len() == 0 {
        Seq::empty()
    } else {
        spec_dump_specifier(fs[0]) + spec_dump_fields(fs.skip(1))
    }
}

/// The rendering of one record: its fields, then the end-of-record
/// marker.
pub open spec fn spec_dump_record(r: RecordModel) -> Seq<char> {
    spec_dump_fields(r.fields) + "<eor>\n"@
}

/// The rendering of a list of records.
pub open spec fn spec_dump_records(rs: Seq<RecordModel>) -> Seq<char>
    decreases rs.len(),
{
    if rs.len() == 0 {
        Seq::empty()
    } else {
        spec_dump_record(rs[0]) + spec_dump_records(rs.skip(1))
    }
}

/// The rendering of a whole file: the header text and fields, or a note
/// that no header is present, then the records.
pub open spec fn spec_dump_file(f: FileModel) -> Seq<char> {
    (match f.header {
        Option::None => "(no header present)"@,
        Option::Some(h) => vstd::utf8::decode_utf8(h.content) + spec_dump_fields(h.fields)
            + "<eoh>\n"@,
    }) + spec_dump_records(f.records)
}

/// True when every value of the given specifiers is valid UTF-8, so that
/// the dump can decode it.
pub open spec fn spec_fields_dumpable(fs: Seq<SpecifierModel>) -> bool {
    forall|i: int| 0 <= i < fs.len() ==> vstd::utf8::valid_utf8(#[trigger] fs[i].bytes)
}

/// True when every text carried by the file is valid UTF-8, so that the
/// dump can decode it.  Files produced by the parser always are.
pub open spec fn spec_dumpable(f: FileModel) -> bool {
    &&& (f.header matches Option::Some(h) ==> vstd::utf8::valid_utf8(h.content)
        && spec_fields_dumpable(h.fields))
    &&& forall|i: int| 0 <= i < f.records.len() ==> spec_fields_dumpable(#[trigger] f.records[i].fields)
}

/// Rendering one more specifier extends the rendering of a prefix.
proof fn lemma_dump_fields_snoc(fs: Seq<SpecifierModel>, i: int)
    requires
        0 <= i < fs.len(),
    ensures
        spec_dump_fields(fs.take(i + 1)) == spec_dump_fields(fs.take(i)) + spec_dump_specifier(
            fs[i],
        ),
    decreases i,
{
    if i == 0 {
        assert(fs.take(1)[0] == fs[0]);
        assert(fs.take(1).skip(1) =~= Seq::<SpecifierModel>::empty());
        assert(fs.take(0) =~= Seq::<SpecifierModel>::empty());
        assert(spec_dump_fields(Seq::<SpecifierModel>::empty()) == Seq::<char>::empty());
        assert(spec_dump_specifier(fs[0]) + Seq::<char>::empty() =~= spec_dump_specifier(fs[0]));
        assert(Seq::<char>::empty() + spec_dump_specifier(fs[0]) =~= spec_dump_specifier(fs[0]));
    } else {
        lemma_dump_fields_snoc(fs.skip(1), i - 1);
        assert(fs.take(i + 1)[0] == fs[0]);
        assert(fs.take(i + 1).skip(1) =~= fs.skip(1).take(i));
        assert(fs.take(i)[0] == fs[0]);
        assert(fs.take(i).skip(1) =~= fs.skip(1).take(i - 1));
        assert(fs.skip(1)[i - 1] == fs[i]);
        assert(spec_dump_specifier(fs[0]) + (spec_dump_fields(fs.skip(1).take(i - 1))
            + spec_dump_specifier(fs[i])) =~= (spec_dump_specifier(fs[0]) + spec_dump_fields(
            fs.skip(1).take(i - 1),
        )) + spec_dump_specifier(fs[i]));
    }
}

/// Rendering one more record extends the rendering of a prefix.
proof fn lemma_dump_records_snoc(rs: Seq<RecordModel>, i: int)
    requires
        0 <= i < rs.len(),
    ensures
        spec_dump_records(rs.take(i + 1)) == spec_dump_records(rs.take(i)) + spec_dump_record(
            rs[i],
        ),
    decreases i,
{
    if i == 0 {
        assert(rs.take(1)[0] == rs[0]);
        assert(rs.take(1).skip(1) =~= Seq::<RecordModel>::empty());
        assert(rs.take(0) =~= Seq::<RecordModel>::empty());
        assert(spec_dump_records(Seq::<RecordModel>::empty()) == Seq::<char>::empty());
        assert(spec_dump_record(rs[0]) + Seq::<char>::empty() =~= spec_dump_record(rs[0]));
        assert(Seq::<char>::empty() + spec_dump_record(rs[0]) =~= spec_dump_record(rs[0]));
    } else {
        lemma_dump_records_snoc(rs.skip(1), i - 1);
        assert(rs.take(i + 1)[0] == rs[0]);
        assert(rs.take(i + 1).skip(1) =~= rs.skip(1).take(i));
        assert(rs.take(i)[0] == rs[0]);
        assert(rs.take(i).skip(1) =~= rs.skip(1).take(i - 1));
        assert(rs.skip(1)[i - 1] == rs[i]);
        assert(spec_dump_record(rs[0]) + (spec_dump_records(rs.skip(1).take(i - 1))
            + spec_dump_record(rs[i])) =~= (spec_dump_record(rs[0]) + spec_dump_records(
            rs.skip(1).take(i - 1),
        )) + spec_dump_record(rs[i]));
    }
}

/// Appends the dump rendering of one data specifier to the output.
fn adi_dump_specifier(field: &AdiDataSpecifier, output: &mut String)
    requires
        vstd::utf8::valid_utf8(field@.bytes),
    ensures
        final(output)@ == old(output)@ + spec_dump_specifier(field@),
{
    output.append("    <");
    output.append(field.adif_name_canon.as_str());
    output.append(":");
    output.append(crate::adifutil::usize_to_string(field.adif_length).as_str());
    if let Option::Some(t) = &field.adif_type {
        output.append(":");
        output.append(t.as_str());
    }
    output.append(">");
    let v = crate::adifutil::string_from_utf8(&field.adif_bytes);
    let vs = v.unwrap();
    proof {
        vstd::utf8::encode_utf8_decode_utf8(vs@);
    }
    output.append(vs.as_str());
    output.append("\n");
    proof {
        assert(final(output)@ =~= old(output)@ + spec_dump_specifier(field@));
    }
}

/// Appends the dump rendering of one record to the output: its fields,
/// one per line, then the end-of-record marker.
pub fn adi_dump_record(rec: &AdiRecord, output: &mut String)
    requires
        spec_fields_dumpable(rec@.fields),
    ensures
        final(output)@ == old(output)@ + spec_dump_record(rec@),
{
    let ghost fmodels = specs_view(rec.adir_fields@);
    let mut i: usize = 0;
    proof {
        assert(fmodels.take(0) =~= Seq::<SpecifierModel>::empty());
        assert(old(output)@ + Seq::<char>::empty() =~= old(output)@);
    }
    while i < rec.adir_fields.len()
        invariant
            specs_view(rec.adir_fields@) == fmodels,
            fmodels.len() == rec.adir_fields@.len(),
            i <= fmodels.len(),
            spec_fields_dumpable(fmodels),
            output@ == old(output)@ + spec_dump_fields(fmodels.take(i as int)),
        decreases fmodels.len() - i,
    {
        proof {
            lemma_dump_fields_snoc(fmodels, i as int);
        }
        adi_dump_specifier(&rec.adir_fields[i], output);
        proof {
            assert(output@ =~= old(output)@ + spec_dump_fields(fmodels.take(i + 1)));
        }
        i += 1;
    }
    output.append("<eor>\n");
    proof {
        assert(fmodels.take(fmodels.len() as int) =~= fmodels);
        assert(final(output)@ =~= old(output)@ + spec_dump_record(rec@));
    }
}

/// Renders an ADI file to a string, in a format intended for debugging:
/// an approximate human-readable view, not a byte-exact
/// re-serialization.
pub fn adi_dump(adf: AdiFile) -> (r: String)
    requires
        spec_dumpable(adf@),
    ensures
        r@ == spec_dump_file(adf@),
{
    let mut output = String::new();
    match &adf.adi_header {
        Option::None => {
            output.append("(no header present)");
        },
        Option::Some(adh) => {
            let c = crate::adifutil::string_from_utf8(&adh.adih_content);
            let cs = c.unwrap();
            proof {
                vstd::utf8::encode_utf8_decode_utf8(cs@);
            }
            output.append(cs.as_str());
            let ghost fmodels = specs_view(adh.adih_fields@);
            let ghost entry = output@;
            let mut i: usize = 0;
            proof {
                assert(fmodels.take(0) =~= Seq::<SpecifierModel>::empty());
                assert(entry + Seq::<char>::empty() =~= entry);
            }
            while i < adh.adih_fields.len()
                invariant
                    specs_view(adh.adih_fields@) == fmodels,
                    fmodels.len() == adh.adih_fields@.len(),
                    i <= fmodels.len(),
                    spec_fields_dumpable(fmodels),
                    output@ == entry + spec_dump_fields(fmodels.take(i as int)),
                decreases fmodels.len() - i,
            {
                proof {
                    lemma_dump_fields_snoc(fmodels, i as int);
                }
                adi_dump_specifier(&adh.adih_fields[i], &mut output);
                proof {
                    assert(output@ =~= entry + spec_dump_fields(fmodels.take(i + 1)));
                }
                i += 1;
            }
            output.append("<eoh>\n");
            proof {
                assert(fmodels.take(fmodels.len() as int) =~= fmodels);
            }
        },
    }
    let ghost head = output@;
    let ghost rmodels = records_view(adf.adi_records@);
    let mut i: usize = 0;
    proof {
        assert(rmodels.take(0) =~= Seq::<RecordModel>::empty());
        assert(head + Seq::<char>::empty() =~= head);
        assert forall|j: int| 0 <= j < rmodels.len() implies spec_fields_dumpable(
            #[trigger] rmodels[j].fields,
        ) by {
            assert(rmodels[j] == adf@.records[j]);
        }
    }
    while i < adf.adi_records.len()
        invariant
            records_view(adf.adi_records@) == rmodels,
            rmodels.len() == adf.adi_records@.len(),
            i <= rmodels.len(),
            forall|j: int| 0 <= j < rmodels.len() ==> spec_fields_dumpable(#[trigger] rmodels[j].fields),
            output@ == head + spec_dump_records(rmodels.take(i as int)),
        decreases rmodels.len() - i,
    {
        proof {
            lemma_dump_records_snoc(rmodels, i as int);
        }
        adi_dump_record(&adf.adi_records[i], &mut output);
        proof {
            assert(output@ =~= head + spec_dump_records(rmodels.take(i + 1)));
        }
        i += 1;
    }
    proof {
        assert(rmodels.take(rmodels.len() as int) =~= rmodels);
        assert(output@ =~= spec_dump_file(adf@));
    }
    output
}

/// A textual byte sequence is ASCII, hence valid UTF-8.
proof fn lemma_text_valid(b: Seq<u8>)
    requires
        crate::adi_model::spec_text_ok(b),
    ensures
        vstd::utf8::valid_utf8(b),
{
    assert(crate::adifutil::spec_all_ascii(b));
    crate::adifutil::lemma_ascii_decode(b);
}

/// Every file the parser yields can be dumped: its header text and all
/// its field values are textual ASCII, hence valid UTF-8.
pub proof fn lemma_parse_result_dumpable(input: Seq<u8>)
    ensures
        crate::adi_model::sp_file(input) matches ParseOutcome::Parsed(f, rest) ==> spec_dumpable(
            f,
        ),
{
    crate::adi_model::lemma_sp_file_text(input);
    match crate::adi_model::sp_file(input) {
        ParseOutcome::Parsed(f, rest) => {
            match f.header {
                Option::Some(h) => {
                    lemma_text_valid(h.content);
                    assert forall|i: int| 0 <= i < h.fields.len() implies vstd::utf8::valid_utf8(
                        (#[trigger] h.fields[i]).bytes,
                    ) by {
                        lemma_text_valid(h.fields[i].bytes);
                    }
                },
                Option::None => {},
            }
            assert forall|j: int| 0 <= j < f.records.len() implies spec_fields_dumpable(
                (#[trigger] f.records[j]).fields,
            ) by {
                assert(crate::adi_model::fields_text_ok(f.records[j].fields));
                assert forall|i: int|
                    0 <= i < f.records[j].fields.len() implies vstd::utf8::valid_utf8(
                    (#[trigger] f.records[j].fields[i]).bytes,
                ) by {
                    lemma_text_valid(f.records[j].fields[i].bytes);
                }
            }
        },
        ParseOutcome::Malformed => {},
        ParseOutcome::Unsupported => {},
    }
}

/// The byte sequence of the `eoh` literal is the end-of-header marker
/// name.
proof fn lemma_eoh_bytes()
    ensures
        "eoh".spec_bytes() == crate::adi_model::spec_eoh(),
{
    reveal_strlit("eoh");
    assert(vstd::utf8::is_ascii_chars("eoh"@));
    vstd::utf8::is_ascii_chars_encode_utf8("eoh"@);
    assert("eoh".spec_bytes() =~= crate::adi_model::spec_eoh());
}

/// The byte sequence of the `eor` literal is the end-of-record marker
/// name.
proof fn lemma_eor_bytes()
    ensures
        "eor".spec_bytes() == crate::adi_model::spec_eor(),
{
    reveal_strlit("eor");
    assert(vstd::utf8::is_ascii_chars("eor"@));
    vstd::utf8::is_ascii_chars_encode_utf8("eor"@);
    assert("eor".spec_bytes() =~= crate::adi_model::spec_eor());
}

/// Parses the header of an ADI file: free text interleaved with data
/// specifiers, up to the end-of-header marker.  Loose colon and
/// right-bracket bytes outside a specifier are treated as plain header
/// text; the end of the input before the marker is malformed input.
pub fn adi_parse_header(aps: &mut AdiParseState) -> (r: Result<AdiHeader, AdifParseError>)
    requires
        old(aps).wf(),
        !old(aps).faulted(),
    ensures
        final(aps).wf(),
        final(aps).inp() == old(aps).inp(),
        final(aps).clean() == old(aps).clean(),
        match crate::adi_model::sp_header(
            old(aps).toks(),
            old(aps).clean(),
            Seq::empty(),
            Seq::empty(),
        ) {
            ParseOutcome::Parsed(h, rest) => r matches Ok(hdr) && hdr@ == h && final(aps).toks()
                == rest && !final(aps).faulted(),
            ParseOutcome::Malformed => r matches Err(e) && e is ADIF_EBADINPUT,
            ParseOutcome::Unsupported => r matches Err(e) && e is ADIF_ENOT_YET_IMPLEMENTED,
        },
{
    let mut header_content: Vec<u8> = Vec::new();
    let mut header_fields: Vec<AdiDataSpecifier> = Vec::new();
    proof {
        assert(specs_view(Seq::empty()) =~= Seq::<SpecifierModel>::empty());
    }
    loop
        invariant
            aps.wf(),
            !aps.faulted(),
            aps.inp() == old(aps).inp(),
            aps.clean() == old(aps).clean(),
            crate::adi_model::sp_header(
                old(aps).toks(),
                old(aps).clean(),
                Seq::empty(),
                Seq::empty(),
            ) == crate::adi_model::sp_header(
                aps.toks(),
                aps.clean(),
                header_content@,
                specs_view(header_fields@),
            ),
        decreases aps.toks().len(),
    {
        proof {
            aps.lemma_stream_wf();
        }
        let ghost cur = aps.toks();
        let t0 = match aps.adi_parse_peek_token(0) {
            Ok(t) => t,
            Err(e) => {
                return Err(e);
            },
        };
        match t0 {
            AdiToken::ADI_TOK_BYTES(mut b) => {
                aps.adi_parse_consume_tokens(1);
                header_content.append(&mut b);
            },
            // The specification does not forbid these special characters
            // loose in the header (that is, not following a "<"), so they
            // are treated as plain text.
            AdiToken::ADI_TOK_COLON => {
                aps.adi_parse_consume_tokens(1);
                header_content.push(0x3a);
            },
            AdiToken::ADI_TOK_RAB => {
                aps.adi_parse_consume_tokens(1);
                header_content.push(0x3e);
            },
            AdiToken::ADI_TOK_LAB => {
                let next = match aps.adi_parse_peek_token(1) {
                    Ok(t) => t,
                    Err(e) => {
                        return Err(e);
                    },
                };
                proof {
                    lemma_eoh_bytes();
                }
                let mut is_marker = false;
                if let AdiToken::ADI_TOK_BYTES(s) = &next {
                    if crate::adifutil::byteseq_equal_ci(s, "eoh") {
                        let next2 = match aps.adi_parse_peek_token(2) {
                            Ok(t) => t,
                            Err(e) => {
                                return Err(e);
                            },
                        };
                        if matches!(next2, AdiToken::ADI_TOK_RAB) {
                            is_marker = true;
                        }
                    }
                }
                if is_marker {
                    // Done with the header: consume the '<', "eoh" and '>'
                    // tokens.
                    aps.adi_parse_consume_tokens(3);
                    return Ok(
                        AdiHeader { adih_content: header_content, adih_fields: header_fields },
                    );
                }
                // Anything else after the '<' is a data specifier; note
                // that this accepts a normal data specifier for a field
                // called "eoh", which appears to be technically allowed.
                proof {
                    assert(crate::adi_model::sp_header(
                        aps.toks(),
                        aps.clean(),
                        header_content@,
                        specs_view(header_fields@),
                    ) == crate::adi_model::sp_header_field(
                        aps.toks(),
                        aps.clean(),
                        header_content@,
                        specs_view(header_fields@),
                    ));
                }
                let spec = match adi_parse_data_specifier(aps) {
                    Ok(s) => s,
                    Err(e) => {
                        return Err(e);
                    },
                };
                proof {
                    crate::adi_model::lemma_sp_specifier_len(cur, aps.clean());
                    assert(specs_view(header_fields@.push(spec)) =~= specs_view(
                        header_fields@,
                    ).push(spec@));
                }
                header_fields.push(spec);
            },
            AdiToken::ADI_TOK_EOF => {
                return Err(
                    AdifParseError::ADIF_EBADINPUT(
                        String::from_str("unexpected end of input while reading header"),
                    ),
                );
            },
        }
    }
}

/// Parses a single record: data specifiers up to the end-of-record
/// marker, recognized case-insensitively with three tokens of lookahead,
/// followed by discarded trailing filler.
pub fn adi_parse_record(aps: &mut AdiParseState) -> (r: Result<AdiRecord, AdifParseError>)
    requires
        old(aps).wf(),
        !old(aps).faulted(),
    ensures
        final(aps).wf(),
        final(aps).inp() == old(aps).inp(),
        final(aps).clean() == old(aps).clean(),
        match crate::adi_model::sp_record(old(aps).toks(), old(aps).clean(), Seq::empty()) {
            ParseOutcome::Parsed(m, rest) => r matches Ok(rec) && rec@ == m && final(aps).toks()
                == rest && !final(aps).faulted(),
            ParseOutcome::Malformed => r matches Err(e) && e is ADIF_EBADINPUT,
            ParseOutcome::Unsupported => r matches Err(e) && e is ADIF_ENOT_YET_IMPLEMENTED,
        },
{
    let mut fields: Vec<AdiDataSpecifier> = Vec::new();
    proof {
        assert(specs_view(Seq::empty()) =~= Seq::<SpecifierModel>::empty());
    }
    loop
        invariant
            aps.wf(),
            !aps.faulted(),
            aps.inp() == old(aps).inp(),
            aps.clean() == old(aps).clean(),
            crate::adi_model::sp_record(old(aps).toks(), old(aps).clean(), Seq::empty())
                == crate::adi_model::sp_record(aps.toks(), aps.clean(), specs_view(fields@)),
        decreases aps.toks().len(),
    {
        proof {
            aps.lemma_stream_wf();
        }
        let ghost cur = aps.toks();
        let t_lab = match aps.adi_parse_peek_token(0) {
            Ok(t) => t,
            Err(e) => {
                return Err(e);
            },
        };
        let t_fieldname = match aps.adi_parse_peek_token(1) {
            Ok(t) => t,
            Err(e) => {
                return Err(e);
            },
        };
        let t_indicator = match aps.adi_parse_peek_token(2) {
            Ok(t) => t,
            Err(e) => {
                return Err(e);
            },
        };
        proof {
            lemma_eor_bytes();
        }
        let mut is_eor = false;
        if matches!(t_lab, AdiToken::ADI_TOK_LAB) {
            if let AdiToken::ADI_TOK_BYTES(s) = &t_fieldname {
                if crate::adifutil::byteseq_equal_ci(s, "eor") {
                    if matches!(t_indicator, AdiToken::ADI_TOK_RAB) {
                        is_eor = true;
                    }
                }
            }
        }
        if is_eor {
            aps.adi_parse_consume_tokens(3);
            match adi_parse_consume_until_lab(aps) {
                Ok(u) => {},
                Err(e) => {
                    return Err(e);
                },
            }
            return Ok(AdiRecord { adir_fields: fields });
        }
        let spec = match adi_parse_data_specifier(aps) {
            Ok(s) => s,
            Err(e) => {
                return Err(e);
            },
        };
        proof {
            crate::adi_model::lemma_sp_specifier_len(cur, aps.clean());
            assert(specs_view(fields@.push(spec)) =~= specs_view(fields@).push(spec@));
        }
        fields.push(spec);
    }
}

/// Parses the body of the ADI input: discarded filler, then whole
/// records until the end of the stream.
pub fn adi_parse_records(aps: &mut AdiParseState) -> (r: Result<Vec<AdiRecord>, AdifParseError>)
    requires
        old(aps).wf(),
        !old(aps).faulted(),
    ensures
        final(aps).wf(),
        final(aps).inp() == old(aps).inp(),
        final(aps).clean() == old(aps).clean(),
        match crate::adi_model::sp_records_pass(old(aps).toks(), old(aps).clean()) {
            ParseOutcome::Parsed(rs, rest) => r matches Ok(recs) && records_view(recs@) == rs
                && final(aps).toks() == rest && !final(aps).faulted(),
            ParseOutcome::Malformed => r matches Err(e) && e is ADIF_EBADINPUT,
            ParseOutcome::Unsupported => r matches Err(e) && e is ADIF_ENOT_YET_IMPLEMENTED,
        },
{
    let mut records: Vec<AdiRecord> = Vec::new();
    match adi_parse_consume_until_lab(aps) {
        Ok(u) => {},
        Err(e) => {
            return Err(e);
        },
    }
    proof {
        assert(records_view(Seq::empty()) =~= Seq::<RecordModel>::empty());
    }
    loop
        invariant
            aps.wf(),
            !aps.faulted(),
            aps.inp() == old(aps).inp(),
            aps.clean() == old(aps).clean(),
            crate::adi_model::sp_records_pass(old(aps).toks(), old(aps).clean())
                == crate::adi_model::sp_records(aps.toks(), aps.clean(), records_view(records@)),
        decreases aps.toks().len(),
    {
        proof {
            aps.lemma_stream_wf();
        }
        let ghost cur = aps.toks();
        let t = match aps.adi_parse_peek_token(0) {
            Ok(t) => t,
            Err(e) => {
                return Err(e);
            },
        };
        match t {
            AdiToken::ADI_TOK_EOF => {
                proof {
                    assert(cur.len() == 0);
                    assert(cur =~= Seq::<AdiTokModel>::empty());
                }
                return Ok(records);
            },
            _ => {
                let rec = match adi_parse_record(aps) {
                    Ok(rc) => rc,
                    Err(e) => {
                        return Err(e);
                    },
                };
                proof {
                    crate::adi_model::lemma_sp_record_len(cur, aps.clean(), Seq::empty());
                    assert(records_view(records@.push(rec)) =~= records_view(records@).push(
                        rec@,
                    ));
                }
                records.push(rec);
            },
        }
    }
}

/// Parses a complete ADI file from the given bytes.  A header is parsed
/// unless the input begins with a specifier's left bracket or is empty;
/// an empty input has no header and no records.
pub fn adi_parse(source: &[u8]) -> (r: Result<AdiFile, AdifParseError>)
    ensures
        match crate::adi_model::sp_file(source@) {
            ParseOutcome::Parsed(f, rest) => r matches Ok(file) && file@ == f,
            ParseOutcome::Malformed => r matches Err(e) && e is ADIF_EBADINPUT,
            ParseOutcome::Unsupported => r matches Err(e) && e is ADIF_ENOT_YET_IMPLEMENTED,
        },
        r matches Ok(file) ==> spec_dumpable(file@),
{
    proof {
        lemma_parse_result_dumpable(source@);
    }
    let mut aps = AdiParseState::new(source);
    let t = match aps.adi_parse_peek_token(0) {
        Ok(t) => t,
        Err(e) => {
            return Err(e);
        },
    };
    let header: Option<AdiHeader> = match t {
        AdiToken::ADI_TOK_LAB => Option::None,
        AdiToken::ADI_TOK_EOF => Option::None,
        _ => {
            match adi_parse_header(&mut aps) {
                Ok(h) => Option::Some(h),
                Err(e) => {
                    return Err(e);
                },
            }
        },
    };
    let records = match adi_parse_records(&mut aps) {
        Ok(rs) => rs,
        Err(e) => {
            return Err(e);
        },
    };
    Ok(AdiFile { adi_header: header, adi_records: records })
}

/// Parses an ADI file represented in the given string.
pub fn adi_parse_string(source: &str) -> (r: Result<AdiFile, AdifParseError>)
    ensures
        match crate::adi_model::sp_file(source.spec_bytes()) {
            ParseOutcome::Parsed(f, rest) => r matches Ok(file) && file@ == f,
            ParseOutcome::Malformed => r matches Err(e) && e is ADIF_EBADINPUT,
            ParseOutcome::Unsupported => r matches Err(e) && e is ADIF_ENOT_YET_IMPLEMENTED,
        },
        r matches Ok(file) ==> spec_dumpable(file@),
{
    adi_parse(source.as_bytes())
}

/// No token of a chain is the end-of-stream token.
proof fn lemma_chain_no_eof(input: Seq<u8>, q: int, toks: Seq<AdiTokModel>, end: int)
    requires
        token_chain(input, q, toks, end),
    ensures
        forall|i: int| 0 <= i < toks.len() ==> !(#[trigger] toks[i] is Eof),
    decreases toks.len(),
{
    if toks.len() > 0 {
        lemma_chain_no_eof(input, q + spec_token_len(input, q), toks.skip(1), end);
        assert forall|i: int| 0 <= i < toks.len() implies !(#[trigger] toks[i] is Eof) by {
            if i > 0 {
                assert(toks[i] == toks.skip(1)[i - 1]);
            }
        }
    }
}

} // verus!
