//! Lexical layer of the ADI physical format: the byte tokenizer.
//!
//! The next unread byte decides the token: `<`, `:` and `>` each yield
//! their own one-byte token, the end of the input yields the end-of-stream
//! token, and any other byte starts a raw byte run that extends over every
//! consecutive non-delimiter byte.  Every byte of a run must be ASCII, and
//! an ASCII control byte other than carriage-return or line-feed is a
//! fatal malformed-input error that aborts tokenization.

use vstd::prelude::*;

use crate::AdifParseError;
use crate::adifutil::usize_to_string;

verus! {

/// One logical chunk of the underlying input.
#[allow(non_camel_case_types)]
#[derive(Debug)]
pub enum AdiToken {
    ADI_TOK_BYTES(Vec<u8>),  // arbitrary byte content in the file
    ADI_TOK_LAB,             // '<'
    ADI_TOK_COLON,           // ':'
    ADI_TOK_RAB,             // '>'
    ADI_TOK_EOF,             // end of input
}

/// The mathematical value of a token.
pub enum AdiTokModel {
    Bytes(Seq<u8>),
    Lab,
    Colon,
    Rab,
    Eof,
}

impl View for AdiToken {
    type V = AdiTokModel;

    open spec fn view(&self) -> AdiTokModel {
        match self {
            AdiToken::ADI_TOK_BYTES(v) => AdiTokModel::Bytes(v@),
            AdiToken::ADI_TOK_LAB => AdiTokModel::Lab,
            AdiToken::ADI_TOK_COLON => AdiTokModel::Colon,
            AdiToken::ADI_TOK_RAB => AdiTokModel::Rab,
            AdiToken::ADI_TOK_EOF => AdiTokModel::Eof,
        }
    }
}

impl AdiToken {
    /// An independent copy of this token.
    pub fn duplicate(&self) -> (r: AdiToken)
        ensures
            r@ == self@,
    {
        match self {
            AdiToken::ADI_TOK_BYTES(v) => {
                let c = v.clone();
                assert(c@ =~= v@);
                AdiToken::ADI_TOK_BYTES(c)
            },
            AdiToken::ADI_TOK_LAB => AdiToken::ADI_TOK_LAB,
            AdiToken::ADI_TOK_COLON => AdiToken::ADI_TOK_COLON,
            AdiToken::ADI_TOK_RAB => AdiToken::ADI_TOK_RAB,
            AdiToken::ADI_TOK_EOF => AdiToken::ADI_TOK_EOF,
        }
    }
}

/// True when the byte is one of the three ADI delimiters `<`, `:`, `>`.
pub open spec fn spec_is_delim(b: u8) -> bool {
    b == 0x3c || b == 0x3a || b == 0x3e
}

/// True when the byte may occur inside a raw byte run: it must be ASCII,
/// and the only control bytes accepted are carriage-return and line-feed.
pub open spec fn spec_byte_ok(b: u8) -> bool {
    b < 0x80 && b != 0x7f && (b >= 0x20 || b == 0x0d || b == 0x0a)
}

/// The number of consecutive non-delimiter bytes starting at `p`.
pub open spec fn spec_run_len(input: Seq<u8>, p: int) -> nat
    decreases input.len() - p,
        when 0 <= p <= input.len()
{
    if p >= input.len() {
        0
    } else if spec_is_delim(input[p]) {
        0
    } else {
        1 + spec_run_len(input, p + 1)
    }
}

/// The run starting at `p` reaches to `p + spec_run_len`, stays within the
/// input, contains no delimiter, and ends at the input's end or at a
/// delimiter.
pub proof fn lemma_run_len(input: Seq<u8>, p: int)
    requires
        0 <= p <= input.len(),
    ensures
        p + spec_run_len(input, p) <= input.len(),
        forall|i: int| p <= i < p + spec_run_len(input, p) ==> !spec_is_delim(input[i]),
        p + spec_run_len(input, p) < input.len() ==> spec_is_delim(
            input[p + spec_run_len(input, p)],
        ),
        p < input.len() && !spec_is_delim(input[p]) ==> spec_run_len(input, p) >= 1,
    decreases input.len() - p,
{
    if p < input.len() && !spec_is_delim(input[p]) {
        lemma_run_len(input, p + 1);
    }
}

/// The token beginning at byte position `p`.
pub open spec fn spec_token_at(input: Seq<u8>, p: int) -> AdiTokModel
    recommends
        0 <= p <= input.len(),
{
    if p >= input.len() {
        AdiTokModel::Eof
    } else if input[p] == 0x3c {
        AdiTokModel::Lab
    } else if input[p] == 0x3a {
        AdiTokModel::Colon
    } else if input[p] == 0x3e {
        AdiTokModel::Rab
    } else {
        AdiTokModel::Bytes(input.subrange(p, p + spec_run_len(input, p)))
    }
}

/// The number of bytes the token beginning at `p` occupies.
pub open spec fn spec_token_len(input: Seq<u8>, p: int) -> int
    recommends
        0 <= p <= input.len(),
{
    if p >= input.len() {
        0
    } else if spec_is_delim(input[p]) {
        1
    } else {
        spec_run_len(input, p) as int
    }
}

/// True when reading the token at `p` succeeds: a raw byte run must
/// consist of acceptable bytes only.
pub open spec fn spec_token_ok(input: Seq<u8>, p: int) -> bool
    recommends
        0 <= p <= input.len(),
{
    p >= input.len() || spec_is_delim(input[p]) || (forall|i: int|
        p <= i < p + spec_run_len(input, p) ==> spec_byte_ok(input[i]))
}

/// The sequence of tokens from byte position `p` to the end of the input
/// or to the first unreadable token, whichever comes first.  The
/// end-of-stream token is not part of the sequence; it stands for the
/// region beyond it.
pub open spec fn spec_tokens_from(input: Seq<u8>, p: int) -> Seq<AdiTokModel>
    decreases input.len() - p,
        when 0 <= p <= input.len()
        via spec_tokens_from_dec
{
    if p >= input.len() {
        Seq::empty()
    } else if !spec_token_ok(input, p) {
        Seq::empty()
    } else {
        seq![spec_token_at(input, p)] + spec_tokens_from(input, p + spec_token_len(input, p))
    }
}

#[via_fn]
proof fn spec_tokens_from_dec(input: Seq<u8>, p: int) {
    if 0 <= p <= input.len() {
        lemma_run_len(input, p);
    }
}

/// True when tokenization from byte position `p` reaches the end of the
/// input without a tokenizer error.
pub open spec fn spec_clean_from(input: Seq<u8>, p: int) -> bool
    decreases input.len() - p,
        when 0 <= p <= input.len()
        via spec_clean_from_dec
{
    if p >= input.len() {
        true
    } else if !spec_token_ok(input, p) {
        false
    } else {
        spec_clean_from(input, p + spec_token_len(input, p))
    }
}

#[via_fn]
proof fn spec_clean_from_dec(input: Seq<u8>, p: int) {
    if 0 <= p <= input.len() {
        lemma_run_len(input, p);
    }
}

/// Tokenization takes one step over a delimiter byte.
pub proof fn lemma_tokens_step_delim(input: Seq<u8>, p: int)
    requires
        0 <= p < input.len(),
        spec_is_delim(input[p]),
    ensures
        spec_tokens_from(input, p) == seq![spec_token_at(input, p)] + spec_tokens_from(
            input,
            p + 1,
        ),
        spec_clean_from(input, p) == spec_clean_from(input, p + 1),
{
}

/// Tokenization takes one step over a maximal delimiter-free run of
/// acceptable bytes: the run reaches exactly to the next delimiter or to
/// the end of the input.
pub proof fn lemma_tokens_step_run(input: Seq<u8>, p: int, q: int)
    requires
        0 <= p < q <= input.len(),
        forall|i: int| p <= i < q ==> !spec_is_delim(#[trigger] input[i]),
        forall|i: int| p <= i < q ==> spec_byte_ok(#[trigger] input[i]),
        q == input.len() || spec_is_delim(input[q]),
    ensures
        spec_run_len(input, p) == q - p,
        spec_tokens_from(input, p) == seq![AdiTokModel::Bytes(input.subrange(p, q))]
            + spec_tokens_from(input, q),
        spec_clean_from(input, p) == spec_clean_from(input, q),
{
    lemma_run_len(input, p);
    let rl = spec_run_len(input, p) as int;
    if p + rl < q {
        assert(!spec_is_delim(input[p + rl]));
        assert(spec_is_delim(input[p + rl]));
    }
    if p + rl > q {
        assert(q < input.len());
        assert(!spec_is_delim(input[q]));
    }
    assert(rl == q - p);
    assert(spec_token_ok(input, p));
    assert(spec_token_at(input, p) == AdiTokModel::Bytes(input.subrange(p, q)));
}

/// Reads the next token from `input` at byte position `pos` and returns
/// it with the position of the first byte after it.  Reading fails only
/// on a raw byte run holding an unacceptable byte.
pub fn adi_import_read_token(input: &[u8], pos: usize) -> (r: Result<
    (AdiToken, usize),
    AdifParseError,
>)
    requires
        pos <= input@.len(),
    ensures
        match r {
            Ok((t, newpos)) => spec_token_ok(input@, pos as int) && t@ == spec_token_at(
                input@,
                pos as int,
            ) && newpos == pos + spec_token_len(input@, pos as int) && newpos <= input@.len() && (
            t is ADI_TOK_EOF <==> pos == input@.len()),
            Err(e) => !spec_token_ok(input@, pos as int) && e is ADIF_EBADINPUT,
        },
{
    proof {
        lemma_run_len(input@, pos as int);
    }
    if pos == input.len() {
        return Ok((AdiToken::ADI_TOK_EOF, pos));
    }
    let b = input[pos];
    if b == 0x3c {
        return Ok((AdiToken::ADI_TOK_LAB, pos + 1));
    }
    if b == 0x3a {
        return Ok((AdiToken::ADI_TOK_COLON, pos + 1));
    }
    if b == 0x3e {
        return Ok((AdiToken::ADI_TOK_RAB, pos + 1));
    }
    let mut run: Vec<u8> = Vec::new();
    let mut i: usize = pos;
    let ghost endp = pos + spec_run_len(input@, pos as int);
    while i < input.len() && input[i] != 0x3c && input[i] != 0x3a && input[i] != 0x3e
        invariant
            pos <= i <= input@.len(),
            pos < input@.len(),
            !spec_is_delim(input@[pos as int]),
            endp == pos + spec_run_len(input@, pos as int),
            pos <= endp <= input@.len(),
            forall|j: int| pos <= j < endp ==> !spec_is_delim(input@[j]),
            endp < input@.len() ==> spec_is_delim(input@[endp]),
            i <= endp,
            run@ =~= input@.subrange(pos as int, i as int),
            forall|j: int| pos <= j < i ==> spec_byte_ok(input@[j]),
        decreases input@.len() - i,
    {
        let c = input[i];
        assert(i < endp);
        if !(c < 0x80 && c != 0x7f && (c >= 0x20 || c == 0x0d || c == 0x0a)) {
            let mut msg = String::from_str("tokenizing: expected ASCII character, but found byte ");
            msg.append(usize_to_string(c as usize).as_str());
            return Err(AdifParseError::ADIF_EBADINPUT(msg));
        }
        run.push(c);
        i += 1;
    }
    assert(i == endp);
    assert(spec_token_ok(input@, pos as int));
    assert(run@ =~= input@.subrange(pos as int, pos + spec_run_len(input@, pos as int)));
    Ok((AdiToken::ADI_TOK_BYTES(run), i))
}

} // verus!
