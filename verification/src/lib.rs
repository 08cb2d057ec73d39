//! Parser for the ADI physical file format used to interchange amateur-radio
//! contact logs, together with a logical interpreter that lifts the physical
//! structure into typed records.
//!
//! The physical layer (`adi`) turns a byte stream into a file structure of
//! header and records, each a list of `<name:length>value` data specifiers.
//! The logical layer (`adif`) canonicalizes field names, rejects duplicate
//! fields, decodes values as UTF-8 text and lifts four well-known header
//! fields into typed metadata.

use vstd::prelude::*;
use vstd::string::StringExecFns;

pub mod adi;
pub mod adi_model;
pub mod adif;
pub mod adi_tokens;
pub mod adifutil;
pub mod report;

pub use adif::AdifDumpWhichRecords;
pub use adif::AdifRecord;

verus! {

/// Any operational error encountered during parsing.
///
/// There are three terminal kinds: an I/O failure from the byte source
/// (raised only by callers that read from files or sockets; the in-memory
/// parsers never produce it), malformed input, and a construct the format
/// allows but this parser does not yet support.
#[allow(non_camel_case_types)]
#[derive(Debug)]
pub enum AdifParseError {
    ADIF_EIO(String),                  // error from underlying I/O
    ADIF_EBADINPUT(String),            // invalid input
    ADIF_ENOT_YET_IMPLEMENTED(String), // feature that's not yet implemented
}

impl AdifParseError {
    /// The diagnostic message carried by this error, with a prefix naming
    /// the error kind, as a caller would print it.
    pub fn to_message(&self) -> (r: String)
        ensures
            self is ADIF_EIO ==> r@ == self->ADIF_EIO_0@,
            self is ADIF_EBADINPUT ==> r@ == "input error: "@ + self->ADIF_EBADINPUT_0@,
            self is ADIF_ENOT_YET_IMPLEMENTED ==> r@ == "not yet implemented: "@
                + self->ADIF_ENOT_YET_IMPLEMENTED_0@,
    {
        match self {
            AdifParseError::ADIF_EIO(m) => m.clone(),
            AdifParseError::ADIF_EBADINPUT(m) => {
                let mut r = String::from_str("input error: ");
                r.append(m.as_str());
                r
            },
            AdifParseError::ADIF_ENOT_YET_IMPLEMENTED(m) => {
                let mut r = String::from_str("not yet implemented: ");
                r.append(m.as_str());
                r
            },
        }
    }
}

/// Parses a labelled ADI byte stream all the way to its logical form:
/// the physical parse of `adi`, then the logical interpretation of
/// `adif`.  The first fatal error of either layer is returned.
pub fn adif_parse(label: &str, source: &[u8]) -> (r: Result<adif::AdifFile, AdifParseError>)
    ensures
        match adi_model::sp_file(source@) {
            adi_model::ParseOutcome::Parsed(f, rest) => match adif::sp_interp_file(label@, f) {
                Result::Ok(m) => r matches Ok(af) && af@ == m,
                Result::Err(msg) => r matches Err(e) && e matches AdifParseError::ADIF_EBADINPUT(
                    em,
                ) && em@ == msg,
            },
            adi_model::ParseOutcome::Malformed => r matches Err(e) && e is ADIF_EBADINPUT,
            adi_model::ParseOutcome::Unsupported => r matches Err(e)
                && e is ADIF_ENOT_YET_IMPLEMENTED,
        },
{
    let adi_file = match adi::adi_parse(source) {
        Ok(f) => f,
        Err(e) => {
            return Err(e);
        },
    };
    adif::adif_parse_adi(label, &adi_file)
}

} // verus!
