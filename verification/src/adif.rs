//! Logical ADIF layer: interprets the physical representation of an ADI
//! file into a form useful for consumers.
//!
//! For each record a mapping from canonical field name to decoded string
//! value is built; a repeated canonical name within one record is a fatal
//! input error.  Four well-known header fields are lifted into typed
//! metadata; unrecognized header fields are dropped silently.  Values are
//! decoded as UTF-8 text, and a field carrying a type tag must be tagged
//! exactly `S`.

use vstd::prelude::*;
use vstd::string::StringExecFns;

use crate::AdifParseError;
use crate::adi::AdiDataSpecifier;
use crate::adi::AdiFile;
use crate::adi_model::FileModel;
use crate::adi_model::RecordModel;
use crate::adi_model::SpecifierModel;
use crate::adifutil::spec_dec_chars;
use crate::adifutil::usize_to_string;

verus! {

/// The mapping of one logical record: canonical field names to decoded
/// values, in order of first appearance, each name at most once.
pub struct FieldMap {
    entries: Vec<(String, String)>,
}

/// True when the pair sequence holds the key.
pub open spec fn pairs_contains(s: Seq<(Seq<char>, Seq<char>)>, k: Seq<char>) -> bool {
    exists|i: int| 0 <= i < s.len() && s[i].0 == k
}

/// The value stored under a key, if any: the first match.
pub open spec fn pairs_get(s: Seq<(Seq<char>, Seq<char>)>, k: Seq<char>) -> Option<Seq<char>>
    decreases s.len(),
{
    if s.len() == 0 {
        Option::None
    } else if s[0].0 == k {
        Option::Some(s[0].1)
    } else {
        pairs_get(s.skip(1), k)
    }
}

/// True when no key occurs twice in the pair sequence.
pub open spec fn pairs_unique(s: Seq<(Seq<char>, Seq<char>)>) -> bool {
    forall|i: int, j: int| 0 <= i < j < s.len() ==> s[i].0 != s[j].0
}

impl View for FieldMap {
    type V = Seq<(Seq<char>, Seq<char>)>;

    closed spec fn view(&self) -> Seq<(Seq<char>, Seq<char>)> {
        self.entries@.map_values(|p: (String, String)| (p.0@, p.1@))
    }
}

impl FieldMap {
    /// No key occurs twice.
    pub open spec fn wf(&self) -> bool {
        pairs_unique(self@)
    }

    /// An empty mapping.
    pub fn new() -> (r: FieldMap)
        ensures
            r@ == Seq::<(Seq<char>, Seq<char>)>::empty(),
            r.wf(),
    {
        let r = FieldMap { entries: Vec::new() };
        proof {
            assert(r@ =~= Seq::<(Seq<char>, Seq<char>)>::empty());
        }
        r
    }

    /// The number of fields.
    pub fn len(&self) -> (r: usize)
        ensures
            r == self@.len(),
    {
        self.entries.len()
    }

    /// The field name and value at the given position, in order of
    /// insertion.
    pub fn entry_at(&self, i: usize) -> (r: (&String, &String))
        requires
            i < self@.len(),
        ensures
            r.0@ == self@[i as int].0,
            r.1@ == self@[i as int].1,
    {
        let p = &self.entries[i];
        (&p.0, &p.1)
    }

    /// True when a value is stored under the key.
    pub fn contains_key(&self, key: &str) -> (r: bool)
        ensures
            r == pairs_contains(self@, key@),
    {
        let mut i: usize = 0;
        while i < self.entries.len()
            invariant
                0 <= i <= self.entries@.len(),
                forall|j: int| 0 <= j < i ==> self@[j].0 != key@,
            decreases self.entries@.len() - i,
        {
            if streq(self.entries[i].0.as_str(), key) {
                assert(self@[i as int].0 == key@);
                return true;
            }
            i += 1;
        }
        false
    }

    /// The value stored under the key, if any.
    pub fn get(&self, key: &str) -> (r: Option<&String>)
        ensures
            match r {
                Option::Some(v) => pairs_get(self@, key@) == Option::Some(v@),
                Option::None => pairs_get(self@, key@) is None,
            },
    {
        let mut i: usize = 0;
        proof {
            assert(self@.skip(0) =~= self@);
        }
        while i < self.entries.len()
            invariant
                0 <= i <= self.entries@.len(),
                pairs_get(self@, key@) == pairs_get(self@.skip(i as int), key@),
            decreases self.entries@.len() - i,
        {
            proof {
                assert(self@.skip(i as int)[0] == self@[i as int]);
                assert(self@.skip(i as int).skip(1) =~= self@.skip(i + 1));
            }
            if streq(self.entries[i].0.as_str(), key) {
                return Option::Some(&self.entries[i].1);
            }
            i += 1;
        }
        proof {
            assert(self@.skip(self@.len() as int) =~= Seq::<(Seq<char>, Seq<char>)>::empty());
        }
        Option::None
    }

    /// Stores a value under a key not yet present.
    pub fn insert(&mut self, key: String, value: String)
        requires
            !pairs_contains(old(self)@, key@),
        ensures
            final(self)@ == old(self)@.push((key@, value@)),
    {
        let ghost pre = self@;
        self.entries.push((key, value));
        proof {
            assert(self@ =~= pre.push((self@[pre.len() as int].0, self@[pre.len() as int].1)));
        }
    }
}

/// The view of an optional string.
pub open spec fn opt_view(o: Option<String>) -> Option<Seq<char>> {
    match o {
        Option::Some(s) => Option::Some(s@),
        Option::None => Option::None,
    }
}

/// Mathematical value of one logical record.
pub struct AdifRecordModel {
    /// Canonical field names and decoded values, in order of first
    /// appearance.
    pub fields: Seq<(Seq<char>, Seq<char>)>,
}

/// The four well-known header fields, as far as they have been seen.
pub struct AdifMeta {
    pub version: Option<Seq<char>>,
    pub program_id: Option<Seq<char>>,
    pub program_version: Option<Seq<char>>,
    pub created_timestamp: Option<Seq<char>>,
}

/// Mathematical value of a logical file.
pub struct AdifFileModel {
    pub version: Option<Seq<char>>,
    pub program_id: Option<Seq<char>>,
    pub program_version: Option<Seq<char>>,
    pub created_timestamp: Option<Seq<char>>,
    pub label: Seq<char>,
    pub records: Seq<AdifRecordModel>,
}

/// The message reported for a field whose type tag is not the plain
/// string tag.
pub open spec fn spec_badtype_msg(name: Seq<char>, t: Seq<char>) -> Seq<char> {
    "field \""@ + name + "\": expected string value, but found type \""@ + t + "\""@
}

/// The message reported for a field whose value is not valid UTF-8.
pub open spec fn spec_badutf8_msg(name: Seq<char>) -> Seq<char> {
    "field \""@ + name + "\": value contained invalid bytes for UTF-8 string"@
}

/// The message reported for a canonical field name repeated within one
/// record, naming the 1-based record index and the field.
pub open spec fn spec_dup_msg(which: nat, canon: Seq<char>) -> Seq<char> {
    "record "@ + spec_dec_chars(which) + ": duplicate value for field \""@ + canon + "\""@
}

/// The decoded text of one data specifier, or the error message: a type
/// tag, if present, must be exactly `S`, and the value bytes must be
/// valid UTF-8.
pub open spec fn sp_field_text(f: SpecifierModel) -> Result<Seq<char>, Seq<char>> {
    if f.ty matches Option::Some(t) && t != "S"@ {
        Result::Err(spec_badtype_msg(f.name, f.ty->0))
    } else if !vstd::utf8::valid_utf8(f.bytes) {
        Result::Err(spec_badutf8_msg(f.name))
    } else {
        Result::Ok(vstd::utf8::decode_utf8(f.bytes))
    }
}

/// Builds the mapping of one record, field by field: a repeated
/// canonical name is a fatal error naming the record and field, and each
/// value is decoded as text.
pub open spec fn sp_interp_fields(
    fields: Seq<SpecifierModel>,
    which: nat,
    acc: Seq<(Seq<char>, Seq<char>)>,
) -> Result<Seq<(Seq<char>, Seq<char>)>, Seq<char>>
    decreases fields.len(),
{
    if fields.len() == 0 {
        Result::Ok(acc)
    } else {
        let f = fields[0];
        if pairs_contains(acc, f.canon) {
            Result::Err(spec_dup_msg(which, f.canon))
        } else {
            match sp_field_text(f) {
                Result::Ok(text) => sp_interp_fields(
                    fields.skip(1),
                    which,
                    acc.push((f.canon, text)),
                ),
                Result::Err(m) => Result::Err(m),
            }
        }
    }
}

/// Interprets the records in order, numbering them from one.
pub open spec fn sp_interp_records(
    records: Seq<RecordModel>,
    which: nat,
    acc: Seq<AdifRecordModel>,
) -> Result<Seq<AdifRecordModel>, Seq<char>>
    decreases records.len(),
{
    if records.len() == 0 {
        Result::Ok(acc)
    } else {
        match sp_interp_fields(records[0].fields, which, Seq::empty()) {
            Result::Ok(pairs) => sp_interp_records(
                records.skip(1),
                which + 1,
                acc.push(AdifRecordModel { fields: pairs }),
            ),
            Result::Err(m) => Result::Err(m),
        }
    }
}

/// Lifts the well-known header fields into the metadata slots, the last
/// occurrence of each winning; unrecognized header fields are ignored.
pub open spec fn sp_interp_header(fields: Seq<SpecifierModel>, meta: AdifMeta) -> Result<
    AdifMeta,
    Seq<char>,
>
    decreases fields.len(),
{
    if fields.len() == 0 {
        Result::Ok(meta)
    } else {
        let f = fields[0];
        if f.canon == "adif_ver"@ {
            match sp_field_text(f) {
                Result::Ok(t) => sp_interp_header(
                    fields.skip(1),
                    AdifMeta { version: Option::Some(t), ..meta },
                ),
                Result::Err(m) => Result::Err(m),
            }
        } else if f.canon == "programid"@ {
            match sp_field_text(f) {
                Result::Ok(t) => sp_interp_header(
                    fields.skip(1),
                    AdifMeta { program_id: Option::Some(t), ..meta },
                ),
                Result::Err(m) => Result::Err(m),
            }
        } else if f.canon == "programversion"@ {
            match sp_field_text(f) {
                Result::Ok(t) => sp_interp_header(
                    fields.skip(1),
                    AdifMeta { program_version: Option::Some(t), ..meta },
                ),
                Result::Err(m) => Result::Err(m),
            }
        } else if f.canon == "created_timestamp"@ {
            match sp_field_text(f) {
                Result::Ok(t) => sp_interp_header(
                    fields.skip(1),
                    AdifMeta { created_timestamp: Option::Some(t), ..meta },
                ),
                Result::Err(m) => Result::Err(m),
            }
        } else {
            sp_interp_header(fields.skip(1), meta)
        }
    }
}

/// The whole logical interpretation: header metadata first, then the
/// records.
pub open spec fn sp_interp_file(label: Seq<char>, f: FileModel) -> Result<
    AdifFileModel,
    Seq<char>,
> {
    let meta0 = AdifMeta {
        version: Option::None,
        program_id: Option::None,
        program_version: Option::None,
        created_timestamp: Option::None,
    };
    let meta_r = match f.header {
        Option::Some(h) => sp_interp_header(h.fields, meta0),
        Option::None => Result::Ok(meta0),
    };
    match meta_r {
        Result::Ok(meta) => match sp_interp_records(f.records, 1, Seq::empty()) {
            Result::Ok(recs) => Result::Ok(
                AdifFileModel {
                    version: meta.version,
                    program_id: meta.program_id,
                    program_version: meta.program_version,
                    created_timestamp: meta.created_timestamp,
                    label,
                    records: recs,
                },
            ),
            Result::Err(m) => Result::Err(m),
        },
        Result::Err(m) => Result::Err(m),
    }
}

/// A record's interpretation succeeds exactly when its canonical field
/// names are pairwise distinct and every one of its values decodes as
/// text.
pub proof fn lemma_record_interp_ok(fields: Seq<SpecifierModel>, which: nat)
    ensures
        sp_interp_fields(fields, which, Seq::empty()) is Ok <==> ((forall|i: int, j: int|
            0 <= i < j < fields.len() ==> fields[i].canon != fields[j].canon) && (forall|i: int|
            0 <= i < fields.len() ==> #[trigger] sp_field_text(fields[i]) is Ok)),
{
    lemma_record_interp_ok_gen(fields, which, Seq::empty());
}

/// Generalization of `lemma_record_interp_ok` over the fields already
/// gathered.
proof fn lemma_record_interp_ok_gen(
    fields: Seq<SpecifierModel>,
    which: nat,
    acc: Seq<(Seq<char>, Seq<char>)>,
)
    ensures
        sp_interp_fields(fields, which, acc) is Ok <==> ((forall|i: int, j: int|
            0 <= i < j < fields.len() ==> fields[i].canon != fields[j].canon) && (forall|i: int|
            0 <= i < fields.len() ==> #[trigger] sp_field_text(fields[i]) is Ok) && (forall|i: int|
            0 <= i < fields.len() ==> !pairs_contains(acc, #[trigger] fields[i].canon))),
    decreases fields.len(),
{
    if fields.len() == 0 {
    } else {
        let f = fields[0];
        if pairs_contains(acc, f.canon) {
        } else {
            match sp_field_text(f) {
                Result::Err(m) => {},
                Result::Ok(t) => {
                    let acc2 = acc.push((f.canon, t));
                    lemma_record_interp_ok_gen(fields.skip(1), which, acc2);
                    assert forall|k: Seq<char>| pairs_contains(acc2, k) implies pairs_contains(
                        acc,
                        k,
                    ) || k == f.canon by {
                        let w = choose|w: int| 0 <= w < acc2.len() && acc2[w].0 == k;
                        if w < acc.len() {
                            assert(acc[w].0 == k);
                        }
                    }
                    assert forall|k: Seq<char>|
                        pairs_contains(acc, k) || k == f.canon implies pairs_contains(
                        acc2,
                        k,
                    ) by {
                        if pairs_contains(acc, k) {
                            let w = choose|w: int| 0 <= w < acc.len() && acc[w].0 == k;
                            assert(acc2[w].0 == k);
                        } else {
                            assert(acc2[acc.len() as int].0 == k);
                        }
                    }
                    let rest = fields.skip(1);
                    assert forall|i: int| 0 <= i < rest.len() implies #[trigger] rest[i]
                        == fields[i + 1] by {}
                    if sp_interp_fields(fields, which, acc) is Ok {
                        assert forall|i: int, j: int|
                            0 <= i < j < fields.len() implies fields[i].canon
                            != fields[j].canon by {
                            if i == 0 {
                                assert(rest[j - 1] == fields[j]);
                            } else {
                                assert(rest[i - 1] == fields[i]);
                                assert(rest[j - 1] == fields[j]);
                            }
                        }
                        assert forall|i: int| 0 <= i < fields.len() implies #[trigger] sp_field_text(
                            fields[i],
                        ) is Ok by {
                            if i > 0 {
                                assert(rest[i - 1] == fields[i]);
                            }
                        }
                        assert forall|i: int| 0 <= i < fields.len() implies !pairs_contains(
                            acc,
                            #[trigger] fields[i].canon,
                        ) by {
                            if i > 0 {
                                assert(rest[i - 1] == fields[i]);
                            }
                        }
                    }
                    if ((forall|i: int, j: int|
                        0 <= i < j < fields.len() ==> fields[i].canon != fields[j].canon) && (
                    forall|i: int|
                        0 <= i < fields.len() ==> #[trigger] sp_field_text(fields[i]) is Ok) && (
                    forall|i: int|
                        0 <= i < fields.len() ==> !pairs_contains(
                            acc,
                            #[trigger] fields[i].canon,
                        ))) {
                        assert forall|i: int, j: int|
                            0 <= i < j < rest.len() implies rest[i].canon != rest[j].canon by {
                            assert(rest[i] == fields[i + 1]);
                            assert(rest[j] == fields[j + 1]);
                        }
                        assert forall|i: int| 0 <= i < rest.len() implies #[trigger] sp_field_text(
                            rest[i],
                        ) is Ok by {
                            assert(rest[i] == fields[i + 1]);
                        }
                        assert forall|i: int| 0 <= i < rest.len() implies !pairs_contains(
                            acc2,
                            #[trigger] rest[i].canon,
                        ) by {
                            assert(rest[i] == fields[i + 1]);
                            assert(fields[0].canon != fields[i + 1].canon);
                            assert(!pairs_contains(acc, fields[i + 1].canon));
                        }
                        assert(sp_interp_fields(rest, which, acc2) is Ok);
                    }
                },
            }
        }
    }
}

/// Two specifiers with the same canonical name inside one record defeat
/// the record's interpretation.
pub proof fn lemma_duplicate_field_fails(fields: Seq<SpecifierModel>, which: nat, i: int, j: int)
    requires
        0 <= i < j < fields.len(),
        fields[i].canon == fields[j].canon,
    ensures
        !(sp_interp_fields(fields, which, Seq::empty()) is Ok),
{
    lemma_record_interp_ok(fields, which);
}

/// A type tag other than the plain string tag fails logical decoding of
/// its field, and with it the record that holds the field.
pub proof fn lemma_bad_type_tag_fails(fields: Seq<SpecifierModel>, which: nat, i: int)
    requires
        0 <= i < fields.len(),
        fields[i].ty matches Option::Some(t) && t != "S"@,
    ensures
        !(sp_interp_fields(fields, which, Seq::empty()) is Ok),
{
    assert(!(sp_field_text(fields[i]) is Ok));
    lemma_record_interp_ok(fields, which);
}

/// String equality by content.
pub fn streq(a: &str, b: &str) -> (r: bool)
    ensures
        r == (a@ == b@),
{
    let ab = a.as_bytes();
    let bb = b.as_bytes();
    proof {
        if a@ == b@ {
            assert(ab@ == bb@);
        }
        if ab@ == bb@ {
            vstd::utf8::encode_utf8_decode_utf8(a@);
            vstd::utf8::encode_utf8_decode_utf8(b@);
        }
    }
    if ab.len() != bb.len() {
        return false;
    }
    let mut i: usize = 0;
    while i < ab.len()
        invariant
            0 <= i <= ab@.len(),
            ab@.len() == bb@.len(),
            ab@ == vstd::utf8::encode_utf8(a@),
            bb@ == vstd::utf8::encode_utf8(b@),
            forall|j: int| 0 <= j < i ==> ab@[j] == bb@[j],
        decreases ab@.len() - i,
    {
        if ab[i] != bb[i] {
            return false;
        }
        i += 1;
    }
    proof {
        assert(ab@ =~= bb@);
        vstd::utf8::encode_utf8_decode_utf8(a@);
        vstd::utf8::encode_utf8_decode_utf8(b@);
    }
    true
}

/// A logical ADIF file: the well-known header metadata, a caller-supplied
/// label, and the records.
pub struct AdifFile {
    /// The declared ADIF version, if the header carried one.
    pub adif_adif_version: Option<String>,
    /// The identifier of the program that wrote the file, if present.
    pub adif_program_id: Option<String>,
    /// The version of the program that wrote the file, if present.
    pub adif_program_version: Option<String>,
    /// The creation timestamp, if present.
    pub adif_created_timestamp: Option<String>,
    /// Label for this file (e.g., a filename).
    pub adif_label: String,
    /// List of records in the file.
    pub adif_records: Vec<AdifRecord>,
}

/// One logical record: the mapping from canonical field name to decoded
/// string value.
pub struct AdifRecord {
    /// The record's fields; canonical names are unique within one record.
    pub adir_field_values: FieldMap,
}

/// Which records a diagnostic dump should render.
#[allow(non_camel_case_types)]
pub enum AdifDumpWhichRecords {
    ADR_NONE,
    ADR_ONE,
    ADR_ALL,
}

impl View for AdifRecord {
    type V = AdifRecordModel;

    open spec fn view(&self) -> AdifRecordModel {
        AdifRecordModel { fields: self.adir_field_values@ }
    }
}

/// The models of a list of logical records.
pub open spec fn adif_records_view(v: Seq<AdifRecord>) -> Seq<AdifRecordModel> {
    v.map_values(|r: AdifRecord| r@)
}

impl View for AdifFile {
    type V = AdifFileModel;

    open spec fn view(&self) -> AdifFileModel {
        AdifFileModel {
            version: opt_view(self.adif_adif_version),
            program_id: opt_view(self.adif_program_id),
            program_version: opt_view(self.adif_program_version),
            created_timestamp: opt_view(self.adif_created_timestamp),
            label: self.adif_label@,
            records: adif_records_view(self.adif_records@),
        }
    }
}

/// Returns the decoded text of a string-valued data specifier: the type
/// tag, if any, must be exactly `S`, and the value bytes must be valid
/// UTF-8; either violation is malformed input.
pub fn adif_string(adf: &AdiDataSpecifier) -> (r: Result<String, AdifParseError>)
    ensures
        match sp_field_text(adf@) {
            Result::Ok(t) => r matches Ok(s) && s@ == t,
            Result::Err(m) => r matches Err(e) && e matches AdifParseError::ADIF_EBADINPUT(msg)
                && msg@ == m,
        },
{
    if let Option::Some(typestr) = &adf.adif_type {
        if !streq(typestr.as_str(), "S") {
            let mut msg = String::from_str("field \"");
            msg.append(adf.adif_name.as_str());
            msg.append("\": expected string value, but found type \"");
            msg.append(typestr.as_str());
            msg.append("\"");
            proof {
                assert(msg@ =~= spec_badtype_msg(adf@.name, adf@.ty->0));
            }
            return Err(AdifParseError::ADIF_EBADINPUT(msg));
        }
    }
    match crate::adifutil::string_from_utf8(&adf.adif_bytes) {
        Option::Some(s) => {
            proof {
                vstd::utf8::encode_utf8_decode_utf8(s@);
            }
            Ok(s)
        },
        Option::None => {
            let mut msg = String::from_str("field \"");
            msg.append(adf.adif_name.as_str());
            msg.append("\": value contained invalid bytes for UTF-8 string");
            proof {
                assert(msg@ =~= spec_badutf8_msg(adf@.name));
            }
            Err(AdifParseError::ADIF_EBADINPUT(msg))
        },
    }
}

/// The message for a canonical field name repeated within one record.
fn dup_msg(which: usize, canon: &str) -> (r: String)
    ensures
        r@ == spec_dup_msg(which as nat, canon@),
{
    let mut msg = String::from_str("record ");
    msg.append(usize_to_string(which).as_str());
    msg.append(": duplicate value for field \"");
    msg.append(canon);
    msg.append("\"");
    proof {
        assert(msg@ =~= spec_dup_msg(which as nat, canon@));
    }
    msg
}

/// Builds the mapping of one record, numbered `which` from one: a
/// repeated canonical name is malformed input naming the record and
/// field, and each value is decoded as text.
fn interp_record(adr: &crate::adi::AdiRecord, which: usize) -> (r: Result<FieldMap, AdifParseError>)
    requires
        1 <= which,
    ensures
        match sp_interp_fields(
            crate::adi::specs_view(adr.adir_fields@),
            which as nat,
            Seq::empty(),
        ) {
            Result::Ok(pairs) => r matches Ok(fm) && fm@ == pairs && fm.wf(),
            Result::Err(m) => r matches Err(e) && e matches AdifParseError::ADIF_EBADINPUT(em)
                && em@ == m,
        },
{
    let ghost fmodels = crate::adi::specs_view(adr.adir_fields@);
    let mut record_values = FieldMap::new();
    let mut j: usize = 0;
    proof {
        assert(fmodels.skip(0) =~= fmodels);
    }
    while j < adr.adir_fields.len()
        invariant
            crate::adi::specs_view(adr.adir_fields@) == fmodels,
            fmodels.len() == adr.adir_fields@.len(),
            j <= adr.adir_fields@.len(),
            sp_interp_fields(fmodels, which as nat, Seq::empty()) == sp_interp_fields(
                fmodels.skip(j as int),
                which as nat,
                record_values@,
            ),
            record_values.wf(),
        decreases adr.adir_fields@.len() - j,
    {
        let adf = &adr.adir_fields[j];
        proof {
            assert(fmodels.skip(j as int)[0] == adf@);
            assert(fmodels.skip(j as int).skip(1) =~= fmodels.skip(j + 1));
        }
        if record_values.contains_key(adf.adif_name_canon.as_str()) {
            let msg = dup_msg(which, adf.adif_name_canon.as_str());
            return Err(AdifParseError::ADIF_EBADINPUT(msg));
        }
        let value = match adif_string(adf) {
            Ok(s) => s,
            Err(e) => {
                return Err(e);
            },
        };
        record_values.insert(adf.adif_name_canon.clone(), value);
        j += 1;
    }
    proof {
        assert(fmodels.skip(fmodels.len() as int) =~= Seq::<SpecifierModel>::empty());
    }
    Ok(record_values)
}

/// Interprets a physical ADI file as a logical ADIF file: lifts the four
/// well-known header fields into metadata, then builds each record's
/// mapping from canonical field name to decoded value.  A repeated
/// canonical name within one record is malformed input, reported with
/// the 1-based record index and the field name.
pub fn adif_parse_adi(label: &str, adi: &AdiFile) -> (r: Result<AdifFile, AdifParseError>)
    ensures
        match sp_interp_file(label@, adi@) {
            Result::Ok(m) => r matches Ok(f) && f@ == m,
            Result::Err(msg) => r matches Err(e) && e matches AdifParseError::ADIF_EBADINPUT(em)
                && em@ == msg,
        },
{
    let mut adif = AdifFile {
        adif_adif_version: Option::None,
        adif_program_id: Option::None,
        adif_program_version: Option::None,
        adif_created_timestamp: Option::None,
        adif_label: String::from_str(label),
        adif_records: Vec::with_capacity(adi.adi_records.len()),
    };
    let ghost meta0 = AdifMeta {
        version: Option::None,
        program_id: Option::None,
        program_version: Option::None,
        created_timestamp: Option::None,
    };
    if let Option::Some(adih) = &adi.adi_header {
        let ghost hfields = crate::adi::specs_view(adih.adih_fields@);
        let mut i: usize = 0;
        proof {
            assert(hfields.skip(0) =~= hfields);
        }
        while i < adih.adih_fields.len()
            invariant
                crate::adi::specs_view(adih.adih_fields@) == hfields,
                hfields.len() == adih.adih_fields@.len(),
                i <= adih.adih_fields@.len(),
                adi.adi_header matches Option::Some(h) && h == *adih,
                meta0 == (AdifMeta {
                    version: Option::None,
                    program_id: Option::None,
                    program_version: Option::None,
                    created_timestamp: Option::None,
                }),
                sp_interp_header(hfields, meta0) == sp_interp_header(
                    hfields.skip(i as int),
                    AdifMeta {
                        version: opt_view(adif.adif_adif_version),
                        program_id: opt_view(adif.adif_program_id),
                        program_version: opt_view(adif.adif_program_version),
                        created_timestamp: opt_view(adif.adif_created_timestamp),
                    },
                ),
                adif.adif_label@ == label@,
                adif.adif_records@.len() == 0,
            decreases adih.adih_fields@.len() - i,
        {
            let adf = &adih.adih_fields[i];
            proof {
                assert(hfields.skip(i as int)[0] == adf@);
                assert(hfields.skip(i as int).skip(1) =~= hfields.skip(i + 1));
            }
            if streq(adf.adif_name_canon.as_str(), "adif_ver") {
                match adif_string(adf) {
                    Ok(s) => {
                        adif.adif_adif_version = Option::Some(s);
                    },
                    Err(e) => {
                        return Err(e);
                    },
                }
            } else if streq(adf.adif_name_canon.as_str(), "programid") {
                match adif_string(adf) {
                    Ok(s) => {
                        adif.adif_program_id = Option::Some(s);
                    },
                    Err(e) => {
                        return Err(e);
                    },
                }
            } else if streq(adf.adif_name_canon.as_str(), "programversion") {
                match adif_string(adf) {
                    Ok(s) => {
                        adif.adif_program_version = Option::Some(s);
                    },
                    Err(e) => {
                        return Err(e);
                    },
                }
            } else if streq(adf.adif_name_canon.as_str(), "created_timestamp") {
                match adif_string(adf) {
                    Ok(s) => {
                        adif.adif_created_timestamp = Option::Some(s);
                    },
                    Err(e) => {
                        return Err(e);
                    },
                }
            }
            i += 1;
        }
        proof {
            assert(hfields.skip(hfields.len() as int) =~= Seq::<SpecifierModel>::empty());
        }
    }
    let ghost rmodels = crate::adi::records_view(adi.adi_records@);
    let mut i: usize = 0;
    proof {
        assert(rmodels.skip(0) =~= rmodels);
        assert(adif_records_view(adif.adif_records@) =~= Seq::<AdifRecordModel>::empty());
    }
    while i < adi.adi_records.len()
        invariant
            rmodels == crate::adi::records_view(adi.adi_records@),
            rmodels.len() == adi.adi_records@.len(),
            i <= adi.adi_records@.len(),
            adi.adi_records@.len() <= usize::MAX,
            sp_interp_records(rmodels, 1, Seq::empty()) == sp_interp_records(
                rmodels.skip(i as int),
                (i + 1) as nat,
                adif_records_view(adif.adif_records@),
            ),
            sp_interp_file(label@, adi@) is Ok <==> sp_interp_records(
                rmodels,
                1,
                Seq::empty(),
            ) is Ok,
            sp_interp_file(label@, adi@) matches Result::Ok(m) ==> m == (AdifFileModel {
                version: opt_view(adif.adif_adif_version),
                program_id: opt_view(adif.adif_program_id),
                program_version: opt_view(adif.adif_program_version),
                created_timestamp: opt_view(adif.adif_created_timestamp),
                label: label@,
                records: match sp_interp_records(rmodels, 1, Seq::empty()) {
                    Result::Ok(rs) => rs,
                    Result::Err(m2) => Seq::empty(),
                },
            }),
            sp_interp_file(label@, adi@) matches Result::Err(m) ==> sp_interp_records(
                rmodels,
                1,
                Seq::empty(),
            ) matches Result::Err(m2) && m == m2,
            adif.adif_label@ == label@,
        decreases adi.adi_records@.len() - i,
    {
        let adr = &adi.adi_records[i];
        proof {
            assert(rmodels.skip(i as int)[0] == adr@);
            assert(rmodels.skip(i as int).skip(1) =~= rmodels.skip(i + 1));
        }
        let record_values = match interp_record(adr, i + 1) {
            Ok(fm) => fm,
            Err(e) => {
                return Err(e);
            },
        };
        let ghost pre_records = adif.adif_records@;
        adif.adif_records.push(AdifRecord { adir_field_values: record_values });
        proof {
            assert(adif_records_view(adif.adif_records@) =~= adif_records_view(
                pre_records,
            ).push(AdifRecordModel { fields: record_values@ }));
        }
        i += 1;
    }
    proof {
        assert(rmodels.skip(rmodels.len() as int) =~= Seq::<RecordModel>::empty());
    }
    Ok(adif)
}

} // verus!
