//! Helpers for the reporting tools that consume parsed files: filter
//! parsing and matching, record signatures for matching records across
//! files, and human-readable summaries.

use vstd::prelude::*;
use vstd::string::StrSliceExecFns;
use vstd::string::StringExecFns;

use crate::adif::AdifFile;
use crate::adif::AdifRecord;
use crate::adif::pairs_contains;
use crate::adif::pairs_get;
use crate::adif::streq;
use crate::adifutil::spec_dec_chars;
use crate::adifutil::usize_to_string;

verus! {

/// The index of the first occurrence of a character, if any.
pub open spec fn spec_find_char(s: Seq<char>, c: char) -> Option<int>
    decreases s.len(),
{
    if s.len() == 0 {
        Option::None
    } else if s[0] == c {
        Option::Some(0)
    } else {
        match spec_find_char(s.skip(1), c) {
            Option::Some(i) => Option::Some(i + 1),
            Option::None => Option::None,
        }
    }
}

/// An occurrence with no earlier occurrence is the first.
proof fn lemma_find_char_at(s: Seq<char>, c: char, i: int)
    requires
        0 <= i < s.len(),
        s[i] == c,
        forall|j: int| 0 <= j < i ==> s[j] != c,
    ensures
        spec_find_char(s, c) == Option::Some(i),
    decreases i,
{
    if i == 0 {
    } else {
        assert forall|j: int| 0 <= j < i - 1 implies s.skip(1)[j] != c by {
            assert(s.skip(1)[j] == s[j + 1]);
        }
        assert(s.skip(1)[i - 1] == s[i]);
        lemma_find_char_at(s.skip(1), c, i - 1);
    }
}

/// Without an occurrence there is no first occurrence.
proof fn lemma_find_char_none(s: Seq<char>, c: char)
    requires
        forall|j: int| 0 <= j < s.len() ==> s[j] != c,
    ensures
        spec_find_char(s, c) is None,
    decreases s.len(),
{
    if s.len() > 0 {
        assert forall|j: int| 0 <= j < s.len() - 1 implies s.skip(1)[j] != c by {
            assert(s.skip(1)[j] == s[j + 1]);
        }
        lemma_find_char_none(s.skip(1), c);
    }
}

/// Reads one `name=value` filter option: the text before the first `=`
/// names the field, the text after it the required value.  A string
/// without `=` is not a filter.
pub fn parse_filter(filtstr: &str) -> (r: Option<(String, String)>)
    ensures
        match spec_find_char(filtstr@, '=') {
            Option::Some(p) => r matches Some(f) && f.0@ == filtstr@.subrange(0, p) && f.1@
                == filtstr@.subrange(p + 1, filtstr@.len() as int),
            Option::None => r is None,
        },
{
    let n = filtstr.unicode_len();
    let mut i: usize = 0;
    while i < n
        invariant
            n == filtstr@.len(),
            0 <= i <= n,
            forall|j: int| 0 <= j < i ==> filtstr@[j] != '=',
        decreases n - i,
    {
        let c = filtstr.get_char(i);
        if c == '=' {
            proof {
                lemma_find_char_at(filtstr@, '=', i as int);
            }
            let a = filtstr.substring_char(0, i);
            let b = filtstr.substring_char(i + 1, n);
            return Option::Some((String::from_str(a), String::from_str(b)));
        }
        i += 1;
    }
    proof {
        lemma_find_char_none(filtstr@, '=');
    }
    Option::None
}

/// A key occurs in a pair sequence exactly when a value is stored under
/// it.
pub proof fn lemma_pairs_contains_get(s: Seq<(Seq<char>, Seq<char>)>, k: Seq<char>)
    ensures
        pairs_contains(s, k) <==> pairs_get(s, k) is Some,
    decreases s.len(),
{
    if s.len() == 0 {
    } else if s[0].0 == k {
    } else {
        lemma_pairs_contains_get(s.skip(1), k);
        assert forall|i: int| 0 <= i < s.skip(1).len() implies s.skip(1)[i] == s[i + 1] by {}
        if pairs_contains(s, k) {
            let w = choose|w: int| 0 <= w < s.len() && s[w].0 == k;
            assert(s.skip(1)[w - 1].0 == k);
        }
        if pairs_contains(s.skip(1), k) {
            let w = choose|w: int| 0 <= w < s.skip(1).len() && s.skip(1)[w].0 == k;
            assert(s[w + 1].0 == k);
        }
    }
}

/// True when a record carries the two fields its signature is derived
/// from.
pub open spec fn spec_sig_ready(fields: Seq<(Seq<char>, Seq<char>)>) -> bool {
    pairs_contains(fields, "qso_date"@) && pairs_contains(fields, "call"@)
}

/// The signature by which records of two files are matched, derived from
/// the contact date and the remote station's call sign.
pub open spec fn spec_qso_sig(fields: Seq<(Seq<char>, Seq<char>)>) -> Seq<char> {
    pairs_get(fields, "qso_date"@)->0 + " QSO with "@ + pairs_get(fields, "call"@)->0
}

/// The signature by which records of two files are matched: the contact
/// date and the remote station's call sign.
pub fn make_qso_sig(record: &AdifRecord) -> (r: String)
    requires
        spec_sig_ready(record@.fields),
    ensures
        r@ == spec_qso_sig(record@.fields),
{
    proof {
        lemma_pairs_contains_get(record@.fields, "qso_date"@);
        lemma_pairs_contains_get(record@.fields, "call"@);
    }
    let d = record.adir_field_values.get("qso_date");
    let c = record.adir_field_values.get("call");
    let mut r = d.unwrap().clone();
    r.append(" QSO with ");
    r.append(c.unwrap().as_str());
    proof {
        assert(r@ =~= spec_qso_sig(record@.fields));
    }
    r
}

/// The index of the first record whose signature equals the given one,
/// if any.
pub fn adif_find_match(sig: &str, recs: &Vec<AdifRecord>) -> (r: Option<usize>)
    requires
        forall|i: int| 0 <= i < recs@.len() ==> spec_sig_ready((#[trigger] recs@[i])@.fields),
    ensures
        match r {
            Option::Some(j) => j < recs@.len() && spec_qso_sig(recs@[j as int]@.fields) == sig@
                && forall|k: int| 0 <= k < j ==> spec_qso_sig((#[trigger] recs@[k])@.fields) != sig@,
            Option::None => forall|k: int|
                0 <= k < recs@.len() ==> spec_qso_sig((#[trigger] recs@[k])@.fields) != sig@,
        },
{
    let mut j: usize = 0;
    while j < recs.len()
        invariant
            0 <= j <= recs@.len(),
            forall|i: int| 0 <= i < recs@.len() ==> spec_sig_ready((#[trigger] recs@[i])@.fields),
            forall|k: int| 0 <= k < j ==> spec_qso_sig((#[trigger] recs@[k])@.fields) != sig@,
        decreases recs@.len() - j,
    {
        let s = make_qso_sig(&recs[j]);
        if streq(s.as_str(), sig) {
            return Option::Some(j);
        }
        j += 1;
    }
    Option::None
}

/// Compares the grid squares of two matched records: the result holds
/// the two values, each possibly absent, exactly when they differ, and
/// nothing when they agree — both absent, or both present and equal.
pub fn qso_grid_diff(r1: &AdifRecord, r2: &AdifRecord) -> (r: Option<
    (Option<String>, Option<String>),
>)
    ensures
        ({
            let g1 = pairs_get(r1@.fields, "gridsquare"@);
            let g2 = pairs_get(r2@.fields, "gridsquare"@);
            match r {
                Option::Some(p) => g1 != g2 && crate::adif::opt_view(p.0) == g1
                    && crate::adif::opt_view(p.1) == g2,
                Option::None => g1 == g2,
            }
        }),
{
    let v1 = r1.adir_field_values.get("gridsquare");
    let v2 = r2.adir_field_values.get("gridsquare");
    match (v1, v2) {
        (Option::None, Option::None) => Option::None,
        (Option::Some(a), Option::None) => Option::Some(
            (Option::Some(a.clone()), Option::None),
        ),
        (Option::None, Option::Some(b)) => Option::Some(
            (Option::None, Option::Some(b.clone())),
        ),
        (Option::Some(a), Option::Some(b)) => {
            if streq(a.as_str(), b.as_str()) {
                Option::None
            } else {
                Option::Some((Option::Some(a.clone()), Option::Some(b.clone())))
            }
        },
    }
}

/// The views of a list of filter pairs.
pub open spec fn spec_filters_view(filters: Seq<(String, String)>) -> Seq<(Seq<char>, Seq<char>)> {
    filters.map_values(|p: (String, String)| (p.0@, p.1@))
}

/// True when a record passes every filter: a filtered field must hold
/// exactly the required value, and a field required to be empty may also
/// be absent.
pub open spec fn spec_record_matches(
    fields: Seq<(Seq<char>, Seq<char>)>,
    filters: Seq<(Seq<char>, Seq<char>)>,
) -> bool {
    forall|i: int|
        0 <= i < filters.len() ==> match pairs_get(fields, (#[trigger] filters[i]).0) {
            Option::Some(v) => v == filters[i].1,
            Option::None => filters[i].1.len() == 0,
        }
}

/// Decides whether a record passes the given filters.
pub fn adif_record_matches(rec: &AdifRecord, filters: &Vec<(String, String)>) -> (r: bool)
    ensures
        r == spec_record_matches(rec@.fields, spec_filters_view(filters@)),
{
    let ghost fv = spec_filters_view(filters@);
    let mut i: usize = 0;
    while i < filters.len()
        invariant
            fv == spec_filters_view(filters@),
            fv.len() == filters@.len(),
            0 <= i <= fv.len(),
            forall|j: int|
                0 <= j < i ==> match pairs_get(rec@.fields, (#[trigger] fv[j]).0) {
                    Option::Some(v) => v == fv[j].1,
                    Option::None => fv[j].1.len() == 0,
                },
        decreases fv.len() - i,
    {
        let key = &filters[i].0;
        let filterval = &filters[i].1;
        proof {
            assert(fv[i as int] == (filters@[i as int].0@, filters@[i as int].1@));
        }
        match rec.adir_field_values.get(key.as_str()) {
            Option::None => {
                if !filterval.as_str().is_empty() {
                    proof {
                        assert(!(match pairs_get(rec@.fields, fv[i as int].0) {
                            Option::Some(v) => v == fv[i as int].1,
                            Option::None => fv[i as int].1.len() == 0,
                        }));
                    }
                    return false;
                }
            },
            Option::Some(recordval) => {
                if !streq(recordval.as_str(), filterval.as_str()) {
                    proof {
                        assert(!(match pairs_get(rec@.fields, fv[i as int].0) {
                            Option::Some(v) => v == fv[i as int].1,
                            Option::None => fv[i as int].1.len() == 0,
                        }));
                    }
                    return false;
                }
            },
        }
        i += 1;
    }
    true
}

/// A field name padded with spaces to at least twenty characters, for
/// aligned record listings.
pub open spec fn spec_pad20(k: Seq<char>) -> Seq<char> {
    if k.len() >= 20 {
        k
    } else {
        k + Seq::new((20 - k.len()) as nat, |i: int| ' ')
    }
}

/// The listing of a record's fields, one aligned `name: value` line per
/// field.
pub open spec fn spec_describe_fields(fs: Seq<(Seq<char>, Seq<char>)>) -> Seq<char>
    decreases fs.len(),
{
    if fs.len() == 0 {
        Seq::empty()
    } else {
        "    "@ + spec_pad20(fs[0].0) + ": "@ + fs[0].1 + "\n"@ + spec_describe_fields(fs.skip(1))
    }
}

/// The human-readable description of one record: a heading and its
/// fields, one per line.
pub fn adif_record_describe(rec: &AdifRecord) -> (r: String)
    ensures
        r@ == "RECORD:\n"@ + spec_describe_fields(rec@.fields),
{
    let mut out = String::from_str("RECORD:\n");
    let n = rec.adir_field_values.len();
    let mut i: usize = 0;
    proof {
        assert(rec@.fields.skip(0) =~= rec@.fields);
    }
    while i < n
        invariant
            n == rec@.fields.len(),
            0 <= i <= n,
            out@ + spec_describe_fields(rec@.fields.skip(i as int)) == "RECORD:\n"@
                + spec_describe_fields(rec@.fields),
        decreases n - i,
    {
        let ghost pre = out@;
        let ghost fs = rec@.fields.skip(i as int);
        proof {
            assert(fs[0] == rec@.fields[i as int]);
            assert(fs.skip(1) =~= rec@.fields.skip(i + 1));
        }
        let (key, value) = rec.adir_field_values.entry_at(i);
        out.append("    ");
        out.append(key.as_str());
        let klen = key.as_str().unicode_len();
        let ghost base = out@;
        let mut p: usize = klen;
        while p < 20
            invariant
                klen <= p <= 20 || (klen > 20 && p == klen),
                out@ == base + Seq::new((p - klen) as nat, |q: int| ' '),
            decreases 20 - p,
        {
            proof {
                assert((base + Seq::new((p - klen) as nat, |q: int| ' ')).push(' ') =~= base
                    + Seq::new((p + 1 - klen) as nat, |q: int| ' '));
                reveal_strlit(" ");
            }
            out.append(" ");
            p += 1;
        }
        proof {
            if klen >= 20 {
                assert(Seq::new(0nat, |q: int| ' ') =~= Seq::<char>::empty());
                assert(out@ =~= pre + "    "@ + spec_pad20(fs[0].0));
            } else {
                assert(out@ =~= pre + "    "@ + spec_pad20(fs[0].0));
            }
        }
        out.append(": ");
        out.append(value.as_str());
        out.append("\n");
        proof {
            assert(out@ =~= pre + ("    "@ + spec_pad20(fs[0].0) + ": "@ + fs[0].1 + "\n"@));
            assert(out@ + spec_describe_fields(rec@.fields.skip(i + 1)) =~= pre
                + spec_describe_fields(fs));
        }
        i += 1;
    }
    proof {
        assert(rec@.fields.skip(rec@.fields.len() as int) =~= Seq::<(Seq<char>, Seq<char>)>::empty());
        assert(out@ + Seq::<char>::empty() =~= out@);
    }
    out
}

/// The human-readable summary of a logical file: its label, the
/// creation metadata and the record count.
pub open spec fn spec_describe_file(f: crate::adif::AdifFileModel) -> Seq<char> {
    "ADIF file:  "@ + f.label + "\n"@ + "Created at: "@ + (match f.created_timestamp {
        Option::Some(t) => t,
        Option::None => "unknown"@,
    }) + "\n"@ + "Created by: "@ + (match f.program_id {
        Option::Some(p) => "program \""@ + p + "\""@,
        Option::None => "unknown program"@,
    }) + " "@ + (match f.program_version {
        Option::Some(v) => "version \""@ + v + "\""@,
        Option::None => "unknown version"@,
    }) + "\n"@ + "Total records: "@ + spec_dec_chars(f.records.len()) + "\n"@
}

/// Renders the human-readable summary of a logical file.
pub fn adif_file_describe(f: &AdifFile) -> (r: String)
    ensures
        r@ == spec_describe_file(f@),
{
    let mut out = String::from_str("ADIF file:  ");
    out.append(f.adif_label.as_str());
    out.append("\n");
    out.append("Created at: ");
    match &f.adif_created_timestamp {
        Option::Some(t) => {
            out.append(t.as_str());
        },
        Option::None => {
            out.append("unknown");
        },
    }
    out.append("\n");
    out.append("Created by: ");
    match &f.adif_program_id {
        Option::Some(p) => {
            out.append("program \"");
            out.append(p.as_str());
            out.append("\"");
        },
        Option::None => {
            out.append("unknown program");
        },
    }
    out.append(" ");
    match &f.adif_program_version {
        Option::Some(v) => {
            out.append("version \"");
            out.append(v.as_str());
            out.append("\"");
        },
        Option::None => {
            out.append("unknown version");
        },
    }
    out.append("\n");
    out.append("Total records: ");
    out.append(usize_to_string(f.adif_records.len()).as_str());
    out.append("\n");
    proof {
        assert(out@ =~= spec_describe_file(f@));
    }
    out
}

/// The tab-separated rendering of chosen columns of a record, a `-`
/// standing for an absent field, ending with a line break.
pub open spec fn spec_columns(
    fields: Seq<(Seq<char>, Seq<char>)>,
    cols: Seq<Seq<char>>,
) -> Seq<char>
    decreases cols.len(),
{
    if cols.len() == 0 {
        "\n"@
    } else {
        (match pairs_get(fields, cols[0]) {
            Option::Some(v) => v,
            Option::None => "-"@,
        }) + "\t"@ + spec_columns(fields, cols.skip(1))
    }
}

/// Renders the chosen columns of a record, tab-separated.
pub fn adif_record_columns(rec: &AdifRecord, colnames: &Vec<String>) -> (r: String)
    ensures
        r@ == spec_columns(rec@.fields, colnames@.map_values(|s: String| s@)),
{
    let ghost cv = colnames@.map_values(|s: String| s@);
    let mut out = String::new();
    let mut i: usize = 0;
    proof {
        assert(cv.skip(0) =~= cv);
        assert(Seq::<char>::empty() + spec_columns(rec@.fields, cv) =~= spec_columns(
            rec@.fields,
            cv,
        ));
    }
    while i < colnames.len()
        invariant
            cv == colnames@.map_values(|s: String| s@),
            cv.len() == colnames@.len(),
            0 <= i <= cv.len(),
            out@ + spec_columns(rec@.fields, cv.skip(i as int)) == spec_columns(rec@.fields, cv),
        decreases cv.len() - i,
    {
        let ghost pre = out@;
        proof {
            assert(cv.skip(i as int)[0] == cv[i as int]);
            assert(cv[i as int] == colnames@[i as int]@);
            assert(cv.skip(i as int).skip(1) =~= cv.skip(i + 1));
        }
        match rec.adir_field_values.get(colnames[i].as_str()) {
            Option::Some(v) => {
                out.append(v.as_str());
            },
            Option::None => {
                out.append("-");
            },
        }
        out.append("\t");
        proof {
            assert(out@ + spec_columns(rec@.fields, cv.skip(i + 1)) =~= pre + spec_columns(
                rec@.fields,
                cv.skip(i as int),
            ));
        }
        i += 1;
    }
    out.append("\n");
    proof {
        assert(cv.skip(cv.len() as int) =~= Seq::<Seq<char>>::empty());
        assert(out@ =~= spec_columns(rec@.fields, cv));
    }
    out
}

} // verus!
