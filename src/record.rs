//! Glob records, and reading them from tagged key/value analysis rows.
use vstd::prelude::*;
use crate::names::{split_commas, split_names, texts};
use crate::names::{format_names, formatted};
use crate::patch::extend_from;
use vstd::utf8::encode_utf8;
use crate::number::{decimal_bytes, decimal_digits, decimal_value, is_decimal, parse_decimal};

verus! {

/// What the byte range of a glob record covers.
#[derive(Debug, Clone, Copy, PartialEq, Eq, Structural)]
pub enum Extent {
    /// Exactly the bytes to replace: the range is replaced as it stands.
    Exact,
    /// The whole import statement: only its first wildcard is replaced.
    Coarse,
}

/// One wildcard import: the file it stands in, its line where known, its
/// byte range `[start, end)` and what that range covers, and the names it
/// brings in, in declaration order.
pub struct GlobRecord {
    pub file: String,
    pub line: Option<usize>,
    pub start: usize,
    pub end: usize,
    pub extent: Extent,
    pub names: Vec<String>,
}

/// What a glob record holds, as plain values.
pub struct RecordView {
    pub file: Seq<char>,
    pub line: Option<usize>,
    pub start: usize,
    pub end: usize,
    pub extent: Extent,
    pub names: Seq<Seq<char>>,
}

impl View for GlobRecord {
    type V = RecordView;

    open spec fn view(&self) -> RecordView {
        RecordView {
            file: self.file@,
            line: self.line,
            start: self.start,
            end: self.end,
            extent: self.extent,
            names: texts(self.names@),
        }
    }
}

impl RecordView {
    /// The range is ordered and there is at least one name, none of them
    /// empty.
    pub open spec fn wf(self) -> bool {
        &&& self.start <= self.end
        &&& self.names.len() >= 1
        &&& forall|i: int| 0 <= i < self.names.len() ==> #[trigger] self.names[i].len() > 0
    }
}

impl GlobRecord {
    /// Whether the record's range is ordered and it names at least one
    /// name, none of them empty.
    pub fn is_well_formed(&self) -> (r: bool)
        ensures
            r == self@.wf(),
    {
        self.start <= self.end && self.names.len() >= 1 && all_named(&self.names)
    }
}

/// Why analysis rows cannot be read at all.
#[derive(Debug, Clone, Copy, PartialEq, Eq, Structural)]
pub enum IngestError {
    /// A glob row ends with a key that has no value.
    UnterminatedPair,
    /// A number field of a glob row is not a non-negative integer that fits
    /// in a `usize`.
    BadNumber,
}

/// The tag of a row that records a wildcard import.
pub open spec fn glob_tag() -> Seq<char> {
    "use_glob"@
}

/// The value of the last of the first `n` key/value pairs of `fields` (the
/// pairs follow the tag) whose key is `key`.
pub open spec fn lookup_in(fields: Seq<Seq<char>>, key: Seq<char>, n: int) -> Option<Seq<char>>
    decreases n,
{
    if n <= 0 {
        None
    } else if fields[2 * n - 1] == key {
        Some(fields[2 * n])
    } else {
        lookup_in(fields, key, n - 1)
    }
}

/// The value that a row gives `key`; a later pair overrides an earlier one.
pub open spec fn field_value(fields: Seq<Seq<char>>, key: Seq<char>) -> Option<Seq<char>> {
    lookup_in(fields, key, (fields.len() - 1) / 2)
}

/// The number that a field value holds, where it is one that fits a `usize`.
pub open spec fn number_value(v: Seq<char>) -> Option<usize> {
    if is_decimal(v) && decimal_value(v) <= usize::MAX {
        Some(decimal_value(v) as usize)
    } else {
        None
    }
}

/// A row gives each field that a glob record needs.
pub open spec fn has_all_fields(f: Seq<Seq<char>>) -> bool {
    &&& field_value(f, "file_name"@) is Some
    &&& field_value(f, "file_line"@) is Some
    &&& field_value(f, "value"@) is Some
    &&& field_value(f, "extent_start_bytes"@) is Some
    &&& field_value(f, "extent_end_bytes"@) is Some
}

/// Each number field of a row holds a number.
pub open spec fn numbers_read(f: Seq<Seq<char>>) -> bool {
    &&& number_value(field_value(f, "file_line"@)->0) is Some
    &&& number_value(field_value(f, "extent_start_bytes"@)->0) is Some
    &&& number_value(field_value(f, "extent_end_bytes"@)->0) is Some
}

/// The record that a complete row describes; the range of an analysis row
/// is the exact range to replace.
pub open spec fn record_of(f: Seq<Seq<char>>) -> RecordView {
    RecordView {
        file: field_value(f, "file_name"@)->0,
        line: Some(number_value(field_value(f, "file_line"@)->0)->0),
        start: number_value(field_value(f, "extent_start_bytes"@)->0)->0,
        end: number_value(field_value(f, "extent_end_bytes"@)->0)->0,
        extent: Extent::Exact,
        names: split_commas(field_value(f, "value"@)->0),
    }
}

/// What one row yields: nothing for a row of another kind or a malformed
/// one, a record, or an error that stops the whole reading.
pub open spec fn parsed(f: Seq<Seq<char>>) -> Result<Option<RecordView>, IngestError> {
    if f.len() == 0 || f[0] != glob_tag() {
        Ok(None)
    } else if (f.len() - 1) % 2 != 0 {
        Err(IngestError::UnterminatedPair)
    } else if !has_all_fields(f) {
        Ok(None)
    } else if !numbers_read(f) {
        Err(IngestError::BadNumber)
    } else if !record_of(f).wf() {
        Ok(None)
    } else {
        Ok(Some(record_of(f)))
    }
}

pub(crate) fn same_text(a: &str, b: &str) -> (r: bool)
    ensures
        r == (a@ == b@),
{
    let n = a.unicode_len();
    if n != b.unicode_len() {
        return false;
    }
    let mut i: usize = 0;
    while i < n
        invariant
            n == a@.len() == b@.len(),
            i <= n,
            forall|j: int| 0 <= j < i ==> a@[j] == b@[j],
        decreases n - i,
    {
        if a.get_char(i) != b.get_char(i) {
            return false;
        }
        i = i + 1;
    }
    assert(a@ =~= b@);
    true
}

/// The index of the field that holds the value the row gives `key`.
fn find_field(fields: &Vec<String>, key: &str) -> (r: Option<usize>)
    requires
        fields@.len() >= 1,
    ensures
        match r {
            Some(k) => k < fields@.len() && field_value(texts(fields@), key@) == Some(fields@[k as int]@),
            None => field_value(texts(fields@), key@) is None,
        },
{
    let ghost f = texts(fields@);
    let pairs = (fields.len() - 1) / 2;
    let mut found: Option<usize> = None;
    let mut i: usize = 0;
    while i < pairs
        invariant
            f == texts(fields@),
            pairs == (fields@.len() - 1) / 2,
            2 * pairs + 1 <= fields@.len(),
            fields@.len() == fields.len(),
            i <= pairs,
            match found {
                Some(k) => k < fields@.len() && lookup_in(f, key@, i as int) == Some(fields@[k as int]@),
                None => lookup_in(f, key@, i as int) is None,
            },
        decreases pairs - i,
    {
        let k = i + i + 1;
        if same_text(fields[k].as_str(), key) {
            found = Some(k + 1);
        }
        i = i + 1;
    }
    found
}

fn all_named(names: &Vec<String>) -> (r: bool)
    ensures
        r == forall|i: int| 0 <= i < names@.len() ==> #[trigger] texts(names@)[i].len() > 0,
{
    let mut i: usize = 0;
    while i < names.len()
        invariant
            i <= names@.len(),
            forall|j: int| 0 <= j < i ==> #[trigger] texts(names@)[j].len() > 0,
        decreases names@.len() - i,
    {
        if names[i].as_str().unicode_len() == 0 {
            assert(texts(names@)[i as int].len() == 0);
            return false;
        }
        i = i + 1;
    }
    true
}

/// Reads one analysis row: a tag, then key/value pairs. Rows of another
/// kind and glob rows that lack a field, have an inverted range or an empty
/// name give `Ok(None)`; a glob row with a dangling key, or a number field
/// that does not hold a number, gives an error.
pub fn parse_record(fields: &Vec<String>) -> (r: Result<Option<GlobRecord>, IngestError>)
    ensures
        match r {
            Ok(Some(g)) => parsed(texts(fields@)) == Ok::<Option<RecordView>, IngestError>(Some(g@)),
            Ok(None) => parsed(texts(fields@)) == Ok::<Option<RecordView>, IngestError>(None),
            Err(e) => parsed(texts(fields@)) == Err::<Option<RecordView>, IngestError>(e),
        },
{
    let ghost f = texts(fields@);
    if fields.len() == 0 || !same_text(fields[0].as_str(), "use_glob") {
        return Ok(None);
    }
    if (fields.len() - 1) % 2 != 0 {
        return Err(IngestError::UnterminatedPair);
    }
    let file = find_field(fields, "file_name");
    let line = find_field(fields, "file_line");
    let value = find_field(fields, "value");
    let start = find_field(fields, "extent_start_bytes");
    let end = find_field(fields, "extent_end_bytes");
    if file.is_none() || line.is_none() || value.is_none() || start.is_none() || end.is_none() {
        return Ok(None);
    }
    let line = parse_decimal(fields[line.unwrap()].as_str());
    let start = parse_decimal(fields[start.unwrap()].as_str());
    let end = parse_decimal(fields[end.unwrap()].as_str());
    if line.is_none() || start.is_none() || end.is_none() {
        return Err(IngestError::BadNumber);
    }
    let names = split_names(fields[value.unwrap()].as_str());
    let start = start.unwrap();
    let end = end.unwrap();
    if start > end || names.len() == 0 || !all_named(&names) {
        return Ok(None);
    }
    let g = GlobRecord { file: fields[file.unwrap()].clone(), line, start, end, extent: Extent::Exact, names };
    assert(g@ == record_of(f));
    Ok(Some(g))
}

/// The fields of each row, as text; `None` stays for a row that could not
/// be read.
pub open spec fn row_texts(rows: Seq<Option<Vec<String>>>) -> Seq<Option<Seq<Seq<char>>>> {
    rows.map_values(
        |o: Option<Vec<String>>|
            match o {
                Some(v) => Some(texts(v@)),
                None => None,
            },
    )
}

/// What each record holds.
pub open spec fn views(v: Seq<GlobRecord>) -> Seq<RecordView> {
    v.map_values(|g: GlobRecord| g@)
}

/// The records of `rows`, in row order, or the error of the first row that
/// has one. Unreadable rows and rows that yield nothing are passed over.
pub open spec fn globs_from(rows: Seq<Option<Seq<Seq<char>>>>) -> Result<Seq<RecordView>, IngestError>
    decreases rows.len(),
{
    if rows.len() == 0 {
        Ok(Seq::empty())
    } else {
        match globs_from(rows.drop_last()) {
            Err(e) => Err(e),
            Ok(acc) => match rows.last() {
                None => Ok(acc),
                Some(f) => match parsed(f) {
                    Err(e) => Err(e),
                    Ok(None) => Ok(acc),
                    Ok(Some(g)) => Ok(acc.push(g)),
                },
            },
        }
    }
}

proof fn lemma_error_stays(rows: Seq<Option<Seq<Seq<char>>>>, k: int)
    requires
        0 <= k <= rows.len(),
        globs_from(rows.take(k)) is Err,
    ensures
        globs_from(rows) == globs_from(rows.take(k)),
    decreases rows.len() - k,
{
    if k < rows.len() {
        assert(rows.take(k + 1).drop_last() =~= rows.take(k));
        lemma_error_stays(rows, k + 1);
    } else {
        assert(rows.take(k) =~= rows);
    }
}

/// The glob records of analysis rows, in row order. Unreadable rows, rows of
/// another kind and malformed glob rows are passed over; the first row that
/// cannot be trusted stops the reading with its error.
pub fn globs_from_rows(rows: &Vec<Option<Vec<String>>>) -> (r: Result<Vec<GlobRecord>, IngestError>)
    ensures
        match r {
            Ok(v) => globs_from(row_texts(rows@)) == Ok::<Seq<RecordView>, IngestError>(views(v@)),
            Err(e) => globs_from(row_texts(rows@)) == Err::<Seq<RecordView>, IngestError>(e),
        },
{
    let ghost all = row_texts(rows@);
    let mut out: Vec<GlobRecord> = Vec::new();
    let mut i: usize = 0;
    assert(all.take(0) =~= Seq::<Option<Seq<Seq<char>>>>::empty());
    assert(views(out@) =~= Seq::<RecordView>::empty());
    while i < rows.len()
        invariant
            all == row_texts(rows@),
            i <= rows@.len(),
            globs_from(all.take(i as int)) == Ok::<Seq<RecordView>, IngestError>(views(out@)),
        decreases rows@.len() - i,
    {
        proof {
            let t = all.take(i + 1);
            assert(t.drop_last() =~= all.take(i as int));
            assert(t.last() == all[i as int]);
        }
        match &rows[i] {
            None => {},
            Some(fields) => {
                match parse_record(fields) {
                    Err(e) => {
                        proof {
                            lemma_error_stays(all, i + 1);
                        }
                        return Err(e);
                    },
                    Ok(None) => {},
                    Ok(Some(g)) => {
                        let ghost before = out@;
                        out.push(g);
                        assert(views(out@) =~= views(before).push(g@));
                    },
                }
            },
        }
        i = i + 1;
    }
    assert(all.take(i as int) =~= all);
    Ok(out)
}

/// What csv reads from `data`.
pub uninterp spec fn csv_rows(data: Seq<u8>) -> Seq<Option<Seq<Seq<char>>>>;

/// Relies on csv's `ReaderBuilder` (no header row, rows of any length) and
/// `Reader::records`: the rows of `data` in order, each as its fields, or
/// `None` for a row that is not valid UTF-8. The rows depend on the bytes
/// alone.
#[verifier::external_body]
fn read_rows(data: &[u8]) -> (r: Vec<Option<Vec<String>>>)
    ensures
        row_texts(r@) == csv_rows(data@),
{
    let mut reader = csv::ReaderBuilder::new().has_headers(false).flexible(true).from_reader(data);
    reader.records().map(|row| row.ok().map(|rec| rec.iter().map(String::from).collect())).collect()
}

/// The glob records of a comma-separated analysis dump.
pub fn parse_for_globs(data: &[u8]) -> (r: Result<Vec<GlobRecord>, IngestError>)
    ensures
        match r {
            Ok(v) => globs_from(csv_rows(data@)) == Ok::<Seq<RecordView>, IngestError>(views(v@)),
            Err(e) => globs_from(csv_rows(data@)) == Err::<Seq<RecordView>, IngestError>(e),
        },
{
    let rows = read_rows(data);
    globs_from_rows(&rows)
}

/// The report line of a record: `file:line -> 'names'`, or `file -> 'names'`
/// where the line is not known.
pub open spec fn report_text(g: RecordView) -> Seq<u8> {
    let place = match g.line {
        Some(l) => encode_utf8(g.file) + seq![0x3au8] + decimal_digits(l as nat),
        None => encode_utf8(g.file),
    };
    place + seq![0x20u8, 0x2du8, 0x3eu8, 0x20u8, 0x27u8] + encode_utf8(formatted(g.names)) + seq![0x27u8]
}

/// Writes the report line of `g`, as UTF-8.
pub fn report_line(g: &GlobRecord) -> (r: Vec<u8>)
    requires
        g@.wf(),
    ensures
        r@ == report_text(g@),
{
    let mut out: Vec<u8> = Vec::new();
    let file = g.file.as_str().as_bytes();
    extend_from(&mut out, file, 0, file.len());
    assert(file@.subrange(0, file@.len() as int) =~= file@);
    match g.line {
        Some(l) => {
            out.push(0x3a);
            let digits = decimal_bytes(l);
            extend_from(&mut out, digits.as_slice(), 0, digits.len());
            assert(digits@.subrange(0, digits@.len() as int) =~= digits@);
        },
        None => {},
    }
    out.push(0x20);
    out.push(0x2d);
    out.push(0x3e);
    out.push(0x20);
    out.push(0x27);
    let names = format_names(&g.names);
    let text = names.as_str().as_bytes();
    extend_from(&mut out, text, 0, text.len());
    assert(text@.subrange(0, text@.len() as int) =~= text@);
    out.push(0x27);
    assert(out@ =~= report_text(g@));
    out
}

} // verus!
