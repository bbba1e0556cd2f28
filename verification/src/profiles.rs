//! The profile database: the ordered locus schema, and the allele vector of every ST.

use crate::error::TypingError;
use crate::table::{csv_error_text, tsv_records, tsv_rows};
use crate::text::{
    count_before, lemma_count_before, number, parse_u16, trim, trimmed,
};
use std::collections::HashMap;
use vstd::prelude::*;
use vstd::string::StringExecFns;

verus! {

broadcast use vstd::std_specs::hash::group_hash_axioms;

/// What a profile table holds once it is loaded.
#[derive(Debug, Clone)]
pub struct ProfileTable {
    /// The locus names, in the order of the table's columns.
    pub loci: Vec<String>,
    /// The allele vector of each ST, aligned to `loci`.
    pub profiles: HashMap<u16, Vec<u16>>,
}

impl ProfileTable {
    /// The locus schema as text.
    pub open spec fn schema(&self) -> Seq<Seq<char>> {
        self.loci.deep_view()
    }

    /// The allele vector of each ST.
    pub open spec fn vectors(&self) -> Map<u16, Seq<u16>> {
        Map::new(|st: u16| self.profiles@.contains_key(st), |st: u16| self.profiles@[st]@)
    }
}

/// The name of the column that holds no locus but an annotation.
pub open spec fn metadata_name() -> Seq<char> {
    "clonal_complex"@
}

/// Whether a column is the annotation column.
pub open spec fn is_metadata() -> spec_fn(Seq<char>) -> bool {
    |name: Seq<char>| name == metadata_name()
}

/// Whether a field is blank or otherwise no number that an ST or an allele can be.
pub open spec fn is_no_number() -> spec_fn(Seq<char>) -> bool {
    |field: Seq<char>| number(field, 0xffff) is None
}

/// The number that a field writes.
pub open spec fn field_number() -> spec_fn(Seq<char>) -> u16 {
    |field: Seq<char>| number(field, 0xffff).unwrap() as u16
}

/// The fields of a row without the white space around each.
pub open spec fn clean(row: Seq<Seq<char>>) -> Seq<Seq<char>> {
    row.map_values(|field: Seq<char>| trimmed(field))
}

/// The fields of a row after its first one, which is the label or the ST.
pub open spec fn columns(row: Seq<Seq<char>>) -> Seq<Seq<char>> {
    if row.len() == 0 {
        Seq::empty()
    } else {
        clean(row).skip(1)
    }
}

/// `fields` without the one in column `at`, if there is such a column and such a field.
pub open spec fn without(fields: Seq<Seq<char>>, at: Option<int>) -> Seq<Seq<char>> {
    match at {
        Some(place) if 0 <= place < fields.len() => fields.remove(place),
        _ => fields,
    }
}

/// The place of the annotation column among the columns of the header: that of the first
/// column with its name, if there is one.
pub open spec fn metadata_at(header: Seq<Seq<char>>) -> Option<int> {
    let place = count_before(columns(header), is_metadata()) as int;
    if place < columns(header).len() {
        Some(place)
    } else {
        None
    }
}

/// The locus schema that a header row declares.
pub open spec fn schema_of(header: Seq<Seq<char>>) -> Seq<Seq<char>> {
    without(columns(header), metadata_at(header))
}

/// The fields of a data row that hold its alleles: those after the ST, without the one in
/// the annotation column `at`, and without a last field that is blank.
pub open spec fn allele_fields(row: Seq<Seq<char>>, at: Option<int>) -> Seq<Seq<char>> {
    let fields = without(columns(row), at);
    if fields.len() > 0 && fields.last().len() == 0 {
        fields.drop_last()
    } else {
        fields
    }
}

/// The field of a data row that holds its ST; empty where the row has no field at all.
pub open spec fn st_field(row: Seq<Seq<char>>) -> Seq<char> {
    if row.len() == 0 {
        Seq::empty()
    } else {
        trimmed(row[0])
    }
}

/// The first field of a data row that should be a number and is not: the ST is looked at
/// first, then the alleles in order. `None` where the row is sound.
pub open spec fn row_fault(row: Seq<Seq<char>>, at: Option<int>) -> Option<Seq<char>> {
    let fields = allele_fields(row, at);
    let bad = count_before(fields, is_no_number()) as int;
    if number(st_field(row), 0xffff) is None {
        Some(st_field(row))
    } else if bad < fields.len() {
        Some(fields[bad])
    } else {
        None
    }
}

/// Whether a data row is malformed.
pub open spec fn is_faulty(at: Option<int>) -> spec_fn(Seq<Seq<char>>) -> bool {
    |row: Seq<Seq<char>>| row_fault(row, at) is Some
}

/// The ST of a sound data row.
pub open spec fn row_st(row: Seq<Seq<char>>) -> u16 {
    field_number()(st_field(row))
}

/// The allele vector of a sound data row.
pub open spec fn row_alleles(row: Seq<Seq<char>>, at: Option<int>) -> Seq<u16> {
    allele_fields(row, at).map_values(field_number())
}

/// The table that sound data rows make, read in order: a row whose ST was seen before
/// takes the place of the earlier one.
pub open spec fn table_of(rows: Seq<Seq<Seq<char>>>, at: Option<int>) -> Map<u16, Seq<u16>>
    decreases rows.len(),
{
    if rows.len() == 0 {
        Map::empty()
    } else {
        table_of(rows.drop_last(), at).insert(row_st(rows.last()), row_alleles(rows.last(), at))
    }
}

/// Whether no two of `rows` give the same ST.
pub open spec fn distinct_sts(rows: Seq<Seq<Seq<char>>>) -> bool {
    forall|i: int, j: int|
        0 <= i < j < rows.len() ==> row_st(#[trigger] rows[i]) != row_st(#[trigger] rows[j])
}

/// What loading makes of the rows of a profile table, the header first: the schema and
/// the allele vectors, or the place and the text of the first malformed field. Rows count
/// from the header, which is row 0. A table without any row has no locus and no profile.
pub open spec fn loaded(rows: Seq<Seq<Seq<char>>>) -> Result<
    (Seq<Seq<char>>, Map<u16, Seq<u16>>),
    (int, Seq<char>),
> {
    if rows.len() == 0 {
        Ok((Seq::empty(), Map::empty()))
    } else {
        let at = metadata_at(rows[0]);
        let data = rows.skip(1);
        let bad = count_before(data, is_faulty(at)) as int;
        if bad < data.len() {
            Err((bad + 1, row_fault(data[bad], at).unwrap()))
        } else {
            Ok((schema_of(rows[0]), table_of(data, at)))
        }
    }
}

/// Whether `got` is what `want` describes.
pub open spec fn is_loaded(
    got: Result<ProfileTable, TypingError>,
    want: Result<(Seq<Seq<char>>, Map<u16, Seq<u16>>), (int, Seq<char>)>,
) -> bool {
    match (got, want) {
        (Ok(table), Ok((schema, vectors))) => table.schema() == schema && table.vectors()
            == vectors,
        (Err(TypingError::MalformedProfileRow { row, field }), Err((at, text))) => row == at
            && field@ == text,
        _ => false,
    }
}

/// The fields after the first of `row`, each without the white space around it.
fn clean_columns(row: &Vec<String>) -> (out: Vec<String>)
    ensures
        out.deep_view() == columns(row.deep_view()),
{
    let mut out: Vec<String> = Vec::new();
    let mut i: usize = 1;
    while i < row.len()
        invariant
            i == 1 || i <= row.len(),
            out@.len() == i - 1,
            forall|j: int| 0 <= j < out@.len() ==> (#[trigger] out@[j])@ == trimmed(row@[j + 1]@),
        decreases row.len() - i,
    {
        out.push(trim(row[i].as_str()));
        i += 1;
    }
    out
}

/// The place of a column as the model counts it.
spec fn place_of(at: Option<usize>) -> Option<int> {
    match at {
        Some(place) => Some(place as int),
        None => None,
    }
}

/// Finds the annotation column among the columns `names` of a header.
fn find_metadata(names: &Vec<String>) -> (at: Option<usize>)
    ensures
        place_of(at) == (if count_before(names.deep_view(), is_metadata()) < names.len() {
            Some(count_before(names.deep_view(), is_metadata()) as int)
        } else {
            None
        }),
{
    let wanted = String::from_str("clonal_complex");
    let mut at: usize = 0;
    while at < names.len() && names[at] != wanted
        invariant
            at <= names.len(),
            wanted@ == metadata_name(),
            forall|i: int| 0 <= i < at ==> names@[i]@ != metadata_name(),
        decreases names.len() - at,
    {
        at += 1;
    }
    proof {
        lemma_count_before(names.deep_view(), is_metadata(), at as int);
    }
    if at < names.len() {
        Some(at)
    } else {
        None
    }
}

/// `fields` without the one in column `at`.
fn drop_column(fields: &mut Vec<String>, at: Option<usize>)
    ensures
        final(fields).deep_view() == without(old(fields).deep_view(), place_of(at)),
{
    match at {
        Some(place) => {
            if place < fields.len() {
                fields.remove(place);
            }
        },
        None => {},
    }
}

/// Reads one data row: its ST and its allele vector, or the text of the first field that
/// is no number.
fn read_row(row: &Vec<String>, at: Option<usize>) -> (out: Result<(u16, Vec<u16>), String>)
    ensures
        match out {
            Ok((st, alleles)) => row_fault(row.deep_view(), place_of(at)) is None && st == row_st(
                row.deep_view(),
            ) && alleles@ == row_alleles(row.deep_view(), place_of(at)),
            Err(field) => row_fault(row.deep_view(), place_of(at)) == Some(field@),
        },
{
    let ghost text = row.deep_view();
    let label = if row.len() == 0 {
        String::new()
    } else {
        trim(row[0].as_str())
    };
    let st = match parse_u16(label.as_str()) {
        None => {
            return Err(label);
        },
        Some(st) => st,
    };
    let mut fields = clean_columns(row);
    drop_column(&mut fields, at);
    if fields.len() > 0 && fields[fields.len() - 1].as_str().is_empty() {
        fields.pop();
    }
    let mut alleles: Vec<u16> = Vec::new();
    let mut i: usize = 0;
    while i < fields.len()
        invariant
            i <= fields.len(),
            alleles@.len() == i,
            text == row.deep_view(),
            number(st_field(text), 0xffff) == Some(st as nat),
            fields.deep_view() == allele_fields(text, place_of(at)),
            forall|j: int| 0 <= j < i ==> !is_no_number()(#[trigger] fields.deep_view()[j]),
            forall|j: int|
                0 <= j < i ==> #[trigger] alleles@[j] == field_number()(fields.deep_view()[j]),
        decreases fields.len() - i,
    {
        match parse_u16(fields[i].as_str()) {
            None => {
                proof {
                    lemma_count_before(fields.deep_view(), is_no_number(), i as int);
                }
                return Err(fields[i].clone());
            },
            Some(allele) => {
                alleles.push(allele);
            },
        }
        i += 1;
    }
    proof {
        lemma_count_before(fields.deep_view(), is_no_number(), i as int);
    }
    Ok((st, alleles))
}

/// Loads a profile table from its rows, the header first.
///
/// The header's first field is a label; the others name the loci, but for the annotation
/// column, which is left out here and in every data row. A data row gives an ST and its
/// alleles; white space around a field does not count, and a last field that is blank is
/// dropped. The first field that should be a number and is not ends the loading.
pub fn profiles_from_rows(rows: &Vec<Vec<String>>) -> (out: Result<ProfileTable, TypingError>)
    ensures
        is_loaded(out, loaded(rows.deep_view())),
{
    let ghost text = rows.deep_view();
    let profiles: HashMap<u16, Vec<u16>> = HashMap::new();
    if rows.len() == 0 {
        let table = ProfileTable { loci: Vec::new(), profiles };
        assert(table.schema() =~= Seq::empty());
        assert(table.vectors() =~= Map::empty());
        return Ok(table);
    }
    let mut loci = clean_columns(&rows[0]);
    let at = find_metadata(&loci);
    drop_column(&mut loci, at);
    let ghost data = text.skip(1);
    let mut table = ProfileTable { loci, profiles };
    let mut i: usize = 1;
    while i < rows.len()
        invariant
            1 <= i <= rows.len(),
            text == rows.deep_view(),
            data == text.skip(1),
            place_of(at) == metadata_at(text[0]),
            table.schema() == schema_of(text[0]),
            table.vectors() == table_of(data.take(i - 1), place_of(at)),
            forall|j: int| 0 <= j < i - 1 ==> !is_faulty(place_of(at))(#[trigger] data[j]),
        decreases rows.len() - i,
    {
        match read_row(&rows[i], at) {
            Err(field) => {
                proof {
                    lemma_count_before(data, is_faulty(place_of(at)), i - 1);
                }
                return Err(TypingError::MalformedProfileRow { row: i, field });
            },
            Ok((st, alleles)) => {
                table.profiles.insert(st, alleles);
                proof {
                    assert(data.take(i as int).drop_last() =~= data.take(i - 1));
                }
            },
        }
        i += 1;
    }
    proof {
        lemma_count_before(data, is_faulty(place_of(at)), data.len() as int);
        assert(data.take(i - 1) =~= data);
    }
    Ok(table)
}

/// What loading makes of rows that the reader yielded before it stopped: a malformed
/// row among them is the fault; without one, the reader's own failure is, if it had one.
pub open spec fn is_read(
    got: Result<ProfileTable, TypingError>,
    rows: Seq<Seq<Seq<char>>>,
    failed: bool,
) -> bool {
    if loaded(rows) is Ok && failed {
        got matches Err(TypingError::UnreadableTable { .. })
    } else {
        is_loaded(got, loaded(rows))
    }
}

/// Loads a profile table from the bytes of a tab-separated file, whose first row is the
/// header. The rows are loaded as [`profiles_from_rows`] does, in the order in which the
/// reader yields them: text that it cannot take apart is reported as unreadable, unless a
/// malformed row came before.
pub fn read_profiles(data: &[u8]) -> (out: Result<ProfileTable, TypingError>)
    ensures
        is_read(out, tsv_rows(data@, false).0, tsv_rows(data@, false).1),
{
    let (rows, failure) = tsv_records(data, false);
    let loaded = profiles_from_rows(&rows);
    match (loaded, failure) {
        (Ok(_), Some(error)) => Err(
            TypingError::UnreadableTable { reason: csv_error_text(&error) },
        ),
        (loaded, _) => loaded,
    }
}

} // verus!
