//! Allele calling: from the hit records of a sample to one allele per locus.

use crate::error::TypingError;
use crate::table::{csv_error_text, tsv_records, tsv_rows};
use crate::text::{
    count_before, identifier_parts, lemma_count_before, number, parse_u16, parse_u32,
    split_identifier, trim, trimmed,
};
use vstd::prelude::*;

verus! {

/// One piece of evidence: an alignment of the sample to allele `allele` of `locus`.
#[derive(Debug, Clone, PartialEq, Eq)]
pub struct Hit {
    pub locus: String,
    pub allele: u16,
    pub score: u32,
}

/// The allele that a sample is taken to carry at a locus.
#[derive(Debug, Clone, PartialEq, Eq)]
pub struct AlleleCall {
    pub locus: String,
    pub allele: u16,
}

impl View for Hit {
    type V = (Seq<char>, u16, u32);

    /// The locus, the allele and the score.
    open spec fn view(&self) -> (Seq<char>, u16, u32) {
        (self.locus@, self.allele, self.score)
    }
}

impl DeepView for Hit {
    type V = (Seq<char>, u16, u32);

    open spec fn deep_view(&self) -> (Seq<char>, u16, u32) {
        self@
    }
}

impl View for AlleleCall {
    type V = (Seq<char>, u16);

    /// The locus and the allele.
    open spec fn view(&self) -> (Seq<char>, u16) {
        (self.locus@, self.allele)
    }
}

impl DeepView for AlleleCall {
    type V = (Seq<char>, u16);

    open spec fn deep_view(&self) -> (Seq<char>, u16) {
        self@
    }
}

/// The allele and the score kept for `locus` once `hits` have been read in order: a hit
/// takes the place of the one kept only if its score is strictly greater, so that of
/// several hits with the highest score the first one stays.
pub open spec fn retained(hits: Seq<(Seq<char>, u16, u32)>, locus: Seq<char>) -> Option<(u16, u32)>
    decreases hits.len(),
{
    if hits.len() == 0 {
        None
    } else {
        let kept = retained(hits.drop_last(), locus);
        let hit = hits.last();
        if hit.0 != locus || (kept is Some && hit.2 <= kept.unwrap().1) {
            kept
        } else {
            Some((hit.1, hit.2))
        }
    }
}

/// The calls for the loci of `schema`, in its order; a locus without any hit has none.
pub open spec fn calls_in_order(
    schema: Seq<Seq<char>>,
    hits: Seq<(Seq<char>, u16, u32)>,
) -> Seq<(Seq<char>, u16)>
    decreases schema.len(),
{
    if schema.len() == 0 {
        Seq::empty()
    } else {
        let calls = calls_in_order(schema.drop_last(), hits);
        match retained(hits, schema.last()) {
            Some((allele, _)) => calls.push((schema.last(), allele)),
            None => calls,
        }
    }
}

/// The field to report of a hit record that cannot be read: its first field where it has
/// fewer than two (nothing where it has none), its second one where that is no score,
/// its first one where that is no `locus-allele` with a number for the allele. The score
/// may have white space around it, the identifier may not. `None` for a sound record.
pub open spec fn hit_fault(row: Seq<Seq<char>>) -> Option<Seq<char>> {
    if row.len() == 0 {
        Some(Seq::empty())
    } else if row.len() == 1 {
        Some(row[0])
    } else if number(trimmed(row[1]), 0xffff_ffff) is None {
        Some(row[1])
    } else if identifier_parts(row[0]) is None || number(identifier_parts(row[0]).unwrap().1, 0xffff)
        is None {
        Some(row[0])
    } else {
        None
    }
}

/// Whether a hit record cannot be read.
pub open spec fn is_bad_hit() -> spec_fn(Seq<Seq<char>>) -> bool {
    |row: Seq<Seq<char>>| hit_fault(row) is Some
}

/// The hit that a sound record holds.
pub open spec fn hit_of() -> spec_fn(Seq<Seq<char>>) -> (Seq<char>, u16, u32) {
    |row: Seq<Seq<char>>|
        {
            let parts = identifier_parts(row[0]).unwrap();
            (
                parts.0,
                number(parts.1, 0xffff).unwrap() as u16,
                number(trimmed(row[1]), 0xffff_ffff).unwrap() as u32,
            )
        }
}

/// What allele calling makes of hit records for a locus schema: the ordered calls, or
/// the place, counted from 0, and the field of the first record that cannot be read.
pub open spec fn called(rows: Seq<Seq<Seq<char>>>, schema: Seq<Seq<char>>) -> Result<
    Seq<(Seq<char>, u16)>,
    (int, Seq<char>),
> {
    let bad = count_before(rows, is_bad_hit()) as int;
    if bad < rows.len() {
        Err((bad, hit_fault(rows[bad]).unwrap()))
    } else {
        Ok(calls_in_order(schema, rows.map_values(hit_of())))
    }
}

/// Whether `got` is what `want` describes.
pub open spec fn is_called(
    got: Result<Vec<AlleleCall>, TypingError>,
    want: Result<Seq<(Seq<char>, u16)>, (int, Seq<char>)>,
) -> bool {
    match (got, want) {
        (Ok(calls), Ok(list)) => calls.deep_view() == list,
        (Err(TypingError::MalformedHitRecord { row, field }), Err((at, text))) => row == at
            && field@ == text,
        _ => false,
    }
}

/// Reads one hit record, or gives the field that is at fault.
fn read_hit(row: &Vec<String>) -> (out: Result<Hit, String>)
    ensures
        match out {
            Ok(hit) => hit_fault(row.deep_view()) is None && hit@ == hit_of()(row.deep_view()),
            Err(field) => hit_fault(row.deep_view()) == Some(field@),
        },
{
    if row.len() == 0 {
        return Err(String::new());
    }
    if row.len() == 1 {
        return Err(row[0].clone());
    }
    let score = match parse_u32(trim(row[1].as_str()).as_str()) {
        None => {
            return Err(row[1].clone());
        },
        Some(score) => score,
    };
    let (locus, number_text) = match split_identifier(row[0].as_str()) {
        None => {
            return Err(row[0].clone());
        },
        Some(parts) => parts,
    };
    match parse_u16(number_text.as_str()) {
        None => Err(row[0].clone()),
        Some(allele) => Ok(Hit { locus, allele, score }),
    }
}

/// Reads every hit record, in order; the first one that cannot be read ends the reading.
pub fn hits_from_rows(rows: &Vec<Vec<String>>) -> (out: Result<Vec<Hit>, TypingError>)
    ensures
        match out {
            Ok(hits) => count_before(rows.deep_view(), is_bad_hit()) == rows.len()
                && hits.deep_view() == rows.deep_view().map_values(hit_of()),
            Err(error) => {
                let bad = count_before(rows.deep_view(), is_bad_hit()) as int;
                &&& bad < rows.len()
                &&& error matches TypingError::MalformedHitRecord { row, field }
                &&& row == bad
                &&& Some(field@) == hit_fault(rows.deep_view()[bad])
            },
        },
{
    let ghost text = rows.deep_view();
    let mut hits: Vec<Hit> = Vec::new();
    let mut i: usize = 0;
    while i < rows.len()
        invariant
            i <= rows.len(),
            text == rows.deep_view(),
            hits@.len() == i,
            forall|j: int| 0 <= j < i ==> !is_bad_hit()(#[trigger] text[j]),
            forall|j: int| 0 <= j < i ==> (#[trigger] hits@[j])@ == hit_of()(text[j]),
        decreases rows.len() - i,
    {
        match read_hit(&rows[i]) {
            Err(field) => {
                proof {
                    lemma_count_before(text, is_bad_hit(), i as int);
                }
                return Err(TypingError::MalformedHitRecord { row: i, field });
            },
            Ok(hit) => {
                hits.push(hit);
            },
        }
        i += 1;
    }
    proof {
        lemma_count_before(text, is_bad_hit(), i as int);
    }
    Ok(hits)
}

/// The allele called for `locus` on the evidence of `hits`, if any of them is for it.
pub fn best_allele(hits: &Vec<Hit>, locus: &String) -> (out: Option<u16>)
    ensures
        out == match retained(hits.deep_view(), locus@) {
            Some((allele, _)) => Some(allele),
            None => None,
        },
{
    let ghost all = hits.deep_view();
    let mut kept: Option<(u16, u32)> = None;
    let mut i: usize = 0;
    while i < hits.len()
        invariant
            i <= hits.len(),
            all == hits.deep_view(),
            kept == retained(all.take(i as int), locus@),
        decreases hits.len() - i,
    {
        proof {
            assert(all.take(i + 1).drop_last() =~= all.take(i as int));
        }
        let hit = &hits[i];
        if hit.locus == *locus {
            kept = match kept {
                Some((allele, score)) => if hit.score <= score {
                    Some((allele, score))
                } else {
                    Some((hit.allele, hit.score))
                },
                None => Some((hit.allele, hit.score)),
            };
        }
        i += 1;
    }
    assert(all.take(i as int) =~= all);
    match kept {
        Some((allele, _)) => Some(allele),
        None => None,
    }
}

/// The calls for the loci of `schema`, in its order, on the evidence of `hits`: a locus
/// that no hit is for is left out, and hits for other loci are passed over.
pub fn ordered_calls(schema: &Vec<String>, hits: &Vec<Hit>) -> (calls: Vec<AlleleCall>)
    ensures
        calls.deep_view() == calls_in_order(schema.deep_view(), hits.deep_view()),
{
    let ghost loci = schema.deep_view();
    let mut calls: Vec<AlleleCall> = Vec::new();
    let mut i: usize = 0;
    while i < schema.len()
        invariant
            i <= schema.len(),
            loci == schema.deep_view(),
            calls.deep_view() == calls_in_order(loci.take(i as int), hits.deep_view()),
        decreases schema.len() - i,
    {
        proof {
            assert(loci.take(i + 1).drop_last() =~= loci.take(i as int));
        }
        match best_allele(hits, &schema[i]) {
            Some(allele) => {
                let call = AlleleCall { locus: schema[i].clone(), allele };
                calls.push(call);
            },
            None => {},
        }
        i += 1;
    }
    assert(loci.take(i as int) =~= loci);
    calls
}

/// Calls the alleles of a sample from its hit records, for the loci of `schema`.
pub fn calls_from_rows(rows: &Vec<Vec<String>>, schema: &Vec<String>) -> (out: Result<
    Vec<AlleleCall>,
    TypingError,
>)
    ensures
        is_called(out, called(rows.deep_view(), schema.deep_view())),
{
    match hits_from_rows(rows) {
        Ok(hits) => Ok(ordered_calls(schema, &hits)),
        Err(error) => Err(error),
    }
}

/// What allele calling makes of records that the reader yielded before it stopped: a
/// record among them that cannot be read is the fault; without one, the reader's own
/// failure is, if it had one.
pub open spec fn is_called_from(
    got: Result<Vec<AlleleCall>, TypingError>,
    rows: Seq<Seq<Seq<char>>>,
    failed: bool,
    schema: Seq<Seq<char>>,
) -> bool {
    if called(rows, schema) is Ok && failed {
        got matches Err(TypingError::UnreadableTable { .. })
    } else {
        is_called(got, called(rows, schema))
    }
}

/// Calls the alleles of a sample from the bytes of its tab-separated hit file, whose first
/// row is a header and is passed over, for the loci `h`. The records are read as
/// [`calls_from_rows`] does, in the order in which the reader yields them: text that it
/// cannot take apart is reported as unreadable, unless a record that cannot be read came
/// before.
pub fn parse_res(data: &[u8], h: &Vec<String>) -> (out: Result<Vec<AlleleCall>, TypingError>)
    ensures
        is_called_from(out, tsv_rows(data@, true).0, tsv_rows(data@, true).1, h.deep_view()),
{
    let (rows, failure) = tsv_records(data, true);
    let calls = calls_from_rows(&rows, h);
    match (calls, failure) {
        (Ok(_), Some(error)) => Err(
            TypingError::UnreadableTable { reason: csv_error_text(&error) },
        ),
        (calls, _) => calls,
    }
}

} // verus!
