//! The flat export: one delimited record per score, below a fixed header.
use vstd::prelude::*;
use vstd::string::*;

use crate::aggregate::ScoreError;
use crate::model::Category;
use crate::text::{short_decimal, short_decimal_text, signed_decimal, signed_decimal_text};

verus! {

/// A `csv::Writer` over an in-memory buffer. Verus cannot declare the
/// writer type itself (its parameter is bound by `std::io::Write`), so it is
/// held here, opaque, and read only through the functions below.
#[verifier::external_body]
pub struct CsvBuffer {
    writer: csv::Writer<Vec<u8>>,
}

#[verifier::external_type_specification]
#[verifier::external_body]
pub struct ExCsvError(csv::Error);

/// The records that a CSV writer has accepted so far, field by field.
pub uninterp spec fn csv_records_written(w: CsvBuffer) -> Seq<Seq<Seq<char>>>;

/// The bytes that the CSV writer's default configuration produces for a
/// sequence of records.
pub uninterp spec fn csv_text(records: Seq<Seq<Seq<char>>>) -> Seq<u8>;

/// Relies on `csv::Writer::from_writer`: a writer over a new buffer, with no
/// record written yet.
#[verifier::external_body]
fn new_csv_writer() -> (w: CsvBuffer)
    ensures
        csv_records_written(w) == Seq::<Seq<Seq<char>>>::empty(),
{
    CsvBuffer { writer: csv::Writer::from_writer(Vec::new()) }
}

/// Relies on `csv::Writer::write_record`: the record is added after those
/// written before. The writer is not flexible by default, so a record whose
/// field count differs from the first record's would fail after its fields
/// were already buffered; such a record is ruled out here. Writing into a
/// `Vec` cannot fail, so every admitted call succeeds.
#[verifier::external_body]
fn csv_write_record(w: &mut CsvBuffer, record: &Vec<String>) -> (r: Result<(), csv::Error>)
    requires
        csv_records_written(*old(w)).len() == 0 || record@.len() == csv_records_written(
            *old(w),
        )[0].len(),
    ensures
        r is Ok,
        csv_records_written(*final(w)) == csv_records_written(*old(w)).push(
            record@.map_values(|f: String| f@),
        ),
{
    w.writer.write_record(record)
}

/// Relies on `csv::Writer::into_inner`: it flushes and returns the buffer,
/// which then holds the encoding of the records written. Flushing into a
/// `Vec` cannot fail.
#[verifier::external_body]
fn csv_into_bytes(w: CsvBuffer) -> (r: Result<Vec<u8>, csv::Error>)
    ensures
        r is Ok,
        r->Ok_0@ == csv_text(csv_records_written(w)),
{
    match w.writer.into_inner() {
        Ok(bytes) => Ok(bytes),
        Err(e) => Err(csv::Error::from(e.into_error())),
    }
}

/// A criterion's id and name.
#[derive(Debug, Clone)]
pub struct CriteriaIdName {
    pub id: u128,
    pub name: String,
}

/// A score joined with the names around it. `weight_ppm` is the category
/// weight in millionths.
#[derive(Debug, Clone)]
pub struct CriteriaScore {
    pub score: i32,
    pub judge_name: String,
    pub candidate_first_name: String,
    pub candidate_middle_name: String,
    pub candidate_last_name: String,
    pub weight_ppm: u32,
    pub max: i32,
    pub event_name: String,
}

/// A criterion with its scores, in the order the store returned them.
#[derive(Debug, Clone)]
pub struct CriterionScores {
    pub criteria: CriteriaIdName,
    pub scores: Vec<CriteriaScore>,
}

/// A category with its criteria.
#[derive(Debug, Clone)]
pub struct CategoryScores {
    pub category: Category,
    pub criterias: Vec<CriterionScores>,
}

/// The header record of the export.
pub open spec fn header_record() -> Seq<Seq<char>> {
    seq![
        "Event"@,
        "Category"@,
        "Criteria"@,
        "Candidate First Name"@,
        "Candidate Middle Name"@,
        "Candidate Last Name"@,
        "Judge"@,
        "Score"@,
        "Max"@,
        "Weight"@,
    ]
}

/// The record written for one score.
pub open spec fn score_record(cat: Category, crit: CriteriaIdName, s: CriteriaScore) -> Seq<Seq<char>> {
    seq![
        s.event_name@,
        cat.name@,
        crit.name@,
        s.candidate_first_name@,
        s.candidate_middle_name@,
        s.candidate_last_name@,
        s.judge_name@,
        signed_decimal(s.score as int),
        signed_decimal(s.max as int),
        short_decimal(s.weight_ppm as nat, 6),
    ]
}

/// The records of one criterion's scores, in order.
pub open spec fn criterion_records(cat: Category, crit: CriteriaIdName, scores: Seq<CriteriaScore>) -> Seq<Seq<Seq<char>>> {
    scores.map_values(|s: CriteriaScore| score_record(cat, crit, s))
}

/// The records of a category's criteria, criterion after criterion.
pub open spec fn category_records(cat: Category, crits: Seq<CriterionScores>) -> Seq<Seq<Seq<char>>>
    decreases crits.len(),
{
    if crits.len() == 0 {
        seq![]
    } else {
        category_records(cat, crits.drop_last()) + criterion_records(
            cat,
            crits.last().criteria,
            crits.last().scores@,
        )
    }
}

/// The records of all categories, category after category.
pub open spec fn flat_records(cats: Seq<CategoryScores>) -> Seq<Seq<Seq<char>>>
    decreases cats.len(),
{
    if cats.len() == 0 {
        seq![]
    } else {
        flat_records(cats.drop_last()) + category_records(cats.last().category, cats.last().criterias@)
    }
}

fn header_fields() -> (r: Vec<String>)
    ensures
        r@.map_values(|f: String| f@) == header_record(),
        r@.len() == 10,
{
    let r = vec![
        String::from_str("Event"),
        String::from_str("Category"),
        String::from_str("Criteria"),
        String::from_str("Candidate First Name"),
        String::from_str("Candidate Middle Name"),
        String::from_str("Candidate Last Name"),
        String::from_str("Judge"),
        String::from_str("Score"),
        String::from_str("Max"),
        String::from_str("Weight"),
    ];
    assert(r@.map_values(|f: String| f@) =~= header_record());
    r
}

fn score_fields(cat: &Category, crit: &CriteriaIdName, s: &CriteriaScore) -> (r: Vec<String>)
    ensures
        r@.map_values(|f: String| f@) == score_record(*cat, *crit, *s),
        r@.len() == 10,
{
    let r = vec![
        s.event_name.clone(),
        cat.name.clone(),
        crit.name.clone(),
        s.candidate_first_name.clone(),
        s.candidate_middle_name.clone(),
        s.candidate_last_name.clone(),
        s.judge_name.clone(),
        signed_decimal_text(s.score as i64),
        signed_decimal_text(s.max as i64),
        short_decimal_text(s.weight_ppm as u128, 6),
    ];
    assert(r@.map_values(|f: String| f@) =~= score_record(*cat, *crit, *s));
    r
}

fn write_failure() -> (e: ScoreError)
    ensures
        e is RenderFailure,
{
    ScoreError::RenderFailure(String::from_str("failed to write the CSV export"))
}

/// Writes the header and then one record per score, categories in order,
/// within each its criteria in order, within each its scores in order.
/// Every record has the header's ten fields, so writing always succeeds.
pub fn generate_csv(categories: &Vec<CategoryScores>) -> (r: Result<Vec<u8>, ScoreError>)
    ensures
        r is Ok,
        r->Ok_0@ == csv_text(seq![header_record()] + flat_records(categories@)),
{
    let mut w = new_csv_writer();
    let header = header_fields();
    match csv_write_record(&mut w, &header) {
        Ok(()) => {},
        Err(_) => {
            return Err(write_failure());
        },
    }
    let ghost cats = categories@;
    let mut i: usize = 0;
    assert(seq![header_record()] + flat_records(cats.take(0)) =~= Seq::<Seq<Seq<char>>>::empty().push(header_record()));
    while i < categories.len()
        invariant
            cats == categories@,
            i <= cats.len(),
            csv_records_written(w) == seq![header_record()] + flat_records(cats.take(i as int)),
        decreases cats.len() - i,
    {
        let cs = &categories[i];
        let ghost crits = cs.criterias@;
        let mut j: usize = 0;
        assert(category_records(cs.category, crits.take(0)) =~= Seq::<Seq<Seq<char>>>::empty());
        while j < cs.criterias.len()
            invariant
                cats == categories@,
                i < cats.len(),
                *cs == cats[i as int],
                crits == cs.criterias@,
                j <= crits.len(),
                csv_records_written(w) == seq![header_record()] + flat_records(cats.take(i as int))
                    + category_records(cs.category, crits.take(j as int)),
            decreases crits.len() - j,
        {
            let crit = &cs.criterias[j];
            let ghost scores = crit.scores@;
            let ghost before = seq![header_record()] + flat_records(cats.take(i as int))
                + category_records(cs.category, crits.take(j as int));
            let mut k: usize = 0;
            let ghost lead = seq![header_record()] + flat_records(cats.take(i as int));
            assert(lead[0] == header_record());
            assert(before[0] == header_record()) by {
                assert(before == lead + category_records(cs.category, crits.take(j as int)));
            }
            assert(before + criterion_records(cs.category, crit.criteria, scores.take(0)) =~= before);
            while k < crit.scores.len()
                invariant
                    *crit == crits[j as int],
                    scores == crit.scores@,
                    k <= scores.len(),
                    before.len() >= 1,
                    before[0] == header_record(),
                    csv_records_written(w) == before + criterion_records(
                        cs.category,
                        crit.criteria,
                        scores.take(k as int),
                    ),
                decreases scores.len() - k,
            {
                let fields = score_fields(&cs.category, &crit.criteria, &crit.scores[k]);
                assert(csv_records_written(w)[0] == header_record()) by {
                    assert(csv_records_written(w) == before + criterion_records(
                        cs.category,
                        crit.criteria,
                        scores.take(k as int),
                    ));
                }
                match csv_write_record(&mut w, &fields) {
                    Ok(()) => {},
                    Err(_) => {
                        return Err(write_failure());
                    },
                }
                assert(criterion_records(cs.category, crit.criteria, scores.take(k + 1))
                    =~= criterion_records(cs.category, crit.criteria, scores.take(k as int)).push(
                    score_record(cs.category, crit.criteria, scores[k as int]),
                ));
                assert(before + criterion_records(cs.category, crit.criteria, scores.take(k + 1))
                    =~= (before + criterion_records(cs.category, crit.criteria, scores.take(k as int))).push(
                    score_record(cs.category, crit.criteria, scores[k as int]),
                ));
                k = k + 1;
            }
            assert(scores.take(k as int) =~= scores);
            assert(crits.take(j + 1).drop_last() =~= crits.take(j as int));
            assert(category_records(cs.category, crits.take(j + 1)) == category_records(
                cs.category,
                crits.take(j as int),
            ) + criterion_records(cs.category, crit.criteria, scores));
            assert(before + criterion_records(cs.category, crit.criteria, scores) =~= seq![header_record()]
                + flat_records(cats.take(i as int)) + category_records(cs.category, crits.take(j + 1)));
            j = j + 1;
        }
        assert(crits.take(j as int) =~= crits);
        assert(cats.take(i + 1).drop_last() =~= cats.take(i as int));
        assert(seq![header_record()] + flat_records(cats.take(i as int)) + category_records(
            cs.category,
            crits,
        ) =~= seq![header_record()] + flat_records(cats.take(i + 1)));
        i = i + 1;
    }
    assert(cats.take(i as int) =~= cats);
    match csv_into_bytes(w) {
        Ok(bytes) => Ok(bytes),
        Err(_) => Err(write_failure()),
    }
}

/// The number of scores under `cats`.
pub open spec fn score_row_count(cats: Seq<CategoryScores>) -> nat
    decreases cats.len(),
{
    if cats.len() == 0 {
        0
    } else {
        score_row_count(cats.drop_last()) + criteria_score_count(cats.last().criterias@)
    }
}

/// The number of scores under `crits`.
pub open spec fn criteria_score_count(crits: Seq<CriterionScores>) -> nat
    decreases crits.len(),
{
    if crits.len() == 0 {
        0
    } else {
        criteria_score_count(crits.drop_last()) + crits.last().scores@.len()
    }
}

proof fn lemma_category_record_count(cat: Category, crits: Seq<CriterionScores>)
    ensures
        category_records(cat, crits).len() == criteria_score_count(crits),
    decreases crits.len(),
{
    if crits.len() > 0 {
        lemma_category_record_count(cat, crits.drop_last());
    }
}

/// The export has exactly one record per score, after a header of ten
/// named columns.
pub proof fn lemma_one_record_per_score(cats: Seq<CategoryScores>)
    ensures
        flat_records(cats).len() == score_row_count(cats),
        (seq![header_record()] + flat_records(cats)).len() == 1 + score_row_count(cats),
        header_record().len() == 10,
    decreases cats.len(),
{
    if cats.len() > 0 {
        lemma_one_record_per_score(cats.drop_last());
        lemma_category_record_count(cats.last().category, cats.last().criterias@);
    }
}

} // verus!
