//! The audit report: one block per category, laid out row by row as a
//! spreadsheet grid, with per-judge subtotals and derived averages.
use vstd::prelude::*;
use vstd::string::*;

use crate::aggregate::ScoreError;
use crate::model::{Candidate, Category, Judge, Score};
use crate::text::{
    candidate_display_name, display_name, round_div, short_decimal, short_decimal_text,
    two_decimals, two_decimals_text,
};

verus! {

/// How many rows after the last row of a block the next block's title row
/// comes.
pub const BLOCK_GAP: usize = 5;

/// What a grid cell shows.
pub enum CellView {
    /// The category title, merged over the first seven columns.
    Heading(Seq<char>),
    /// A bold column title.
    Label(Seq<char>),
    Text(Seq<char>),
    Number(int),
    /// Nothing is written.
    Blank,
}

/// A cell of the report grid.
#[derive(Debug, Clone, PartialEq, Eq)]
pub enum Cell {
    Heading(String),
    Label(String),
    Text(String),
    Number(i128),
    Blank,
}

impl View for Cell {
    type V = CellView;

    open spec fn view(&self) -> CellView {
        match self {
            Cell::Heading(s) => CellView::Heading(s@),
            Cell::Label(s) => CellView::Label(s@),
            Cell::Text(s) => CellView::Text(s@),
            Cell::Number(n) => CellView::Number(*n as int),
            Cell::Blank => CellView::Blank,
        }
    }
}

/// A column width, in the spreadsheet's character units.
#[derive(Debug, Clone, Copy, PartialEq, Eq)]
pub struct ColumnWidth {
    pub column: u128,
    pub width: u16,
}

/// The laid-out report: `rows[r][c]` is the cell at row `r`, column `c`;
/// the widths are to be applied in order, a later one replacing an earlier
/// one for the same column.
#[derive(Debug, Clone)]
pub struct SheetGrid {
    pub rows: Vec<Vec<Cell>>,
    pub column_widths: Vec<ColumnWidth>,
}

pub open spec fn row_view(r: Vec<Cell>) -> Seq<CellView> {
    r@.map_values(|c: Cell| c@)
}

pub open spec fn rows_view(rows: Seq<Vec<Cell>>) -> Seq<Seq<CellView>> {
    rows.map_values(|r: Vec<Cell>| row_view(r))
}

/// Scores as the store guarantees them: `0 <= score <= max`.
pub open spec fn valid_scores(scores: Seq<Score>) -> bool {
    forall|i: int| 0 <= i < scores.len() ==> 0 <= #[trigger] scores[i].score <= scores[i].max
}

/// The judges of an event that are active, in the given order.
pub open spec fn active_judges(judges: Seq<Judge>, event_id: u128) -> Seq<Judge>
    decreases judges.len(),
{
    if judges.len() == 0 {
        seq![]
    } else {
        let j = judges.last();
        active_judges(judges.drop_last(), event_id) + if j.is_active && j.event_id == event_id {
            seq![j]
        } else {
            seq![]
        }
    }
}

/// The candidates of the male block (`male`) or of the female block, in the
/// given order.
pub open spec fn block_candidates(cands: Seq<Candidate>, male: bool) -> Seq<Candidate>
    decreases cands.len(),
{
    if cands.len() == 0 {
        seq![]
    } else {
        block_candidates(cands.drop_last(), male) + if (cands.last().gender == 1) == male {
            seq![cands.last()]
        } else {
            seq![]
        }
    }
}

/// Within each gender block, candidates come by ascending candidate number,
/// as the store lists them.
pub open spec fn numbered_in_order(cands: Seq<Candidate>) -> bool {
    forall|a: int, b: int|
        0 <= a < b < cands.len() && ((#[trigger] cands[a]).gender == 1) == ((#[trigger] cands[b]).gender
            == 1) ==> cands[a].candidate_number <= cands[b].candidate_number
}

/// The sum of a judge's scores for a candidate within a category.
pub open spec fn judge_subtotal(scores: Seq<Score>, cand: u128, cat: u128, judge: u128) -> int
    decreases scores.len(),
{
    if scores.len() == 0 {
        0
    } else {
        let s = scores.last();
        judge_subtotal(scores.drop_last(), cand, cat, judge) + if s.candidate_id == cand
            && s.category_id == cat && s.judge_id == judge {
            s.score as int
        } else {
            0
        }
    }
}

/// The sum of the judges' subtotals for a candidate within a category.
pub open spec fn judges_total(scores: Seq<Score>, cand: u128, cat: u128, judges: Seq<Judge>) -> int
    decreases judges.len(),
{
    if judges.len() == 0 {
        0
    } else {
        judges_total(scores, cand, cat, judges.drop_last()) + judge_subtotal(
            scores,
            cand,
            cat,
            judges.last().id,
        )
    }
}

/// The average and weighted-average cells: `total / n` and
/// `total / n * weight`, both with two decimals; blank without judges.
pub open spec fn derived_cells(total: int, n: nat, weight_ppm: u32) -> Seq<CellView> {
    if n == 0 {
        seq![CellView::Blank, CellView::Blank]
    } else {
        seq![
            CellView::Text(two_decimals(round_div((total * 100) as nat, n))),
            CellView::Text(two_decimals(round_div((total * weight_ppm) as nat, n * 10000))),
        ]
    }
}

/// A candidate's row within a category block.
pub open spec fn candidate_row(c: Candidate, cat: Category, judges: Seq<Judge>, scores: Seq<Score>) -> Seq<CellView> {
    seq![
        CellView::Number(c.candidate_number as int),
        CellView::Text(display_name(c.first_name@, c.middle_name@, c.last_name@)),
    ] + judges.map_values(|j: Judge| CellView::Number(judge_subtotal(scores, c.id, cat.id, j.id)))
        + derived_cells(judges_total(scores, c.id, cat.id, judges), judges.len(), cat.weight_ppm)
}

/// The rows of one gender block.
pub open spec fn block_rows(
    cands: Seq<Candidate>,
    male: bool,
    cat: Category,
    judges: Seq<Judge>,
    scores: Seq<Score>,
) -> Seq<Seq<CellView>> {
    block_candidates(cands, male).map_values(|c: Candidate| candidate_row(c, cat, judges, scores))
}

/// The weight as a percentage: 600000 millionths is "60%".
pub open spec fn percent_label(weight_ppm: u32) -> Seq<char> {
    short_decimal(weight_ppm as nat, 4) + seq!['%']
}

/// The column titles of a block.
pub open spec fn column_header(cat: Category, judges: Seq<Judge>) -> Seq<CellView> {
    seq![CellView::Label("Candidate #"@), CellView::Label("Name"@)] + judges.map_values(
        |j: Judge| CellView::Label(j.name@),
    ) + seq![CellView::Label("Average Score"@), CellView::Label(percent_label(cat.weight_ppm))]
}

/// The rows of one category block, from its title to its last candidate.
pub open spec fn category_block(
    cat: Category,
    judges: Seq<Judge>,
    cands: Seq<Candidate>,
    scores: Seq<Score>,
) -> Seq<Seq<CellView>> {
    let js = active_judges(judges, cat.event_id);
    seq![seq![CellView::Heading(cat.name@)], column_header(cat, js), seq![CellView::Text("MALE"@)]]
        + block_rows(cands, true, cat, js, scores) + seq![seq![CellView::Text("FEMALE"@)]]
        + block_rows(cands, false, cat, js, scores)
}

/// The empty rows after a block.
pub open spec fn gap_rows() -> Seq<Seq<CellView>> {
    Seq::new((BLOCK_GAP - 1) as nat, |i: int| Seq::<CellView>::empty())
}

/// The whole grid: the category blocks one below the other.
pub open spec fn grid_rows(
    cats: Seq<Category>,
    judges: Seq<Judge>,
    cands: Seq<Candidate>,
    scores: Seq<Score>,
) -> Seq<Seq<CellView>>
    decreases cats.len(),
{
    if cats.len() == 0 {
        seq![]
    } else {
        grid_rows(cats.drop_last(), judges, cands, scores) + category_block(
            cats.last(),
            judges,
            cands,
            scores,
        ) + gap_rows()
    }
}

/// The widths set for a block with `n` judge columns.
pub open spec fn block_widths(n: nat) -> Seq<ColumnWidth> {
    Seq::new(n, |k: int| ColumnWidth { column: (2 + k) as u128, width: 30 }) + seq![
        ColumnWidth { column: (2 + n) as u128, width: 20 },
        ColumnWidth { column: (3 + n) as u128, width: 15 },
    ]
}

/// The width settings of the whole grid, in order.
pub open spec fn grid_widths(cats: Seq<Category>, judges: Seq<Judge>) -> Seq<ColumnWidth>
    decreases cats.len(),
{
    if cats.len() == 0 {
        seq![ColumnWidth { column: 0, width: 15 }, ColumnWidth { column: 1, width: 30 }]
    } else {
        grid_widths(cats.drop_last(), judges) + block_widths(
            active_judges(judges, cats.last().event_id).len(),
        )
    }
}

/// Some candidate's total in some category does not fit in `u64`.
pub open spec fn total_overflows(
    cats: Seq<Category>,
    judges: Seq<Judge>,
    cands: Seq<Candidate>,
    scores: Seq<Score>,
    id: u128,
) -> bool {
    exists|a: int, b: int|
        0 <= a < cats.len() && 0 <= b < cands.len() && (#[trigger] cands[b]).id == id
            && judges_total(
            scores,
            id,
            (#[trigger] cats[a]).id,
            active_judges(judges, cats[a].event_id),
        ) > u64::MAX
}

proof fn lemma_subtotal_bounds(scores: Seq<Score>, cand: u128, cat: u128, judge: u128)
    requires
        valid_scores(scores),
    ensures
        0 <= judge_subtotal(scores, cand, cat, judge) <= scores.len() * (i32::MAX as int),
    decreases scores.len(),
{
    if scores.len() > 0 {
        assert(valid_scores(scores.drop_last())) by {
            assert forall|i: int| 0 <= i < scores.drop_last().len() implies 0
                <= #[trigger] scores.drop_last()[i].score <= scores.drop_last()[i].max by {
                assert(scores.drop_last()[i] == scores[i]);
            }
        }
        lemma_subtotal_bounds(scores.drop_last(), cand, cat, judge);
        assert(0 <= scores[scores.len() - 1].score);
    }
}

proof fn lemma_total_grows(scores: Seq<Score>, cand: u128, cat: u128, judges: Seq<Judge>, j: int)
    requires
        valid_scores(scores),
        0 <= j <= judges.len(),
    ensures
        0 <= judges_total(scores, cand, cat, judges.take(j)) <= judges_total(scores, cand, cat, judges),
    decreases judges.len(),
{
    if j < judges.len() {
        assert(judges.drop_last().take(j) =~= judges.take(j));
        lemma_total_grows(scores, cand, cat, judges.drop_last(), j);
        lemma_subtotal_bounds(scores, cand, cat, judges.last().id);
    } else {
        assert(judges.take(j) =~= judges);
        if j > 0 {
            lemma_total_grows(scores, cand, cat, judges.drop_last(), j - 1);
            assert(judges.drop_last().take(j - 1) =~= judges.drop_last());
            lemma_subtotal_bounds(scores, cand, cat, judges.last().id);
        }
    }
}

/// The sum of a judge's scores for a candidate within a category.
fn judge_subtotal_exec(scores: &Vec<Score>, cand: u128, cat: u128, judge: u128) -> (r: u128)
    requires
        valid_scores(scores@),
    ensures
        r as int == judge_subtotal(scores@, cand, cat, judge),
        r <= usize::MAX as int * (i32::MAX as int),
{
    let mut acc: u128 = 0;
    let mut i: usize = 0;
    while i < scores.len()
        invariant
            i <= scores@.len(),
            valid_scores(scores@),
            acc as int == judge_subtotal(scores@.take(i as int), cand, cat, judge),
            acc <= i as int * (i32::MAX as int),
        decreases scores@.len() - i,
    {
        let s = scores[i];
        assert(scores@.take(i + 1).drop_last() =~= scores@.take(i as int));
        assert(0 <= scores@[i as int].score);
        if s.candidate_id == cand && s.category_id == cat && s.judge_id == judge {
            acc = acc + s.score as u128;
        }
        i = i + 1;
    }
    assert(scores@.take(i as int) =~= scores@);
    assert(acc <= usize::MAX as int * (i32::MAX as int)) by (nonlinear_arith)
        requires
            acc <= i as int * (i32::MAX as int),
            i <= usize::MAX,
    ;
    acc
}

/// The judges of `judges` that are active in the event, as indices.
fn active_judge_indices(judges: &Vec<Judge>, event_id: u128) -> (r: Vec<usize>)
    ensures
        forall|k: int| 0 <= k < r@.len() ==> r@[k] < judges@.len(),
        r@.map_values(|i: usize| judges@[i as int]) == active_judges(judges@, event_id),
{
    let mut r: Vec<usize> = Vec::new();
    let mut i: usize = 0;
    while i < judges.len()
        invariant
            i <= judges@.len(),
            forall|k: int| 0 <= k < r@.len() ==> r@[k] < judges@.len(),
            r@.map_values(|i: usize| judges@[i as int]) == active_judges(judges@.take(i as int), event_id),
        decreases judges@.len() - i,
    {
        assert(judges@.take(i + 1).drop_last() =~= judges@.take(i as int));
        let ghost before = r@;
        if judges[i].is_active && judges[i].event_id == event_id {
            r.push(i);
            assert(r@.map_values(|i: usize| judges@[i as int]) =~= before.map_values(
                |i: usize| judges@[i as int],
            ).push(judges@[i as int]));
        }
        i = i + 1;
    }
    assert(judges@.take(i as int) =~= judges@);
    r
}

fn percent_label_text(weight_ppm: u32) -> (r: String)
    ensures
        r@ == percent_label(weight_ppm),
{
    let mut s = short_decimal_text(weight_ppm as u128, 4);
    s.append("%");
    proof {
        reveal_strlit("%");
    }
    assert(s@ =~= percent_label(weight_ppm));
    s
}

fn text_cell(s: &str) -> (c: Cell)
    ensures
        c@ == CellView::Text(s@),
{
    Cell::Text(String::from_str(s))
}

fn label_cell(s: &str) -> (c: Cell)
    ensures
        c@ == CellView::Label(s@),
{
    Cell::Label(String::from_str(s))
}

/// The row of one candidate, or the candidate's id when the total of its
/// subtotals does not fit in `u64`.
fn candidate_cells(
    c: &Candidate,
    cat: &Category,
    judges: &Vec<Judge>,
    active: &Vec<usize>,
    scores: &Vec<Score>,
) -> (r: Result<Vec<Cell>, u128>)
    requires
        valid_scores(scores@),
        forall|k: int| 0 <= k < active@.len() ==> active@[k] < judges@.len(),
    ensures
        ({
            let js = active@.map_values(|i: usize| judges@[i as int]);
            let total = judges_total(scores@, c.id, cat.id, js);
            match r {
                Ok(v) => total <= u64::MAX && row_view(v) == candidate_row(*c, *cat, js, scores@),
                Err(id) => id == c.id && total > u64::MAX,
            }
        }),
{
    let ghost js = active@.map_values(|i: usize| judges@[i as int]);
    let mut row: Vec<Cell> = Vec::new();
    row.push(Cell::Number(c.candidate_number as i128));
    row.push(Cell::Text(candidate_display_name(&c.first_name, &c.middle_name, &c.last_name)));
    let ghost prefix = row_view(row);
    assert(prefix =~= seq![
        CellView::Number(c.candidate_number as int),
        CellView::Text(display_name(c.first_name@, c.middle_name@, c.last_name@)),
    ]);
    let mut total: u128 = 0;
    let mut k: usize = 0;
    while k < active.len()
        invariant
            k <= active@.len(),
            js == active@.map_values(|i: usize| judges@[i as int]),
            forall|q: int| 0 <= q < active@.len() ==> active@[q] < judges@.len(),
            valid_scores(scores@),
            prefix.len() == 2,
            row_view(row) == prefix + js.take(k as int).map_values(
                |j: Judge| CellView::Number(judge_subtotal(scores@, c.id, cat.id, j.id)),
            ),
            total as int == judges_total(scores@, c.id, cat.id, js.take(k as int)),
            total <= u64::MAX,
        decreases active@.len() - k,
    {
        let judge = &judges[active[k]];
        assert(js[k as int] == *judge);
        let sub = judge_subtotal_exec(scores, c.id, cat.id, judge.id);
        proof {
            lemma_subtotal_bounds(scores@, c.id, cat.id, judge.id);
        }
        assert(js.take(k + 1).drop_last() =~= js.take(k as int));
        if total + sub > u64::MAX as u128 {
            proof {
                lemma_total_grows(scores@, c.id, cat.id, js, k + 1);
            }
            return Err(c.id);
        }
        total = total + sub;
        let ghost old_row = row_view(row);
        row.push(Cell::Number(sub as i128));
        assert(row_view(row) =~= old_row.push(CellView::Number(sub as int)));
        assert(js.take(k + 1).map_values(
            |j: Judge| CellView::Number(judge_subtotal(scores@, c.id, cat.id, j.id)),
        ) =~= js.take(k as int).map_values(
            |j: Judge| CellView::Number(judge_subtotal(scores@, c.id, cat.id, j.id)),
        ).push(CellView::Number(sub as int)));
        k = k + 1;
    }
    assert(js.take(k as int) =~= js);
    let n = active.len() as u128;
    let ghost mid = row_view(row);
    if n == 0 {
        row.push(Cell::Blank);
        row.push(Cell::Blank);
        assert(row_view(row) =~= mid + derived_cells(total as int, 0, cat.weight_ppm));
    } else {
        let avg = (2 * (total * 100) + n) / (2 * n);
        assert(total * cat.weight_ppm <= u64::MAX as int * u32::MAX as int) by (nonlinear_arith)
            requires
                total <= u64::MAX,
                cat.weight_ppm <= u32::MAX,
        ;
        let pct = (2 * (total * cat.weight_ppm as u128) + n * 10000) / (2 * (n * 10000));
        assert(avg == round_div((total * 100) as nat, n as nat));
        assert(pct == round_div((total * cat.weight_ppm) as nat, n as nat * 10000));
        row.push(Cell::Text(two_decimals_text(avg)));
        row.push(Cell::Text(two_decimals_text(pct)));
        assert(row_view(row) =~= mid + derived_cells(total as int, n as nat, cat.weight_ppm));
    }
    assert(row_view(row) =~= candidate_row(*c, *cat, js, scores@));
    Ok(row)
}

/// Appends the rows of one gender block of a category: the candidates of
/// `candidates` whose gender puts them in the block, in order.
#[verifier::spinoff_prover]
pub fn write_scores(
    rows: &mut Vec<Vec<Cell>>,
    candidates: &Vec<Candidate>,
    male: bool,
    category: &Category,
    judges: &Vec<Judge>,
    scores: &Vec<Score>,
) -> (r: Result<(), ScoreError>)
    requires
        valid_scores(scores@),
        numbered_in_order(candidates@),
    ensures
        ({
            let js = active_judges(judges@, category.event_id);
            match r {
                Ok(()) => {
                    &&& rows_view(final(rows)@) == rows_view(old(rows)@) + block_rows(
                        candidates@,
                        male,
                        *category,
                        js,
                        scores@,
                    )
                    &&& forall|b: int|
                        0 <= b < candidates@.len() && (candidates@[b].gender == 1) == male
                            ==> judges_total(scores@, #[trigger] candidates@[b].id, category.id, js)
                            <= u64::MAX
                },
                Err(e) => {
                    &&& e is DataIntegrityFailure
                    &&& final(rows)@.len() >= old(rows)@.len()
                    &&& rows_view(final(rows)@).subrange(0, old(rows)@.len() as int) == rows_view(
                        old(rows)@,
                    )
                    &&& exists|b: int|
                        0 <= b < candidates@.len() && (#[trigger] candidates@[b]).id
                            == e->DataIntegrityFailure_0 && judges_total(
                            scores@,
                            candidates@[b].id,
                            category.id,
                            js,
                        ) > u64::MAX
                },
            }
        }),
{
    let active = active_judge_indices(judges, category.event_id);
    let ghost js = active_judges(judges@, category.event_id);
    let ghost start = rows_view(rows@);
    let mut i: usize = 0;
    while i < candidates.len()
        invariant
            i <= candidates@.len(),
            start == rows_view(old(rows)@),
            valid_scores(scores@),
            forall|k: int| 0 <= k < active@.len() ==> active@[k] < judges@.len(),
            active@.map_values(|i: usize| judges@[i as int]) == js,
            js == active_judges(judges@, category.event_id),
            rows_view(rows@) == start + block_rows(candidates@.take(i as int), male, *category, js, scores@),
            forall|b: int|
                0 <= b < i && (candidates@[b].gender == 1) == male ==> judges_total(
                    scores@,
                    #[trigger] candidates@[b].id,
                    category.id,
                    js,
                ) <= u64::MAX,
        decreases candidates@.len() - i,
    {
        let c = &candidates[i];
        let ghost pre = candidates@.take(i as int);
        assert(candidates@.take(i + 1).drop_last() =~= pre);
        let ghost before = rows_view(rows@);
        if (c.gender == 1) == male {
            match candidate_cells(c, category, judges, &active, scores) {
                Ok(row) => {
                    rows.push(row);
                    assert(block_candidates(candidates@.take(i + 1), male) == block_candidates(pre, male).push(*c));
                    assert(rows_view(rows@) =~= before.push(row_view(row)));
                    assert(block_rows(candidates@.take(i + 1), male, *category, js, scores@) =~= block_rows(
                        pre,
                        male,
                        *category,
                        js,
                        scores@,
                    ).push(candidate_row(*c, *category, js, scores@)));
                },
                Err(id) => {
                    assert(candidates@[i as int].id == id);
                    assert(rows_view(rows@).subrange(0, start.len() as int) =~= start);
                    assert(rows@.len() == rows_view(rows@).len());
                    assert(rows@.len() >= start.len());
                    assert(judges_total(scores@, candidates@[i as int].id, category.id, js)
                        > u64::MAX);
                    return Err(ScoreError::DataIntegrityFailure(id));
                },
            }
        } else {
            assert(block_candidates(candidates@.take(i + 1), male) =~= block_candidates(pre, male));
        }
        i = i + 1;
    }
    assert(candidates@.take(i as int) =~= candidates@);
    Ok(())
}

/// The column titles of a block, for the judges at `active`.
fn column_header_cells(cat: &Category, judges: &Vec<Judge>, active: &Vec<usize>) -> (r: Vec<Cell>)
    requires
        forall|k: int| 0 <= k < active@.len() ==> active@[k] < judges@.len(),
    ensures
        row_view(r) == column_header(*cat, active@.map_values(|i: usize| judges@[i as int])),
{
    let ghost js = active@.map_values(|i: usize| judges@[i as int]);
    let mut r: Vec<Cell> = Vec::new();
    r.push(label_cell("Candidate #"));
    r.push(label_cell("Name"));
    let mut k: usize = 0;
    while k < active.len()
        invariant
            k <= active@.len(),
            js == active@.map_values(|i: usize| judges@[i as int]),
            forall|q: int| 0 <= q < active@.len() ==> active@[q] < judges@.len(),
            row_view(r) == seq![CellView::Label("Candidate #"@), CellView::Label("Name"@)]
                + js.take(k as int).map_values(|j: Judge| CellView::Label(j.name@)),
        decreases active@.len() - k,
    {
        let ghost before = row_view(r);
        r.push(Cell::Label(judges[active[k]].name.clone()));
        assert(js.take(k + 1).map_values(|j: Judge| CellView::Label(j.name@)) =~= js.take(
            k as int,
        ).map_values(|j: Judge| CellView::Label(j.name@)).push(CellView::Label(js[k as int].name@)));
        assert(row_view(r) =~= before.push(CellView::Label(js[k as int].name@)));
        k = k + 1;
    }
    assert(js.take(k as int) =~= js);
    let ghost before = row_view(r);
    r.push(label_cell("Average Score"));
    r.push(Cell::Label(percent_label_text(cat.weight_ppm)));
    assert(row_view(r) =~= column_header(*cat, js));
    r
}

/// Lays out the report: for each category, in order, a title row, the
/// column titles, the "MALE" marker and the male candidates' rows, the
/// "FEMALE" marker and the female candidates' rows, then the gap to the
/// next block. A judge column is shown for each active judge of the
/// category's event, in the given order. Fails with the candidate's id when
/// a candidate's total in a category does not fit in `u64`.
pub fn generate_score_spreadsheet(
    categories: &Vec<Category>,
    judges: &Vec<Judge>,
    candidates: &Vec<Candidate>,
    scores: &Vec<Score>,
) -> (r: Result<SheetGrid, ScoreError>)
    requires
        valid_scores(scores@),
        numbered_in_order(candidates@),
    ensures
        match r {
            Ok(g) => {
                &&& rows_view(g.rows@) == grid_rows(categories@, judges@, candidates@, scores@)
                &&& g.column_widths@ == grid_widths(categories@, judges@)
                &&& forall|id: u128| !total_overflows(categories@, judges@, candidates@, scores@, id)
            },
            Err(e) => {
                &&& e is DataIntegrityFailure
                &&& total_overflows(
                    categories@,
                    judges@,
                    candidates@,
                    scores@,
                    e->DataIntegrityFailure_0,
                )
            },
        },
{
    let ghost cats = categories@;
    let mut rows: Vec<Vec<Cell>> = Vec::new();
    let mut widths: Vec<ColumnWidth> = Vec::new();
    widths.push(ColumnWidth { column: 0, width: 15 });
    widths.push(ColumnWidth { column: 1, width: 30 });
    assert(rows_view(rows@) =~= grid_rows(cats.take(0), judges@, candidates@, scores@));
    assert(widths@ =~= grid_widths(cats.take(0), judges@));
    let mut i: usize = 0;
    while i < categories.len()
        invariant
            cats == categories@,
            i <= cats.len(),
            valid_scores(scores@),
            numbered_in_order(candidates@),
            rows_view(rows@) == grid_rows(cats.take(i as int), judges@, candidates@, scores@),
            widths@ == grid_widths(cats.take(i as int), judges@),
            forall|a: int, b: int|
                0 <= a < i && 0 <= b < candidates@.len() ==> judges_total(
                    scores@,
                    (#[trigger] candidates@[b]).id,
                    (#[trigger] cats[a]).id,
                    active_judges(judges@, cats[a].event_id),
                ) <= u64::MAX,
        decreases cats.len() - i,
    {
        let cat = &categories[i];
        let ghost pre = cats.take(i as int);
        assert(cats.take(i + 1).drop_last() =~= pre);
        assert(cats.take(i + 1).last() == *cat);
        let active = active_judge_indices(judges, cat.event_id);
        let ghost js = active_judges(judges@, cat.event_id);
        let ghost start = rows_view(rows@);
        let title = vec![Cell::Heading(cat.name.clone())];
        assert(row_view(title) =~= seq![CellView::Heading(cat.name@)]);
        rows.push(title);
        rows.push(column_header_cells(cat, judges, &active));
        let male_marker = vec![text_cell("MALE")];
        assert(row_view(male_marker) =~= seq![CellView::Text("MALE"@)]);
        rows.push(male_marker);
        let ghost head = rows_view(rows@);
        assert(head =~= start + seq![
            seq![CellView::Heading(cat.name@)],
            column_header(*cat, js),
            seq![CellView::Text("MALE"@)],
        ]);
        match write_scores(&mut rows, candidates, true, cat, judges, scores) {
            Ok(()) => {},
            Err(e) => {
                return Err(e);
            },
        }
        let ghost after_male = rows_view(rows@);
        assert(after_male == head + block_rows(candidates@, true, *cat, js, scores@));
        let female_marker = vec![text_cell("FEMALE")];
        assert(row_view(female_marker) =~= seq![CellView::Text("FEMALE"@)]);
        rows.push(female_marker);
        assert(rows_view(rows@) =~= after_male.push(seq![CellView::Text("FEMALE"@)]));
        let ghost before_female = rows_view(rows@);
        match write_scores(&mut rows, candidates, false, cat, judges, scores) {
            Ok(()) => {},
            Err(e) => {
                return Err(e);
            },
        }
        let mut g: usize = 1;
        let ghost body = rows_view(rows@);
        assert(body == before_female + block_rows(candidates@, false, *cat, js, scores@));
        assert(body =~= start + category_block(*cat, judges@, candidates@, scores@));
        while g < BLOCK_GAP
            invariant
                1 <= g <= BLOCK_GAP,
                rows_view(rows@) == body + Seq::new((g - 1) as nat, |q: int| Seq::<CellView>::empty()),
            decreases BLOCK_GAP - g,
        {
            let ghost before = rows_view(rows@);
            let empty_row: Vec<Cell> = Vec::new();
            assert(row_view(empty_row) =~= Seq::<CellView>::empty());
            rows.push(empty_row);
            assert(rows_view(rows@) =~= before.push(Seq::<CellView>::empty()));
            assert(rows_view(rows@) =~= body + Seq::new(g as nat, |q: int| Seq::<CellView>::empty()));
            g = g + 1;
        }
        assert(rows_view(rows@) =~= body + gap_rows());
        assert(rows_view(rows@) =~= grid_rows(cats.take(i + 1), judges@, candidates@, scores@));
        let n = active.len() as u128;
        let ghost wstart = widths@;
        let mut k: usize = 0;
        while k < active.len()
            invariant
                k <= active@.len(),
                n == active@.len(),
                widths@ == wstart + Seq::new(k as nat, |q: int| ColumnWidth { column: (2 + q) as u128, width: 30 }),
            decreases active@.len() - k,
        {
            widths.push(ColumnWidth { column: 2 + k as u128, width: 30 });
            assert(widths@ =~= wstart + Seq::new((k + 1) as nat, |q: int| ColumnWidth { column: (2 + q) as u128, width: 30 }));
            k = k + 1;
        }
        widths.push(ColumnWidth { column: 2 + n, width: 20 });
        widths.push(ColumnWidth { column: 3 + n, width: 15 });
        assert(active@.map_values(|i: usize| judges@[i as int]).len() == active@.len());
        assert(widths@ =~= grid_widths(cats.take(i + 1), judges@));
        assert forall|a: int, b: int|
            0 <= a < i + 1 && 0 <= b < candidates@.len() implies judges_total(
                scores@,
                (#[trigger] candidates@[b]).id,
                (#[trigger] cats[a]).id,
                active_judges(judges@, cats[a].event_id),
            ) <= u64::MAX by {
            if a == i {
                assert(cats[a] == *cat);
            }
        }
        i = i + 1;
    }
    assert(cats.take(i as int) =~= cats);
    Ok(SheetGrid { rows, column_widths: widths })
}

/// The offset of a block's last row from its title row: the title, the
/// column titles and the two markers, plus one row per candidate, minus one.
pub open spec fn block_last_row(cands: Seq<Candidate>) -> nat {
    cands.len() + 3
}

/// The first row of the block of the `i`-th category.
pub open spec fn block_start(cands: Seq<Candidate>, i: int) -> int {
    i * (block_last_row(cands) + BLOCK_GAP)
}

proof fn lemma_blocks_partition(cands: Seq<Candidate>)
    ensures
        block_candidates(cands, true).len() + block_candidates(cands, false).len() == cands.len(),
    decreases cands.len(),
{
    if cands.len() > 0 {
        lemma_blocks_partition(cands.drop_last());
    }
}

proof fn lemma_grid_len(cats: Seq<Category>, judges: Seq<Judge>, cands: Seq<Candidate>, scores: Seq<Score>)
    ensures
        grid_rows(cats, judges, cands, scores).len() == block_start(cands, cats.len() as int),
    decreases cats.len(),
{
    if cats.len() > 0 {
        lemma_grid_len(cats.drop_last(), judges, cands, scores);
        lemma_blocks_partition(cands);
        let h = block_last_row(cands) + BLOCK_GAP;
        let n = cats.len();
        assert((n - 1) * h + h == n * h) by (nonlinear_arith);
    }
}

proof fn lemma_grid_prefix(
    cats: Seq<Category>,
    judges: Seq<Judge>,
    cands: Seq<Candidate>,
    scores: Seq<Score>,
    j: int,
)
    requires
        0 <= j <= cats.len(),
    ensures
        grid_rows(cats, judges, cands, scores).subrange(
            0,
            grid_rows(cats.take(j), judges, cands, scores).len() as int,
        ) == grid_rows(cats.take(j), judges, cands, scores),
    decreases cats.len(),
{
    let g = grid_rows(cats, judges, cands, scores);
    if j == cats.len() {
        assert(cats.take(j) =~= cats);
        assert(g.subrange(0, g.len() as int) =~= g);
    } else {
        assert(cats.drop_last().take(j) =~= cats.take(j));
        lemma_grid_prefix(cats.drop_last(), judges, cands, scores, j);
        let p = grid_rows(cats.drop_last(), judges, cands, scores);
        let q = grid_rows(cats.take(j), judges, cands, scores);
        lemma_grid_len(cats.take(j), judges, cands, scores);
        lemma_grid_len(cats.drop_last(), judges, cands, scores);
        let h = block_last_row(cands) + BLOCK_GAP;
        let m = cats.len() - 1;
        assert(j * h <= m * h) by (nonlinear_arith)
            requires
                j <= m,
                h >= 0,
        ;
        assert(g.subrange(0, q.len() as int) =~= p.subrange(0, q.len() as int));
    }
}

/// Each category block spans `block_last_row + 1` rows, from its title row at
/// `block_start`; the next block starts `BLOCK_GAP` rows after its last row.
pub proof fn lemma_block_layout(
    cats: Seq<Category>,
    judges: Seq<Judge>,
    cands: Seq<Candidate>,
    scores: Seq<Score>,
    i: int,
)
    requires
        0 <= i < cats.len(),
    ensures
        block_candidates(cands, true).len() + block_candidates(cands, false).len() + 3
            == block_last_row(cands),
        category_block(cats[i], judges, cands, scores).len() == block_last_row(cands) + 1,
        grid_rows(cats, judges, cands, scores).subrange(
            block_start(cands, i),
            block_start(cands, i) + block_last_row(cands) + 1,
        ) == category_block(cats[i], judges, cands, scores),
        block_start(cands, i + 1) == block_start(cands, i) + block_last_row(cands) + BLOCK_GAP,
{
    lemma_blocks_partition(cands);
    let h = block_last_row(cands) + BLOCK_GAP;
    assert(i * h + h == (i + 1) * h) by (nonlinear_arith);
    let pre = cats.take(i);
    let upto = cats.take(i + 1);
    assert(upto.drop_last() =~= pre);
    lemma_grid_len(pre, judges, cands, scores);
    lemma_grid_prefix(cats, judges, cands, scores, i + 1);
    let g = grid_rows(cats, judges, cands, scores);
    let u = grid_rows(upto, judges, cands, scores);
    let b = category_block(cats[i], judges, cands, scores);
    let st = block_start(cands, i);
    lemma_grid_len(upto, judges, cands, scores);
    lemma_grid_len(cats, judges, cands, scores);
    assert((i + 1) * h <= cats.len() * h) by (nonlinear_arith)
        requires
            i + 1 <= cats.len(),
            h >= 0,
    ;
    assert(u == grid_rows(pre, judges, cands, scores) + b + gap_rows());
    assert(u.subrange(st, st + b.len()) =~= b);
    assert(g.subrange(st, st + b.len()) =~= u.subrange(st, st + b.len()));
}

/// The judge columns of a block are the active judges of its event, in the
/// order given, between the two identity columns and the two derived ones.
pub proof fn lemma_judge_columns(cat: Category, judges: Seq<Judge>)
    ensures
        ({
            let js = active_judges(judges, cat.event_id);
            let h = column_header(cat, js);
            &&& h.len() == js.len() + 4
            &&& forall|k: int| 0 <= k < js.len() ==> h[2 + k] == CellView::Label((#[trigger] js[k]).name@)
            &&& h[2 + js.len() as int] == CellView::Label("Average Score"@)
            &&& h[3 + js.len() as int] == CellView::Label(percent_label(cat.weight_ppm))
        }),
{
}

/// The judge `j` with its active flag cleared.
pub open spec fn deactivated(j: Judge) -> Judge {
    Judge { id: j.id, name: j.name, is_active: false, event_id: j.event_id }
}

proof fn lemma_deactivate_removes(judges: Seq<Judge>, x: int, event_id: u128) -> (p: int)
    requires
        0 <= x < judges.len(),
        judges[x].is_active,
        judges[x].event_id == event_id,
    ensures
        0 <= p < active_judges(judges, event_id).len(),
        active_judges(judges.update(x, deactivated(judges[x])), event_id) == active_judges(
            judges,
            event_id,
        ).remove(p),
    decreases judges.len(),
{
    let upd = judges.update(x, deactivated(judges[x]));
    if x == judges.len() - 1 {
        assert(upd.drop_last() =~= judges.drop_last());
        let a = active_judges(judges.drop_last(), event_id);
        assert(active_judges(judges, event_id) == a.push(judges.last()));
        assert(a.push(judges.last()).remove(a.len() as int) =~= a);
        assert(active_judges(upd, event_id) =~= a);
        a.len() as int
    } else {
        assert(upd.drop_last() =~= judges.drop_last().update(x, deactivated(judges[x])));
        assert(judges.drop_last()[x] == judges[x]);
        let p = lemma_deactivate_removes(judges.drop_last(), x, event_id);
        let a = active_judges(judges.drop_last(), event_id);
        let j = judges.last();
        let t: Seq<Judge> = if j.is_active && j.event_id == event_id {
            seq![j]
        } else {
            seq![]
        };
        assert(upd.last() == j);
        assert(active_judges(upd, event_id) == a.remove(p) + t);
        assert((a + t).remove(p) =~= a.remove(p) + t);
        p
    }
}

/// Deactivating one active judge of the event removes exactly its column:
/// the other judge columns keep their order, and the derived columns move
/// one to the left.
pub proof fn lemma_excluding_judge_drops_one_column(cat: Category, judges: Seq<Judge>, x: int)
    requires
        0 <= x < judges.len(),
        judges[x].is_active,
        judges[x].event_id == cat.event_id,
    ensures
        ({
            let before = active_judges(judges, cat.event_id);
            let after = active_judges(judges.update(x, deactivated(judges[x])), cat.event_id);
            &&& after.len() + 1 == before.len()
            &&& exists|p: int| 0 <= p < before.len() && after == before.remove(p)
            &&& column_header(cat, after).len() + 1 == column_header(cat, before).len()
            &&& column_header(cat, after)[2 + after.len() as int] == CellView::Label("Average Score"@)
            &&& column_header(cat, before)[2 + before.len() as int] == CellView::Label("Average Score"@)
        }),
{
    let p = lemma_deactivate_removes(judges, x, cat.event_id);
    lemma_judge_columns(cat, judges);
    lemma_judge_columns(cat, judges.update(x, deactivated(judges[x])));
}

/// Candidates listed by ascending number within each block keep that order
/// in the block: each gender block of the report runs by ascending
/// candidate number, and holds only candidates of its gender, each taken
/// from the list.
pub proof fn lemma_blocks_ascending(cands: Seq<Candidate>, male: bool)
    requires
        numbered_in_order(cands),
    ensures
        ({
            let blk = block_candidates(cands, male);
            &&& forall|a: int, b: int|
                0 <= a < b < blk.len() ==> (#[trigger] blk[a]).candidate_number
                    <= (#[trigger] blk[b]).candidate_number
            &&& forall|a: int|
                0 <= a < blk.len() ==> ((#[trigger] blk[a]).gender == 1) == male && exists|i: int|
                    0 <= i < cands.len() && cands[i] == blk[a]
        }),
    decreases cands.len(),
{
    if cands.len() > 0 {
        let pre = cands.drop_last();
        assert(numbered_in_order(pre)) by {
            assert forall|a: int, b: int|
                0 <= a < b < pre.len() && ((#[trigger] pre[a]).gender == 1) == ((#[trigger] pre[b]).gender
                    == 1) implies pre[a].candidate_number <= pre[b].candidate_number by {
                assert(pre[a] == cands[a] && pre[b] == cands[b]);
            }
        }
        lemma_blocks_ascending(pre, male);
        let inner = block_candidates(pre, male);
        let blk = block_candidates(cands, male);
        let last = cands.last();
        assert forall|a: int| 0 <= a < inner.len() implies exists|i: int|
            0 <= i < cands.len() - 1 && cands[i] == #[trigger] inner[a] by {
            let i = choose|i: int| 0 <= i < pre.len() && pre[i] == inner[a];
            assert(cands[i] == pre[i]);
        }
        if (last.gender == 1) == male {
            assert(blk == inner.push(last));
            assert forall|a: int, b: int|
                0 <= a < b < blk.len() implies (#[trigger] blk[a]).candidate_number
                    <= (#[trigger] blk[b]).candidate_number by {
                if b == blk.len() - 1 {
                    let i = choose|i: int| 0 <= i < cands.len() - 1 && cands[i] == #[trigger] inner[a];
                    assert(cands[cands.len() - 1] == last);
                    assert((cands[i].gender == 1) == (cands[cands.len() - 1].gender == 1));
                } else {
                    assert(blk[a] == inner[a] && blk[b] == inner[b]);
                }
            }
            assert forall|a: int| 0 <= a < blk.len() implies ((#[trigger] blk[a]).gender == 1) == male
                && exists|i: int| 0 <= i < cands.len() && cands[i] == blk[a] by {
                if a == blk.len() - 1 {
                    assert(cands[cands.len() - 1] == blk[a]);
                } else {
                    assert(blk[a] == inner[a]);
                    let i = choose|i: int| 0 <= i < cands.len() - 1 && cands[i] == #[trigger] inner[a];
                    assert(cands[i] == blk[a]);
                }
            }
        } else {
            assert(blk =~= inner);
            assert forall|a: int| 0 <= a < blk.len() implies ((#[trigger] blk[a]).gender == 1) == male
                && exists|i: int| 0 <= i < cands.len() && cands[i] == blk[a] by {
                let i = choose|i: int| 0 <= i < cands.len() - 1 && cands[i] == #[trigger] inner[a];
                assert(cands[i] == blk[a]);
            }
        }
    }
}

} // verus!
