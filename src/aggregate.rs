//! The ranking: per-candidate weighted sums over category subtotals and the
//! final percentage derived from them.
use vstd::prelude::*;

use crate::text::{candidate_display_name, display_name, round_div};

verus! {

/// Errors of the scoring engine.
#[derive(Debug, Clone, PartialEq, Eq)]
pub enum ScoreError {
    /// The data of the named candidate cannot give a finite result: its
    /// weighted maximum is zero, or a weighted sum does not fit in `u64`.
    DataIntegrityFailure(u128),
    /// The tabular output could not be written; the text says why.
    RenderFailure(String),
}

/// One candidate's summed scores in one category of an event.
///
/// `weight_ppm` is the category weight in millionths (0.6 is 600000).
#[derive(Debug, Clone)]
pub struct CandidateScore {
    pub candidate_id: u128,
    pub first_name: String,
    pub middle_name: String,
    pub last_name: String,
    pub total_score: u64,
    pub total_max: u64,
    pub weight_ppm: u32,
}

/// A candidate's final standing.
///
/// `weighted_score` and `weighted_max` are in hundredths, and hold the exact
/// sums S and M; the percentage is `S / M * 100`. `final_score` gives that
/// percentage in millionths of a percent, rounded half up.
#[derive(Debug, Clone)]
pub struct CandidateFinalScore2 {
    pub candidate_id: u128,
    pub candidate_name: String,
    pub weighted_score: u64,
    pub weighted_max: u64,
    pub final_score: u128,
}

/// `total * weight`, rounded to two decimals, in hundredths.
pub open spec fn weighted_part(total: u64, weight_ppm: u32) -> nat {
    round_div(total as nat * weight_ppm as nat, 10000)
}

/// The candidate ids of `rows`, each once, in order of first appearance.
pub open spec fn distinct_ids(rows: Seq<CandidateScore>) -> Seq<u128>
    decreases rows.len(),
{
    if rows.len() == 0 {
        seq![]
    } else {
        let d = distinct_ids(rows.drop_last());
        if d.contains(rows.last().candidate_id) {
            d
        } else {
            d.push(rows.last().candidate_id)
        }
    }
}

/// The sum of a candidate's rounded weighted scores, in hundredths.
pub open spec fn weighted_score_sum(rows: Seq<CandidateScore>, id: u128) -> nat
    decreases rows.len(),
{
    if rows.len() == 0 {
        0
    } else {
        weighted_score_sum(rows.drop_last(), id) + if rows.last().candidate_id == id {
            weighted_part(rows.last().total_score, rows.last().weight_ppm)
        } else {
            0
        }
    }
}

/// The sum of a candidate's rounded weighted maxima, in hundredths.
pub open spec fn weighted_max_sum(rows: Seq<CandidateScore>, id: u128) -> nat
    decreases rows.len(),
{
    if rows.len() == 0 {
        0
    } else {
        weighted_max_sum(rows.drop_last(), id) + if rows.last().candidate_id == id {
            weighted_part(rows.last().total_max, rows.last().weight_ppm)
        } else {
            0
        }
    }
}

/// The display name taken from a candidate's first row.
pub open spec fn name_for(rows: Seq<CandidateScore>, id: u128) -> Seq<char>
    decreases rows.len(),
{
    if rows.len() == 0 {
        seq![]
    } else if rows.last().candidate_id == id && !distinct_ids(rows.drop_last()).contains(id) {
        let r = rows.last();
        display_name(r.first_name@, r.middle_name@, r.last_name@)
    } else {
        name_for(rows.drop_last(), id)
    }
}

/// A candidate whose percentage is not a finite value of the result type.
pub open spec fn integrity_fails(rows: Seq<CandidateScore>, id: u128) -> bool {
    ||| weighted_max_sum(rows, id) == 0
    ||| weighted_score_sum(rows, id) > u64::MAX
    ||| weighted_max_sum(rows, id) > u64::MAX
}

/// The last row's candidate has a weighted sum over `rows` that does not
/// fit in `u64`.
pub open spec fn overflows_at_end(rows: Seq<CandidateScore>) -> bool {
    &&& rows.len() > 0
    &&& {
        ||| weighted_score_sum(rows, rows.last().candidate_id) > u64::MAX
        ||| weighted_max_sum(rows, rows.last().candidate_id) > u64::MAX
    }
}

/// The candidate of the first row at which a running weighted sum leaves `u64`.
pub open spec fn overflow_failure(rows: Seq<CandidateScore>) -> Option<u128>
    decreases rows.len(),
{
    if rows.len() == 0 {
        None
    } else {
        match overflow_failure(rows.drop_last()) {
            Some(c) => Some(c),
            None => if overflows_at_end(rows) {
                Some(rows.last().candidate_id)
            } else {
                None
            },
        }
    }
}

/// The first of `ids` whose weighted maximum over `rows` is zero.
pub open spec fn first_zero_max(rows: Seq<CandidateScore>, ids: Seq<u128>) -> Option<u128>
    decreases ids.len(),
{
    if ids.len() == 0 {
        None
    } else if weighted_max_sum(rows, ids[0]) == 0 {
        Some(ids[0])
    } else {
        first_zero_max(rows, ids.drop_first())
    }
}

/// The candidate that the ranking of `rows` reports as failing, if any:
/// the first overflow in row order, else the first candidate with a zero
/// weighted maximum.
pub open spec fn integrity_failure(rows: Seq<CandidateScore>) -> Option<u128> {
    match overflow_failure(rows) {
        Some(c) => Some(c),
        None => first_zero_max(rows, distinct_ids(rows)),
    }
}

/// The final percentage `score / max * 100` in millionths of a percent.
pub open spec fn final_percentage(score: nat, max: nat) -> nat {
    round_div(score * 100_000_000, max)
}

/// `e` is the standing of candidate `id` over `rows`.
pub open spec fn is_standing(e: CandidateFinalScore2, rows: Seq<CandidateScore>, id: u128) -> bool {
    &&& e.candidate_id == id
    &&& e.candidate_name@ == name_for(rows, id)
    &&& e.weighted_score as nat == weighted_score_sum(rows, id)
    &&& e.weighted_max as nat == weighted_max_sum(rows, id)
    &&& e.final_score as nat == final_percentage(e.weighted_score as nat, e.weighted_max as nat)
}

/// What the ranking of `rows` is: one standing per distinct candidate, in
/// order of first appearance, or an integrity error that names a failing
/// candidate.
pub open spec fn is_ranking(rows: Seq<CandidateScore>, r: Result<Vec<CandidateFinalScore2>, ScoreError>) -> bool {
    let d = distinct_ids(rows);
    match r {
        Ok(v) => {
            &&& integrity_failure(rows) is None
            &&& forall|k: int| 0 <= k < d.len() ==> !integrity_fails(rows, #[trigger] d[k])
            &&& v@.len() == d.len()
            &&& forall|k: int| 0 <= k < v@.len() ==> is_standing(#[trigger] v@[k], rows, d[k])
        },
        Err(e) => {
            &&& e is DataIntegrityFailure
            &&& integrity_failure(rows) == Some(e->DataIntegrityFailure_0)
            &&& d.contains(e->DataIntegrityFailure_0)
            &&& integrity_fails(rows, e->DataIntegrityFailure_0)
        },
    }
}

proof fn lemma_sums_grow(rows: Seq<CandidateScore>, j: int, id: u128)
    requires
        0 <= j <= rows.len(),
    ensures
        weighted_score_sum(rows.take(j), id) <= weighted_score_sum(rows, id),
        weighted_max_sum(rows.take(j), id) <= weighted_max_sum(rows, id),
    decreases rows.len(),
{
    if j < rows.len() {
        assert(rows.drop_last().take(j) =~= rows.take(j));
        lemma_sums_grow(rows.drop_last(), j, id);
    } else {
        assert(rows.take(j) =~= rows);
    }
}

proof fn lemma_row_id_listed(rows: Seq<CandidateScore>, i: int)
    requires
        0 <= i < rows.len(),
    ensures
        distinct_ids(rows).contains(rows[i].candidate_id),
    decreases rows.len(),
{
    let d = distinct_ids(rows.drop_last());
    if i < rows.len() - 1 {
        lemma_row_id_listed(rows.drop_last(), i);
        let k = choose|k: int| 0 <= k < d.len() && d[k] == rows[i].candidate_id;
        assert(distinct_ids(rows)[k] == rows[i].candidate_id);
    } else if !d.contains(rows[i].candidate_id) {
        assert(distinct_ids(rows)[d.len() as int] == rows[i].candidate_id);
    }
}

struct Tally {
    id: u128,
    name: String,
    score: u64,
    max: u64,
}

fn weighted_part_exec(total: u64, weight_ppm: u32) -> (r: u128)
    ensures
        r as nat == weighted_part(total, weight_ppm),
        r <= u64::MAX as nat * u32::MAX as nat,
{
    assert(total as nat * weight_ppm as nat <= u64::MAX as nat * u32::MAX as nat) by (nonlinear_arith)
        requires
            total <= u64::MAX,
            weight_ppm <= u32::MAX,
    ;
    let p: u128 = (total as u128) * (weight_ppm as u128);
    (2 * p + 10000) / 20000
}

/// Reduces per-category sums to one standing per candidate: the weighted
/// score and maximum of each row are rounded to two decimals, summed per
/// candidate, and the final percentage is their ratio times 100.
pub fn calculate_final_scores(scores: &Vec<CandidateScore>) -> (r: Result<
    Vec<CandidateFinalScore2>,
    ScoreError,
>)
    ensures
        is_ranking(scores@, r),
{
    let ghost rows = scores@;
    let mut tallies: Vec<Tally> = Vec::new();
    let n = scores.len();
    let mut i: usize = 0;
    while i < n
        invariant
            n == rows.len(),
            rows == scores@,
            i <= n,
            overflow_failure(rows.take(i as int)) is None,
            tallies@.len() == distinct_ids(rows.take(i as int)).len(),
            forall|k: int|
                0 <= k < tallies@.len() ==> {
                    let t = #[trigger] tallies@[k];
                    let id = distinct_ids(rows.take(i as int))[k];
                    &&& t.id == id
                    &&& t.name@ == name_for(rows.take(i as int), id)
                    &&& t.score as nat == weighted_score_sum(rows.take(i as int), id)
                    &&& t.max as nat == weighted_max_sum(rows.take(i as int), id)
                },
        decreases n - i,
    {
        let row = &scores[i];
        let ghost pre = rows.take(i as int);
        let ghost post = rows.take(i + 1);
        assert(post.drop_last() =~= pre);
        assert(post.last() == rows[i as int]);
        let ghost d = distinct_ids(pre);
        let s_part = weighted_part_exec(row.total_score, row.weight_ppm);
        let m_part = weighted_part_exec(row.total_max, row.weight_ppm);
        let mut k: usize = 0;
        while k < tallies.len() && tallies[k].id != row.candidate_id
            invariant
                k <= tallies@.len(),
                tallies@.len() == d.len(),
                forall|j: int| 0 <= j < k ==> d[j] != row.candidate_id,
                forall|j: int| 0 <= j < tallies@.len() ==> (#[trigger] tallies@[j]).id == d[j],
            decreases tallies@.len() - k,
        {
            k = k + 1;
        }
        if k < tallies.len() {
            assert(d[k as int] == row.candidate_id);
            assert(d.contains(row.candidate_id));
            assert(distinct_ids(post) == d);
            let new_score = tallies[k].score as u128 + s_part;
            let new_max = tallies[k].max as u128 + m_part;
            if new_score > u64::MAX as u128 || new_max > u64::MAX as u128 {
                proof {
                    lemma_sums_grow(rows, i + 1, row.candidate_id);
                    lemma_row_id_listed(rows, i as int);
                    lemma_overflow_failure_kept(rows, i + 1);
                }
                return Err(ScoreError::DataIntegrityFailure(row.candidate_id));
            }
            let ghost old_tallies = tallies@;
            let t = Tally {
                id: row.candidate_id,
                name: tallies[k].name.clone(),
                score: new_score as u64,
                max: new_max as u64,
            };
            tallies.set(k, t);
            assert(distinct_ids(post)[k as int] == row.candidate_id);
            assert forall|j: int| 0 <= j < tallies@.len() implies {
                let t = #[trigger] tallies@[j];
                let id = distinct_ids(post)[j];
                &&& t.id == id
                &&& t.name@ == name_for(post, id)
                &&& t.score as nat == weighted_score_sum(post, id)
                &&& t.max as nat == weighted_max_sum(post, id)
            } by {
                assert(old_tallies[j].id == d[j]);
                assert(post.drop_last() == pre);
                let id = d[j];
                assert(weighted_score_sum(post, id) == weighted_score_sum(pre, id) + if rows[i as int].candidate_id == id {
                    weighted_part(rows[i as int].total_score, rows[i as int].weight_ppm)
                } else {
                    0
                });
                assert(weighted_max_sum(post, id) == weighted_max_sum(pre, id) + if rows[i as int].candidate_id == id {
                    weighted_part(rows[i as int].total_max, rows[i as int].weight_ppm)
                } else {
                    0
                });
                if j == k {
                    assert(d.contains(d[j]));
                    assert(old_tallies[j].score as nat == weighted_score_sum(pre, id));
                    assert(tallies@[j].score as nat == old_tallies[j].score + s_part);
                } else {
                    assert(tallies@[j] == old_tallies[j]);
                    assert(old_tallies[j].score as nat == weighted_score_sum(pre, id));
                    lemma_distinct_ids_unique(pre);
                    assert(d[j] != d[k as int]);
                }
            }
        } else {
            assert(!d.contains(row.candidate_id));
            assert(distinct_ids(post) == d.push(row.candidate_id));
            if s_part > u64::MAX as u128 || m_part > u64::MAX as u128 {
                proof {
                    lemma_sums_grow(rows, i + 1, row.candidate_id);
                    lemma_row_id_listed(rows, i as int);
                    lemma_overflow_failure_kept(rows, i + 1);
                }
                return Err(ScoreError::DataIntegrityFailure(row.candidate_id));
            }
            let name = candidate_display_name(&row.first_name, &row.middle_name, &row.last_name);
            let ghost old_tallies = tallies@;
            tallies.push(
                Tally { id: row.candidate_id, name, score: s_part as u64, max: m_part as u64 },
            );
            assert(distinct_ids(post)[old_tallies.len() as int] == row.candidate_id);
            assert forall|j: int| 0 <= j < tallies@.len() implies {
                let t = #[trigger] tallies@[j];
                let id = distinct_ids(post)[j];
                &&& t.id == id
                &&& t.name@ == name_for(post, id)
                &&& t.score as nat == weighted_score_sum(post, id)
                &&& t.max as nat == weighted_max_sum(post, id)
            } by {
                assert(post.drop_last() == pre);
                let id = distinct_ids(post)[j];
                assert(weighted_score_sum(post, id) == weighted_score_sum(pre, id) + if rows[i as int].candidate_id == id {
                    weighted_part(rows[i as int].total_score, rows[i as int].weight_ppm)
                } else {
                    0
                });
                assert(weighted_max_sum(post, id) == weighted_max_sum(pre, id) + if rows[i as int].candidate_id == id {
                    weighted_part(rows[i as int].total_max, rows[i as int].weight_ppm)
                } else {
                    0
                });
                if j < old_tallies.len() {
                    assert(old_tallies[j].id == d[j]);
                    assert(tallies@[j] == old_tallies[j]);
                    assert(old_tallies[j].score as nat == weighted_score_sum(pre, d[j]));
                    assert(old_tallies[j].max as nat == weighted_max_sum(pre, d[j]));
                    assert(distinct_ids(post)[j] == d[j]);
                    assert(d.contains(d[j]));
                } else {
                    assert(distinct_ids(post)[j] == row.candidate_id);
                    lemma_absent_sums_zero(pre, row.candidate_id);
                    assert(tallies@[j].score == s_part);
                }
            }
        }
        assert(overflow_failure(post) is None) by {
            assert(post.drop_last() == pre);
            let j = choose|j: int| 0 <= j < tallies@.len() && distinct_ids(post)[j] == row.candidate_id;
            assert(tallies@[j].id == distinct_ids(post)[j]);
        }
        i = i + 1;
    }
    assert(rows.take(n as int) =~= rows);
    let ghost d = distinct_ids(rows);
    let mut result: Vec<CandidateFinalScore2> = Vec::new();
    let mut k: usize = 0;
    assert(d.skip(0) =~= d);
    while k < tallies.len()
        invariant
            rows == scores@,
            d == distinct_ids(rows),
            overflow_failure(rows) is None,
            first_zero_max(rows, d) == first_zero_max(rows, d.skip(k as int)),
            k <= tallies@.len(),
            tallies@.len() == d.len(),
            result@.len() == k,
            forall|j: int|
                0 <= j < tallies@.len() ==> {
                    let t = #[trigger] tallies@[j];
                    &&& t.id == d[j]
                    &&& t.name@ == name_for(rows, d[j])
                    &&& t.score as nat == weighted_score_sum(rows, d[j])
                    &&& t.max as nat == weighted_max_sum(rows, d[j])
                },
            forall|j: int| 0 <= j < k ==> !integrity_fails(rows, #[trigger] d[j]),
            forall|j: int| 0 <= j < k ==> is_standing(#[trigger] result@[j], rows, d[j]),
        decreases tallies@.len() - k,
    {
        let t = &tallies[k];
        if t.max == 0 {
            assert(tallies@[k as int].id == d[k as int]);
            assert(d.contains(t.id)) by {
                assert(d[k as int] == t.id);
            }
            assert(integrity_fails(scores@, t.id));
            assert(first_zero_max(rows, d.skip(k as int)) == Some(t.id));
            return Err(ScoreError::DataIntegrityFailure(t.id));
        }
        let s: u128 = t.score as u128;
        let m: u128 = t.max as u128;
        let final_score: u128 = (2 * (s * 100_000_000) + m) / (2 * m);
        result.push(
            CandidateFinalScore2 {
                candidate_id: t.id,
                candidate_name: t.name.clone(),
                weighted_score: t.score,
                weighted_max: t.max,
                final_score,
            },
        );
        assert(d.skip(k as int).drop_first() =~= d.skip(k + 1));
        k = k + 1;
    }
    assert(d.skip(k as int) =~= Seq::<u128>::empty());
    Ok(result)
}

proof fn lemma_listed_id_has_row(rows: Seq<CandidateScore>, c: u128)
    requires
        distinct_ids(rows).contains(c),
    ensures
        exists|i: int| 0 <= i < rows.len() && (#[trigger] rows[i]).candidate_id == c,
    decreases rows.len(),
{
    let d = distinct_ids(rows.drop_last());
    if d.contains(c) {
        lemma_listed_id_has_row(rows.drop_last(), c);
        let i = choose|i: int| 0 <= i < rows.drop_last().len() && (#[trigger] rows.drop_last()[i]).candidate_id == c;
        assert(rows[i].candidate_id == c);
    } else {
        assert(rows[rows.len() - 1].candidate_id == c);
    }
}

/// The ranking lists every candidate that has a row exactly once, and no
/// candidate without a row.
pub proof fn lemma_one_entry_per_candidate(
    rows: Seq<CandidateScore>,
    r: Result<Vec<CandidateFinalScore2>, ScoreError>,
)
    requires
        is_ranking(rows, r),
        r is Ok,
    ensures
        forall|a: int, b: int|
            0 <= a < b < r->Ok_0@.len() ==> (#[trigger] r->Ok_0@[a]).candidate_id
                != (#[trigger] r->Ok_0@[b]).candidate_id,
        forall|i: int|
            0 <= i < rows.len() ==> exists|k: int|
                0 <= k < r->Ok_0@.len() && (#[trigger] r->Ok_0@[k]).candidate_id
                    == (#[trigger] rows[i]).candidate_id,
        forall|k: int|
            0 <= k < r->Ok_0@.len() ==> exists|i: int|
                0 <= i < rows.len() && (#[trigger] rows[i]).candidate_id
                    == (#[trigger] r->Ok_0@[k]).candidate_id,
{
    let v = r->Ok_0@;
    let d = distinct_ids(rows);
    lemma_distinct_ids_unique(rows);
    assert forall|a: int, b: int| 0 <= a < b < v.len() implies (#[trigger] v[a]).candidate_id
        != (#[trigger] v[b]).candidate_id by {
        assert(is_standing(v[a], rows, d[a]));
        assert(is_standing(v[b], rows, d[b]));
    }
    assert forall|i: int| 0 <= i < rows.len() implies exists|k: int|
        0 <= k < v.len() && (#[trigger] v[k]).candidate_id == (#[trigger] rows[i]).candidate_id by {
        lemma_row_id_listed(rows, i);
        let k = choose|k: int| 0 <= k < d.len() && d[k] == rows[i].candidate_id;
        assert(is_standing(v[k], rows, d[k]));
    }
    assert forall|k: int| 0 <= k < v.len() implies exists|i: int|
        0 <= i < rows.len() && (#[trigger] rows[i]).candidate_id == (#[trigger] v[k]).candidate_id by {
        assert(is_standing(v[k], rows, d[k]));
        assert(d.contains(d[k]));
        lemma_listed_id_has_row(rows, d[k]);
    }
}

/// When every candidate's weighted maximum is positive and its weighted sums
/// fit in `u64`, the ranking succeeds and lists every candidate that has a
/// row.
pub proof fn lemma_ranking_succeeds(
    rows: Seq<CandidateScore>,
    r: Result<Vec<CandidateFinalScore2>, ScoreError>,
)
    requires
        is_ranking(rows, r),
        forall|i: int| 0 <= i < rows.len() ==> !integrity_fails(rows, (#[trigger] rows[i]).candidate_id),
    ensures
        r is Ok,
        forall|i: int|
            0 <= i < rows.len() ==> exists|k: int|
                0 <= k < r->Ok_0@.len() && (#[trigger] r->Ok_0@[k]).candidate_id
                    == (#[trigger] rows[i]).candidate_id,
{
    if r is Err {
        let c = r->Err_0->DataIntegrityFailure_0;
        lemma_listed_id_has_row(rows, c);
        let i = choose|i: int| 0 <= i < rows.len() && (#[trigger] rows[i]).candidate_id == c;
        assert(!integrity_fails(rows, rows[i].candidate_id));
    }
    lemma_one_entry_per_candidate(rows, r);
}

/// A candidate whose weighted maximum sums to zero makes the ranking fail
/// with an integrity error instead of a non-finite percentage.
pub proof fn lemma_zero_max_rejected(
    rows: Seq<CandidateScore>,
    r: Result<Vec<CandidateFinalScore2>, ScoreError>,
    i: int,
)
    requires
        is_ranking(rows, r),
        0 <= i < rows.len(),
        weighted_max_sum(rows, rows[i].candidate_id) == 0,
    ensures
        r is Err,
        r->Err_0 is DataIntegrityFailure,
{
    lemma_row_id_listed(rows, i);
    let d = distinct_ids(rows);
    let k = choose|k: int| 0 <= k < d.len() && d[k] == rows[i].candidate_id;
    assert(integrity_fails(rows, d[k]));
}

/// When a candidate's weighted maximum sums to zero and every other
/// candidate's data is sound, the ranking fails with an integrity error that
/// names that candidate.
pub proof fn lemma_zero_max_named(
    rows: Seq<CandidateScore>,
    r: Result<Vec<CandidateFinalScore2>, ScoreError>,
    i: int,
)
    requires
        is_ranking(rows, r),
        0 <= i < rows.len(),
        weighted_max_sum(rows, rows[i].candidate_id) == 0,
        forall|j: int|
            0 <= j < rows.len() && (#[trigger] rows[j]).candidate_id != rows[i].candidate_id
                ==> !integrity_fails(rows, rows[j].candidate_id),
    ensures
        r == Err::<Vec<CandidateFinalScore2>, ScoreError>(
            ScoreError::DataIntegrityFailure(rows[i].candidate_id),
        ),
{
    lemma_zero_max_rejected(rows, r, i);
    let c = r->Err_0->DataIntegrityFailure_0;
    lemma_listed_id_has_row(rows, c);
    let j = choose|j: int| 0 <= j < rows.len() && (#[trigger] rows[j]).candidate_id == c;
    assert(integrity_fails(rows, rows[j].candidate_id));
}

/// The observable content of a standing.
pub open spec fn standing_view(e: CandidateFinalScore2) -> (u128, Seq<char>, u64, u64, u128) {
    (e.candidate_id, e.candidate_name@, e.weighted_score, e.weighted_max, e.final_score)
}

/// Two rankings of the same rows agree entry by entry, or fail with the same
/// error.
pub proof fn lemma_ranking_deterministic(
    rows: Seq<CandidateScore>,
    r1: Result<Vec<CandidateFinalScore2>, ScoreError>,
    r2: Result<Vec<CandidateFinalScore2>, ScoreError>,
)
    requires
        is_ranking(rows, r1),
        is_ranking(rows, r2),
    ensures
        match (r1, r2) {
            (Ok(a), Ok(b)) => a@.map_values(|e: CandidateFinalScore2| standing_view(e)) == b@.map_values(
                |e: CandidateFinalScore2| standing_view(e),
            ),
            (Err(x), Err(y)) => x == y,
            _ => false,
        },
{
    let d = distinct_ids(rows);
    match (r1, r2) {
        (Ok(a), Ok(b)) => {
            assert forall|k: int| 0 <= k < a@.len() implies standing_view(a@[k]) == standing_view(b@[k]) by {
                assert(is_standing(a@[k], rows, d[k]));
                assert(is_standing(b@[k], rows, d[k]));
            }
            assert(a@.map_values(|e: CandidateFinalScore2| standing_view(e)) =~= b@.map_values(
                |e: CandidateFinalScore2| standing_view(e),
            ));
        },
        _ => {},
    }
}

proof fn lemma_overflow_failure_kept(rows: Seq<CandidateScore>, j: int)
    requires
        0 <= j <= rows.len(),
        overflow_failure(rows.take(j)) is Some,
    ensures
        overflow_failure(rows) == overflow_failure(rows.take(j)),
    decreases rows.len(),
{
    if j < rows.len() {
        assert(rows.drop_last().take(j) =~= rows.take(j));
        lemma_overflow_failure_kept(rows.drop_last(), j);
    } else {
        assert(rows.take(j) =~= rows);
    }
}

/// No candidate id is listed twice.
proof fn lemma_distinct_ids_unique(rows: Seq<CandidateScore>)
    ensures
        distinct_ids(rows).no_duplicates(),
    decreases rows.len(),
{
    if rows.len() > 0 {
        lemma_distinct_ids_unique(rows.drop_last());
    }
}

proof fn lemma_absent_sums_zero(rows: Seq<CandidateScore>, id: u128)
    requires
        !distinct_ids(rows).contains(id),
    ensures
        weighted_score_sum(rows, id) == 0,
        weighted_max_sum(rows, id) == 0,
    decreases rows.len(),
{
    if rows.len() > 0 {
        let d = distinct_ids(rows.drop_last());
        if d.contains(id) {
            let k = choose|k: int| 0 <= k < d.len() && d[k] == id;
            assert(distinct_ids(rows)[k] == id);
        }
        if rows.last().candidate_id == id && !d.contains(id) {
            assert(distinct_ids(rows)[d.len() as int] == id);
        }
        lemma_absent_sums_zero(rows.drop_last(), id);
    }
}

} // verus!
