use pageant_scoring::aggregate::{calculate_final_scores, CandidateScore, ScoreError};

fn row(id: u128, first: &str, middle: &str, last: &str, score: u64, max: u64, weight_ppm: u32) -> CandidateScore {
    CandidateScore {
        candidate_id: id,
        first_name: first.to_string(),
        middle_name: middle.to_string(),
        last_name: last.to_string(),
        total_score: score,
        total_max: max,
        weight_ppm,
    }
}

#[test]
fn two_weighted_categories_give_84_percent() {
    let rows = vec![
        row(1, "Maria", "Luz", "Santos", 80, 100, 600000),
        row(1, "Maria", "Luz", "Santos", 90, 100, 400000),
    ];
    let result = calculate_final_scores(&rows).unwrap();
    assert_eq!(result.len(), 1);
    assert_eq!(result[0].candidate_id, 1);
    assert_eq!(result[0].weighted_score, 8400);
    assert_eq!(result[0].weighted_max, 10000);
    assert_eq!(result[0].final_score, 84_000_000);
    assert_eq!(result[0].candidate_name, "Santos, Maria Luz");
}

#[test]
fn zero_weighted_max_is_an_integrity_failure() {
    let rows = vec![row(1, "A", "", "B", 10, 10, 600000), row(2, "C", "", "D", 0, 0, 500000)];
    assert_eq!(calculate_final_scores(&rows).unwrap_err(), ScoreError::DataIntegrityFailure(2));
}

#[test]
fn zero_weight_gives_zero_max() {
    let rows = vec![row(7, "A", "", "B", 50, 100, 0)];
    assert_eq!(calculate_final_scores(&rows).unwrap_err(), ScoreError::DataIntegrityFailure(7));
}

#[test]
fn sum_beyond_u64_is_an_integrity_failure() {
    let rows = vec![
        row(3, "A", "", "B", u64::MAX, u64::MAX, 1000000),
        row(4, "C", "", "D", 1, 1, 1000000),
    ];
    assert_eq!(calculate_final_scores(&rows).unwrap_err(), ScoreError::DataIntegrityFailure(3));
}

#[test]
fn one_entry_per_distinct_candidate_in_first_appearance_order() {
    let rows = vec![
        row(5, "E", "", "F", 10, 20, 500000),
        row(2, "C", "", "D", 5, 10, 500000),
        row(5, "E", "", "F", 20, 20, 500000),
        row(2, "C", "", "D", 10, 10, 500000),
        row(9, "G", "", "H", 1, 4, 1000000),
    ];
    let result = calculate_final_scores(&rows).unwrap();
    let ids: Vec<u128> = result.iter().map(|e| e.candidate_id).collect();
    assert_eq!(ids, vec![5, 2, 9]);
    // 10 * 0.5 + 20 * 0.5 = 15 of 20
    assert_eq!(result[0].weighted_score, 1500);
    assert_eq!(result[0].weighted_max, 2000);
    assert_eq!(result[0].final_score, 75_000_000);
    // 1 of 4
    assert_eq!(result[2].final_score, 25_000_000);
}

#[test]
fn empty_input_gives_empty_ranking() {
    assert!(calculate_final_scores(&Vec::new()).unwrap().is_empty());
}

#[test]
fn weights_not_summing_to_one_are_used_as_given() {
    let rows = vec![
        row(1, "A", "", "B", 50, 100, 900000),
        row(1, "A", "", "B", 100, 100, 900000),
    ];
    let result = calculate_final_scores(&rows).unwrap();
    assert_eq!(result[0].weighted_score, 13500);
    assert_eq!(result[0].weighted_max, 18000);
    assert_eq!(result[0].final_score, 75_000_000);
}

#[test]
fn weighted_parts_round_to_two_decimals_before_summing() {
    // 7 * 0.3333 = 2.3331 -> 2.33; 1 * 0.0001 -> 0.00
    let rows = vec![row(1, "A", "", "B", 7, 9, 333300), row(1, "A", "", "B", 1, 1, 100)];
    let result = calculate_final_scores(&rows).unwrap();
    assert_eq!(result[0].weighted_score, 233);
    // 9 * 0.3333 = 2.9997 -> 3.00
    assert_eq!(result[0].weighted_max, 300);
    // 2.33 / 3.00 = 77.666666..%
    assert_eq!(result[0].final_score, 77_666_667);
}

#[test]
fn display_name_is_trimmed_when_middle_name_is_empty() {
    let rows = vec![row(1, "Ana", "", "Cruz", 1, 1, 1000000)];
    let result = calculate_final_scores(&rows).unwrap();
    assert_eq!(result[0].candidate_name, "Cruz, Ana");
}

#[test]
fn name_comes_from_the_first_row() {
    let rows = vec![row(1, "Ana", "", "Cruz", 1, 1, 1000000), row(1, "Other", "", "Name", 1, 1, 1000000)];
    let result = calculate_final_scores(&rows).unwrap();
    assert_eq!(result[0].candidate_name, "Cruz, Ana");
}

#[test]
fn two_calls_on_the_same_rows_agree() {
    let rows = vec![
        row(5, "E", "", "F", 10, 20, 500000),
        row(2, "C", "X", "D", 5, 10, 250000),
        row(5, "E", "", "F", 20, 20, 500000),
    ];
    let a = calculate_final_scores(&rows).unwrap();
    let b = calculate_final_scores(&rows).unwrap();
    assert_eq!(a.len(), b.len());
    for (x, y) in a.iter().zip(b.iter()) {
        assert_eq!(x.candidate_id, y.candidate_id);
        assert_eq!(x.candidate_name, y.candidate_name);
        assert_eq!(x.weighted_score, y.weighted_score);
        assert_eq!(x.weighted_max, y.weighted_max);
        assert_eq!(x.final_score, y.final_score);
    }
}

#[test]
fn final_percentage_is_not_rounded_to_hundredths() {
    let rows = vec![
        row(1, "Ana", "B", "Cruz", 80, 100, 500000),
        row(1, "Ana", "B", "Cruz", 90, 100, 700000),
    ];
    let result = calculate_final_scores(&rows).unwrap();
    assert_eq!(result[0].weighted_score, 10300);
    assert_eq!(result[0].weighted_max, 12000);
    // 103.00 / 120.00 * 100 = 85.833333..%
    assert_eq!(result[0].final_score, 85_833_333);
}

#[test]
fn each_row_is_rounded_before_the_ratio() {
    let rows = vec![row(1, "A", "", "B", 10, 20, 333300), row(1, "A", "", "B", 10, 20, 333300)];
    let result = calculate_final_scores(&rows).unwrap();
    // 3.333 -> 3.33 and 6.666 -> 6.67, twice
    assert_eq!(result[0].weighted_score, 666);
    assert_eq!(result[0].weighted_max, 1334);
    // 6.66 / 13.34 * 100 = 49.925037..%
    assert_eq!(result[0].final_score, 49_925_037);
}

#[test]
fn weight_with_five_decimals_is_used_as_given() {
    let rows = vec![row(1, "A", "", "B", 100, 300, 333330)];
    let result = calculate_final_scores(&rows).unwrap();
    // 100 * 0.33333 = 33.333 -> 33.33; 300 * 0.33333 = 99.999 -> 100.00
    assert_eq!(result[0].weighted_score, 3333);
    assert_eq!(result[0].weighted_max, 10000);
}
