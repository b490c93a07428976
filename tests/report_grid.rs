use pageant_scoring::grid::{generate_score_spreadsheet, write_scores, Cell, ColumnWidth};
use pageant_scoring::model::{Candidate, Category, Judge, Score};

fn cand(id: u128, number: i32, gender: i32) -> Candidate {
    Candidate {
        id,
        first_name: format!("F{}", id),
        middle_name: String::new(),
        last_name: format!("L{}", id),
        candidate_number: number,
        gender,
    }
}

fn judge(id: u128, name: &str, is_active: bool, event_id: u128) -> Judge {
    Judge { id, name: name.to_string(), is_active, event_id }
}

fn cat(id: u128, name: &str, weight_ppm: u32) -> Category {
    Category { id, name: name.to_string(), weight_ppm, event_id: 1 }
}

fn score(candidate_id: u128, category_id: u128, judge_id: u128, value: i32) -> Score {
    Score { id: 0, score: value, max: i32::MAX, candidate_id, criteria_id: 0, category_id, judge_id }
}

fn text(s: &str) -> Cell {
    Cell::Text(s.to_string())
}

fn label(s: &str) -> Cell {
    Cell::Label(s.to_string())
}

/// Three male and two female candidates, listed with the males first.
fn five_candidates() -> Vec<Candidate> {
    vec![cand(1, 1, 1), cand(2, 2, 1), cand(3, 3, 1), cand(4, 4, 2), cand(5, 5, 2)]
}

fn two_judges() -> Vec<Judge> {
    vec![judge(10, "Judge A", true, 1), judge(11, "Judge B", true, 1)]
}

#[test]
fn block_of_three_male_and_two_female_spans_eight_rows_then_gap_of_five() {
    let cats = vec![cat(100, "Talent", 600000), cat(200, "Gown", 400000)];
    let grid =
        generate_score_spreadsheet(&cats, &two_judges(), &five_candidates(), &Vec::new()).unwrap();
    // Title at 0, last female row at 0 + 3 + 2 + 3 = 8, next title 5 rows later.
    assert_eq!(grid.rows[0], vec![Cell::Heading("Talent".to_string())]);
    assert_eq!(grid.rows[2], vec![text("MALE")]);
    assert_eq!(grid.rows[6], vec![text("FEMALE")]);
    assert_eq!(grid.rows[8][0], Cell::Number(5));
    for r in 9..13 {
        assert!(grid.rows[r].is_empty());
    }
    assert_eq!(grid.rows[13], vec![Cell::Heading("Gown".to_string())]);
    assert_eq!(grid.rows.len(), 26);
}

#[test]
fn column_titles_follow_judge_order_and_weight() {
    let cats = vec![cat(100, "Talent", 600000)];
    let grid =
        generate_score_spreadsheet(&cats, &two_judges(), &five_candidates(), &Vec::new()).unwrap();
    assert_eq!(
        grid.rows[1],
        vec![
            label("Candidate #"),
            label("Name"),
            label("Judge A"),
            label("Judge B"),
            label("Average Score"),
            label("60%"),
        ]
    );
}

#[test]
fn excluding_a_judge_removes_its_column() {
    let cats = vec![cat(100, "Talent", 125000)];
    let judges = vec![
        judge(10, "Judge A", true, 1),
        judge(11, "Judge B", false, 1),
        judge(12, "Judge C", true, 1),
        judge(13, "Elsewhere", true, 2),
    ];
    let grid = generate_score_spreadsheet(&cats, &judges, &five_candidates(), &Vec::new()).unwrap();
    assert_eq!(
        grid.rows[1],
        vec![
            label("Candidate #"),
            label("Name"),
            label("Judge A"),
            label("Judge C"),
            label("Average Score"),
            label("12.5%"),
        ]
    );
    assert_eq!(grid.rows[3].len(), 6);
}

#[test]
fn candidate_row_has_subtotals_average_and_weighted_average() {
    let cats = vec![cat(100, "Talent", 600000)];
    let scores = vec![
        score(1, 100, 10, 7),
        score(1, 100, 10, 8),
        score(1, 100, 11, 9),
        score(1, 200, 11, 10),
        score(2, 100, 10, 3),
    ];
    let grid = generate_score_spreadsheet(&cats, &two_judges(), &five_candidates(), &scores).unwrap();
    assert_eq!(
        grid.rows[3],
        vec![
            Cell::Number(1),
            text("L1, F1"),
            Cell::Number(15),
            Cell::Number(9),
            text("12.00"),
            text("7.20"),
        ]
    );
    assert_eq!(
        grid.rows[4],
        vec![Cell::Number(2), text("L2, F2"), Cell::Number(3), Cell::Number(0), text("1.50"), text("0.90")]
    );
}

#[test]
fn no_active_judge_leaves_derived_cells_blank() {
    let cats = vec![cat(100, "Talent", 600000)];
    let grid = generate_score_spreadsheet(&cats, &Vec::new(), &five_candidates(), &Vec::new()).unwrap();
    assert_eq!(grid.rows[1].len(), 4);
    assert_eq!(grid.rows[3], vec![Cell::Number(1), text("L1, F1"), Cell::Blank, Cell::Blank]);
}

#[test]
fn column_widths_are_fixed_per_block() {
    let cats = vec![cat(100, "Talent", 600000)];
    let grid =
        generate_score_spreadsheet(&cats, &two_judges(), &five_candidates(), &Vec::new()).unwrap();
    let w = |column: u128, width: u16| ColumnWidth { column, width };
    assert_eq!(grid.column_widths, vec![w(0, 15), w(1, 30), w(2, 30), w(3, 30), w(4, 20), w(5, 15)]);
}

#[test]
fn no_categories_gives_an_empty_grid() {
    let grid =
        generate_score_spreadsheet(&Vec::new(), &two_judges(), &five_candidates(), &Vec::new())
            .unwrap();
    assert!(grid.rows.is_empty());
}

#[test]
fn write_scores_appends_only_the_selected_gender() {
    let mut rows = Vec::new();
    let category = cat(100, "Talent", 600000);
    write_scores(&mut rows, &five_candidates(), false, &category, &two_judges(), &Vec::new())
        .unwrap();
    assert_eq!(rows.len(), 2);
    assert_eq!(rows[0][0], Cell::Number(4));
    assert_eq!(rows[1][1], text("L5, F5"));
}

#[test]
fn largest_scores_sum_exactly() {
    let cats = vec![cat(100, "Talent", 1000000)];
    let judges = vec![judge(10, "J", true, 1)];
    let scores = vec![score(1, 100, 10, i32::MAX), score(1, 100, 10, i32::MAX)];
    let grid = generate_score_spreadsheet(&cats, &judges, &five_candidates(), &scores).unwrap();
    assert_eq!(grid.rows[3][2], Cell::Number(2 * i32::MAX as i128));
    assert_eq!(grid.rows[3][3], text("4294967294.00"));
    assert_eq!(grid.rows[3][4], text("4294967294.00"));
}
