use pageant_scoring::export::{
    generate_csv, CategoryScores, CriteriaIdName, CriteriaScore, CriterionScores,
};
use pageant_scoring::model::Category;

const HEADER: &str = "Event,Category,Criteria,Candidate First Name,Candidate Middle Name,Candidate Last Name,Judge,Score,Max,Weight\n";

fn score(value: i32, judge: &str, first: &str) -> CriteriaScore {
    CriteriaScore {
        score: value,
        judge_name: judge.to_string(),
        candidate_first_name: first.to_string(),
        candidate_middle_name: "M".to_string(),
        candidate_last_name: "L".to_string(),
        weight_ppm: 600000,
        max: 10,
        event_name: "Gala".to_string(),
    }
}

fn category(name: &str, criteria: Vec<(&str, Vec<CriteriaScore>)>) -> CategoryScores {
    CategoryScores {
        category: Category { id: 1, name: name.to_string(), weight_ppm: 600000, event_id: 9 },
        criterias: criteria
            .into_iter()
            .enumerate()
            .map(|(i, (n, scores))| CriterionScores {
                criteria: CriteriaIdName { id: i as u128, name: n.to_string() },
                scores,
            })
            .collect(),
    }
}

#[test]
fn header_only_when_there_are_no_scores() {
    let bytes = generate_csv(&Vec::new()).unwrap();
    assert_eq!(String::from_utf8(bytes).unwrap(), HEADER);
    assert_eq!(HEADER.trim_end().split(',').count(), 10);
}

#[test]
fn one_record_per_score_in_nesting_order() {
    let cats = vec![
        category("Talent", vec![("Poise", vec![score(8, "J1", "Ana"), score(7, "J2", "Ana")]), ("Voice", vec![])]),
        category("Gown", vec![("Fit", vec![score(-1, "J1", "Bea")])]),
    ];
    let text = String::from_utf8(generate_csv(&cats).unwrap()).unwrap();
    let expected = format!(
        "{}{}{}{}",
        HEADER,
        "Gala,Talent,Poise,Ana,M,L,J1,8,10,0.6\n",
        "Gala,Talent,Poise,Ana,M,L,J2,7,10,0.6\n",
        "Gala,Gown,Fit,Bea,M,L,J1,-1,10,0.6\n"
    );
    assert_eq!(text, expected);
    assert_eq!(text.lines().count(), 1 + 3);
}

#[test]
fn fields_with_delimiters_are_quoted() {
    let cats = vec![category("Q&A, final", vec![("Wit", vec![score(5, "J \"K\"", "Ana")])])];
    let text = String::from_utf8(generate_csv(&cats).unwrap()).unwrap();
    assert_eq!(
        text,
        format!("{}Gala,\"Q&A, final\",Wit,Ana,M,L,\"J \"\"K\"\"\",5,10,0.6\n", HEADER)
    );
}

#[test]
fn weight_is_written_in_shortest_form() {
    let mut s = score(5, "J1", "Ana");
    s.weight_ppm = 333330;
    let cats = vec![category("Wit", vec![("Q", vec![s])])];
    let text = String::from_utf8(generate_csv(&cats).unwrap()).unwrap();
    assert_eq!(text, format!("{}Gala,Wit,Q,Ana,M,L,J1,5,10,0.33333\n", HEADER));
}
