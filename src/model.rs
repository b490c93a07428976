//! Entities read from the score store, as plain values.
use vstd::prelude::*;

verus! {

/// A weighted group of criteria within an event.
///
/// `weight_ppm` is the weight in millionths (0.6 is 600000).
#[derive(Debug, Clone)]
pub struct Category {
    pub id: u128,
    pub name: String,
    pub weight_ppm: u32,
    pub event_id: u128,
}

/// A judge of an event; only active judges get a column in the report.
#[derive(Debug, Clone)]
pub struct Judge {
    pub id: u128,
    pub name: String,
    pub is_active: bool,
    pub event_id: u128,
}

/// A competitor. `gender == 1` places the candidate in the male block of
/// the report, any other value in the female block.
#[derive(Debug, Clone)]
pub struct Candidate {
    pub id: u128,
    pub first_name: String,
    pub middle_name: String,
    pub last_name: String,
    pub candidate_number: i32,
    pub gender: i32,
}

/// One submitted score.
#[derive(Debug, Clone, Copy, PartialEq, Eq)]
pub struct Score {
    pub id: u128,
    pub score: i32,
    pub max: i32,
    pub candidate_id: u128,
    pub criteria_id: u128,
    pub category_id: u128,
    pub judge_id: u128,
}

} // verus!
