use backend::ids::RoadID;
use backend::spatial::{RoadCandidate, closest_point_on_road, first_min_index};

fn near(road: usize, score: u64, percent_along: u32) -> RoadCandidate {
    RoadCandidate { road: RoadID(road), score, percent_along }
}

#[test]
fn closest_candidate_wins() {
    let c = vec![near(4, 300, 10), near(9, 20, 55), near(2, 21, 99)];
    assert_eq!(closest_point_on_road(&c), Some((RoadID(9), 55)));
}

#[test]
fn closest_candidate_tie_takes_first() {
    let c = vec![near(4, 30, 10), near(9, 30, 55)];
    assert_eq!(closest_point_on_road(&c), Some((RoadID(4), 10)));
}

#[test]
fn no_candidates_no_road() {
    assert_eq!(closest_point_on_road(&vec![]), None);
}

#[test]
fn no_candidate_beats_the_choice() {
    let c = vec![near(1, 75, 0), near(2, 12, 0), near(3, 500, 0), near(4, 12, 0), near(5, 13, 0)];
    let (r, _) = closest_point_on_road(&c).unwrap();
    let chosen = c.iter().find(|x| x.road == r).unwrap();
    assert!(c.iter().all(|x| chosen.score <= x.score));
    assert_eq!(r, RoadID(2));
}

#[test]
fn first_min_index_of_scores() {
    assert_eq!(first_min_index(&vec![5]), 0);
    assert_eq!(first_min_index(&vec![5, 3, 9, 3]), 1);
    assert_eq!(first_min_index(&vec![u64::MAX, 0]), 1);
}
