use backend::ids::RoadID;
use backend::ingest::{barriers_on_roads, sort_clockwise};

#[test]
fn barriers_off_roads_are_dropped() {
    assert_eq!(barriers_on_roads(&vec![5, 9, 2, 7], &vec![7, 1, 5]), vec![5, 7]);
    assert_eq!(barriers_on_roads(&vec![5, 9], &vec![]), Vec::<i64>::new());
    assert_eq!(barriers_on_roads(&vec![], &vec![3]), Vec::<i64>::new());
}

#[test]
fn roads_sorted_clockwise_stably() {
    let roads = vec![RoadID(10), RoadID(11), RoadID(12), RoadID(13), RoadID(14)];
    let keys = vec![270_000_000, 0, 90_000_000, 0, -5];
    assert_eq!(
        sort_clockwise(&roads, &keys),
        vec![RoadID(14), RoadID(11), RoadID(13), RoadID(12), RoadID(10)]
    );
    assert!(sort_clockwise(&vec![], &vec![]).is_empty());
}
